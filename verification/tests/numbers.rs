//! Numbers in files and on the number line.

use riskanvil::arith::{add_values, SingleOp};
use riskanvil::le::{
    get_u16, get_u16s, get_u32, get_u32s, get_u64, get_u64s, le_bits, le_bytes, le_i32, le_i64,
    le_string, le_u16, le_u32, le_u64, put_bytes, put_u16, put_u16s, put_u32, put_u32s, put_u64,
    ReadError,
};
use riskanvil::leaf_set::{decode_leaf, resolved};
use riskanvil::rank::{lower_bound, upper_bound, upper_bound_auto};
use riskanvil::scan::{
    chars_of, first_comma, first_line, is_blank, next_word, read_number, same_ignoring_case,
    strip_start, trim,
};
use riskanvil::single::{absolute, is_finite, is_nan, le, lt, negated, NAN};
use riskanvil::text::{same_bytes, same_text, write_decimal};

fn arith(op: SingleOp) -> u32 {
    let f = f32::from_bits;
    match op {
        SingleOp::Sum(a, b) => (f(a) + f(b)).to_bits(),
        SingleOp::Difference(a, b) => (f(a) - f(b)).to_bits(),
        SingleOp::Product(a, b) => (f(a) * f(b)).to_bits(),
        SingleOp::Fused(a, b, c) => f(a).mul_add(f(b), f(c)).to_bits(),
        SingleOp::ComparesFused => 0,
        SingleOp::Quotient(a, b) => (f(a) / f(b)).to_bits(),
        SingleOp::Exponential(a) => f(a).exp().to_bits(),
        SingleOp::Nearest(n) => (n as f32).to_bits(),
        SingleOp::Reaches(a, b, c) => (f(a) as f64 + f(b) as f64 >= f(c) as f64) as u32,
        SingleOp::FallsShort(a, b, c) => ((f(a) as f64 + f(b) as f64) < f(c) as f64) as u32,
    }
}

fn bits(values: &[f32]) -> Vec<u32> {
    values.iter().map(|v| v.to_bits()).collect()
}

#[test]
fn order_on_patterns_is_the_order_of_the_numbers() {
    let values = [
        0.0f32,
        -0.0,
        1.0,
        -1.0,
        0.5,
        -2.5,
        1e-40,
        -1e-40,
        f32::MAX,
        f32::MIN,
        f32::INFINITY,
        f32::NEG_INFINITY,
        f32::NAN,
    ];
    for a in values.iter() {
        for b in values.iter() {
            assert_eq!(lt(a.to_bits(), b.to_bits()), a < b, "{} < {}", a, b);
            assert_eq!(le(a.to_bits(), b.to_bits()), a <= b, "{} <= {}", a, b);
        }
        assert_eq!(is_nan(a.to_bits()), a.is_nan());
        assert_eq!(is_finite(a.to_bits()), a.is_finite());
        assert_eq!(absolute(a.to_bits()), a.abs().to_bits());
        assert_eq!(negated(a.to_bits()), (-a).to_bits());
    }
    assert_eq!(NAN, f32::NAN.to_bits());
}

#[test]
fn values_are_added_in_order() {
    let values = bits(&[1e8, 1.0, -1e8]);
    let r = add_values(&arith, 0f32.to_bits(), &values, 0);
    assert_eq!(f32::from_bits(r), 0.0 + 1e8 + 1.0 - 1e8);
    // The rest of a total is the same whether it is taken at once or continued.
    let first = add_values(&arith, 0f32.to_bits(), &values[..2].to_vec(), 0);
    assert_eq!(add_values(&arith, first, &values, 2), r);
}

#[test]
fn rank_counts_the_cuts_passed() {
    let cuts = bits(&[-1.0, 0.0, 2.0, 2.5]);
    for (x, want) in [(-3.0f32, 0), (-1.0, 1), (1.0, 2), (2.0, 3), (2.25, 3), (9.0, 4)] {
        assert_eq!(upper_bound_auto(&cuts, x.to_bits()), want);
        assert_eq!(upper_bound(&cuts, x.to_bits()) as usize, want);
    }
    assert_eq!(lower_bound(&cuts, 2f32.to_bits()), 2);
    assert_eq!(lower_bound(&cuts, (-1f32).to_bits()), 0);
    assert_eq!(lower_bound(&cuts, 9f32.to_bits()), 4);
}

#[test]
fn rank_of_a_missing_value_depends_on_how_the_list_is_searched() {
    let short: Vec<f32> = (0..16).map(|i| i as f32).collect();
    let long: Vec<f32> = (0..17).map(|i| i as f32).collect();
    assert_eq!(upper_bound_auto(&bits(&short), NAN), 16);
    assert_eq!(upper_bound_auto(&bits(&long), NAN), 0);
}

#[test]
fn ranks_rise_with_the_value_in_long_lists() {
    let cuts: Vec<f32> = (0..300).map(|i| i as f32).collect();
    let cuts = bits(&cuts);
    assert_eq!(upper_bound_auto(&cuts, 255.5f32.to_bits()), 256);
    assert_eq!(upper_bound(&cuts, 255.5f32.to_bits()), 0);
    assert_eq!(lower_bound(&cuts, 299f32.to_bits()), 255);
    let mut last = 0;
    for i in 0..600 {
        let r = upper_bound_auto(&cuts, (i as f32 / 2.0).to_bits());
        assert!(last <= r);
        last = r;
    }
}

#[test]
fn sole_leaf_of_a_set() {
    assert_eq!(decode_leaf(1, 0), Some(0));
    assert_eq!(decode_leaf(1 << 63, 0), Some(63));
    assert_eq!(decode_leaf(0, 1), Some(64));
    assert_eq!(decode_leaf(0, 1 << 63), Some(127));
    assert_eq!(decode_leaf(0, 0), None);
    assert_eq!(decode_leaf(3, 0), None);
    assert_eq!(decode_leaf(1, 1), None);
    assert!(resolved(8, 0));
    assert!(!resolved(8, 8));
    assert!(!resolved(0, 0));
}

#[test]
fn numbers_are_read_as_they_were_written() {
    let mut out = Vec::new();
    put_u16(&mut out, 0x1234);
    put_u32(&mut out, 0x89ab_cdef);
    put_u64(&mut out, 0x0102_0304_0506_0708);
    put_u16s(&mut out, &[1, 0xffff]);
    put_u32s(&mut out, &[7, 0xffff_fffe]);
    put_bytes(&mut out, b"tail");
    assert_eq!(&out[..6], &[0x34, 0x12, 0xef, 0xcd, 0xab, 0x89]);
    assert_eq!(get_u16(&out, 0), 0x1234);
    assert_eq!(get_u32(&out, 2), 0x89ab_cdef);
    assert_eq!(get_u64(&out, 6), 0x0102_0304_0506_0708);
    assert_eq!(get_u16s(&out, 14, 2), vec![1, 0xffff]);
    assert_eq!(get_u32s(&out, 18, 2), vec![7, 0xffff_fffe]);
    assert_eq!(get_u64s(&out, 6, 1), vec![0x0102_0304_0506_0708]);
    let mut off = 0;
    assert_eq!(le_u16(&out, &mut off), Ok(0x1234));
    assert_eq!(le_i32(&out, &mut off), Ok(0x89ab_cdef_u32 as i32));
    assert_eq!(le_i64(&out, &mut off), Ok(0x0102_0304_0506_0708));
    assert_eq!(off, 14);
    assert_eq!(le_bytes(&out, &mut off, 4), Ok(&[1u8, 0, 0xff, 0xff][..]));
    assert_eq!(le_u64(&out, &mut off), Ok(0xffff_fffe_0000_0007));
    assert_eq!(off, 26);
}

#[test]
fn reading_past_the_end_moves_nothing() {
    let b = [1u8];
    let mut off = 0;
    assert_eq!(le_u16(&b, &mut off), Err(ReadError::U16));
    assert_eq!(le_u32(&b, &mut off), Err(ReadError::U32));
    assert_eq!(le_i32(&b, &mut off), Err(ReadError::U32));
    assert_eq!(le_bits(&b, &mut off), Err(ReadError::Single));
    assert_eq!(le_u64(&b, &mut off), Err(ReadError::U64));
    assert_eq!(le_i64(&b, &mut off), Err(ReadError::I64));
    assert_eq!(le_bytes(&b, &mut off, 2), Err(ReadError::Bytes));
    assert_eq!(off, 0);
}

#[test]
fn strings_are_read_by_their_length() {
    let mut b = vec![3u8, 0, 0, 0];
    b.extend_from_slice("é!".as_bytes());
    let mut off = 0;
    assert_eq!(le_string(&b, &mut off), Ok("é!".to_string()));
    assert_eq!(off, 7);
    let mut off = 0;
    assert_eq!(le_string(&[2, 0, 0, 0, 0xff, 0xff], &mut off), Err(ReadError::Utf8));
    let mut off = 0;
    assert_eq!(le_string(&[2, 0, 0, 0, 65], &mut off), Err(ReadError::Bytes));
    let mut off = 0;
    assert_eq!(le_string(&[2, 0], &mut off), Err(ReadError::U32));
}

#[test]
fn decimals_are_written_without_leading_zeros() {
    assert_eq!(write_decimal(0), "0");
    assert_eq!(write_decimal(1050), "1050");
    assert_eq!(write_decimal(u64::MAX), "18446744073709551615");
    for n in [0u64, 9, 10, 4096, 1 << 40] {
        let s = chars_of(&write_decimal(n));
        assert_eq!(read_number(&s, 10), Some(n as usize));
    }
}

#[test]
fn numbers_in_text() {
    assert_eq!(read_number(&chars_of("ff"), 16), Some(255));
    assert_eq!(read_number(&chars_of("+12"), 10), Some(12));
    assert_eq!(read_number(&chars_of(""), 10), None);
    assert_eq!(read_number(&chars_of("+"), 10), None);
    assert_eq!(read_number(&chars_of("-1"), 10), None);
    assert_eq!(read_number(&chars_of("12x"), 10), None);
    assert_eq!(read_number(&chars_of("18446744073709551615"), 10), Some(usize::MAX));
    assert_eq!(read_number(&chars_of("18446744073709551616"), 10), None);
}

#[test]
fn pieces_of_text() {
    let s = chars_of("  a b\t");
    assert_eq!(trim(&s), &['a', ' ', 'b']);
    assert!(is_blank('\t'));
    assert!(!is_blank('x'));
    assert_eq!(first_line(&chars_of("ab\r\ncd")), Some(2));
    assert_eq!(first_line(&chars_of("ab")), None);
    assert_eq!(first_comma(&chars_of("a,b,c")), Some(1));
    assert_eq!(first_comma(&chars_of("abc")), None);
    assert_eq!(next_word(&chars_of("  ab cd"), 0), (2, 4));
    assert_eq!(next_word(&chars_of("  ab cd"), 4), (5, 7));
    assert!(same_ignoring_case(&chars_of("Expect"), &chars_of("eXPECT")));
    assert!(!same_ignoring_case(&chars_of("Expect"), &chars_of("expec")));
    assert_eq!(strip_start(&chars_of("key: v"), &chars_of("key: ")), Some(&['v'][..]));
    assert_eq!(strip_start(&chars_of("ke"), &chars_of("key")), None);
    assert!(same_text("abc", "abc"));
    assert!(!same_text("abc", "abd"));
    assert!(same_bytes(b"abc", b"abc"));
    assert!(!same_bytes(b"abc", b"ab"));
}
