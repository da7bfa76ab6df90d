//! Order of single-precision numbers on their bit patterns.
//!
//! The library never does arithmetic on such numbers: it stores them, routes by comparing them and
//! hands them back. A pattern whose magnitude exceeds that of infinity is not a number, and
//! compares false with everything; the two zeros compare equal.

use vstd::prelude::*;

verus! {

/// Bit pattern of positive infinity.
pub const INFINITY: u32 = 0x7f80_0000;

/// Bit pattern of negative infinity.
pub const NEG_INFINITY: u32 = 0xff80_0000;

/// Bit pattern of the quiet not-a-number that marks an absent value.
pub const NAN: u32 = 0x7fc0_0000;

/// Bit pattern of one.
pub const ONE: u32 = 0x3f80_0000;

/// The pattern without its sign.
pub open spec fn magnitude(a: u32) -> int {
    if a >= 0x8000_0000 {
        a - 0x8000_0000
    } else {
        a as int
    }
}

/// Whether the pattern is not a number.
pub open spec fn nan(a: u32) -> bool {
    magnitude(a) > 0x7f80_0000
}

/// Where a number stands on the number line, counted in representable steps from zero.
pub open spec fn line(a: u32) -> int {
    if a >= 0x8000_0000 {
        -magnitude(a)
    } else {
        magnitude(a)
    }
}

/// `a < b`.
pub open spec fn below(a: u32, b: u32) -> bool {
    !nan(a) && !nan(b) && line(a) < line(b)
}

/// `a <= b`.
pub open spec fn at_most(a: u32, b: u32) -> bool {
    !nan(a) && !nan(b) && line(a) <= line(b)
}

/// Whether the pattern is not a number.
pub fn is_nan(a: u32) -> (r: bool)
    ensures
        r == nan(a),
{
    if a >= 0x8000_0000 {
        a - 0x8000_0000 > 0x7f80_0000
    } else {
        a > 0x7f80_0000
    }
}

/// Whether the pattern is a number other than the two infinities.
pub fn is_finite(a: u32) -> (r: bool)
    ensures
        r == (magnitude(a) < 0x7f80_0000),
{
    if a >= 0x8000_0000 {
        a - 0x8000_0000 < 0x7f80_0000
    } else {
        a < 0x7f80_0000
    }
}

/// The value without its sign.
pub open spec fn unsigned(a: u32) -> u32 {
    magnitude(a) as u32
}

/// Computes [`unsigned`].
pub fn absolute(a: u32) -> (r: u32)
    ensures
        r == unsigned(a),
{
    if a >= 0x8000_0000 {
        a - 0x8000_0000
    } else {
        a
    }
}

/// The value with its sign turned.
pub open spec fn opposite(a: u32) -> u32 {
    if a >= 0x8000_0000 {
        (a - 0x8000_0000) as u32
    } else {
        (a + 0x8000_0000) as u32
    }
}

/// Computes [`opposite`].
pub fn negated(a: u32) -> (r: u32)
    ensures
        r == opposite(a),
{
    if a >= 0x8000_0000 {
        a - 0x8000_0000
    } else {
        a + 0x8000_0000
    }
}

/// Computes `a < b`.
pub fn lt(a: u32, b: u32) -> (r: bool)
    ensures
        r == below(a, b),
{
    if is_nan(a) || is_nan(b) {
        return false;
    }
    if a >= 0x8000_0000 {
        if b >= 0x8000_0000 {
            b < a
        } else {
            a > 0x8000_0000 || b > 0
        }
    } else if b >= 0x8000_0000 {
        false
    } else {
        a < b
    }
}

/// Computes `a <= b`.
pub fn le(a: u32, b: u32) -> (r: bool)
    ensures
        r == at_most(a, b),
{
    if is_nan(a) || is_nan(b) {
        return false;
    }
    !lt(b, a)
}

/// Whether no pattern of `s` is a not-a-number.
pub open spec fn all_numbers(s: Seq<u32>) -> bool {
    forall|i: int| 0 <= i < s.len() ==> !nan(#[trigger] s[i])
}

/// Whether the patterns of `s` are numbers in rising order.
pub open spec fn rising(s: Seq<u32>) -> bool {
    &&& all_numbers(s)
    &&& forall|i: int, j: int| 0 <= i <= j < s.len() ==> at_most(#[trigger] s[i], #[trigger] s[j])
}

/// How many patterns of `s` are at most `x`.
pub open spec fn count_at_most(s: Seq<u32>, x: u32) -> nat
    decreases s.len(),
{
    if s.len() == 0 {
        0
    } else {
        count_at_most(s.drop_last(), x) + if at_most(s.last(), x) {
            1nat
        } else {
            0nat
        }
    }
}

/// How many patterns of `s` are less than `x`.
pub open spec fn count_below(s: Seq<u32>, x: u32) -> nat
    decreases s.len(),
{
    if s.len() == 0 {
        0
    } else {
        count_below(s.drop_last(), x) + if below(s.last(), x) {
            1nat
        } else {
            0nat
        }
    }
}

/// In a rising list the split point between patterns at most `x` and the rest is their count.
pub proof fn lemma_count_at_most_split(s: Seq<u32>, x: u32, k: int)
    requires
        0 <= k <= s.len(),
        forall|i: int| 0 <= i < k ==> at_most(#[trigger] s[i], x),
        forall|i: int| k <= i < s.len() ==> !at_most(#[trigger] s[i], x),
    ensures
        count_at_most(s, x) == k,
    decreases s.len(),
{
    if s.len() > 0 {
        let t = s.drop_last();
        if k == s.len() {
            lemma_count_at_most_split(t, x, k - 1);
        } else {
            lemma_count_at_most_split(t, x, k);
        }
    }
}

/// In a rising list the split point between patterns less than `x` and the rest is their count.
pub proof fn lemma_count_below_split(s: Seq<u32>, x: u32, k: int)
    requires
        0 <= k <= s.len(),
        forall|i: int| 0 <= i < k ==> below(#[trigger] s[i], x),
        forall|i: int| k <= i < s.len() ==> !below(#[trigger] s[i], x),
    ensures
        count_below(s, x) == k,
    decreases s.len(),
{
    if s.len() > 0 {
        let t = s.drop_last();
        if k == s.len() {
            lemma_count_below_split(t, x, k - 1);
        } else {
            lemma_count_below_split(t, x, k);
        }
    }
}

} // verus!
