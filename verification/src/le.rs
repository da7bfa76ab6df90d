//! Little-endian reads and writes on byte buffers.
//!
//! Reads take a buffer and an offset; a read that succeeds moves the offset past what it read, a
//! read that fails leaves it alone. Single-precision numbers travel as their bit patterns.

use vstd::prelude::*;
use vstd::utf8::{encode_utf8, valid_utf8};

verus! {

/// The unsigned number held by the two bytes of `b` at `i`.
#[verifier::opaque]
pub open spec fn u16_at(b: Seq<u8>, i: int) -> u16 {
    (b[i] + 0x100 * b[i + 1]) as u16
}

/// The unsigned number held by the four bytes of `b` at `i`.
#[verifier::opaque]
pub open spec fn u32_at(b: Seq<u8>, i: int) -> u32 {
    (b[i] + 0x100 * b[i + 1] + 0x1_0000 * b[i + 2] + 0x100_0000 * b[i + 3]) as u32
}

/// The unsigned number held by the eight bytes of `b` at `i`.
#[verifier::opaque]
pub open spec fn u64_at(b: Seq<u8>, i: int) -> u64 {
    (u32_at(b, i) + 0x1_0000_0000 * u32_at(b, i + 4)) as u64
}

/// The two bytes of `v`, lowest first.
#[verifier::opaque]
pub open spec fn u16_bytes(v: u16) -> Seq<u8> {
    seq![(v % 0x100) as u8, (v / 0x100) as u8]
}

/// The four bytes of `v`, lowest first.
#[verifier::opaque]
pub open spec fn u32_bytes(v: u32) -> Seq<u8> {
    seq![
        (v % 0x100) as u8,
        ((v / 0x100) % 0x100) as u8,
        ((v / 0x1_0000) % 0x100) as u8,
        (v / 0x100_0000) as u8,
    ]
}

/// The eight bytes of `v`, lowest first.
#[verifier::opaque]
pub open spec fn u64_bytes(v: u64) -> Seq<u8> {
    u32_bytes((v % 0x1_0000_0000) as u32) + u32_bytes((v / 0x1_0000_0000) as u32)
}

/// `n` consecutive two-byte numbers of `b`, the first at `i`.
pub open spec fn u16s_at(b: Seq<u8>, i: int, n: nat) -> Seq<u16> {
    Seq::new(n, |k: int| u16_at(b, i + 2 * k))
}

/// `n` consecutive four-byte numbers of `b`, the first at `i`.
pub open spec fn u32s_at(b: Seq<u8>, i: int, n: nat) -> Seq<u32> {
    Seq::new(n, |k: int| u32_at(b, i + 4 * k))
}

/// `n` consecutive eight-byte numbers of `b`, the first at `i`.
pub open spec fn u64s_at(b: Seq<u8>, i: int, n: nat) -> Seq<u64> {
    Seq::new(n, |k: int| u64_at(b, i + 8 * k))
}

/// The bytes of the numbers of `s`, in order.
pub open spec fn u16s_bytes(s: Seq<u16>) -> Seq<u8> {
    Seq::new(2 * s.len(), |k: int| u16_bytes(s[k / 2])[k % 2])
}

/// The bytes of the numbers of `s`, in order.
pub open spec fn u32s_bytes(s: Seq<u32>) -> Seq<u8> {
    Seq::new(4 * s.len(), |k: int| u32_bytes(s[k / 4])[k % 4])
}

/// Whether `k` bytes are left at `off`.
pub open spec fn fits(len: nat, off: int, k: int) -> bool {
    0 <= off && off + k <= len
}

/// Whether `part` stands in `b` at `i`.
#[verifier::opaque]
pub open spec fn holds_at(b: Seq<u8>, i: int, part: Seq<u8>) -> bool {
    &&& 0 <= i
    &&& i + part.len() <= b.len()
    &&& b.subrange(i, i + part.len()) == part
}

/// A written number takes two, four or eight bytes.
pub broadcast proof fn lemma_u16_bytes_len(v: u16)
    ensures
        #[trigger] u16_bytes(v).len() == 2,
{
    reveal(u16_bytes);
}

/// See [`lemma_u16_bytes_len`].
pub broadcast proof fn lemma_u32_bytes_len(v: u32)
    ensures
        #[trigger] u32_bytes(v).len() == 4,
{
    reveal(u32_bytes);
}

/// See [`lemma_u16_bytes_len`].
pub broadcast proof fn lemma_u64_bytes_len(v: u64)
    ensures
        #[trigger] u64_bytes(v).len() == 8,
{
    reveal(u32_bytes);
    reveal(u64_bytes);
}

/// Lengths of written numbers.
pub broadcast group group_number_lens {
    lemma_u16_bytes_len,
    lemma_u32_bytes_len,
    lemma_u64_bytes_len,
}

/// Why a read stopped.
#[derive(Clone, Copy, Debug, PartialEq, Eq, Structural)]
pub enum ReadError {
    /// Fewer than two bytes were left for a `u16`.
    U16,
    /// Fewer than four bytes were left for a `u32` or an `i32`.
    U32,
    /// Fewer than eight bytes were left for a `u64`.
    U64,
    /// Fewer than eight bytes were left for an `i64`.
    I64,
    /// Fewer than four bytes were left for a single-precision number.
    Single,
    /// Fewer bytes were left than the run asked for.
    Bytes,
    /// The bytes of a string are not UTF-8.
    Utf8,
}

/// Reads a `u16` and moves past it.
pub fn le_u16(buf: &[u8], off: &mut usize) -> (r: Result<u16, ReadError>)
    ensures
        r is Ok <==> fits(buf@.len(), *old(off) as int, 2),
        r matches Ok(v) ==> v == u16_at(buf@, *old(off) as int) && *final(off) == *old(off) + 2,
        r matches Err(e) ==> e == ReadError::U16 && *final(off) == *old(off),
{
    let n: usize = buf.len();
    if n < 2 || *off > n - 2 {
        return Err(ReadError::U16);
    }
    let i: usize = *off;
    let v: u16 = get_u16(buf, i);
    *off = i + 2;
    Ok(v)
}

/// Reads a `u32` and moves past it.
pub fn le_u32(buf: &[u8], off: &mut usize) -> (r: Result<u32, ReadError>)
    ensures
        r is Ok <==> fits(buf@.len(), *old(off) as int, 4),
        r matches Ok(v) ==> v == u32_at(buf@, *old(off) as int) && *final(off) == *old(off) + 4,
        r matches Err(e) ==> e == ReadError::U32 && *final(off) == *old(off),
{
    let n: usize = buf.len();
    if n < 4 || *off > n - 4 {
        return Err(ReadError::U32);
    }
    let i: usize = *off;
    let v: u32 = get_u32(buf, i);
    *off = i + 4;
    Ok(v)
}

/// Reads an `i32` and moves past it.
pub fn le_i32(buf: &[u8], off: &mut usize) -> (r: Result<i32, ReadError>)
    ensures
        r is Ok <==> fits(buf@.len(), *old(off) as int, 4),
        r matches Ok(v) ==> v == u32_at(buf@, *old(off) as int) as i32 && *final(off) == *old(off)
            + 4,
        r matches Err(e) ==> e == ReadError::U32 && *final(off) == *old(off),
{
    match le_u32(buf, off) {
        Ok(v) => Ok(v as i32),
        Err(e) => Err(e),
    }
}

/// Reads the bit pattern of a single-precision number and moves past it.
pub fn le_bits(buf: &[u8], off: &mut usize) -> (r: Result<u32, ReadError>)
    ensures
        r is Ok <==> fits(buf@.len(), *old(off) as int, 4),
        r matches Ok(v) ==> v == u32_at(buf@, *old(off) as int) && *final(off) == *old(off) + 4,
        r matches Err(e) ==> e == ReadError::Single && *final(off) == *old(off),
{
    match le_u32(buf, off) {
        Ok(v) => Ok(v),
        Err(_) => Err(ReadError::Single),
    }
}

/// Reads a `u64` and moves past it.
pub fn le_u64(buf: &[u8], off: &mut usize) -> (r: Result<u64, ReadError>)
    ensures
        r is Ok <==> fits(buf@.len(), *old(off) as int, 8),
        r matches Ok(v) ==> v == u64_at(buf@, *old(off) as int) && *final(off) == *old(off) + 8,
        r matches Err(e) ==> e == ReadError::U64 && *final(off) == *old(off),
{
    let n: usize = buf.len();
    if n < 8 || *off > n - 8 {
        return Err(ReadError::U64);
    }
    let i: usize = *off;
    let v: u64 = get_u64(buf, i);
    *off = i + 8;
    Ok(v)
}

/// Reads an `i64` and moves past it.
pub fn le_i64(buf: &[u8], off: &mut usize) -> (r: Result<i64, ReadError>)
    ensures
        r is Ok <==> fits(buf@.len(), *old(off) as int, 8),
        r matches Ok(v) ==> v == u64_at(buf@, *old(off) as int) as i64 && *final(off) == *old(off)
            + 8,
        r matches Err(e) ==> e == ReadError::I64 && *final(off) == *old(off),
{
    match le_u64(buf, off) {
        Ok(v) => Ok(v as i64),
        Err(_) => Err(ReadError::I64),
    }
}

/// Hands out the next `len` bytes and moves past them.
pub fn le_bytes<'a>(buf: &'a [u8], off: &mut usize, len: usize) -> (r: Result<&'a [u8], ReadError>)
    ensures
        r is Ok <==> fits(buf@.len(), *old(off) as int, len as int),
        r matches Ok(v) ==> v@ == buf@.subrange(*old(off) as int, *old(off) + len) && *final(off)
            == *old(off) + len,
        r matches Err(e) ==> e == ReadError::Bytes && *final(off) == *old(off),
{
    let n: usize = buf.len();
    if n < len || *off > n - len {
        return Err(ReadError::Bytes);
    }
    let i: usize = *off;
    *off = i + len;
    Ok(vstd::slice::slice_subrange(buf, i, i + len))
}

/// Wraps [`String::from_utf8`]: a run of bytes becomes a string exactly when it is valid UTF-8,
/// and the string then encodes to those bytes.
#[verifier::external_body]
pub(crate) fn utf8_to_string(raw: Vec<u8>) -> (r: Result<String, ReadError>)
    ensures
        r is Ok <==> valid_utf8(raw@),
        r matches Ok(s) ==> encode_utf8(s@) == raw@,
        r matches Err(e) ==> e == ReadError::Utf8,
{
    String::from_utf8(raw).map_err(|_| ReadError::Utf8)
}

/// Reads a string that is preceded by its length in bytes, and moves past it.
///
/// A string that breaks off, or is not UTF-8, leaves the offset where the failed part began.
pub fn le_string(buf: &[u8], off: &mut usize) -> (r: Result<String, ReadError>)
    ensures
        ({
            let at = *old(off) as int;
            let len = u32_at(buf@, at) as int;
            let body = buf@.subrange(at + 4, at + 4 + len);
            if !fits(buf@.len(), at, 4) {
                r == Err::<String, ReadError>(ReadError::U32) && *final(off) == at
            } else if !fits(buf@.len(), at + 4, len) {
                r == Err::<String, ReadError>(ReadError::Bytes) && *final(off) == at + 4
            } else if !valid_utf8(body) {
                r == Err::<String, ReadError>(ReadError::Utf8) && *final(off) == at + 4 + len
            } else {
                r matches Ok(s) && encode_utf8(s@) == body && *final(off) == at + 4 + len
            }
        }),
{
    let len: u32 = match le_u32(buf, off) {
        Ok(v) => v,
        Err(e) => {
            return Err(e);
        },
    };
    match le_bytes(buf, off, len as usize) {
        Ok(raw) => utf8_to_string(vstd::slice::slice_to_vec(raw)),
        Err(e) => Err(e),
    }
}

/// Whether `buf` begins with `a`.
pub(crate) fn begins_with(buf: &[u8], a: &[u8]) -> (r: bool)
    ensures
        r == (a@.len() <= buf@.len() && buf@.subrange(0, a@.len() as int) == a@),
{
    if buf.len() < a.len() {
        return false;
    }
    let mut i: usize = 0;
    while i < a.len()
        invariant
            i <= a@.len() <= buf@.len(),
            forall|k: int| 0 <= k < i ==> buf@[k] == a@[k],
        decreases a@.len() - i,
    {
        if buf[i] != a[i] {
            assert(buf@.subrange(0, a@.len() as int)[i as int] != a@[i as int]);
            return false;
        }
        i += 1;
    }
    assert(buf@.subrange(0, a@.len() as int) =~= a@);
    true
}

/// The two-byte number at `i`.
pub fn get_u16(buf: &[u8], i: usize) -> (v: u16)
    requires
        i + 2 <= buf@.len(),
    ensures
        v == u16_at(buf@, i as int),
{
    proof {
        reveal(u16_at);
    }
    buf[i] as u16 + 0x100 * (buf[i + 1] as u16)
}

/// The four-byte number at `i`.
pub fn get_u32(buf: &[u8], i: usize) -> (v: u32)
    requires
        i + 4 <= buf@.len(),
    ensures
        v == u32_at(buf@, i as int),
{
    proof {
        reveal(u32_at);
    }
    buf[i] as u32 + 0x100 * (buf[i + 1] as u32) + 0x1_0000 * (buf[i + 2] as u32) + 0x100_0000 * (
    buf[i + 3] as u32)
}

/// The eight-byte number at `i`.
pub fn get_u64(buf: &[u8], i: usize) -> (v: u64)
    requires
        i + 8 <= buf@.len(),
    ensures
        v == u64_at(buf@, i as int),
{
    let n: usize = buf.len();
    assert(i + 8 <= n);
    proof {
        reveal(u64_at);
    }
    get_u32(buf, i) as u64 + 0x1_0000_0000 * (get_u32(buf, i + 4) as u64)
}

/// `n` two-byte numbers, the first at `i`.
pub fn get_u16s(buf: &[u8], i: usize, n: usize) -> (v: Vec<u16>)
    requires
        i + 2 * n <= buf@.len(),
    ensures
        v@ == u16s_at(buf@, i as int, n as nat),
{
    let len: usize = buf.len();
    let mut out: Vec<u16> = Vec::new();
    let mut k: usize = 0;
    while k < n
        invariant
            k <= n,
            i + 2 * n <= len,
            len == buf@.len(),
            out@ == u16s_at(buf@, i as int, k as nat),
        decreases n - k,
    {
        out.push(get_u16(buf, i + 2 * k));
        k += 1;
    }
    out
}

/// `n` four-byte numbers, the first at `i`.
pub fn get_u32s(buf: &[u8], i: usize, n: usize) -> (v: Vec<u32>)
    requires
        i + 4 * n <= buf@.len(),
    ensures
        v@ == u32s_at(buf@, i as int, n as nat),
{
    let len: usize = buf.len();
    let mut out: Vec<u32> = Vec::new();
    let mut k: usize = 0;
    while k < n
        invariant
            k <= n,
            i + 4 * n <= len,
            len == buf@.len(),
            out@ == u32s_at(buf@, i as int, k as nat),
        decreases n - k,
    {
        out.push(get_u32(buf, i + 4 * k));
        k += 1;
    }
    out
}

/// `n` eight-byte numbers, the first at `i`.
pub fn get_u64s(buf: &[u8], i: usize, n: usize) -> (v: Vec<u64>)
    requires
        i + 8 * n <= buf@.len(),
    ensures
        v@ == u64s_at(buf@, i as int, n as nat),
{
    let len: usize = buf.len();
    let mut out: Vec<u64> = Vec::new();
    let mut k: usize = 0;
    while k < n
        invariant
            k <= n,
            i + 8 * n <= len,
            len == buf@.len(),
            out@ == u64s_at(buf@, i as int, k as nat),
        decreases n - k,
    {
        out.push(get_u64(buf, i + 8 * k));
        k += 1;
    }
    out
}

/// Appends a run of bytes.
pub fn put_bytes(out: &mut Vec<u8>, part: &[u8])
    ensures
        final(out)@ == old(out)@ + part@,
{
    let ghost before = out@;
    let mut k: usize = 0;
    while k < part.len()
        invariant
            k <= part@.len(),
            out@ == before + part@.subrange(0, k as int),
        decreases part@.len() - k,
    {
        out.push(part[k]);
        k += 1;
        assert(out@ == before + part@.subrange(0, k as int));
    }
    assert(part@.subrange(0, k as int) == part@);
}

/// Appends a `u16`.
pub fn put_u16(out: &mut Vec<u8>, v: u16)
    ensures
        final(out)@ == old(out)@ + u16_bytes(v),
{
    proof {
        reveal(u16_bytes);
    }
    out.push((v % 0x100) as u8);
    out.push((v / 0x100) as u8);
}

/// Appends a `u32`.
pub fn put_u32(out: &mut Vec<u8>, v: u32)
    ensures
        final(out)@ == old(out)@ + u32_bytes(v),
{
    proof {
        reveal(u32_bytes);
    }
    out.push((v % 0x100) as u8);
    out.push(((v / 0x100) % 0x100) as u8);
    out.push(((v / 0x1_0000) % 0x100) as u8);
    out.push((v / 0x100_0000) as u8);
}

/// Appends a `u64`.
pub fn put_u64(out: &mut Vec<u8>, v: u64)
    ensures
        final(out)@ == old(out)@ + u64_bytes(v),
{
    proof {
        reveal(u64_bytes);
    }
    let ghost before = out@;
    put_u32(out, (v % 0x1_0000_0000) as u32);
    put_u32(out, (v / 0x1_0000_0000) as u32);
    assert(out@ == before + u64_bytes(v));
}

/// Appends the numbers of `s`.
pub fn put_u16s(out: &mut Vec<u8>, s: &[u16])
    ensures
        final(out)@ == old(out)@ + u16s_bytes(s@),
{
    let ghost before = out@;
    let mut k: usize = 0;
    while k < s.len()
        invariant
            k <= s@.len(),
            out@ == before + u16s_bytes(s@.take(k as int)),
        decreases s@.len() - k,
    {
        put_u16(out, s[k]);
        proof {
            lemma_u16s_bytes_push(s@.take(k as int), s@[k as int]);
            assert(s@.take(k as int).push(s@[k as int]) == s@.take(k + 1));
        }
        k += 1;
    }
    assert(s@.take(k as int) == s@);
}

/// Appends the numbers of `s`.
pub fn put_u32s(out: &mut Vec<u8>, s: &[u32])
    ensures
        final(out)@ == old(out)@ + u32s_bytes(s@),
{
    let ghost before = out@;
    let mut k: usize = 0;
    while k < s.len()
        invariant
            k <= s@.len(),
            out@ == before + u32s_bytes(s@.take(k as int)),
        decreases s@.len() - k,
    {
        put_u32(out, s[k]);
        proof {
            lemma_u32s_bytes_push(s@.take(k as int), s@[k as int]);
            assert(s@.take(k as int).push(s@[k as int]) == s@.take(k + 1));
        }
        k += 1;
    }
    assert(s@.take(k as int) == s@);
}

/// One more number is one more pair of bytes.
pub proof fn lemma_u16s_bytes_push(s: Seq<u16>, v: u16)
    ensures
        u16s_bytes(s.push(v)) == u16s_bytes(s) + u16_bytes(v),
{
    reveal(u16_bytes);
    assert forall|k: int| 0 <= k < 2 * (s.len() + 1) implies u16s_bytes(s.push(v))[k] == (
    u16s_bytes(s) + u16_bytes(v))[k] by {}
    assert(u16s_bytes(s.push(v)) =~= u16s_bytes(s) + u16_bytes(v));
}

/// One more number is four more bytes.
pub proof fn lemma_u32s_bytes_push(s: Seq<u32>, v: u32)
    ensures
        u32s_bytes(s.push(v)) == u32s_bytes(s) + u32_bytes(v),
{
    reveal(u32_bytes);
    assert forall|k: int| 0 <= k < 4 * (s.len() + 1) implies u32s_bytes(s.push(v))[k] == (
    u32s_bytes(s) + u32_bytes(v))[k] by {}
    assert(u32s_bytes(s.push(v)) =~= u32s_bytes(s) + u32_bytes(v));
}

/// Reading a `u16` where one was written gives it back.
pub proof fn lemma_u16_back(b: Seq<u8>, i: int, v: u16)
    requires
        holds_at(b, i, u16_bytes(v)),
    ensures
        u16_at(b, i) == v,
{
    reveal(u16_at);
    reveal(u16_bytes);
    reveal(holds_at);
    let p = b.subrange(i, i + 2);
    assert(p[0] == b[i] && p[1] == b[i + 1]);
}

/// Reading a `u32` where one was written gives it back.
pub proof fn lemma_u32_back(b: Seq<u8>, i: int, v: u32)
    requires
        holds_at(b, i, u32_bytes(v)),
    ensures
        u32_at(b, i) == v,
{
    reveal(u32_at);
    reveal(u32_bytes);
    reveal(holds_at);
    let p = b.subrange(i, i + 4);
    assert(p[0] == b[i] && p[1] == b[i + 1] && p[2] == b[i + 2] && p[3] == b[i + 3]);
    assert(v == v % 0x100 + 0x100 * ((v / 0x100) % 0x100) + 0x1_0000 * ((v / 0x1_0000) % 0x100)
        + 0x100_0000 * (v / 0x100_0000));
}

/// Reading a `u64` where one was written gives it back.
pub proof fn lemma_u64_back(b: Seq<u8>, i: int, v: u64)
    requires
        holds_at(b, i, u64_bytes(v)),
    ensures
        u64_at(b, i) == v,
{
    broadcast use group_number_lens;
    reveal(u64_at);
    reveal(u64_bytes);
    reveal(holds_at);
    let p = b.subrange(i, i + 8);
    let lo = (v % 0x1_0000_0000) as u32;
    let hi = (v / 0x1_0000_0000) as u32;
    assert(b.subrange(i, i + 4) == u32_bytes(lo)) by {
        assert(p.subrange(0, 4) == b.subrange(i, i + 4));
        assert(u64_bytes(v).subrange(0, 4) == u32_bytes(lo));
    }
    assert(b.subrange(i + 4, i + 8) == u32_bytes(hi)) by {
        assert(p.subrange(4, 8) == b.subrange(i + 4, i + 8));
        assert(u64_bytes(v).subrange(4, 8) == u32_bytes(hi));
    }
    lemma_u32_back(b, i, lo);
    lemma_u32_back(b, i + 4, hi);
}

/// Reading the numbers of `s` where they were written gives them back.
pub proof fn lemma_u16s_back(b: Seq<u8>, i: int, s: Seq<u16>)
    requires
        holds_at(b, i, u16s_bytes(s)),
    ensures
        u16s_at(b, i, s.len()) == s,
{
    broadcast use group_number_lens;
    reveal(holds_at);
    let p = b.subrange(i, i + 2 * s.len());
    assert forall|k: int| 0 <= k < s.len() implies u16_at(b, i + 2 * k) == s[k] by {
        let q = b.subrange(i + 2 * k, i + 2 * k + 2);
        assert forall|j: int| 0 <= j < 2 implies q[j] == u16_bytes(s[k])[j] by {
            assert(q[j] == p[2 * k + j]);
            assert((2 * k + j) / 2 == k && (2 * k + j) % 2 == j);
        }
        assert(q =~= u16_bytes(s[k]));
        lemma_u16_back(b, i + 2 * k, s[k]);
    }
    assert(u16s_at(b, i, s.len()) =~= s);
}

/// Reading the numbers of `s` where they were written gives them back.
pub proof fn lemma_u32s_back(b: Seq<u8>, i: int, s: Seq<u32>)
    requires
        holds_at(b, i, u32s_bytes(s)),
    ensures
        u32s_at(b, i, s.len()) == s,
{
    broadcast use group_number_lens;
    reveal(holds_at);
    let p = b.subrange(i, i + 4 * s.len());
    assert forall|k: int| 0 <= k < s.len() implies u32_at(b, i + 4 * k) == s[k] by {
        let q = b.subrange(i + 4 * k, i + 4 * k + 4);
        assert forall|j: int| 0 <= j < 4 implies q[j] == u32_bytes(s[k])[j] by {
            assert(q[j] == p[4 * k + j]);
            assert((4 * k + j) / 4 == k && (4 * k + j) % 4 == j);
        }
        assert(q =~= u32_bytes(s[k]));
        lemma_u32_back(b, i + 4 * k, s[k]);
    }
    assert(u32s_at(b, i, s.len()) =~= s);
}

/// A part of a part that stands somewhere stands there too.
pub proof fn lemma_holds_part(b: Seq<u8>, i: int, x: Seq<u8>, y: Seq<u8>)
    requires
        holds_at(b, i, x + y),
    ensures
        holds_at(b, i, x),
        holds_at(b, i + x.len(), y),
{
    reveal(holds_at);
    let whole = b.subrange(i, i + x.len() + y.len());
    assert(whole == x + y);
    assert(b.subrange(i, i + x.len()) =~= whole.subrange(0, x.len() as int));
    assert((x + y).subrange(0, x.len() as int) =~= x);
    assert(b.subrange(i + x.len(), i + x.len() + y.len()) =~= whole.subrange(
        x.len() as int,
        (x.len() + y.len()) as int,
    ));
    assert((x + y).subrange(x.len() as int, (x.len() + y.len()) as int) =~= y);
}

/// A buffer stands at its own start.
pub proof fn lemma_holds_whole(b: Seq<u8>)
    ensures
        holds_at(b, 0, b),
{
    reveal(holds_at);
    assert(b.subrange(0, b.len() as int) =~= b);
}

/// What stands somewhere is that part of the buffer.
pub proof fn lemma_holds_is_subrange(b: Seq<u8>, i: int, part: Seq<u8>)
    requires
        holds_at(b, i, part),
    ensures
        0 <= i,
        i + part.len() <= b.len(),
        b.subrange(i, i + part.len()) == part,
{
    reveal(holds_at);
}

proof fn lemma_u32_spelled(v: u32)
    ensures
        u32_bytes(v).len() == 4,
        v == u32_bytes(v)[0] + 0x100 * u32_bytes(v)[1] + 0x1_0000 * u32_bytes(v)[2] + 0x100_0000
            * u32_bytes(v)[3],
{
    reveal(u32_bytes);
    assert(v == v % 0x100 + 0x100 * ((v / 0x100) % 0x100) + 0x1_0000 * ((v / 0x1_0000) % 0x100)
        + 0x100_0000 * (v / 0x100_0000));
}

/// Four bytes are read with the least first.
pub proof fn law_four_bytes_are_read_least_first(b: Seq<u8>, i: int)
    requires
        0 <= i,
        i + 4 <= b.len(),
    ensures
        u32_at(b, i) == b[i] + 0x100 * b[i + 1] + 0x1_0000 * b[i + 2] + 0x100_0000 * b[i + 3],
{
    reveal(u32_at);
}

/// Two bytes are read with the least first.
pub proof fn law_two_bytes_are_read_least_first(b: Seq<u8>, i: int)
    requires
        0 <= i,
        i + 2 <= b.len(),
    ensures
        u16_at(b, i) == b[i] + 0x100 * b[i + 1],
{
    reveal(u16_at);
}

/// Eight bytes are read as two numbers of four, the lower first.
pub proof fn law_eight_bytes_are_read_least_first(b: Seq<u8>, i: int)
    requires
        0 <= i,
        i + 8 <= b.len(),
    ensures
        u64_at(b, i) == u32_at(b, i) + 0x1_0000_0000 * u32_at(b, i + 4),
{
    reveal(u64_at);
}

/// Numbers are written with their least byte first.
pub proof fn law_numbers_are_written_least_byte_first(v: u32, w: u64, x: u16)
    ensures
        ({
            let p = u32_bytes(v);
            &&& p.len() == 4
            &&& v == p[0] + 0x100 * p[1] + 0x1_0000 * p[2] + 0x100_0000 * p[3]
        }),
        ({
            let q = u64_bytes(w);
            &&& q.len() == 8
            &&& w == q[0] + 0x100 * q[1] + 0x1_0000 * q[2] + 0x100_0000 * q[3] + 0x1_0000_0000 * (
            q[4] + 0x100 * q[5] + 0x1_0000 * q[6] + 0x100_0000 * q[7])
        }),
        ({
            let r = u16_bytes(x);
            &&& r.len() == 2
            &&& x == r[0] + 0x100 * r[1]
        }),
{
    let lo = (w % 0x1_0000_0000) as u32;
    let hi = (w / 0x1_0000_0000) as u32;
    lemma_u32_spelled(v);
    lemma_u32_spelled(lo);
    lemma_u32_spelled(hi);
    assert(w == lo + 0x1_0000_0000 * hi);
    reveal(u64_bytes);
    reveal(u16_bytes);
}

} // verus!
