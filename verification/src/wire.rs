//! Rows and verdicts on the wire.

use crate::le::{
    get_u16, get_u32, get_u64, put_bytes, put_u16, put_u32, put_u64, u16_at, u16_bytes, u32_at,
    u32_bytes, u64_at, u64_bytes, group_number_lens, holds_at, lemma_u16_back,
    lemma_u32_back, lemma_u64_back,
};
use crate::text::{decimal, write_decimal};
use vstd::prelude::*;
use vstd::slice::slice_subrange;

verus! {

/// What goes with a row so that it can be routed.
#[derive(Clone, Copy, Debug, PartialEq, Eq, Structural)]
pub struct QuickRouteMeta {
    pub row_idx: u32,
    pub transaction_id: u64,
    pub fold_id: i32,
    pub seg_prod_amtbin: u32,
    pub l2_tau_used: Option<u32>,
}

/// A row as it was sent.
#[derive(Clone, Copy, Debug)]
pub struct DenseRequest<'a> {
    pub payload: &'a [u8],
    pub route_meta: Option<QuickRouteMeta>,
}

/// Why a body is no row.
#[derive(Clone, Copy, Debug, PartialEq, Eq, Structural)]
pub enum DenseError {
    DimTooLarge,
    TooShort { len: usize },
    NoMagic,
    Flags { flags: u16 },
    Dim { got: usize, expected: usize },
    Size { got: usize, expected: usize },
    Version { version: u16 },
}

/// The first four bytes of a row with a header.
pub open spec fn row_magic() -> Seq<u8> {
    seq![82u8, 86u8, 69u8, 67u8]
}

/// How long the header of a version is.
pub open spec fn header_len(version: u16) -> Option<int> {
    if version == 1 {
        Some(16)
    } else if version == 2 {
        Some(32)
    } else if version == 3 {
        Some(40)
    } else {
        None
    }
}

/// What the header of a version says of the row.
pub open spec fn header_meta(b: Seq<u8>, version: u16) -> Option<QuickRouteMeta> {
    if version == 1 {
        None
    } else {
        Some(
            QuickRouteMeta {
                row_idx: u32_at(b, 28),
                transaction_id: u64_at(b, 20),
                fold_id: u32_at(b, 12) as i32,
                seg_prod_amtbin: u32_at(b, 16),
                l2_tau_used: if version == 3 {
                    Some(u32_at(b, 32))
                } else {
                    None
                },
            },
        )
    }
}

/// What a body holds: where the row starts, and what goes with it.
///
/// A body of exactly the length of a row is a row; any other must have a header.
pub open spec fn dense_payload(b: Seq<u8>, dim: int) -> Result<
    (int, Option<QuickRouteMeta>),
    DenseError,
> {
    let version = u16_at(b, 4);
    if dim * 4 > usize::MAX {
        Err(DenseError::DimTooLarge)
    } else if b.len() == dim * 4 {
        Ok((0, None))
    } else if b.len() < 16 {
        Err(DenseError::TooShort { len: b.len() as usize })
    } else if b.take(4) != row_magic() {
        Err(DenseError::NoMagic)
    } else if u16_at(b, 6) != 0 {
        Err(DenseError::Flags { flags: u16_at(b, 6) })
    } else if u32_at(b, 8) != dim {
        Err(DenseError::Dim { got: u32_at(b, 8) as usize, expected: dim as usize })
    } else {
        match header_len(version) {
            None => Err(DenseError::Version { version }),
            Some(n) => if n + dim * 4 > usize::MAX {
                Err(DenseError::DimTooLarge)
            } else if b.len() != n + dim * 4 {
                Err(DenseError::Size { got: b.len() as usize, expected: (n + dim * 4) as usize })
            } else {
                Ok((n, header_meta(b, version)))
            },
        }
    }
}

/// Takes a body for a row.
pub fn parse_dense_payload_le<'a>(body: &'a [u8], expected_dim: usize) -> (r: Result<
    DenseRequest<'a>,
    DenseError,
>)
    ensures
        match dense_payload(body@, expected_dim as int) {
            Err(e) => r == Err::<DenseRequest<'a>, DenseError>(e),
            Ok((at, meta)) => r matches Ok(x) && x.payload@ == body@.skip(at) && x.route_meta
                == meta,
        },
{
    let expected_len: usize = match expected_dim.checked_mul(4) {
        None => {
            return Err(DenseError::DimTooLarge);
        },
        Some(n) => n,
    };
    let len: usize = body.len();
    if len == expected_len {
        assert(body@.skip(0) =~= body@);
        return Ok(DenseRequest { payload: body, route_meta: None });
    }
    if len < 16 {
        return Err(DenseError::TooShort { len });
    }
    let magic: bool = body[0] == 82 && body[1] == 86 && body[2] == 69 && body[3] == 67;
    proof {
        let t = body@.take(4);
        if magic {
            assert(t =~= row_magic());
        } else if t == row_magic() {
            assert(t[0] == 82 && t[1] == 86 && t[2] == 69 && t[3] == 67);
        }
    }
    if !magic {
        return Err(DenseError::NoMagic);
    }
    let version: u16 = get_u16(body, 4);
    let flags: u16 = get_u16(body, 6);
    if flags != 0 {
        return Err(DenseError::Flags { flags });
    }
    let dim: u32 = get_u32(body, 8);
    if dim as usize != expected_dim {
        return Err(DenseError::Dim { got: dim as usize, expected: expected_dim });
    }
    let header: usize = if version == 1 {
        16
    } else if version == 2 {
        32
    } else if version == 3 {
        40
    } else {
        return Err(DenseError::Version { version });
    };
    let need: usize = match header.checked_add(expected_len) {
        None => {
            return Err(DenseError::DimTooLarge);
        },
        Some(n) => n,
    };
    if len != need {
        return Err(DenseError::Size { got: len, expected: need });
    }
    let payload: &'a [u8] = slice_subrange(body, header, len);
    assert(payload@ =~= body@.skip(header as int));
    if version == 1 {
        return Ok(DenseRequest { payload, route_meta: None });
    }
    let route_meta: QuickRouteMeta = QuickRouteMeta {
        row_idx: get_u32(body, 28),
        transaction_id: get_u64(body, 20),
        fold_id: get_u32(body, 12) as i32,
        seg_prod_amtbin: get_u32(body, 16),
        l2_tau_used: if version == 3 {
            Some(get_u32(body, 32))
        } else {
            None
        },
    };
    Ok(DenseRequest { payload, route_meta: Some(route_meta) })
}

/// The header that a sender writes before a row of `dim` values, in its first form.
pub open spec fn sent_start(version: u16, dim: u32) -> Seq<u8> {
    seq![82u8, 86u8, 69u8, 67u8] + u16_bytes(version) + u16_bytes(0) + u32_bytes(dim)
}

/// What a sender writes behind that in the later forms: the fold, the segment, the transaction and
/// the number of the row.
pub open spec fn sent_meta(fold: u32, segment: u32, transaction: u64, row_idx: u32) -> Seq<u8> {
    u32_bytes(fold) + u32_bytes(segment) + u64_bytes(transaction) + u32_bytes(row_idx)
}

/// A row with a header of the first form is read as it was sent: the values behind the header,
/// which says nothing more.
pub proof fn law_plain_rows_are_read_back(dim: u32, filler: u32, values: Seq<u8>)
    requires
        values.len() == dim * 4,
        16 + values.len() <= usize::MAX,
    ensures
        dense_payload(values, dim as int) == Ok::<(int, Option<QuickRouteMeta>), DenseError>(
            (0, None),
        ),
        ({
            let b = sent_start(1, dim) + u32_bytes(filler) + values;
            &&& dense_payload(b, dim as int) == Ok::<(int, Option<QuickRouteMeta>), DenseError>(
                (16, None),
            )
            &&& b.skip(16) == values
        }),
{
    broadcast use group_number_lens;

    let b = sent_start(1, dim) + u32_bytes(filler) + values;
    lemma_sent_start(b, 1, dim, u32_bytes(filler) + values);
    assert(b.skip(16) =~= values);
}

proof fn lemma_sent_start(b: Seq<u8>, version: u16, dim: u32, more: Seq<u8>)
    requires
        b =~= sent_start(version, dim) + more,
    ensures
        b.take(4) == row_magic(),
        u16_at(b, 4) == version,
        u16_at(b, 6) == 0,
        u32_at(b, 8) == dim,
        b.len() == 12 + more.len(),
        b.skip(12) =~= more,
{
    broadcast use group_number_lens;

    reveal(holds_at);
    assert(b.take(4) =~= row_magic());
    assert(b.subrange(4, 6) =~= u16_bytes(version));
    assert(b.subrange(6, 8) =~= u16_bytes(0));
    assert(b.subrange(8, 12) =~= u32_bytes(dim));
    lemma_u16_back(b, 4, version);
    lemma_u16_back(b, 6, 0);
    lemma_u32_back(b, 8, dim);
}

/// A row with a header of the later forms is read as it was sent: the values behind the header, and
/// with them the fold, the segment, the transaction, the number of the row and, in the last form,
/// the threshold.
pub proof fn law_routed_rows_are_read_back(
    dim: u32,
    fold: u32,
    segment: u32,
    transaction: u64,
    row_idx: u32,
    tau: u32,
    filler: u32,
    values: Seq<u8>,
)
    requires
        values.len() == dim * 4,
        40 + values.len() <= usize::MAX,
    ensures
        ({
            let meta = QuickRouteMeta {
                row_idx,
                transaction_id: transaction,
                fold_id: fold as i32,
                seg_prod_amtbin: segment,
                l2_tau_used: None,
            };
            let b = sent_start(2, dim) + sent_meta(fold, segment, transaction, row_idx) + values;
            let c = sent_start(3, dim) + sent_meta(fold, segment, transaction, row_idx) + u32_bytes(
                tau,
            ) + u32_bytes(filler) + values;
            &&& dense_payload(b, dim as int) == Ok::<(int, Option<QuickRouteMeta>), DenseError>(
                (32, Some(meta)),
            )
            &&& b.skip(32) == values
            &&& dense_payload(c, dim as int) == Ok::<(int, Option<QuickRouteMeta>), DenseError>(
                (40, Some(QuickRouteMeta { l2_tau_used: Some(tau), ..meta })),
            )
            &&& c.skip(40) == values
        }),
{
    broadcast use group_number_lens;

    reveal(holds_at);
    let said = sent_meta(fold, segment, transaction, row_idx);
    let b = sent_start(2, dim) + said + values;
    let c = sent_start(3, dim) + said + u32_bytes(tau) + u32_bytes(filler) + values;
    lemma_sent_start(b, 2, dim, said + values);
    lemma_sent_start(c, 3, dim, said + u32_bytes(tau) + u32_bytes(filler) + values);
    assert(b.skip(32) =~= values);
    assert(c.skip(40) =~= values);
    assert(c.subrange(32, 36) =~= u32_bytes(tau));
    lemma_u32_back(c, 32, tau);
    assert(b.subrange(12, 16) =~= u32_bytes(fold));
    assert(b.subrange(16, 20) =~= u32_bytes(segment));
    assert(b.subrange(20, 28) =~= u64_bytes(transaction));
    assert(b.subrange(28, 32) =~= u32_bytes(row_idx));
    assert(c.subrange(12, 16) =~= u32_bytes(fold));
    assert(c.subrange(16, 20) =~= u32_bytes(segment));
    assert(c.subrange(20, 28) =~= u64_bytes(transaction));
    assert(c.subrange(28, 32) =~= u32_bytes(row_idx));
    lemma_u32_back(b, 12, fold);
    lemma_u32_back(b, 16, segment);
    lemma_u64_back(b, 20, transaction);
    lemma_u32_back(b, 28, row_idx);
    lemma_u32_back(c, 12, fold);
    lemma_u32_back(c, 16, segment);
    lemma_u64_back(c, 20, transaction);
    lemma_u32_back(c, 28, row_idx);
}

/// What is said of a body that is no row.
pub open spec fn dense_error_words(e: DenseError) -> Seq<char> {
    match e {
        DenseError::DimTooLarge => "expected_dim too large"@,
        DenseError::TooShort { len } => "body too short: "@ + decimal(len as nat) + " < 16"@,
        DenseError::NoMagic => "invalid dense payload (missing magic RVEC)"@,
        DenseError::Flags { flags } => "unsupported RVEC flags: "@ + decimal(flags as nat),
        DenseError::Dim { got, expected } => "RVEC dim mismatch: got "@ + decimal(got as nat)
            + ", expected "@ + decimal(expected as nat),
        DenseError::Size { got, expected } => "invalid dense payload size: got "@ + decimal(
            got as nat,
        ) + ", expected "@ + decimal(expected as nat),
        DenseError::Version { version } => "unsupported RVEC version: "@ + decimal(version as nat),
    }
}

/// Writes [`dense_error_words`].
pub fn dense_error_text(e: DenseError) -> (r: String)
    ensures
        r@ == dense_error_words(e),
{
    match e {
        DenseError::DimTooLarge => "expected_dim too large".to_owned(),
        DenseError::TooShort { len } => "body too short: ".to_owned().concat(
            write_decimal(len as u64).as_str(),
        ).concat(" < 16"),
        DenseError::NoMagic => "invalid dense payload (missing magic RVEC)".to_owned(),
        DenseError::Flags { flags } => "unsupported RVEC flags: ".to_owned().concat(
            write_decimal(flags as u64).as_str(),
        ),
        DenseError::Dim { got, expected } => "RVEC dim mismatch: got ".to_owned().concat(
            write_decimal(got as u64).as_str(),
        ).concat(", expected ").concat(write_decimal(expected as u64).as_str()),
        DenseError::Size { got, expected } => "invalid dense payload size: got ".to_owned().concat(
            write_decimal(got as u64).as_str(),
        ).concat(", expected ").concat(write_decimal(expected as u64).as_str()),
        DenseError::Version { version } => "unsupported RVEC version: ".to_owned().concat(
            write_decimal(version as u64).as_str(),
        ),
    }
}

/// A verdict.
#[derive(Clone, Copy, Debug, PartialEq, Eq, Structural)]
pub enum Decision {
    Allow,
    Deny,
    ManualReview,
    DegradeAllow,
}

/// The number of a verdict.
pub open spec fn decision_code(d: Decision) -> u8 {
    match d {
        Decision::Allow => 0,
        Decision::Deny => 1,
        Decision::ManualReview => 2,
        Decision::DegradeAllow => 3,
    }
}

/// Computes [`decision_code`].
pub fn decision_u8(d: Decision) -> (r: u8)
    ensures
        r == decision_code(d),
{
    match d {
        Decision::Allow => 0,
        Decision::Deny => 1,
        Decision::ManualReview => 2,
        Decision::DegradeAllow => 3,
    }
}

/// How long each part of the work took, in microseconds.
#[derive(Clone, Copy, Debug, PartialEq, Eq, Structural)]
pub struct Timings {
    pub parse: u64,
    pub feature: u64,
    pub router: u64,
    pub l1: u64,
    pub l2: u64,
    pub serialize: u64,
}

/// A number cut off at the largest of 32 bits.
pub open spec fn capped(x: u64) -> u32 {
    if x <= u32::MAX {
        x as u32
    } else {
        u32::MAX
    }
}

/// Computes [`capped`].
pub fn clamp_u32(x: u64) -> (r: u32)
    ensures
        r == capped(x),
{
    if x <= 0xffff_ffff {
        x as u32
    } else {
        0xffff_ffff
    }
}

/// The flags of a reply: whether the second stage ran, and whether the decision is a degraded one.
pub open spec fn verdict_flags(decision: u8, l2: u64) -> u16 {
    if l2 > 0 {
        if decision == 3 {
            3
        } else {
            1
        }
    } else if decision == 3 {
        2
    } else {
        0
    }
}

/// What a verdict starts with: all but the times.
pub open spec fn rsk1_start(trace_id: u64, score: u32, decision: u8, l2: u64) -> Seq<u8> {
    seq![82u8, 83u8, 75u8, 49u8] + u16_bytes(1) + u16_bytes(verdict_flags(decision, l2))
        + u64_bytes(trace_id) + u32_bytes(score) + seq![decision, 0u8, 0u8, 0u8]
}

/// A verdict of 48 bytes.
pub open spec fn rsk1(trace_id: u64, score: u32, decision: u8, t: Timings) -> Seq<u8> {
    rsk1_start(trace_id, score, decision, t.l2) + u32_bytes(capped(t.parse)) + u32_bytes(
        capped(t.feature),
    ) + u32_bytes(capped(t.router)) + u32_bytes(capped(t.l1)) + u32_bytes(capped(t.l2))
        + u32_bytes(capped(t.serialize))
}

/// Writes [`rsk1`].
pub fn encode_rsk1(trace_id: u64, score: u32, decision: u8, t: Timings) -> (r: Vec<u8>)
    ensures
        r@ == rsk1(trace_id, score, decision, t),
        r@.len() == 48,
{
    broadcast use group_number_lens;

    let flags: u16 = if t.l2 > 0 {
        if decision == 3 {
            3
        } else {
            1
        }
    } else if decision == 3 {
        2
    } else {
        0
    };
    let mut out: Vec<u8> = vec![82u8, 83u8, 75u8, 49u8];
    assert(out@ =~= seq![82u8, 83u8, 75u8, 49u8]);
    put_u16(&mut out, 1);
    put_u16(&mut out, flags);
    put_u64(&mut out, trace_id);
    put_u32(&mut out, score);
    let verdict: Vec<u8> = vec![decision, 0u8, 0u8, 0u8];
    put_bytes(&mut out, verdict.as_slice());
    assert(verdict@ =~= seq![decision, 0u8, 0u8, 0u8]);
    put_u32(&mut out, clamp_u32(t.parse));
    put_u32(&mut out, clamp_u32(t.feature));
    put_u32(&mut out, clamp_u32(t.router));
    put_u32(&mut out, clamp_u32(t.l1));
    put_u32(&mut out, clamp_u32(t.l2));
    put_u32(&mut out, clamp_u32(t.serialize));
    out
}

/// Bytes with four of them replaced.
pub open spec fn patched(b: Seq<u8>, at: int, part: Seq<u8>) -> Seq<u8> {
    b.take(at) + part + b.skip(at + part.len())
}

/// Puts the time of writing a verdict into it; fewer than 48 bytes are left as they are.
pub fn patch_rsk1_serialize_us(buf: &mut Vec<u8>, serialize_us: u64)
    ensures
        final(buf)@ == if old(buf)@.len() < 48 {
            old(buf)@
        } else {
            patched(old(buf)@, 44, u32_bytes(capped(serialize_us)))
        },
{
    broadcast use group_number_lens;

    let ghost before = buf@;
    if buf.len() < 48 {
        return;
    }
    let mut part: Vec<u8> = Vec::new();
    put_u32(&mut part, clamp_u32(serialize_us));
    assert(part@ =~= u32_bytes(capped(serialize_us)));
    let mut i: usize = 0;
    while i < 4
        invariant
            i <= 4,
            part@.len() == 4,
            buf@.len() == before.len(),
            before.len() >= 48,
            forall|k: int|
                0 <= k < buf@.len() ==> #[trigger] buf@[k] == (if 44 <= k < 44 + i {
                    part@[k - 44]
                } else {
                    before[k]
                }),
        decreases 4 - i,
    {
        buf.set(44 + i, part[i]);
        i += 1;
    }
    assert(buf@ =~= patched(before, 44, part@));
}

/// A verdict written before its own time is known, and patched afterwards, is the verdict that
/// would have been written with it.
pub proof fn law_patched_verdict(trace_id: u64, score: u32, decision: u8, t: Timings, us: u64)
    ensures
        patched(rsk1(trace_id, score, decision, t), 44, u32_bytes(capped(us))) == rsk1(
            trace_id,
            score,
            decision,
            Timings { serialize: us, ..t },
        ),
{
    broadcast use group_number_lens;

    let a = rsk1(trace_id, score, decision, t);
    let b = rsk1(trace_id, score, decision, Timings { serialize: us, ..t });
    assert(patched(a, 44, u32_bytes(capped(us))) =~= b);
}

/// Where each part of a verdict stands.
pub proof fn law_verdict_layout(trace_id: u64, score: u32, decision: u8, t: Timings)
    ensures
        ({
            let b = rsk1(trace_id, score, decision, t);
            &&& b.len() == 48
            &&& b.take(4) == seq![82u8, 83u8, 75u8, 49u8]
            &&& u16_at(b, 4) == 1
            &&& u16_at(b, 6) == verdict_flags(decision, t.l2)
            &&& u16_at(b, 6) == (if t.l2 > 0 {
                1int
            } else {
                0int
            }) + (if decision == 3 {
                2int
            } else {
                0int
            })
            &&& u64_at(b, 8) == trace_id
            &&& u32_at(b, 16) == score
            &&& b[20] == decision
            &&& b[21] == 0 && b[22] == 0 && b[23] == 0
            &&& u32_at(b, 24) == capped(t.parse)
            &&& u32_at(b, 28) == capped(t.feature)
            &&& u32_at(b, 32) == capped(t.router)
            &&& u32_at(b, 36) == capped(t.l1)
            &&& u32_at(b, 40) == capped(t.l2)
            &&& u32_at(b, 44) == capped(t.serialize)
        }),
{
    broadcast use group_number_lens;

    reveal(holds_at);
    let b = rsk1(trace_id, score, decision, t);
    let flags = verdict_flags(decision, t.l2);
    assert(b.take(4) =~= seq![82u8, 83u8, 75u8, 49u8]);
    assert(b.subrange(4, 6) =~= u16_bytes(1));
    assert(b.subrange(6, 8) =~= u16_bytes(flags));
    assert(b.subrange(8, 16) =~= u64_bytes(trace_id));
    assert(b.subrange(16, 20) =~= u32_bytes(score));
    assert(b.subrange(24, 28) =~= u32_bytes(capped(t.parse)));
    assert(b.subrange(28, 32) =~= u32_bytes(capped(t.feature)));
    assert(b.subrange(32, 36) =~= u32_bytes(capped(t.router)));
    assert(b.subrange(36, 40) =~= u32_bytes(capped(t.l1)));
    assert(b.subrange(40, 44) =~= u32_bytes(capped(t.l2)));
    assert(b.subrange(44, 48) =~= u32_bytes(capped(t.serialize)));
    lemma_u16_back(b, 4, 1);
    lemma_u16_back(b, 6, flags);
    lemma_u64_back(b, 8, trace_id);
    lemma_u32_back(b, 16, score);
    lemma_u32_back(b, 24, capped(t.parse));
    lemma_u32_back(b, 28, capped(t.feature));
    lemma_u32_back(b, 32, capped(t.router));
    lemma_u32_back(b, 36, capped(t.l1));
    lemma_u32_back(b, 40, capped(t.l2));
    lemma_u32_back(b, 44, capped(t.serialize));
}

/// A short verdict of 24 bytes.
pub open spec fn qsb2(trace_id: u64, score: u32, decision: u8, used_l2: bool) -> Seq<u8> {
    seq![81u8, 83u8, 66u8, 50u8] + u16_bytes(1) + seq![
        decision,
        if used_l2 {
            1u8
        } else {
            0u8
        },
    ] + u64_bytes(trace_id) + u32_bytes(score) + u32_bytes(0)
}

/// Writes [`qsb2`].
pub fn encode_qsb2(trace_id: u64, score: u32, decision: u8, used_l2: bool) -> (r: Vec<u8>)
    ensures
        r@ == qsb2(trace_id, score, decision, used_l2),
        r@.len() == 24,
{
    broadcast use group_number_lens;

    let mut out: Vec<u8> = vec![81u8, 83u8, 66u8, 50u8];
    assert(out@ =~= seq![81u8, 83u8, 66u8, 50u8]);
    put_u16(&mut out, 1);
    let used: u8 = if used_l2 {
        1
    } else {
        0
    };
    let verdict: Vec<u8> = vec![decision, used];
    put_bytes(&mut out, verdict.as_slice());
    assert(verdict@ =~= seq![decision, used]);
    put_u64(&mut out, trace_id);
    put_u32(&mut out, score);
    put_u32(&mut out, 0);
    out
}

/// Where each part of a short verdict stands.
pub proof fn law_short_verdict_layout(trace_id: u64, score: u32, decision: u8, used_l2: bool)
    ensures
        ({
            let b = qsb2(trace_id, score, decision, used_l2);
            &&& b.len() == 24
            &&& b.take(4) == seq![81u8, 83u8, 66u8, 50u8]
            &&& u16_at(b, 4) == 1
            &&& b[6] == decision
            &&& b[7] == 1 <==> used_l2
            &&& b[7] <= 1
            &&& u64_at(b, 8) == trace_id
            &&& u32_at(b, 16) == score
            &&& u32_at(b, 20) == 0
        }),
{
    broadcast use group_number_lens;

    reveal(holds_at);
    let b = qsb2(trace_id, score, decision, used_l2);
    assert(b.take(4) =~= seq![81u8, 83u8, 66u8, 50u8]);
    assert(b.subrange(4, 6) =~= u16_bytes(1));
    assert(b.subrange(8, 16) =~= u64_bytes(trace_id));
    assert(b.subrange(16, 20) =~= u32_bytes(score));
    assert(b.subrange(20, 24) =~= u32_bytes(0));
    lemma_u16_back(b, 4, 1);
    lemma_u64_back(b, 8, trace_id);
    lemma_u32_back(b, 16, score);
    lemma_u32_back(b, 20, 0);
}

/// The times of a verdict as text.
pub open spec fn timings_words(t: Timings) -> Seq<char> {
    decimal(t.parse as nat) + ","@ + decimal(t.feature as nat) + ","@ + decimal(t.router as nat)
        + ","@ + decimal(t.l1 as nat) + ","@ + decimal(t.l2 as nat) + ","@ + decimal(
        t.serialize as nat,
    )
}

/// Writes [`timings_words`].
pub fn encode_timings_header(t: Timings) -> (r: String)
    ensures
        r@ == timings_words(t),
{
    let mut s: String = write_decimal(t.parse);
    s.append(",");
    s.append(write_decimal(t.feature).as_str());
    s.append(",");
    s.append(write_decimal(t.router).as_str());
    s.append(",");
    s.append(write_decimal(t.l1).as_str());
    s.append(",");
    s.append(write_decimal(t.l2).as_str());
    s.append(",");
    s.append(write_decimal(t.serialize).as_str());
    s
}

} // verus!
