//! The file of a plan: for every checkpoint its bands and its atlas.

use crate::bands::{BandView, LoadedPrefixCheckpoint};
use crate::certify::{
    AtlasView, LoadedPrefixAtlasCheckpoint, LoadedPrefixCertifyCheckpoint, LoadedPrefixCertifyPlan,
};
use crate::forest::LoadError;
use crate::le::{
    begins_with, get_u16s, get_u32, get_u32s, group_number_lens, holds_at, le_bytes, le_u32,
    lemma_holds_is_subrange, lemma_holds_part, lemma_holds_whole, lemma_u16s_back, lemma_u32_back,
    lemma_u32s_back, put_bytes, put_u16s, put_u32, put_u32s, u16s_at, u16s_bytes, u32_at,
    u32_bytes, u32s_at, u32s_bytes, ReadError,
};
use vstd::prelude::*;

verus! {

/// Bands and atlas of one checkpoint.
pub struct PairView {
    pub table: BandView,
    pub atlas: AtlasView,
}

/// What a plan holds.
#[verifier::ext_equal]
pub struct PlanView {
    pub tau_edges: Seq<u32>,
    pub pairs: Seq<PairView>,
}

/// Bands and atlases of checkpoints.
pub open spec fn pairs_of(s: Seq<LoadedPrefixCertifyCheckpoint>) -> Seq<PairView> {
    Seq::new(s.len(), |i: int| PairView { table: s[i].table@, atlas: s[i].atlas@ })
}

impl View for LoadedPrefixCertifyPlan {
    type V = PlanView;

    open spec fn view(&self) -> PlanView {
        PlanView { tau_edges: self.tau_edges@, pairs: pairs_of(self.checkpoints@) }
    }
}

/// Signed numbers as words.
pub open spec fn as_words(s: Seq<i32>) -> Seq<u32> {
    Seq::new(s.len(), |i: int| s[i] as u32)
}

/// Words as signed numbers.
pub open spec fn as_signed(s: Seq<u32>) -> Seq<i32> {
    Seq::new(s.len(), |i: int| s[i] as i32)
}

/// Short signed numbers as half words.
pub open spec fn as_halves(s: Seq<i16>) -> Seq<u16> {
    Seq::new(s.len(), |i: int| s[i] as u16)
}

/// Half words as short signed numbers.
pub open spec fn as_short(s: Seq<u16>) -> Seq<i16> {
    Seq::new(s.len(), |i: int| s[i] as i16)
}

/// Words that were signed numbers become those numbers again.
proof fn lemma_signed_back(s: Seq<i32>)
    ensures
        as_signed(as_words(s)) == s,
{
    assert forall|i: int| 0 <= i < s.len() implies as_signed(as_words(s))[i] == s[i] by {
        let v = s[i];
        assert((v as u32) as i32 == v) by (bit_vector);
    }
    assert(as_signed(as_words(s)) =~= s);
}

proof fn lemma_short_back(s: Seq<i16>)
    ensures
        as_short(as_halves(s)) == s,
{
    assert forall|i: int| 0 <= i < s.len() implies as_short(as_halves(s))[i] == s[i] by {
        let v = s[i];
        assert((v as u16) as i16 == v) by (bit_vector);
    }
    assert(as_short(as_halves(s)) =~= s);
}

/// The numbers that stand before the bands of a checkpoint.
pub open spec fn table_head(t: BandView) -> Seq<u32> {
    seq![
        t.checkpoint as u32,
        t.gap_edges.len() as u32,
        t.global_ref_hi.len() as u32,
        t.global_rej_lo.len() as u32,
        t.tau_edges.len() as u32,
        t.fold_ids.len() as u32,
        t.fold_lut_base as u32,
        t.fold_slot_lut.len() as u32,
        t.fold_ref_hi.len() as u32,
        t.fold_rej_lo.len() as u32,
        t.tau_bin_count as u32,
        t.tau_fold_mask.len() as u32,
        t.tau_ref_hi.len() as u32,
        t.tau_rej_lo.len() as u32,
    ]
}

/// The bands of a checkpoint as bytes.
#[verifier::opaque]
pub open spec fn table_bytes(t: BandView) -> Seq<u8> {
    u32s_bytes(table_head(t)) + u32s_bytes(t.gap_edges) + u32s_bytes(t.global_ref_hi) + u32s_bytes(
        t.global_rej_lo,
    ) + u32s_bytes(t.tau_edges) + u32s_bytes(as_words(t.fold_ids)) + u16s_bytes(
        as_halves(t.fold_slot_lut),
    ) + u32s_bytes(t.fold_ref_hi) + u32s_bytes(t.fold_rej_lo) + t.tau_fold_mask + u32s_bytes(
        t.tau_ref_hi,
    ) + u32s_bytes(t.tau_rej_lo)
}

/// A list preceded by its length.
pub open spec fn list_bytes(s: Seq<u32>) -> Seq<u8> {
    u32_bytes(s.len() as u32) + u32s_bytes(s)
}

/// The byte that tells whether the gap is binned by the bands.
pub open spec fn shared_byte(shared: bool) -> u8 {
    if shared {
        1
    } else {
        0
    }
}

/// The atlas of a checkpoint as bytes.
#[verifier::opaque]
pub open spec fn atlas_bytes(a: AtlasView) -> Seq<u8> {
    u32_bytes(a.checkpoint as u32) + seq![shared_byte(a.shared_gap_edges)] + u32_bytes(
        a.gap_edges.len() as u32,
    ) + u32_bytes(a.cluster_count as u32) + u32_bytes(a.tau_bin_count as u32) + u32s_bytes(
        a.feature_mean,
    ) + u32s_bytes(a.feature_inv_std) + u32s_bytes(a.gap_edges) + list_bytes(a.centroid_w0)
        + list_bytes(a.centroid_w1) + list_bytes(a.centroid_w2) + list_bytes(a.centroid_w3)
        + list_bytes(a.centroid_bias) + u32_bytes(a.decision_grid.len() as u32) + a.decision_grid
}

/// Bands and atlas as bytes.
pub open spec fn pair_bytes(p: PairView) -> Seq<u8> {
    table_bytes(p.table) + atlas_bytes(p.atlas)
}

/// The first `n` checkpoints as bytes.
pub open spec fn pairs_bytes(s: Seq<PairView>, n: int) -> Seq<u8>
    decreases n,
{
    if n <= 0 {
        Seq::empty()
    } else {
        pairs_bytes(s, n - 1) + pair_bytes(s[n - 1])
    }
}

/// The first bytes of a plan file.
pub open spec fn magic_plan() -> Seq<u8> {
    seq![76, 50, 67, 69, 82, 84, 86, 49]
}

/// A plan as bytes.
pub open spec fn plan_bytes(p: PlanView) -> Seq<u8> {
    magic_plan() + list_bytes(p.tau_edges) + u32_bytes(p.pairs.len() as u32) + pairs_bytes(
        p.pairs,
        p.pairs.len() as int,
    )
}

fn put_signed(out: &mut Vec<u8>, s: &Vec<i32>)
    ensures
        final(out)@ == old(out)@ + u32s_bytes(as_words(s@)),
{
    let mut v: Vec<u32> = Vec::new();
    let mut i: usize = 0;
    while i < s.len()
        invariant
            i <= s@.len(),
            v@ == as_words(s@).take(i as int),
        decreases s@.len() - i,
    {
        v.push(s[i] as u32);
        i += 1;
        assert(v@ =~= as_words(s@).take(i as int));
    }
    assert(v@ =~= as_words(s@));
    put_u32s(out, v.as_slice());
}

fn put_short(out: &mut Vec<u8>, s: &Vec<i16>)
    ensures
        final(out)@ == old(out)@ + u16s_bytes(as_halves(s@)),
{
    let mut v: Vec<u16> = Vec::new();
    let mut i: usize = 0;
    while i < s.len()
        invariant
            i <= s@.len(),
            v@ == as_halves(s@).take(i as int),
        decreases s@.len() - i,
    {
        v.push(s[i] as u16);
        i += 1;
        assert(v@ =~= as_halves(s@).take(i as int));
    }
    assert(v@ =~= as_halves(s@));
    put_u16s(out, v.as_slice());
}

fn put_list(out: &mut Vec<u8>, s: &Vec<u32>)
    ensures
        final(out)@ == old(out)@ + list_bytes(s@),
{
    let ghost start = out@;
    put_u32(out, s.len() as u32);
    put_u32s(out, s.as_slice());
    assert(out@ =~= start + list_bytes(s@));
}

fn write_table(t: &LoadedPrefixCheckpoint) -> (out: Vec<u8>)
    ensures
        out@ == table_bytes(t@),
{
    let mut out: Vec<u8> = Vec::new();
    let head: [u32; 14] = [
        t.checkpoint as u32,
        t.gap_edges.len() as u32,
        t.global_ref_hi.len() as u32,
        t.global_rej_lo.len() as u32,
        t.tau_edges.len() as u32,
        t.fold_ids.len() as u32,
        t.fold_lut_base as u32,
        t.fold_slot_lut.len() as u32,
        t.fold_ref_hi.len() as u32,
        t.fold_rej_lo.len() as u32,
        t.tau_bin_count as u32,
        t.tau_fold_mask.len() as u32,
        t.tau_ref_hi.len() as u32,
        t.tau_rej_lo.len() as u32,
    ];
    assert(head@ =~= table_head(t@));
    put_u32s(&mut out, head.as_slice());
    assert(out@ =~= u32s_bytes(table_head(t@)));
    put_u32s(&mut out, t.gap_edges.as_slice());
    put_u32s(&mut out, t.global_ref_hi.as_slice());
    put_u32s(&mut out, t.global_rej_lo.as_slice());
    put_u32s(&mut out, t.tau_edges.as_slice());
    put_signed(&mut out, &t.fold_ids);
    put_short(&mut out, &t.fold_slot_lut);
    put_u32s(&mut out, t.fold_ref_hi.as_slice());
    put_u32s(&mut out, t.fold_rej_lo.as_slice());
    put_bytes(&mut out, t.tau_fold_mask.as_slice());
    put_u32s(&mut out, t.tau_ref_hi.as_slice());
    put_u32s(&mut out, t.tau_rej_lo.as_slice());
    proof {
        reveal(table_bytes);
    }
    out
}

fn write_atlas(a: &LoadedPrefixAtlasCheckpoint) -> (out: Vec<u8>)
    ensures
        out@ == atlas_bytes(a@),
{
    let mut out: Vec<u8> = Vec::new();
    put_u32(&mut out, a.checkpoint as u32);
    assert(out@ =~= u32_bytes(a.checkpoint as u32));
    let shared: [u8; 1] = [
        if a.shared_gap_edges {
            1
        } else {
            0
        },
    ];
    assert(shared@ =~= seq![shared_byte(a.shared_gap_edges)]);
    put_bytes(&mut out, shared.as_slice());
    put_u32(&mut out, a.gap_edges.len() as u32);
    put_u32(&mut out, a.cluster_count as u32);
    put_u32(&mut out, a.tau_bin_count as u32);
    put_u32s(&mut out, a.feature_mean.as_slice());
    put_u32s(&mut out, a.feature_inv_std.as_slice());
    put_u32s(&mut out, a.gap_edges.as_slice());
    put_list(&mut out, &a.centroid_w0);
    put_list(&mut out, &a.centroid_w1);
    put_list(&mut out, &a.centroid_w2);
    put_list(&mut out, &a.centroid_w3);
    put_list(&mut out, &a.centroid_bias);
    put_u32(&mut out, a.decision_grid.len() as u32);
    put_bytes(&mut out, a.decision_grid.as_slice());
    proof {
        reveal(atlas_bytes);
    }
    out
}

/// Writes a plan.
pub fn save_prefix_certify_plan(plan: &LoadedPrefixCertifyPlan) -> (out: Vec<u8>)
    ensures
        out@ == plan_bytes(plan@),
{
    let mut out: Vec<u8> = Vec::new();
    let magic: [u8; 8] = [76, 50, 67, 69, 82, 84, 86, 49];
    assert(magic@ =~= magic_plan());
    put_bytes(&mut out, magic.as_slice());
    assert(out@ =~= magic_plan());
    put_list(&mut out, &plan.tau_edges);
    put_u32(&mut out, plan.checkpoints.len() as u32);
    let ghost start = out@;
    let ghost pairs = plan@.pairs;
    let mut i: usize = 0;
    assert(out@ =~= start + pairs_bytes(pairs, 0));
    while i < plan.checkpoints.len()
        invariant
            i <= plan.checkpoints@.len(),
            pairs == pairs_of(plan.checkpoints@),
            out@ == start + pairs_bytes(pairs, i as int),
        decreases plan.checkpoints@.len() - i,
    {
        let table: Vec<u8> = write_table(&plan.checkpoints[i].table);
        put_bytes(&mut out, table.as_slice());
        let atlas: Vec<u8> = write_atlas(&plan.checkpoints[i].atlas);
        put_bytes(&mut out, atlas.as_slice());
        assert(pairs_bytes(pairs, i + 1) == pairs_bytes(pairs, i as int) + pair_bytes(
            pairs[i as int],
        ));
        assert(out@ =~= start + pairs_bytes(pairs, i + 1));
        i += 1;
    }
    assert(out@ =~= plan_bytes(plan@));
    out
}

/// The bands that stand at `o`, and where they end.
#[verifier::opaque]
pub open spec fn table_at(b: Seq<u8>, o: int) -> Result<(BandView, int), LoadError> {
    let w = u32s_at(b, o, 14);
    let e0 = o + 56;
    let e1 = e0 + 4 * w[1];
    let e2 = e1 + 4 * w[2];
    let e3 = e2 + 4 * w[3];
    let e4 = e3 + 4 * w[4];
    let e5 = e4 + 4 * w[5];
    let e6 = e5 + 2 * w[7];
    let e7 = e6 + 4 * w[8];
    let e8 = e7 + 4 * w[9];
    let e9 = e8 + w[11];
    let e10 = e9 + 4 * w[12];
    let e11 = e10 + 4 * w[13];
    if e0 > b.len() {
        Err(LoadError::Read(ReadError::U32))
    } else if e4 > b.len() {
        Err(LoadError::Read(ReadError::Single))
    } else if e5 > b.len() {
        Err(LoadError::Read(ReadError::U32))
    } else if e6 > b.len() {
        Err(LoadError::Read(ReadError::U16))
    } else if e8 > b.len() {
        Err(LoadError::Read(ReadError::Single))
    } else if e9 > b.len() {
        Err(LoadError::Read(ReadError::Bytes))
    } else if e11 > b.len() {
        Err(LoadError::Read(ReadError::Single))
    } else {
        Ok(
            (
                BandView {
                    checkpoint: w[0] as usize,
                    gap_edges: u32s_at(b, e0, w[1] as nat),
                    global_ref_hi: u32s_at(b, e1, w[2] as nat),
                    global_rej_lo: u32s_at(b, e2, w[3] as nat),
                    tau_edges: u32s_at(b, e3, w[4] as nat),
                    fold_ids: as_signed(u32s_at(b, e4, w[5] as nat)),
                    fold_lut_base: w[6] as i32,
                    fold_slot_lut: as_short(u16s_at(b, e5, w[7] as nat)),
                    fold_ref_hi: u32s_at(b, e6, w[8] as nat),
                    fold_rej_lo: u32s_at(b, e7, w[9] as nat),
                    tau_bin_count: w[10] as usize,
                    tau_fold_mask: b.subrange(e8, e9),
                    tau_ref_hi: u32s_at(b, e9, w[12] as nat),
                    tau_rej_lo: u32s_at(b, e10, w[13] as nat),
                },
                e11,
            ),
        )
    }
}

fn get_signed(buf: &[u8], i: usize, n: usize) -> (v: Vec<i32>)
    requires
        i + 4 * n <= buf@.len(),
    ensures
        v@ == as_signed(u32s_at(buf@, i as int, n as nat)),
{
    let raw: Vec<u32> = get_u32s(buf, i, n);
    let mut v: Vec<i32> = Vec::new();
    let mut k: usize = 0;
    while k < raw.len()
        invariant
            k <= raw@.len(),
            v@ == as_signed(raw@).take(k as int),
        decreases raw@.len() - k,
    {
        v.push(raw[k] as i32);
        k += 1;
        assert(v@ =~= as_signed(raw@).take(k as int));
    }
    assert(v@ =~= as_signed(raw@));
    v
}

fn get_short(buf: &[u8], i: usize, n: usize) -> (v: Vec<i16>)
    requires
        i + 2 * n <= buf@.len(),
    ensures
        v@ == as_short(u16s_at(buf@, i as int, n as nat)),
{
    let raw: Vec<u16> = get_u16s(buf, i, n);
    let mut v: Vec<i16> = Vec::new();
    let mut k: usize = 0;
    while k < raw.len()
        invariant
            k <= raw@.len(),
            v@ == as_short(raw@).take(k as int),
        decreases raw@.len() - k,
    {
        v.push(raw[k] as i16);
        k += 1;
        assert(v@ =~= as_short(raw@).take(k as int));
    }
    assert(v@ =~= as_short(raw@));
    v
}

pub(crate) fn get_bytes(buf: &[u8], i: usize, n: usize) -> (v: Vec<u8>)
    requires
        i + n <= buf@.len(),
    ensures
        v@ == buf@.subrange(i as int, i + n),
{
    assert(buf.len() <= usize::MAX);
    vstd::slice::slice_to_vec(vstd::slice::slice_subrange(buf, i, i + n))
}

fn read_table(buf: &[u8], off: &mut usize) -> (r: Result<LoadedPrefixCheckpoint, LoadError>)
    requires
        *old(off) <= buf@.len(),
    ensures
        match table_at(buf@, *old(off) as int) {
            Ok((t, o)) => r matches Ok(x) && x@ == t && *final(off) == o && o <= buf@.len(),
            Err(e) => r == Err::<LoadedPrefixCheckpoint, LoadError>(e),
        },
{
    proof {
        reveal(table_at);
    }
    let start: usize = *off;
    let len: usize = buf.len();
    let left: u64 = (len - start) as u64;
    if left < 56 {
        return Err(LoadError::Read(ReadError::U32));
    }
    let w: Vec<u32> = get_u32s(buf, start, 14);
    let f1: u64 = 56 + 4 * (w[1] as u64);
    let f2: u64 = f1 + 4 * (w[2] as u64);
    let f3: u64 = f2 + 4 * (w[3] as u64);
    let f4: u64 = f3 + 4 * (w[4] as u64);
    let f5: u64 = f4 + 4 * (w[5] as u64);
    let f6: u64 = f5 + 2 * (w[7] as u64);
    let f7: u64 = f6 + 4 * (w[8] as u64);
    let f8: u64 = f7 + 4 * (w[9] as u64);
    let f9: u64 = f8 + w[11] as u64;
    let f10: u64 = f9 + 4 * (w[12] as u64);
    let f11: u64 = f10 + 4 * (w[13] as u64);
    if f4 > left {
        return Err(LoadError::Read(ReadError::Single));
    }
    if f5 > left {
        return Err(LoadError::Read(ReadError::U32));
    }
    if f6 > left {
        return Err(LoadError::Read(ReadError::U16));
    }
    if f8 > left {
        return Err(LoadError::Read(ReadError::Single));
    }
    if f9 > left {
        return Err(LoadError::Read(ReadError::Bytes));
    }
    if f11 > left {
        return Err(LoadError::Read(ReadError::Single));
    }
    *off = start + f11 as usize;
    let t: LoadedPrefixCheckpoint = LoadedPrefixCheckpoint {
        checkpoint: w[0] as usize,
        gap_edges: get_u32s(buf, start + 56, w[1] as usize),
        global_ref_hi: get_u32s(buf, start + f1 as usize, w[2] as usize),
        global_rej_lo: get_u32s(buf, start + f2 as usize, w[3] as usize),
        tau_edges: get_u32s(buf, start + f3 as usize, w[4] as usize),
        fold_ids: get_signed(buf, start + f4 as usize, w[5] as usize),
        fold_lut_base: w[6] as i32,
        fold_slot_lut: get_short(buf, start + f5 as usize, w[7] as usize),
        fold_ref_hi: get_u32s(buf, start + f6 as usize, w[8] as usize),
        fold_rej_lo: get_u32s(buf, start + f7 as usize, w[9] as usize),
        tau_bin_count: w[10] as usize,
        tau_fold_mask: get_bytes(buf, start + f8 as usize, w[11] as usize),
        tau_ref_hi: get_u32s(buf, start + f9 as usize, w[12] as usize),
        tau_rej_lo: get_u32s(buf, start + f10 as usize, w[13] as usize),
    };
    assert(t@ =~= table_at(buf@, start as int)->Ok_0.0);
    Ok(t)
}

/// The list that stands at `o` after its length, and where it ends.
pub open spec fn list_at(b: Seq<u8>, o: int) -> Result<(Seq<u32>, int), LoadError> {
    let n = u32_at(b, o) as int;
    if o + 4 > b.len() {
        Err(LoadError::Read(ReadError::U32))
    } else if o + 4 + 4 * n > b.len() {
        Err(LoadError::Read(ReadError::Single))
    } else {
        Ok((u32s_at(b, o + 4, n as nat), o + 4 + 4 * n))
    }
}

fn read_list(buf: &[u8], off: &mut usize) -> (r: Result<Vec<u32>, LoadError>)
    requires
        *old(off) <= buf@.len(),
    ensures
        match list_at(buf@, *old(off) as int) {
            Ok((s, o)) => r matches Ok(x) && x@ == s && *final(off) == o && o <= buf@.len(),
            Err(e) => r == Err::<Vec<u32>, LoadError>(e),
        },
{
    let start: usize = *off;
    let len: usize = buf.len();
    let left: u64 = (len - start) as u64;
    if left < 4 {
        return Err(LoadError::Read(ReadError::U32));
    }
    let n: u32 = get_u32(buf, start);
    if 4 + 4 * (n as u64) > left {
        return Err(LoadError::Read(ReadError::Single));
    }
    *off = start + 4 + 4 * (n as usize);
    Ok(get_u32s(buf, start + 4, n as usize))
}

/// Five lists that stand one after the other, and where they end.
pub open spec fn lists_at(b: Seq<u8>, o: int, n: nat) -> Result<(Seq<Seq<u32>>, int), LoadError>
    decreases n,
{
    if n == 0 {
        Ok((Seq::empty(), o))
    } else {
        match lists_at(b, o, (n - 1) as nat) {
            Err(e) => Err(e),
            Ok((s, at)) => match list_at(b, at) {
                Err(e) => Err(e),
                Ok((l, end)) => Ok((s.push(l), end)),
            },
        }
    }
}

/// The atlas that stands at `o`, and where it ends.
#[verifier::opaque]
pub open spec fn atlas_at(b: Seq<u8>, o: int) -> Result<(AtlasView, int), LoadError> {
    let gaps = u32_at(b, o + 5) as int;
    let clusters = u32_at(b, o + 9);
    let e1 = o + 17 + 32 + 4 * gaps;
    if o + 4 > b.len() {
        Err(LoadError::Read(ReadError::U32))
    } else if o + 5 > b.len() {
        Err(LoadError::Read(ReadError::Bytes))
    } else if o + 17 > b.len() {
        Err(LoadError::Read(ReadError::U32))
    } else if e1 > b.len() {
        Err(LoadError::Read(ReadError::Single))
    } else {
        match lists_at(b, e1, 5) {
            Err(e) => Err(e),
            Ok((lists, e2)) => {
                let cells = u32_at(b, e2) as int;
                if e2 + 4 > b.len() {
                    Err(LoadError::Read(ReadError::U32))
                } else if e2 + 4 + cells > b.len() {
                    Err(LoadError::Read(ReadError::Bytes))
                } else {
                    Ok(
                        (
                            AtlasView {
                                checkpoint: u32_at(b, o) as usize,
                                gap_edges: u32s_at(b, o + 49, gaps as nat),
                                shared_gap_edges: b[o + 4] != 0,
                                feature_mean: u32s_at(b, o + 17, 4),
                                feature_inv_std: u32s_at(b, o + 33, 4),
                                cluster_count: clusters as usize,
                                tau_bin_count: u32_at(b, o + 13) as usize,
                                centroid_w0: lists[0],
                                centroid_w1: lists[1],
                                centroid_w2: lists[2],
                                centroid_w3: lists[3],
                                centroid_bias: lists[4],
                                centroids16: clusters == 16 && lists[0].len() == 16
                                    && lists[1].len() == 16 && lists[2].len() == 16
                                    && lists[3].len() == 16 && lists[4].len() == 16,
                                decision_grid: b.subrange(e2 + 4, e2 + 4 + cells),
                            },
                            e2 + 4 + cells,
                        ),
                    )
                }
            },
        }
    }
}

proof fn lemma_five_lists(b: Seq<u8>, o: int)
    ensures
        lists_at(b, o, 5) == match list_at(b, o) {
            Err(e) => Err::<(Seq<Seq<u32>>, int), LoadError>(e),
            Ok((l0, o0)) => match list_at(b, o0) {
                Err(e) => Err(e),
                Ok((l1, o1)) => match list_at(b, o1) {
                    Err(e) => Err(e),
                    Ok((l2, o2)) => match list_at(b, o2) {
                        Err(e) => Err(e),
                        Ok((l3, o3)) => match list_at(b, o3) {
                            Err(e) => Err(e),
                            Ok((l4, o4)) => Ok((seq![l0, l1, l2, l3, l4], o4)),
                        },
                    },
                },
            },
        },
{
    reveal_with_fuel(lists_at, 6);
    assert(lists_at(b, o, 0) == Ok::<(Seq<Seq<u32>>, int), LoadError>((Seq::empty(), o)));
    let r5 = lists_at(b, o, 5);
    if r5 is Ok {
        let l = r5->Ok_0.0;
        assert(l =~= seq![l[0], l[1], l[2], l[3], l[4]]);
    }
}

pub(crate) fn four_at(buf: &[u8], i: usize) -> (r: [u32; 4])
    requires
        i + 16 <= buf@.len(),
    ensures
        r@ == u32s_at(buf@, i as int, 4),
{
    assert(buf.len() <= usize::MAX);
    let r: [u32; 4] = [
        get_u32(buf, i),
        get_u32(buf, i + 4),
        get_u32(buf, i + 8),
        get_u32(buf, i + 12),
    ];
    assert(r@ =~= u32s_at(buf@, i as int, 4));
    r
}

fn read_atlas(buf: &[u8], off: &mut usize) -> (r: Result<LoadedPrefixAtlasCheckpoint, LoadError>)
    requires
        *old(off) <= buf@.len(),
    ensures
        match atlas_at(buf@, *old(off) as int) {
            Ok((t, o)) => r matches Ok(x) && x@ == t && *final(off) == o && o <= buf@.len(),
            Err(e) => r == Err::<LoadedPrefixAtlasCheckpoint, LoadError>(e),
        },
{
    proof {
        reveal(atlas_at);
    }
    let start: usize = *off;
    let len: usize = buf.len();
    let left: u64 = (len - start) as u64;
    if left < 4 {
        return Err(LoadError::Read(ReadError::U32));
    }
    if left < 5 {
        return Err(LoadError::Read(ReadError::Bytes));
    }
    if left < 17 {
        return Err(LoadError::Read(ReadError::U32));
    }
    let gaps: u32 = get_u32(buf, start + 5);
    let clusters: u32 = get_u32(buf, start + 9);
    if 49 + 4 * (gaps as u64) > left {
        return Err(LoadError::Read(ReadError::Single));
    }
    *off = start + 49 + 4 * (gaps as usize);
    proof {
        lemma_five_lists(buf@, *off as int);
    }
    let w0: Vec<u32> = match read_list(buf, off) {
        Ok(v) => v,
        Err(e) => {
            return Err(e);
        },
    };
    let w1: Vec<u32> = match read_list(buf, off) {
        Ok(v) => v,
        Err(e) => {
            return Err(e);
        },
    };
    let w2: Vec<u32> = match read_list(buf, off) {
        Ok(v) => v,
        Err(e) => {
            return Err(e);
        },
    };
    let w3: Vec<u32> = match read_list(buf, off) {
        Ok(v) => v,
        Err(e) => {
            return Err(e);
        },
    };
    let bias: Vec<u32> = match read_list(buf, off) {
        Ok(v) => v,
        Err(e) => {
            return Err(e);
        },
    };
    let cells: u32 = match le_u32(buf, off) {
        Ok(v) => v,
        Err(e) => {
            return Err(LoadError::Read(e));
        },
    };
    let grid: Vec<u8> = match le_bytes(buf, off, cells as usize) {
        Ok(v) => vstd::slice::slice_to_vec(v),
        Err(e) => {
            return Err(LoadError::Read(e));
        },
    };
    let a: LoadedPrefixAtlasCheckpoint = LoadedPrefixAtlasCheckpoint {
        checkpoint: get_u32(buf, start) as usize,
        gap_edges: get_u32s(buf, start + 49, gaps as usize),
        shared_gap_edges: buf[start + 4] != 0,
        feature_mean: four_at(buf, start + 17),
        feature_inv_std: four_at(buf, start + 33),
        cluster_count: clusters as usize,
        tau_bin_count: get_u32(buf, start + 13) as usize,
        centroids16: clusters == 16 && w0.len() == 16 && w1.len() == 16 && w2.len() == 16
            && w3.len() == 16 && bias.len() == 16,
        centroid_w0: w0,
        centroid_w1: w1,
        centroid_w2: w2,
        centroid_w3: w3,
        centroid_bias: bias,
        decision_grid: grid,
    };
    assert(a@ =~= atlas_at(buf@, start as int)->Ok_0.0);
    Ok(a)
}

/// Bands and atlas that stand at `o`, and where they end.
pub open spec fn pair_at(b: Seq<u8>, o: int) -> Result<(PairView, int), LoadError> {
    match table_at(b, o) {
        Err(e) => Err(e),
        Ok((table, at)) => match atlas_at(b, at) {
            Err(e) => Err(e),
            Ok((atlas, end)) => Ok((PairView { table, atlas }, end)),
        },
    }
}

/// The `n` checkpoints that stand from `o` on, and where they end.
pub open spec fn pairs_at(b: Seq<u8>, o: int, n: nat) -> Result<(Seq<PairView>, int), LoadError>
    decreases n,
{
    if n == 0 {
        Ok((Seq::empty(), o))
    } else {
        match pairs_at(b, o, (n - 1) as nat) {
            Err(e) => Err(e),
            Ok((s, at)) => match pair_at(b, at) {
                Err(e) => Err(e),
                Ok((p, end)) => Ok((s.push(p), end)),
            },
        }
    }
}

/// What breaks off early stays broken off.
proof fn lemma_pairs_err(b: Seq<u8>, o: int, n: nat, k: nat)
    requires
        n <= k,
        pairs_at(b, o, n) is Err,
    ensures
        pairs_at(b, o, k) == pairs_at(b, o, n),
    decreases k,
{
    if n < k {
        lemma_pairs_err(b, o, n, (k - 1) as nat);
    }
}

/// What the file `b` holds as a plan.
pub open spec fn parse_plan(b: Seq<u8>) -> Result<PlanView, LoadError> {
    if b.len() < 12 {
        Err(LoadError::TooShort)
    } else if b.subrange(0, 8) != magic_plan() {
        Err(LoadError::BadMagic)
    } else {
        match list_at(b, 8) {
            Err(e) => Err(e),
            Ok((tau_edges, at)) => if at + 4 > b.len() {
                Err(LoadError::Read(ReadError::U32))
            } else {
                match pairs_at(b, at + 4, u32_at(b, at) as nat) {
                    Err(e) => Err(e),
                    Ok((pairs, _)) => Ok(PlanView { tau_edges, pairs }),
                }
            },
        }
    }
}

/// Reads a plan.
pub fn load_prefix_certify_plan(buf: &[u8]) -> (r: Result<LoadedPrefixCertifyPlan, LoadError>)
    ensures
        match parse_plan(buf@) {
            Ok(p) => r matches Ok(x) && x@ == p,
            Err(e) => r == Err::<LoadedPrefixCertifyPlan, LoadError>(e),
        },
{
    let len: usize = buf.len();
    if len < 12 {
        return Err(LoadError::TooShort);
    }
    let magic: [u8; 8] = [76, 50, 67, 69, 82, 84, 86, 49];
    assert(magic@ =~= magic_plan());
    if !begins_with(buf, magic.as_slice()) {
        return Err(LoadError::BadMagic);
    }
    let mut off: usize = 8;
    let tau_edges: Vec<u32> = match read_list(buf, &mut off) {
        Ok(v) => v,
        Err(e) => {
            return Err(e);
        },
    };
    let count: u32 = match le_u32(buf, &mut off) {
        Ok(v) => v,
        Err(e) => {
            return Err(LoadError::Read(e));
        },
    };
    let ghost from = off as int;
    let mut checkpoints: Vec<LoadedPrefixCertifyCheckpoint> = Vec::new();
    let mut i: u32 = 0;
    assert(pairs_of(checkpoints@) =~= Seq::empty());
    while i < count
        invariant
            i <= count,
            off <= buf@.len(),
            i == checkpoints@.len(),
            buf@.len() >= 12,
            buf@.subrange(0, 8) == magic_plan(),
            list_at(buf@, 8) == Ok::<(Seq<u32>, int), LoadError>((tau_edges@, from - 4)),
            from <= buf@.len(),
            count == u32_at(buf@, from - 4),
            pairs_at(buf@, from, i as nat) == Ok::<(Seq<PairView>, int), LoadError>(
                (pairs_of(checkpoints@), off as int),
            ),
        decreases count - i,
    {
        let table: LoadedPrefixCheckpoint = match read_table(buf, &mut off) {
            Ok(v) => v,
            Err(e) => {
                proof {
                    lemma_pairs_err(buf@, from, (i + 1) as nat, count as nat);
                }
                return Err(e);
            },
        };
        let atlas: LoadedPrefixAtlasCheckpoint = match read_atlas(buf, &mut off) {
            Ok(v) => v,
            Err(e) => {
                proof {
                    lemma_pairs_err(buf@, from, (i + 1) as nat, count as nat);
                }
                return Err(e);
            },
        };
        let ghost before = pairs_of(checkpoints@);
        checkpoints.push(LoadedPrefixCertifyCheckpoint { table, atlas });
        assert(pairs_of(checkpoints@) =~= before.push(PairView { table: table@, atlas: atlas@ }));
        i += 1;
    }
    Ok(LoadedPrefixCertifyPlan { tau_edges, checkpoints })
}

/// Whether a count fits a word.
pub open spec fn fits_word(n: nat) -> bool {
    n <= u32::MAX
}

/// Whether the bands can be written: every count fits a word.
pub open spec fn table_writable(t: BandView) -> bool {
    &&& t.checkpoint <= u32::MAX
    &&& t.tau_bin_count <= u32::MAX
    &&& fits_word(t.gap_edges.len())
    &&& fits_word(t.global_ref_hi.len())
    &&& fits_word(t.global_rej_lo.len())
    &&& fits_word(t.tau_edges.len())
    &&& fits_word(t.fold_ids.len())
    &&& fits_word(t.fold_slot_lut.len())
    &&& fits_word(t.fold_ref_hi.len())
    &&& fits_word(t.fold_rej_lo.len())
    &&& fits_word(t.tau_fold_mask.len())
    &&& fits_word(t.tau_ref_hi.len())
    &&& fits_word(t.tau_rej_lo.len())
}

/// Whether the atlas can be written: every count fits a word, and the mark of sixteen clusters
/// says what it should.
pub open spec fn atlas_writable(a: AtlasView) -> bool {
    &&& a.checkpoint <= u32::MAX
    &&& a.cluster_count <= u32::MAX
    &&& a.tau_bin_count <= u32::MAX
    &&& a.feature_mean.len() == 4
    &&& a.feature_inv_std.len() == 4
    &&& fits_word(a.gap_edges.len())
    &&& fits_word(a.centroid_w0.len())
    &&& fits_word(a.centroid_w1.len())
    &&& fits_word(a.centroid_w2.len())
    &&& fits_word(a.centroid_w3.len())
    &&& fits_word(a.centroid_bias.len())
    &&& fits_word(a.decision_grid.len())
    &&& a.centroids16 == (a.cluster_count == 16 && a.centroid_w0.len() == 16
        && a.centroid_w1.len() == 16 && a.centroid_w2.len() == 16 && a.centroid_w3.len() == 16
        && a.centroid_bias.len() == 16)
}

/// Whether a plan can be written.
pub open spec fn plan_writable(p: PlanView) -> bool {
    &&& fits_word(p.tau_edges.len())
    &&& fits_word(p.pairs.len())
    &&& forall|i: int|
        0 <= i < p.pairs.len() ==> table_writable(#[trigger] p.pairs[i].table) && atlas_writable(
            p.pairs[i].atlas,
        )
}

proof fn lemma_table_back(b: Seq<u8>, o: int, t: BandView)
    requires
        holds_at(b, o, table_bytes(t)),
        table_writable(t),
    ensures
        table_at(b, o) == Ok::<(BandView, int), LoadError>((t, o + table_bytes(t).len())),
{
    reveal(table_bytes);
    reveal(table_at);
    let head = table_head(t);
    let words = as_words(t.fold_ids);
    let halves = as_halves(t.fold_slot_lut);
    let h0 = u32s_bytes(head);
    let h1 = h0 + u32s_bytes(t.gap_edges);
    let h2 = h1 + u32s_bytes(t.global_ref_hi);
    let h3 = h2 + u32s_bytes(t.global_rej_lo);
    let h4 = h3 + u32s_bytes(t.tau_edges);
    let h5 = h4 + u32s_bytes(words);
    let h6 = h5 + u16s_bytes(halves);
    let h7 = h6 + u32s_bytes(t.fold_ref_hi);
    let h8 = h7 + u32s_bytes(t.fold_rej_lo);
    let h9 = h8 + t.tau_fold_mask;
    let h10 = h9 + u32s_bytes(t.tau_ref_hi);
    let h11 = h10 + u32s_bytes(t.tau_rej_lo);
    assert(h11 == table_bytes(t));
    lemma_holds_is_subrange(b, o, h11);
    lemma_holds_part(b, o, h10, u32s_bytes(t.tau_rej_lo));
    lemma_holds_part(b, o, h9, u32s_bytes(t.tau_ref_hi));
    lemma_holds_part(b, o, h8, t.tau_fold_mask);
    lemma_holds_part(b, o, h7, u32s_bytes(t.fold_rej_lo));
    lemma_holds_part(b, o, h6, u32s_bytes(t.fold_ref_hi));
    lemma_holds_part(b, o, h5, u16s_bytes(halves));
    lemma_holds_part(b, o, h4, u32s_bytes(words));
    lemma_holds_part(b, o, h3, u32s_bytes(t.tau_edges));
    lemma_holds_part(b, o, h2, u32s_bytes(t.global_rej_lo));
    lemma_holds_part(b, o, h1, u32s_bytes(t.global_ref_hi));
    lemma_holds_part(b, o, h0, u32s_bytes(t.gap_edges));
    lemma_u32s_back(b, o, head);
    lemma_u32s_back(b, o + h0.len(), t.gap_edges);
    lemma_u32s_back(b, o + h1.len(), t.global_ref_hi);
    lemma_u32s_back(b, o + h2.len(), t.global_rej_lo);
    lemma_u32s_back(b, o + h3.len(), t.tau_edges);
    lemma_u32s_back(b, o + h4.len(), words);
    lemma_u16s_back(b, o + h5.len(), halves);
    lemma_u32s_back(b, o + h6.len(), t.fold_ref_hi);
    lemma_u32s_back(b, o + h7.len(), t.fold_rej_lo);
    lemma_holds_is_subrange(b, o + h8.len(), t.tau_fold_mask);
    lemma_u32s_back(b, o + h9.len(), t.tau_ref_hi);
    lemma_u32s_back(b, o + h10.len(), t.tau_rej_lo);
    lemma_signed_back(t.fold_ids);
    lemma_short_back(t.fold_slot_lut);
    let base = t.fold_lut_base;
    assert((base as u32) as i32 == base) by (bit_vector);
    assert(u32s_at(b, o, 14) == head);
    assert(table_at(b, o)->Ok_0.0 =~= t);
}

proof fn lemma_list_back(b: Seq<u8>, o: int, s: Seq<u32>)
    requires
        holds_at(b, o, list_bytes(s)),
        fits_word(s.len()),
    ensures
        list_at(b, o) == Ok::<(Seq<u32>, int), LoadError>((s, o + list_bytes(s).len())),
        list_bytes(s).len() == 4 + 4 * s.len(),
{
    broadcast use group_number_lens;

    lemma_holds_is_subrange(b, o, list_bytes(s));
    lemma_holds_part(b, o, u32_bytes(s.len() as u32), u32s_bytes(s));
    lemma_u32_back(b, o, s.len() as u32);
    lemma_u32s_back(b, o + 4, s);
}

#[verifier::rlimit(30)]
proof fn lemma_atlas_back(b: Seq<u8>, o: int, a: AtlasView)
    requires
        holds_at(b, o, atlas_bytes(a)),
        atlas_writable(a),
    ensures
        atlas_at(b, o) == Ok::<(AtlasView, int), LoadError>((a, o + atlas_bytes(a).len())),
{
    broadcast use group_number_lens;

    reveal(atlas_bytes);
    reveal(atlas_at);
    let h0 = u32_bytes(a.checkpoint as u32);
    let h1 = h0 + seq![shared_byte(a.shared_gap_edges)];
    let h2 = h1 + u32_bytes(a.gap_edges.len() as u32);
    let h3 = h2 + u32_bytes(a.cluster_count as u32);
    let h4 = h3 + u32_bytes(a.tau_bin_count as u32);
    let h5 = h4 + u32s_bytes(a.feature_mean);
    let h6 = h5 + u32s_bytes(a.feature_inv_std);
    let h7 = h6 + u32s_bytes(a.gap_edges);
    let h8 = h7 + list_bytes(a.centroid_w0);
    let h9 = h8 + list_bytes(a.centroid_w1);
    let h10 = h9 + list_bytes(a.centroid_w2);
    let h11 = h10 + list_bytes(a.centroid_w3);
    let h12 = h11 + list_bytes(a.centroid_bias);
    let h13 = h12 + u32_bytes(a.decision_grid.len() as u32);
    let h14 = h13 + a.decision_grid;
    assert(h14 == atlas_bytes(a));
    lemma_holds_is_subrange(b, o, h14);
    lemma_holds_part(b, o, h13, a.decision_grid);
    lemma_holds_part(b, o, h12, u32_bytes(a.decision_grid.len() as u32));
    lemma_holds_part(b, o, h11, list_bytes(a.centroid_bias));
    lemma_holds_part(b, o, h10, list_bytes(a.centroid_w3));
    lemma_holds_part(b, o, h9, list_bytes(a.centroid_w2));
    lemma_holds_part(b, o, h8, list_bytes(a.centroid_w1));
    lemma_holds_part(b, o, h7, list_bytes(a.centroid_w0));
    lemma_holds_part(b, o, h6, u32s_bytes(a.gap_edges));
    lemma_holds_part(b, o, h5, u32s_bytes(a.feature_inv_std));
    lemma_holds_part(b, o, h4, u32s_bytes(a.feature_mean));
    lemma_holds_part(b, o, h3, u32_bytes(a.tau_bin_count as u32));
    lemma_holds_part(b, o, h2, u32_bytes(a.cluster_count as u32));
    lemma_holds_part(b, o, h1, u32_bytes(a.gap_edges.len() as u32));
    lemma_holds_part(b, o, h0, seq![shared_byte(a.shared_gap_edges)]);
    lemma_u32_back(b, o, a.checkpoint as u32);
    lemma_holds_is_subrange(b, o + 4, seq![shared_byte(a.shared_gap_edges)]);
    assert(b[o + 4] == b.subrange(o + 4, o + 5)[0]);
    lemma_u32_back(b, o + 5, a.gap_edges.len() as u32);
    lemma_u32_back(b, o + 9, a.cluster_count as u32);
    lemma_u32_back(b, o + 13, a.tau_bin_count as u32);
    lemma_u32s_back(b, o + 17, a.feature_mean);
    lemma_u32s_back(b, o + 33, a.feature_inv_std);
    lemma_u32s_back(b, o + 49, a.gap_edges);
    lemma_list_back(b, o + h7.len(), a.centroid_w0);
    lemma_list_back(b, o + h8.len(), a.centroid_w1);
    lemma_list_back(b, o + h9.len(), a.centroid_w2);
    lemma_list_back(b, o + h10.len(), a.centroid_w3);
    lemma_list_back(b, o + h11.len(), a.centroid_bias);
    lemma_five_lists(b, o + h7.len());
    lemma_u32_back(b, o + h12.len(), a.decision_grid.len() as u32);
    lemma_holds_is_subrange(b, o + h13.len(), a.decision_grid);
    assert(atlas_at(b, o)->Ok_0.0 =~= a);
}

proof fn lemma_pairs_back(b: Seq<u8>, o: int, s: Seq<PairView>, n: int)
    requires
        0 <= n <= s.len(),
        holds_at(b, o, pairs_bytes(s, n)),
        forall|i: int|
            0 <= i < s.len() ==> table_writable(#[trigger] s[i].table) && atlas_writable(
                s[i].atlas,
            ),
    ensures
        pairs_at(b, o, n as nat) == Ok::<(Seq<PairView>, int), LoadError>(
            (s.subrange(0, n), o + pairs_bytes(s, n).len()),
        ),
    decreases n,
{
    if n == 0 {
        assert(s.subrange(0, 0) =~= Seq::empty());
    } else {
        let before = pairs_bytes(s, n - 1);
        let p = s[n - 1];
        assert(pairs_bytes(s, n) == before + pair_bytes(p));
        lemma_holds_part(b, o, before, pair_bytes(p));
        lemma_pairs_back(b, o, s, n - 1);
        let at = o + before.len();
        lemma_holds_part(b, at, table_bytes(p.table), atlas_bytes(p.atlas));
        assert(table_writable(s[n - 1].table));
        lemma_table_back(b, at, p.table);
        lemma_atlas_back(b, at + table_bytes(p.table).len(), p.atlas);
        assert(s.subrange(0, n) =~= s.subrange(0, n - 1).push(p));
    }
}

/// A plan is read back as it was written.
pub proof fn law_plan_round_trip(p: PlanView)
    requires
        plan_writable(p),
    ensures
        parse_plan(plan_bytes(p)) == Ok::<PlanView, LoadError>(p),
{
    broadcast use group_number_lens;

    let b = plan_bytes(p);
    let n = p.pairs.len() as int;
    let h0 = magic_plan();
    let h1 = h0 + list_bytes(p.tau_edges);
    let h2 = h1 + u32_bytes(n as u32);
    lemma_holds_whole(b);
    assert(b == h2 + pairs_bytes(p.pairs, n));
    lemma_holds_part(b, 0, h2, pairs_bytes(p.pairs, n));
    lemma_holds_part(b, 0, h1, u32_bytes(n as u32));
    lemma_holds_part(b, 0, h0, list_bytes(p.tau_edges));
    lemma_holds_is_subrange(b, 0, h0);
    lemma_list_back(b, 8, p.tau_edges);
    lemma_u32_back(b, h1.len() as int, n as u32);
    assert forall|i: int| 0 <= i < p.pairs.len() implies table_writable(
        #[trigger] p.pairs[i].table,
    ) && atlas_writable(p.pairs[i].atlas) by {}
    lemma_pairs_back(b, h2.len() as int, p.pairs, n);
    assert(p.pairs.subrange(0, n) =~= p.pairs);
}

} // verus!
