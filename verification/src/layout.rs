//! Which checkpoints the first trees cover, which features each later stretch needs anew, and how
//! both are kept in files.

use crate::bands::LoadedPrefixCal;
use crate::forest::LoadError;
use crate::kinds::{hot_kernel, is_hot_kernel, PrefixDirectKernel};
use crate::le::{
    begins_with, get_u16s, get_u32, get_u32s, group_number_lens, lemma_holds_is_subrange,
    lemma_holds_part, lemma_holds_whole, lemma_u16s_back, lemma_u32_back, lemma_u32s_back,
    put_bytes, put_u16s, put_u32, put_u32s, u16s_at, u16s_bytes, u32_at, u32_bytes, u32s_at,
    u32s_bytes, ReadError,
};
use crate::qs_features::{
    append_tree_range_new_feature_ids, clamped, fids_readable, fresh, list_fids, narrow,
    seen_after, unseen,
};
use crate::qs_pack::{PackModel, QsPack};
use crate::stage_plan::HotStagePlan;
use vstd::prelude::*;

verus! {

broadcast use group_number_lens;

/// Checkpoints among the first trees and past them, with the features that each stretch past them
/// needs anew and the places of their cuts.
#[derive(Debug)]
pub struct HotCheckpointLayout {
    pub hot_values: Vec<usize>,
    pub hot_indices: Vec<usize>,
    pub late_values: Vec<usize>,
    pub late_indices: Vec<usize>,
    pub late_feature_ids: Vec<u16>,
    pub late_feature_offsets: Vec<u32>,
    pub late_cut_starts: Vec<u32>,
    pub late_cut_ends: Vec<u32>,
}

/// What a layout holds.
#[verifier::ext_equal]
pub struct LayoutView {
    pub hot_values: Seq<usize>,
    pub hot_indices: Seq<usize>,
    pub late_values: Seq<usize>,
    pub late_indices: Seq<usize>,
    pub late_feature_ids: Seq<u16>,
    pub late_feature_offsets: Seq<u32>,
    pub late_cut_starts: Seq<u32>,
    pub late_cut_ends: Seq<u32>,
}

impl View for HotCheckpointLayout {
    type V = LayoutView;

    open spec fn view(&self) -> LayoutView {
        LayoutView {
            hot_values: self.hot_values@,
            hot_indices: self.hot_indices@,
            late_values: self.late_values@,
            late_indices: self.late_indices@,
            late_feature_ids: self.late_feature_ids@,
            late_feature_offsets: self.late_feature_offsets@,
            late_cut_starts: self.late_cut_starts@,
            late_cut_ends: self.late_cut_ends@,
        }
    }
}

/// The places among the first `n` checkpoints that lie within the limit, or past it.
pub open spec fn places(cps: Seq<usize>, limit: int, within: bool, n: nat) -> Seq<usize>
    decreases n,
{
    if n == 0 {
        Seq::empty()
    } else {
        let before = places(cps, limit, within, (n - 1) as nat);
        if (cps[n - 1] <= limit) == within {
            before.push((n - 1) as usize)
        } else {
            before
        }
    }
}

/// The checkpoints at those places.
pub open spec fn values_at(cps: Seq<usize>, at: Seq<usize>) -> Seq<usize> {
    Seq::new(at.len(), |i: int| cps[at[i] as int])
}

/// Features and offsets so far, continued over the late checkpoints from `i` on.
pub open spec fn late_features(
    p: PackModel,
    lates: Seq<usize>,
    i: int,
    start: int,
    seen: Seq<bool>,
    ids: Seq<u16>,
    offsets: Seq<u32>,
) -> (Seq<u16>, Seq<u32>)
    decreases lates.len() - i,
{
    if i >= lates.len() {
        (ids, offsets)
    } else {
        let fids = list_fids(p, clamped(p, start, lates[i] as int));
        let more = ids + narrow(fresh(fids, seen));
        late_features(
            p,
            lates,
            i + 1,
            lates[i] as int,
            seen_after(fids, seen),
            more,
            offsets.push(more.len() as u32),
        )
    }
}

/// The layout of checkpoints over a pack whose first `limit` trees are evaluated node by node.
pub open spec fn layout_of(p: PackModel, cps: Seq<usize>, limit: int) -> LayoutView {
    let hot = places(cps, limit, true, cps.len());
    let late = places(cps, limit, false, cps.len());
    let lates = values_at(cps, late);
    let (ids, offsets) = if late.len() == 0 {
        (Seq::empty(), Seq::empty())
    } else {
        late_features(p, lates, 0, limit, unseen(p.n_features), Seq::empty(), seq![0u32])
    };
    LayoutView {
        hot_values: values_at(cps, hot),
        hot_indices: hot,
        late_values: lates,
        late_indices: late,
        late_feature_ids: ids,
        late_feature_offsets: offsets,
        late_cut_starts: Seq::empty(),
        late_cut_ends: Seq::empty(),
    }
}

/// Whether the features of every tree can be listed.
pub open spec fn features_readable(p: PackModel) -> bool {
    forall|t: int| 0 <= t < p.n_trees ==> #[trigger] fids_readable(p, t, p.n_features)
}

/// Whether some checkpoint lies past the limit.
pub open spec fn any_past(cps: Seq<usize>, limit: int) -> bool {
    exists|i: int| 0 <= i < cps.len() && #[trigger] cps[i] > limit
}

/// Where no checkpoint lies past the limit, there are no places past it.
pub proof fn lemma_none_past(cps: Seq<usize>, limit: int, n: nat)
    requires
        !any_past(cps, limit),
        n <= cps.len(),
    ensures
        places(cps, limit, false, n).len() == 0,
    decreases n,
{
    if n > 0 {
        lemma_none_past(cps, limit, (n - 1) as nat);
        assert(cps[n - 1] <= limit);
    }
}

/// Finds out whether some checkpoint lies past the limit.
pub fn lies_past(cps: &Vec<usize>, limit: usize) -> (r: bool)
    ensures
        r == any_past(cps@, limit as int),
{
    let mut i: usize = 0;
    while i < cps.len()
        invariant
            i <= cps@.len(),
            forall|k: int| 0 <= k < i ==> #[trigger] cps@[k] <= limit,
        decreases cps@.len() - i,
    {
        if cps[i] > limit {
            assert(cps@[i as int] > limit);
            return true;
        }
        i += 1;
    }
    false
}

/// Where the trees past the first ones begin.
pub open spec fn hot_limit(hot_tree_count: usize, p: PackModel) -> int {
    if hot_tree_count <= p.n_trees {
        hot_tree_count as int
    } else {
        p.n_trees
    }
}

/// Lays out the checkpoints. There is a layout only for a kernel that evaluates the first trees
/// node by node, and only where it is known how many they are.
pub fn build_hot_checkpoint_layout(
    calibration: &LoadedPrefixCal,
    hot_tree_count: Option<usize>,
    pack: &QsPack,
    direct_kernel: PrefixDirectKernel,
) -> (r: Option<HotCheckpointLayout>)
    requires
        hot_kernel(direct_kernel) && hot_tree_count is Some && any_past(
            calibration.checkpoints@,
            hot_limit(hot_tree_count->Some_0, pack@),
        ) ==> features_readable(pack@),
    ensures
        if !hot_kernel(direct_kernel) || hot_tree_count is None {
            r is None
        } else {
            let limit = hot_limit(hot_tree_count->Some_0, pack@);
            r matches Some(l) && l@ == layout_of(pack@, calibration.checkpoints@, limit)
        },
{
    if !is_hot_kernel(direct_kernel) {
        return None;
    }
    let count: usize = match hot_tree_count {
        None => {
            return None;
        },
        Some(n) => n,
    };
    let limit: usize = if count <= pack.n_trees {
        count
    } else {
        pack.n_trees
    };
    let ghost p = pack@;
    let ghost cps = calibration.checkpoints@;
    let mut out: HotCheckpointLayout = HotCheckpointLayout {
        hot_values: Vec::new(),
        hot_indices: Vec::new(),
        late_values: Vec::new(),
        late_indices: Vec::new(),
        late_feature_ids: Vec::new(),
        late_feature_offsets: Vec::new(),
        late_cut_starts: Vec::new(),
        late_cut_ends: Vec::new(),
    };
    let mut idx: usize = 0;
    while idx < calibration.checkpoints.len()
        invariant
            idx <= cps.len(),
            cps == calibration.checkpoints@,
            out.hot_indices@ == places(cps, limit as int, true, idx as nat),
            out.late_indices@ == places(cps, limit as int, false, idx as nat),
            out.hot_values@ == values_at(cps, out.hot_indices@),
            out.late_values@ == values_at(cps, out.late_indices@),
            out.late_values@.len() > 0 ==> any_past(cps, limit as int),
            out.late_feature_ids@.len() == 0,
            out.late_feature_offsets@.len() == 0,
            out.late_cut_starts@.len() == 0,
            out.late_cut_ends@.len() == 0,
        decreases cps.len() - idx,
    {
        let cp: usize = calibration.checkpoints[idx];
        if cp <= limit {
            out.hot_values.push(cp);
            out.hot_indices.push(idx);
        } else {
            assert(cps[idx as int] > limit);
            out.late_values.push(cp);
            out.late_indices.push(idx);
        }
        idx += 1;
        assert(out.hot_values@ =~= values_at(cps, out.hot_indices@));
        assert(out.late_values@ =~= values_at(cps, out.late_indices@));
    }
    if out.late_values.len() > 0 {
        let ghost lates = out.late_values@;
        let ghost want = late_features(
            p,
            lates,
            0,
            limit as int,
            unseen(p.n_features),
            Seq::empty(),
            seq![0u32],
        );
        let mut ids: Vec<u16> = Vec::new();
        let mut offsets: Vec<u32> = Vec::new();
        offsets.push(0);
        assert(offsets@ =~= seq![0u32]);
        let mut seen: Vec<bool> = vec![false; pack.n_features];
        assert(seen@ =~= unseen(p.n_features));
        let mut start: usize = limit;
        let mut i: usize = 0;
        while i < out.late_values.len()
            invariant
                i <= lates.len(),
                lates == out.late_values@,
                p == pack@,
                features_readable(p),
                seen@.len() == p.n_features,
                want == late_features(
                    p,
                    lates,
                    i as int,
                    start as int,
                    seen@,
                    ids@,
                    offsets@,
                ),
            decreases lates.len() - i,
        {
            let cp: usize = out.late_values[i];
            append_tree_range_new_feature_ids(pack, start, cp, seen.as_mut_slice(), &mut ids);
            offsets.push(ids.len() as u32);
            start = cp;
            i += 1;
        }
        out.late_feature_ids = ids;
        out.late_feature_offsets = offsets;
    }
    assert(out@ =~= layout_of(p, cps, limit as int));
    Some(out)
}

/// Whether the places of the cuts are already there.
pub open spec fn spans_there(l: LayoutView) -> bool {
    l.late_cut_starts.len() == l.late_feature_ids.len() && l.late_cut_ends.len()
        == l.late_feature_ids.len()
}

/// A layout with the places of the cuts of its features.
pub open spec fn with_spans(l: LayoutView, p: PackModel) -> LayoutView {
    if spans_there(l) {
        l
    } else {
        LayoutView {
            late_cut_starts: Seq::new(
                l.late_feature_ids.len(),
                |i: int| p.cut_offsets[l.late_feature_ids[i] as int],
            ),
            late_cut_ends: Seq::new(
                l.late_feature_ids.len(),
                |i: int| p.cut_offsets[l.late_feature_ids[i] + 1],
            ),
            ..l
        }
    }
}

/// Fills in the places of the cuts, where they are not there yet.
pub fn populate_hot_checkpoint_quant_spans(layout: &mut HotCheckpointLayout, pack: &QsPack)
    requires
        forall|i: int|
            0 <= i < old(layout)@.late_feature_ids.len() ==> (#[trigger] old(
                layout,
            )@.late_feature_ids[i]) + 1 < pack@.cut_offsets.len(),
    ensures
        final(layout)@ == with_spans(old(layout)@, pack@),
{
    let ghost before = layout@;
    if layout.late_cut_starts.len() == layout.late_feature_ids.len() && layout.late_cut_ends.len()
        == layout.late_feature_ids.len() {
        return;
    }
    let mut starts: Vec<u32> = Vec::new();
    let mut ends: Vec<u32> = Vec::new();
    let ghost want = with_spans(before, pack@);
    let mut i: usize = 0;
    while i < layout.late_feature_ids.len()
        invariant
            i <= layout.late_feature_ids@.len(),
            layout@ == before,
            !spans_there(before),
            want == with_spans(before, pack@),
            starts@ == want.late_cut_starts.take(i as int),
            ends@ == want.late_cut_ends.take(i as int),
            forall|k: int|
                0 <= k < before.late_feature_ids.len() ==> (#[trigger] before.late_feature_ids[k])
                    + 1 < pack@.cut_offsets.len(),
        decreases layout.late_feature_ids@.len() - i,
    {
        assert(before.late_feature_ids[i as int] == layout.late_feature_ids@[i as int]);
        let fid: usize = layout.late_feature_ids[i] as usize;
        starts.push(pack.cut_offsets[fid]);
        ends.push(pack.cut_offsets[fid + 1]);
        i += 1;
        assert(starts@ =~= want.late_cut_starts.take(i as int));
        assert(ends@ =~= want.late_cut_ends.take(i as int));
    }
    layout.late_cut_starts = starts;
    layout.late_cut_ends = ends;
    assert(layout@ =~= want);
}

/// Numbers in thirty-two bits.
pub open spec fn in_32(s: Seq<usize>) -> Seq<u32> {
    Seq::new(s.len(), |i: int| s[i] as u32)
}

/// Numbers as sizes.
pub open spec fn as_sizes(s: Seq<u32>) -> Seq<usize> {
    Seq::new(s.len(), |i: int| s[i] as usize)
}

/// The first bytes of a layout file.
pub open spec fn magic_layout() -> Seq<u8> {
    seq![76, 50, 72, 67, 76, 118, 49, 0]
}

/// A layout as bytes. The places of the cuts are not kept.
pub open spec fn layout_bytes(l: LayoutView) -> Seq<u8> {
    magic_layout() + u32_bytes(l.hot_values.len() as u32) + u32_bytes(l.hot_indices.len() as u32)
        + u32_bytes(l.late_values.len() as u32) + u32_bytes(l.late_indices.len() as u32)
        + u32_bytes(l.late_feature_ids.len() as u32) + u32_bytes(
        l.late_feature_offsets.len() as u32,
    ) + u32s_bytes(in_32(l.hot_values)) + u32s_bytes(in_32(l.hot_indices)) + u32s_bytes(
        in_32(l.late_values),
    ) + u32s_bytes(in_32(l.late_indices)) + u16s_bytes(l.late_feature_ids) + u32s_bytes(
        l.late_feature_offsets,
    )
}

/// Appends sizes in thirty-two bits.
fn put_sizes(out: &mut Vec<u8>, s: &Vec<usize>)
    ensures
        final(out)@ == old(out)@ + u32s_bytes(in_32(s@)),
{
    let mut v: Vec<u32> = Vec::new();
    let mut i: usize = 0;
    while i < s.len()
        invariant
            i <= s@.len(),
            v@ == in_32(s@).take(i as int),
        decreases s@.len() - i,
    {
        v.push(s[i] as u32);
        i += 1;
        assert(v@ =~= in_32(s@).take(i as int));
    }
    assert(v@ =~= in_32(s@));
    put_u32s(out, v.as_slice());
}

/// Reads `n` sizes, the first at `i`.
fn get_sizes(buf: &[u8], i: usize, n: usize) -> (v: Vec<usize>)
    requires
        i + 4 * n <= buf@.len(),
    ensures
        v@ == as_sizes(u32s_at(buf@, i as int, n as nat)),
{
    let raw: Vec<u32> = get_u32s(buf, i, n);
    let mut v: Vec<usize> = Vec::new();
    let mut k: usize = 0;
    while k < raw.len()
        invariant
            k <= raw@.len(),
            v@ == as_sizes(raw@).take(k as int),
        decreases raw@.len() - k,
    {
        v.push(raw[k] as usize);
        k += 1;
        assert(v@ =~= as_sizes(raw@).take(k as int));
    }
    assert(v@ =~= as_sizes(raw@));
    v
}

/// Writes a layout.
pub fn save_hot_checkpoint_layout(layout: &HotCheckpointLayout) -> (out: Vec<u8>)
    ensures
        out@ == layout_bytes(layout@),
{
    let mut out: Vec<u8> = Vec::new();
    let magic: [u8; 8] = [76, 50, 72, 67, 76, 118, 49, 0];
    assert(magic@ =~= magic_layout());
    put_bytes(&mut out, magic.as_slice());
    assert(out@ =~= magic_layout());
    put_u32(&mut out, layout.hot_values.len() as u32);
    put_u32(&mut out, layout.hot_indices.len() as u32);
    put_u32(&mut out, layout.late_values.len() as u32);
    put_u32(&mut out, layout.late_indices.len() as u32);
    put_u32(&mut out, layout.late_feature_ids.len() as u32);
    put_u32(&mut out, layout.late_feature_offsets.len() as u32);
    put_sizes(&mut out, &layout.hot_values);
    put_sizes(&mut out, &layout.hot_indices);
    put_sizes(&mut out, &layout.late_values);
    put_sizes(&mut out, &layout.late_indices);
    put_u16s(&mut out, layout.late_feature_ids.as_slice());
    put_u32s(&mut out, layout.late_feature_offsets.as_slice());
    out
}

/// What the file `b` holds as a layout.
pub open spec fn parse_layout(b: Seq<u8>) -> Result<LayoutView, LoadError> {
    let n0 = u32_at(b, 8) as int;
    let n1 = u32_at(b, 12) as int;
    let n2 = u32_at(b, 16) as int;
    let n3 = u32_at(b, 20) as int;
    let n4 = u32_at(b, 24) as int;
    let n5 = u32_at(b, 28) as int;
    let o1 = 32 + 4 * n0;
    let o2 = o1 + 4 * n1;
    let o3 = o2 + 4 * n2;
    let o4 = o3 + 4 * n3;
    let o5 = o4 + 2 * n4;
    if b.len() < 32 {
        Err(LoadError::TooShort)
    } else if b.subrange(0, 8) != magic_layout() {
        Err(LoadError::BadMagic)
    } else if o4 > b.len() {
        Err(LoadError::Read(ReadError::U32))
    } else if o5 > b.len() {
        Err(LoadError::Read(ReadError::U16))
    } else if o5 + 4 * n5 > b.len() {
        Err(LoadError::Read(ReadError::U32))
    } else {
        Ok(
            LayoutView {
                hot_values: as_sizes(u32s_at(b, 32, n0 as nat)),
                hot_indices: as_sizes(u32s_at(b, o1, n1 as nat)),
                late_values: as_sizes(u32s_at(b, o2, n2 as nat)),
                late_indices: as_sizes(u32s_at(b, o3, n3 as nat)),
                late_feature_ids: u16s_at(b, o4, n4 as nat),
                late_feature_offsets: u32s_at(b, o5, n5 as nat),
                late_cut_starts: Seq::empty(),
                late_cut_ends: Seq::empty(),
            },
        )
    }
}

/// Reads a layout.
pub fn load_hot_checkpoint_layout(buf: &[u8]) -> (r: Result<HotCheckpointLayout, LoadError>)
    ensures
        match parse_layout(buf@) {
            Ok(l) => r matches Ok(x) && x@ == l,
            Err(e) => r == Err::<HotCheckpointLayout, LoadError>(e),
        },
{
    let len: usize = buf.len();
    if len < 32 {
        return Err(LoadError::TooShort);
    }
    let magic: [u8; 8] = [76, 50, 72, 67, 76, 118, 49, 0];
    assert(magic@ =~= magic_layout());
    if !begins_with(buf, magic.as_slice()) {
        return Err(LoadError::BadMagic);
    }
    let n0: u64 = get_u32(buf, 8) as u64;
    let n1: u64 = get_u32(buf, 12) as u64;
    let n2: u64 = get_u32(buf, 16) as u64;
    let n3: u64 = get_u32(buf, 20) as u64;
    let n4: u64 = get_u32(buf, 24) as u64;
    let n5: u64 = get_u32(buf, 28) as u64;
    let o1: u64 = 32 + 4 * n0;
    let o2: u64 = o1 + 4 * n1;
    let o3: u64 = o2 + 4 * n2;
    let o4: u64 = o3 + 4 * n3;
    let o5: u64 = o4 + 2 * n4;
    if o4 > len as u64 {
        return Err(LoadError::Read(ReadError::U32));
    }
    if o5 > len as u64 {
        return Err(LoadError::Read(ReadError::U16));
    }
    if o5 + 4 * n5 > len as u64 {
        return Err(LoadError::Read(ReadError::U32));
    }
    let out: HotCheckpointLayout = HotCheckpointLayout {
        hot_values: get_sizes(buf, 32, n0 as usize),
        hot_indices: get_sizes(buf, o1 as usize, n1 as usize),
        late_values: get_sizes(buf, o2 as usize, n2 as usize),
        late_indices: get_sizes(buf, o3 as usize, n3 as usize),
        late_feature_ids: get_u16s(buf, o4 as usize, n4 as usize),
        late_feature_offsets: get_u32s(buf, o5 as usize, n5 as usize),
        late_cut_starts: Vec::new(),
        late_cut_ends: Vec::new(),
    };
    assert(out@ =~= parse_layout(buf@)->Ok_0);
    Ok(out)
}

/// Whether every number fits thirty-two bits.
pub open spec fn small(s: Seq<usize>) -> bool {
    &&& s.len() <= u32::MAX
    &&& forall|i: int| 0 <= i < s.len() ==> #[trigger] s[i] <= u32::MAX
}

/// A layout without the places of the cuts is read back as it was written.
pub proof fn law_layout_round_trip(l: LayoutView)
    requires
        small(l.hot_values),
        small(l.hot_indices),
        small(l.late_values),
        small(l.late_indices),
        l.late_feature_ids.len() <= u32::MAX,
        l.late_feature_offsets.len() <= u32::MAX,
        l.late_cut_starts.len() == 0,
        l.late_cut_ends.len() == 0,
    ensures
        parse_layout(layout_bytes(l)) == Ok::<LayoutView, LoadError>(l),
{
    let b = layout_bytes(l);
    let a0 = in_32(l.hot_values);
    let a1 = in_32(l.hot_indices);
    let a2 = in_32(l.late_values);
    let a3 = in_32(l.late_indices);
    let h0 = magic_layout();
    let h1 = h0 + u32_bytes(l.hot_values.len() as u32);
    let h2 = h1 + u32_bytes(l.hot_indices.len() as u32);
    let h3 = h2 + u32_bytes(l.late_values.len() as u32);
    let h4 = h3 + u32_bytes(l.late_indices.len() as u32);
    let h5 = h4 + u32_bytes(l.late_feature_ids.len() as u32);
    let h6 = h5 + u32_bytes(l.late_feature_offsets.len() as u32);
    let h7 = h6 + u32s_bytes(a0);
    let h8 = h7 + u32s_bytes(a1);
    let h9 = h8 + u32s_bytes(a2);
    let h10 = h9 + u32s_bytes(a3);
    let h11 = h10 + u16s_bytes(l.late_feature_ids);
    lemma_holds_whole(b);
    lemma_holds_part(b, 0, h11, u32s_bytes(l.late_feature_offsets));
    lemma_holds_part(b, 0, h10, u16s_bytes(l.late_feature_ids));
    lemma_holds_part(b, 0, h9, u32s_bytes(a3));
    lemma_holds_part(b, 0, h8, u32s_bytes(a2));
    lemma_holds_part(b, 0, h7, u32s_bytes(a1));
    lemma_holds_part(b, 0, h6, u32s_bytes(a0));
    lemma_holds_part(b, 0, h5, u32_bytes(l.late_feature_offsets.len() as u32));
    lemma_holds_part(b, 0, h4, u32_bytes(l.late_feature_ids.len() as u32));
    lemma_holds_part(b, 0, h3, u32_bytes(l.late_indices.len() as u32));
    lemma_holds_part(b, 0, h2, u32_bytes(l.late_values.len() as u32));
    lemma_holds_part(b, 0, h1, u32_bytes(l.hot_indices.len() as u32));
    lemma_holds_part(b, 0, h0, u32_bytes(l.hot_values.len() as u32));
    lemma_holds_is_subrange(b, 0, h0);
    lemma_u32_back(b, 8, l.hot_values.len() as u32);
    lemma_u32_back(b, 12, l.hot_indices.len() as u32);
    lemma_u32_back(b, 16, l.late_values.len() as u32);
    lemma_u32_back(b, 20, l.late_indices.len() as u32);
    lemma_u32_back(b, 24, l.late_feature_ids.len() as u32);
    lemma_u32_back(b, 28, l.late_feature_offsets.len() as u32);
    let o1 = 32 + 4 * a0.len() as int;
    let o2 = o1 + 4 * a1.len() as int;
    let o3 = o2 + 4 * a2.len() as int;
    let o4 = o3 + 4 * a3.len() as int;
    let o5 = o4 + 2 * l.late_feature_ids.len() as int;
    lemma_u32s_back(b, 32, a0);
    lemma_u32s_back(b, o1, a1);
    lemma_u32s_back(b, o2, a2);
    lemma_u32s_back(b, o3, a3);
    lemma_u16s_back(b, o4, l.late_feature_ids);
    lemma_u32s_back(b, o5, l.late_feature_offsets);
    assert(as_sizes(a0) =~= l.hot_values);
    assert(as_sizes(a1) =~= l.hot_indices);
    assert(as_sizes(a2) =~= l.late_values);
    assert(as_sizes(a3) =~= l.late_indices);
    assert(parse_layout(b)->Ok_0 =~= l);
}

/// One stage of the first trees.
#[derive(Clone, Copy, Debug, PartialEq, Eq, Structural)]
pub struct PrefixV2HotStage {
    pub checkpoint: usize,
    pub global_cp_idx: usize,
    pub feature_start: u32,
    pub feature_end: u32,
}

/// The stages of the first trees, each with its checkpoint slot and features.
#[derive(Debug)]
pub struct PrefixV2HotStagePlan {
    pub hot_feature_ids: Vec<u16>,
    pub stages: Vec<PrefixV2HotStage>,
}

/// Why stages and checkpoint slots do not go together.
#[derive(Clone, Copy, Debug, PartialEq, Eq, Structural)]
pub enum StageMatchError {
    Slots { checkpoints: usize, slots: usize },
    Offsets { offsets: usize, checkpoints: usize },
}

/// Stage `i` of a plan.
pub open spec fn stage_at(cps: Seq<usize>, offs: Seq<u32>, slots: Seq<usize>, i: int) -> PrefixV2HotStage {
    PrefixV2HotStage {
        checkpoint: cps[i],
        global_cp_idx: slots[i],
        feature_start: offs[i],
        feature_end: offs[i + 1],
    }
}

/// Joins stages with checkpoint slots.
pub fn build_prefix_v2_hot_stage_plan(stage_plan: &HotStagePlan, hot_indices: &[usize]) -> (r: Result<
    PrefixV2HotStagePlan,
    StageMatchError,
>)
    ensures
        ({
            let cps = stage_plan.checkpoints@;
            let offs = stage_plan.feature_offsets@;
            if cps.len() != hot_indices@.len() {
                r == Err::<PrefixV2HotStagePlan, StageMatchError>(
                    StageMatchError::Slots {
                        checkpoints: cps.len() as usize,
                        slots: hot_indices@.len() as usize,
                    },
                )
            } else if offs.len() != cps.len() + 1 {
                r == Err::<PrefixV2HotStagePlan, StageMatchError>(
                    StageMatchError::Offsets {
                        offsets: offs.len() as usize,
                        checkpoints: cps.len() as usize,
                    },
                )
            } else {
                r matches Ok(p) && p.hot_feature_ids@ == stage_plan.hot_feature_ids@ && p.stages@
                    == Seq::new(cps.len(), |i: int| stage_at(cps, offs, hot_indices@, i))
            }
        }),
{
    let n: usize = stage_plan.checkpoints.len();
    if n != hot_indices.len() {
        return Err(StageMatchError::Slots { checkpoints: n, slots: hot_indices.len() });
    }
    if stage_plan.feature_offsets.len() == 0 || stage_plan.feature_offsets.len() - 1 != n {
        return Err(
            StageMatchError::Offsets { offsets: stage_plan.feature_offsets.len(), checkpoints: n },
        );
    }
    let ghost want = Seq::new(
        n as nat,
        |i: int|
            stage_at(stage_plan.checkpoints@, stage_plan.feature_offsets@, hot_indices@, i),
    );
    let mut stages: Vec<PrefixV2HotStage> = Vec::new();
    let mut i: usize = 0;
    while i < n
        invariant
            i <= n,
            n == stage_plan.checkpoints@.len(),
            n == hot_indices@.len(),
            n + 1 == stage_plan.feature_offsets@.len(),
            want == Seq::new(
                n as nat,
                |i: int|
                    stage_at(stage_plan.checkpoints@, stage_plan.feature_offsets@, hot_indices@, i),
            ),
            stages@ == want.take(i as int),
        decreases n - i,
    {
        stages.push(
            PrefixV2HotStage {
                checkpoint: stage_plan.checkpoints[i],
                global_cp_idx: hot_indices[i],
                feature_start: stage_plan.feature_offsets[i],
                feature_end: stage_plan.feature_offsets[i + 1],
            },
        );
        i += 1;
        assert(stages@ =~= want.take(i as int));
    }
    assert(stages@ =~= want);
    Ok(
        PrefixV2HotStagePlan {
            hot_feature_ids: vstd::slice::slice_to_vec(stage_plan.hot_feature_ids.as_slice()),
            stages,
        },
    )
}

/// The first bytes of a stage file.
pub open spec fn magic_stages() -> Seq<u8> {
    seq![76, 50, 80, 50, 83, 84, 71, 49]
}

/// The numbers of one stage.
pub open spec fn stage_numbers(s: PrefixV2HotStage) -> Seq<u32> {
    seq![s.checkpoint as u32, s.global_cp_idx as u32, s.feature_start, s.feature_end]
}

/// The numbers of stages, one after the other.
pub open spec fn stages_numbers(s: Seq<PrefixV2HotStage>) -> Seq<u32>
    decreases s.len(),
{
    if s.len() == 0 {
        Seq::empty()
    } else {
        stages_numbers(s.drop_last()) + stage_numbers(s.last())
    }
}

/// The stage that four numbers make.
pub open spec fn stage_from(v: Seq<u32>, i: int) -> PrefixV2HotStage {
    PrefixV2HotStage {
        checkpoint: v[4 * i] as usize,
        global_cp_idx: v[4 * i + 1] as usize,
        feature_start: v[4 * i + 2],
        feature_end: v[4 * i + 3],
    }
}

/// Stages as bytes.
pub open spec fn stages_bytes(ids: Seq<u16>, stages: Seq<PrefixV2HotStage>) -> Seq<u8> {
    magic_stages() + u32_bytes(ids.len() as u32) + u32_bytes(stages.len() as u32) + u16s_bytes(ids)
        + u32s_bytes(stages_numbers(stages))
}

/// Writes stages.
pub fn save_prefix_v2_hot_stage_plan(plan: &PrefixV2HotStagePlan) -> (out: Vec<u8>)
    ensures
        out@ == stages_bytes(plan.hot_feature_ids@, plan.stages@),
{
    let mut out: Vec<u8> = Vec::new();
    let magic: [u8; 8] = [76, 50, 80, 50, 83, 84, 71, 49];
    assert(magic@ =~= magic_stages());
    put_bytes(&mut out, magic.as_slice());
    assert(out@ =~= magic_stages());
    put_u32(&mut out, plan.hot_feature_ids.len() as u32);
    put_u32(&mut out, plan.stages.len() as u32);
    put_u16s(&mut out, plan.hot_feature_ids.as_slice());
    let mut v: Vec<u32> = Vec::new();
    let mut i: usize = 0;
    while i < plan.stages.len()
        invariant
            i <= plan.stages@.len(),
            v@ == stages_numbers(plan.stages@.take(i as int)),
        decreases plan.stages@.len() - i,
    {
        let s: PrefixV2HotStage = plan.stages[i];
        v.push(s.checkpoint as u32);
        v.push(s.global_cp_idx as u32);
        v.push(s.feature_start);
        v.push(s.feature_end);
        assert(plan.stages@.take(i + 1).drop_last() =~= plan.stages@.take(i as int));
        i += 1;
        assert(v@ =~= stages_numbers(plan.stages@.take(i as int)));
    }
    assert(plan.stages@.take(i as int) =~= plan.stages@);
    put_u32s(&mut out, v.as_slice());
    out
}

/// What the file `b` holds as stages.
pub open spec fn parse_stages(b: Seq<u8>) -> Result<(Seq<u16>, Seq<PrefixV2HotStage>), LoadError> {
    let n = u32_at(b, 8) as int;
    let k = u32_at(b, 12) as int;
    let at = 16 + 2 * n;
    if b.len() < 16 {
        Err(LoadError::TooShort)
    } else if b.subrange(0, 8) != magic_stages() {
        Err(LoadError::BadMagic)
    } else if at > b.len() {
        Err(LoadError::Read(ReadError::U16))
    } else if at + 16 * k > b.len() {
        Err(LoadError::Read(ReadError::U32))
    } else {
        Ok(
            (
                u16s_at(b, 16, n as nat),
                Seq::new(k as nat, |i: int| stage_from(u32s_at(b, at, (4 * k) as nat), i)),
            ),
        )
    }
}

/// Reads stages.
pub fn load_prefix_v2_hot_stage_plan(buf: &[u8]) -> (r: Result<PrefixV2HotStagePlan, LoadError>)
    ensures
        match parse_stages(buf@) {
            Ok((ids, stages)) => r matches Ok(p) && p.hot_feature_ids@ == ids && p.stages@
                == stages,
            Err(e) => r == Err::<PrefixV2HotStagePlan, LoadError>(e),
        },
{
    let len: usize = buf.len();
    if len < 16 {
        return Err(LoadError::TooShort);
    }
    let magic: [u8; 8] = [76, 50, 80, 50, 83, 84, 71, 49];
    assert(magic@ =~= magic_stages());
    if !begins_with(buf, magic.as_slice()) {
        return Err(LoadError::BadMagic);
    }
    let n: u64 = get_u32(buf, 8) as u64;
    let k: u64 = get_u32(buf, 12) as u64;
    let at: u64 = 16 + 2 * n;
    if at > len as u64 {
        return Err(LoadError::Read(ReadError::U16));
    }
    if at + 16 * k > len as u64 {
        return Err(LoadError::Read(ReadError::U32));
    }
    let count: usize = k as usize;
    let ids: Vec<u16> = get_u16s(buf, 16, n as usize);
    let v: Vec<u32> = get_u32s(buf, at as usize, 4 * count);
    let ghost want = parse_stages(buf@)->Ok_0.1;
    let mut stages: Vec<PrefixV2HotStage> = Vec::new();
    let mut i: usize = 0;
    while i < count
        invariant
            i <= count,
            v@.len() == 4 * count,
            want == Seq::new(count as nat, |i: int| stage_from(v@, i)),
            stages@ == want.take(i as int),
        decreases count - i,
    {
        assert(v@.len() == v.len());
        stages.push(
            PrefixV2HotStage {
                checkpoint: v[4 * i] as usize,
                global_cp_idx: v[4 * i + 1] as usize,
                feature_start: v[4 * i + 2],
                feature_end: v[4 * i + 3],
            },
        );
        i += 1;
        assert(stages@ =~= want.take(i as int));
    }
    assert(stages@ =~= want);
    Ok(PrefixV2HotStagePlan { hot_feature_ids: ids, stages })
}

proof fn lemma_stage_numbers(s: Seq<PrefixV2HotStage>)
    requires
        forall|i: int|
            0 <= i < s.len() ==> (#[trigger] s[i]).checkpoint <= u32::MAX && s[i].global_cp_idx
                <= u32::MAX,
    ensures
        stages_numbers(s).len() == 4 * s.len(),
        forall|i: int| 0 <= i < s.len() ==> #[trigger] stage_from(stages_numbers(s), i) == s[i],
    decreases s.len(),
{
    if s.len() > 0 {
        let head = s.drop_last();
        lemma_stage_numbers(head);
        assert forall|i: int| 0 <= i < s.len() implies #[trigger] stage_from(stages_numbers(s), i)
            == s[i] by {
            if i < head.len() {
                assert(stage_from(stages_numbers(head), i) == head[i]);
            }
        }
    }
}

/// Stages are read back as they were written.
pub proof fn law_stages_round_trip(ids: Seq<u16>, stages: Seq<PrefixV2HotStage>)
    requires
        ids.len() <= u32::MAX,
        stages.len() <= u32::MAX,
        forall|i: int|
            0 <= i < stages.len() ==> (#[trigger] stages[i]).checkpoint <= u32::MAX
                && stages[i].global_cp_idx <= u32::MAX,
    ensures
        parse_stages(stages_bytes(ids, stages)) == Ok::<
            (Seq<u16>, Seq<PrefixV2HotStage>),
            LoadError,
        >((ids, stages)),
{
    let b = stages_bytes(ids, stages);
    let v = stages_numbers(stages);
    lemma_stage_numbers(stages);
    let h0 = magic_stages();
    let h1 = h0 + u32_bytes(ids.len() as u32);
    let h2 = h1 + u32_bytes(stages.len() as u32);
    let h3 = h2 + u16s_bytes(ids);
    lemma_holds_whole(b);
    lemma_holds_part(b, 0, h3, u32s_bytes(v));
    lemma_holds_part(b, 0, h2, u16s_bytes(ids));
    lemma_holds_part(b, 0, h1, u32_bytes(stages.len() as u32));
    lemma_holds_part(b, 0, h0, u32_bytes(ids.len() as u32));
    lemma_holds_is_subrange(b, 0, h0);
    lemma_u32_back(b, 8, ids.len() as u32);
    lemma_u32_back(b, 12, stages.len() as u32);
    lemma_u16s_back(b, 16, ids);
    lemma_u32s_back(b, 16 + 2 * ids.len() as int, v);
    let got = parse_stages(b)->Ok_0.1;
    assert forall|i: int| 0 <= i < stages.len() implies got[i] == stages[i] by {
        assert(stage_from(v, i) == stages[i]);
    }
    assert(got =~= stages);
}

} // verus!
