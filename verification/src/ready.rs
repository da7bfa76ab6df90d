//! Finding out whether models hold everything that rows look up in them.

use crate::certify::{
    atlas_sound, pair_sound, LoadedPrefixAtlas, LoadedPrefixCertifyPlan, PrefixCertifierKind,
};
use crate::bands::table_sound;
use crate::compact::model_fits;
use crate::exp_v1::{
    exp_ready, late_blocks, lemma_late_blocks_grow, part_fits, L2ExpV1Runtime,
};
use crate::forest::{SoaModel, TreeOrder};
use crate::hot::MAX_TREE_MOVES;
use crate::hot_pack::HotCompiledPrefixPack;
use crate::kinds::is_hot_kernel;
use crate::layout::{HotCheckpointLayout, PrefixV2HotStage};
use crate::minpack::{l1_course, l2_ready, MinpackRuntime, OnlineL2Runtime};
use crate::online::{
    late_fits, lemma_segment_blocks_grow, lemma_stage_trees_grow, list_stages, online_ready,
    prepared_ready, segment_blocks, segment_fits, segments_fit, stage_begin, stage_trees,
    stage_work, stages_countable, stages_fit, stages_of,
};
use crate::prefix_runtime::{
    layout_fits, plan_sound, runtime_sound, LoadedLateSegment, LoadedPrefixRuntime,
};
use crate::pack_check::{feature_takes, pack_sound, top_rank};
use crate::qs_pack::QsPack;
use crate::qs_score::{block_total, indices, lemma_block_total_grows, span};
use crate::traverse::course_ready;
use vstd::prelude::*;

verus! {

fn first_below(v: &Vec<usize>, count: usize, n: usize) -> (r: bool)
    requires
        count <= v@.len(),
    ensures
        r == (forall|i: int| 0 <= i < count ==> #[trigger] v@[i] < n),
{
    let mut k: usize = 0;
    while k < count
        invariant
            k <= count <= v@.len(),
            forall|i: int| 0 <= i < k ==> #[trigger] v@[i] < n,
        decreases count - k,
    {
        if v[k] >= n {
            return false;
        }
        k += 1;
    }
    true
}

fn all_below_32(v: &Vec<u32>, n: usize) -> (r: bool)
    ensures
        r == (forall|i: int| 0 <= i < v@.len() ==> #[trigger] v@[i] < n),
{
    let mut k: usize = 0;
    while k < v.len()
        invariant
            k <= v@.len(),
            forall|i: int| 0 <= i < k ==> #[trigger] v@[i] < n,
        decreases v@.len() - k,
    {
        if v[k] as u64 >= n as u64 {
            return false;
        }
        k += 1;
    }
    true
}

fn all_below_16(v: &Vec<u16>, n: usize) -> (r: bool)
    ensures
        r == (forall|i: int| 0 <= i < v@.len() ==> #[trigger] v@[i] < n),
{
    let mut k: usize = 0;
    while k < v.len()
        invariant
            k <= v@.len(),
            forall|i: int| 0 <= i < k ==> #[trigger] v@[i] < n,
        decreases v@.len() - k,
    {
        if v[k] as usize >= n {
            return false;
        }
        k += 1;
    }
    true
}

impl SoaModel {
    /// Finds out whether roots, children and features of the trees are there.
    pub fn fits(&self) -> (r: bool)
        ensures
            r == model_fits(*self),
    {
        let n: usize = self.nodes.len();
        if !all_below_32(&self.tree_roots, n) {
            return false;
        }
        let mut k: usize = 0;
        while k < n
            invariant
                k <= n == self.nodes@.len(),
                forall|i: int|
                    0 <= i < k && (#[trigger] self.nodes@[i]).is_leaf == 0 ==> {
                        &&& 0 <= self.nodes@[i].fidx < self.n_features
                        &&& self.nodes@[i].left < n
                        &&& self.nodes@[i].right < n
                    },
            decreases n - k,
        {
            if self.nodes[k].is_leaf == 0 {
                if self.nodes[k].fidx < 0 || self.nodes[k].fidx as u64 >= self.n_features as u64
                    || self.nodes[k].left as u64 >= n as u64 || self.nodes[k].right as u64
                    >= n as u64 {
                    assert(self.nodes@[k as int].is_leaf == 0);
                    return false;
                }
            }
            k += 1;
        }
        true
    }
}

impl TreeOrder {
    /// Finds out whether the order lists enough trees, and only trees of a model with `n` trees.
    pub fn lists_trees_of(&self, n: usize) -> (r: bool)
        ensures
            r == (self.n_trees <= self.order@.len() && forall|p: int|
                0 <= p < self.order@.len() ==> (#[trigger] self.order@[p]) < n),
    {
        self.n_trees <= self.order.len() && all_below_32(&self.order, n)
    }
}

impl LoadedPrefixCertifyPlan {
    /// Finds out whether the plan holds everything that can be looked up in it.
    pub fn sound(&self) -> (r: bool)
        ensures
            r == plan_sound(*self),
    {
        let mut k: usize = 0;
        while k < self.checkpoints.len()
            invariant
                k <= self.checkpoints@.len(),
                forall|i: int| 0 <= i < k ==> pair_sound(#[trigger] self.checkpoints@[i]),
            decreases self.checkpoints@.len() - k,
        {
            if !self.checkpoints[k].table.sound() || !self.checkpoints[k].atlas.sound() {
                assert(!pair_sound(self.checkpoints@[k as int]));
                return false;
            }
            k += 1;
        }
        true
    }
}

fn atlas_is_sound(a: &LoadedPrefixAtlas) -> (r: bool)
    ensures
        r == (forall|i: int|
            0 <= i < a.checkpoints@.len() ==> atlas_sound(#[trigger] a.checkpoints@[i]@)),
{
    let mut k: usize = 0;
    while k < a.checkpoints.len()
        invariant
            k <= a.checkpoints@.len(),
            forall|i: int| 0 <= i < k ==> atlas_sound(#[trigger] a.checkpoints@[i]@),
        decreases a.checkpoints@.len() - k,
    {
        if !a.checkpoints[k].sound() {
            assert(!atlas_sound(a.checkpoints@[k as int]@));
            return false;
        }
        k += 1;
    }
    true
}

fn layout_is_fit(l: &HotCheckpointLayout, slots: usize) -> (r: bool)
    ensures
        r == layout_fits(l@, slots as nat),
{
    l.hot_indices.len() >= l.hot_values.len() && l.late_indices.len() >= l.late_values.len()
        && first_below(&l.hot_indices, l.hot_values.len(), slots) && first_below(
        &l.late_indices,
        l.late_values.len(),
        slots,
    )
}

impl LoadedPrefixRuntime {
    /// Finds out whether the model holds everything that rows look up in it.
    pub fn sound(&self) -> (r: bool)
        ensures
            r == runtime_sound(*self),
    {
        let slots: usize = self.calibration.tables.len();
        if !self.pack.sound() || self.pack.n_trees > 0x8000_0000
            || self.calibration.checkpoints.len() != slots {
            return false;
        }
        let mut k: usize = 0;
        while k < slots
            invariant
                k <= slots == self.calibration.tables@.len(),
                forall|i: int|
                    0 <= i < k ==> table_sound(#[trigger] self.calibration.tables@[i]@),
            decreases slots - k,
        {
            if !self.calibration.tables[k].sound() {
                assert(!table_sound(self.calibration.tables@[k as int]@));
                return false;
            }
            k += 1;
        }
        if let Some(a) = &self.atlas_certifier {
            if !atlas_is_sound(a) {
                return false;
            }
        }
        if let Some(n) = &self.mlp_certifier {
            if !n.fits() {
                return false;
            }
        }
        if let Some(h) = &self.hot_pack {
            if h.nodes.len() as u64 > MAX_TREE_MOVES || h.n_trees > 0x8000_0000 {
                return false;
            }
        }
        if let Some(h) = &self.compiled_hot_pack {
            if h.nodes.len() as u64 > MAX_TREE_MOVES || h.n_trees > 0x8000_0000 {
                return false;
            }
        }
        match &self.hot_checkpoint_layout {
            Some(l) => layout_is_fit(l, slots),
            None => true,
        }
    }
}

fn late_is_fit(l: &HotCheckpointLayout, pack: &QsPack, feat: usize, ranks: usize) -> (r: bool)
    requires
        pack_sound(pack@),
    ensures
        r == late_fits(l@, pack@, feat as nat, ranks as nat),
{
    let n: usize = l.late_feature_ids.len();
    if l.late_feature_offsets.len() <= l.late_values.len() && l.late_values.len() > 0
        || l.late_cut_starts.len() != n || l.late_cut_ends.len() != n {
        return false;
    }
    let mut k: usize = 0;
    while k < l.late_feature_offsets.len()
        invariant
            k <= l.late_feature_offsets@.len(),
            n == l.late_feature_ids@.len(),
            forall|i: int| 0 <= i < k ==> (#[trigger] l@.late_feature_offsets[i]) <= n,
        decreases l.late_feature_offsets@.len() - k,
    {
        if l.late_feature_offsets[k] as u64 > n as u64 {
            assert(l@.late_feature_offsets[k as int] > n);
            return false;
        }
        k += 1;
    }
    if !all_below_16(&l.late_feature_ids, feat) || !all_below_16(&l.late_feature_ids, ranks) {
        return false;
    }
    let mut k: usize = 0;
    while k < n
        invariant
            k <= n == l.late_feature_ids@.len(),
            l.late_cut_starts@.len() == n,
            l.late_cut_ends@.len() == n,
            pack_sound(pack@),
            forall|i: int|
                0 <= i < k ==> (#[trigger] l@.late_cut_starts[i]) <= l@.late_cut_ends[i]
                    <= pack@.cuts.len() && feature_takes(
                    pack@,
                    l@.late_feature_ids[i] as int,
                    top_rank(l@.late_cut_ends[i] - l@.late_cut_starts[i]),
                ),
        decreases n - k,
    {
        let a: u32 = l.late_cut_starts[k];
        let b: u32 = l.late_cut_ends[k];
        if a > b || b as u64 > pack.cuts.len() as u64 {
            assert(l@.late_cut_starts[k as int] == a && l@.late_cut_ends[k as int] == b);
            return false;
        }
        let top: usize = if b - a <= 255 {
            (b - a) as usize
        } else {
            255
        };
        if !pack.feature_takes(l.late_feature_ids[k] as usize, top) {
            assert(l@.late_cut_starts[k as int] == a && l@.late_cut_ends[k as int] == b);
            return false;
        }
        k += 1;
    }
    true
}

fn stages_are_fit(
    stages: &Vec<PrefixV2HotStage>,
    ids: &Vec<u16>,
    map: &Vec<u32>,
    buf: usize,
) -> (r: bool)
    ensures
        r == stages_fit(stages@, ids@, map@, buf as nat),
{
    let n: usize = ids.len();
    let mut k: usize = 0;
    while k < stages.len()
        invariant
            k <= stages@.len(),
            n == ids@.len(),
            forall|i: int|
                0 <= i < k && (#[trigger] stages@[i]).feature_end > stages@[i].feature_start
                    ==> stages@[i].feature_end <= n,
        decreases stages@.len() - k,
    {
        if stages[k].feature_end > stages[k].feature_start && stages[k].feature_end as u64
            > n as u64 {
            assert(stages@[k as int].feature_end > n);
            return false;
        }
        k += 1;
    }
    all_below_16(ids, map.len()) && all_below_16(ids, buf)
}

/// Counts the steps that stages take at most, as far as they can be counted.
fn count_stages(stages: &Vec<PrefixV2HotStage>, trees: usize) -> (r: Option<u64>)
    ensures
        match r {
            Some(x) => stages_countable(stages@, trees as int) && x == stage_work(
                stages@,
                trees as int,
            ),
            None => !stages_countable(stages@, trees as int),
        },
{
    let most: u64 = 0x1_0000_0000;
    let cap: u64 = 0x1_0000_0001;
    if trees as u64 > most {
        return None;
    }
    let mut sum: u64 = 0;
    let mut begin: usize = 0;
    let mut k: usize = 0;
    while k < stages.len()
        invariant
            k <= stages@.len(),
            trees <= most,
            most == 0x1_0000_0000,
            cap == 0x1_0000_0001,
            begin == stage_begin(stages@, k as int),
            sum == stage_trees(stages@, trees as int, k as int),
            sum <= cap,
        decreases stages@.len() - k,
    {
        let cp: usize = stages[k].checkpoint;
        if begin < cp && cp <= trees {
            sum = sum + (cp - begin) as u64;
        }
        proof {
            lemma_stage_trees_grow(stages@, trees as int, k + 1, stages@.len() as int);
        }
        if sum > cap {
            return None;
        }
        begin = cp;
        k += 1;
    }
    Some(MAX_TREE_MOVES * sum)
}

/// Adds the blocks of all trees of a pack to a count, where that fits.
fn add_blocks(pack: &QsPack, count: u64) -> (r: Option<u64>)
    requires
        pack@.n_trees <= pack@.tree_hdrs.len(),
    ensures
        match r {
            Some(x) => x == count + block_total(pack@, span(0, pack@.n_trees)),
            None => count + block_total(pack@, span(0, pack@.n_trees)) > u64::MAX,
        },
{
    let ghost p = pack@;
    let ghost all = span(0, p.n_trees);
    let mut sum: u64 = count;
    let mut t: usize = 0;
    while t < pack.n_trees
        invariant
            t <= pack.n_trees,
            p == pack@,
            all == span(0, p.n_trees),
            p.n_trees <= p.tree_hdrs.len(),
            sum == count + block_total(p, all.take(t as int)),
        decreases pack.n_trees - t,
    {
        proof {
            assert(all.take(t + 1).drop_last() =~= all.take(t as int));
            lemma_block_total_grows(p, all, t + 1);
        }
        match sum.checked_add(pack.tree_hdrs[t].block_cnt as u64) {
            None => {
                return None;
            },
            Some(x) => {
                sum = x;
            },
        }
        t += 1;
    }
    assert(all.take(t as int) =~= all);
    Some(sum)
}

/// Adds the blocks of the trees that are listed to a count, where that fits.
fn add_listed_blocks(pack: &QsPack, trees: &Vec<u32>, count: u64) -> (r: Option<u64>)
    requires
        pack@.n_trees <= pack@.tree_hdrs.len(),
    ensures
        match r {
            Some(x) => x == count + block_total(pack@, indices(trees@)),
            None => count + block_total(pack@, indices(trees@)) > u64::MAX,
        },
{
    let ghost p = pack@;
    let ghost all = indices(trees@);
    let mut sum: u64 = count;
    let mut k: usize = 0;
    while k < trees.len()
        invariant
            k <= trees@.len(),
            p == pack@,
            all == indices(trees@),
            p.n_trees <= p.tree_hdrs.len(),
            sum == count + block_total(p, all.take(k as int)),
        decreases trees@.len() - k,
    {
        proof {
            assert(all.take(k + 1).drop_last() =~= all.take(k as int));
            lemma_block_total_grows(p, all, k + 1);
        }
        let t: u32 = trees[k];
        if (t as u64) < pack.n_trees as u64 {
            match sum.checked_add(pack.tree_hdrs[t as usize].block_cnt as u64) {
                None => {
                    return None;
                },
                Some(x) => {
                    sum = x;
                },
            }
        }
        k += 1;
    }
    assert(all.take(k as int) =~= all);
    Some(sum)
}

fn segments_are_fit(
    segs: &Vec<LoadedLateSegment>,
    feat: usize,
    ranks: usize,
    count: u64,
) -> (r: bool)
    ensures
        r == segments_fit(segs@, feat as nat, ranks as nat, count as int),
{
    let mut sum: u64 = count;
    let mut k: usize = 0;
    while k < segs.len()
        invariant
            k <= segs@.len(),
            sum == count + segment_blocks(segs@, k as int),
            forall|i: int|
                0 <= i < k ==> segment_fits(#[trigger] segs@[i], feat as nat, ranks as nat),
        decreases segs@.len() - k,
    {
        let s = &segs[k];
        if !s.pack.sound() || s.pack.n_trees > 0x8000_0000 || s.pack.n_features > ranks
            || s.local_to_global_fid.len() > s.pack.n_features || !s.pack.names_below(
            s.local_to_global_fid.len(),
        ) || !all_below_16(&s.local_to_global_fid, feat) {
            assert(!segment_fits(segs@[k as int], feat as nat, ranks as nat));
            return false;
        }
        proof {
            lemma_segment_blocks_grow(segs@, k + 1, segs@.len() as int);
        }
        match add_blocks(&s.pack, sum) {
            None => {
                return false;
            },
            Some(x) => {
                sum = x;
            },
        }
        k += 1;
    }
    true
}

fn slots_are_there(segs: &Vec<LoadedLateSegment>, slots: usize) -> (r: bool)
    ensures
        r == (forall|i: int| 0 <= i < segs@.len() ==> (#[trigger] segs@[i]).global_cp_idx < slots),
{
    let mut k: usize = 0;
    while k < segs.len()
        invariant
            k <= segs@.len(),
            forall|i: int| 0 <= i < k ==> (#[trigger] segs@[i]).global_cp_idx < slots,
        decreases segs@.len() - k,
    {
        if segs[k].global_cp_idx >= slots {
            assert(segs@[k as int].global_cp_idx >= slots);
            return false;
        }
        k += 1;
    }
    true
}

/// Finds out whether the model can run rows of `feat` features without marks, with room for
/// `ranks` ranks and a buffer of `buf` values.
fn online_is_ready(rt: &LoadedPrefixRuntime, feat: usize, ranks: usize, buf: usize) -> (r: bool)
    requires
        runtime_sound(*rt),
    ensures
        r == online_ready(*rt, feat as nat, ranks as nat, buf as nat),
{
    let slots: usize = rt.calibration.tables.len();
    if rt.pack.n_features > ranks {
        return false;
    }
    if let Some(p) = &rt.certify_plan {
        if !p.sound() {
            return false;
        }
    }
    let h = match &rt.compiled_hot_pack {
        Some(h) => h,
        None => {
            return true;
        },
    };
    let l = match &rt.hot_checkpoint_layout {
        Some(l) => l,
        None => {
            return true;
        },
    };
    if h.hot_global_fidx.len() > buf || !all_below_32(&h.hot_global_fidx, feat) {
        return false;
    }
    let cut_out: bool = match &rt.late_segments {
        Some(segs) => segs.len() > 0,
        None => false,
    };
    if !cut_out && !late_is_fit(l, &rt.pack, feat, ranks) {
        return false;
    }
    if let Some(plan) = &rt.hot_stage_plan {
        if plan.checkpoints.len() > l.hot_indices.len() || !first_below(
            &l.hot_indices,
            plan.checkpoints.len(),
            slots,
        ) {
            return false;
        }
        if plan.feature_offsets.len() > 0 && plan.feature_offsets.len() - 1
            == plan.checkpoints.len() {
            let stages = list_stages(plan, l);
            if !stages_are_fit(&stages, &plan.hot_feature_ids, &h.hot_global_fidx, buf) {
                return false;
            }
        }
    }
    match &rt.late_segments {
        None => true,
        Some(segs) => {
            segments_are_fit(segs, feat, ranks, MAX_TREE_MOVES * 0x8000_0000) && slots_are_there(
                segs,
                slots,
            )
        },
    }
}

fn prepared_is_ready(rt: &LoadedPrefixRuntime, feat: usize, ranks: usize, buf: usize) -> (r: bool)
    requires
        runtime_sound(*rt),
    ensures
        r == prepared_ready(*rt, feat as nat, ranks as nat, buf as nat),
{
    if rt.atlas_certifier.is_none() || !is_hot_kernel(rt.direct_kernel) {
        return true;
    }
    match rt.certifier_kind {
        PrefixCertifierKind::AtlasV1 => {},
        _ => {
            return true;
        },
    }
    match (&rt.prefix_v2, &rt.compiled_hot_pack, &rt.certify_plan, &rt.late_segments) {
        (Some(v2), Some(h), Some(p), Some(segs)) => {
            let count: u64 = match count_stages(&v2.stages, h.tree_roots.len()) {
                Some(n) => n,
                None => {
                    return false;
                },
            };
            p.sound() && all_below_32(&h.hot_global_fidx, feat) && stages_are_fit(
                &v2.stages,
                &v2.hot_feature_ids,
                &h.hot_global_fidx,
                buf,
            ) && segments_are_fit(segs, feat, ranks, count)
        },
        _ => true,
    }
}

fn part_is_fit(pack: &QsPack, map: &Vec<u16>, all: &Vec<u32>, feat: usize) -> (r: bool)
    ensures
        r == part_fits(*pack, map@, all@, feat as nat),
{
    pack.sound() && map.len() <= pack.n_features && pack.names_below(map.len()) && all.len()
        <= 0x8000_0000 && all_below_16(map, feat)
}

impl L2ExpV1Runtime {
    /// Finds out whether rows of `feat` features can be run along with the model `rt`.
    pub fn ready(&self, rt: &LoadedPrefixRuntime, feat: usize) -> (r: bool)
        ensures
            r == exp_ready(*self, *rt, feat as nat),
    {
        let h = &self.compiled_hot_pack;
        let plan = &self.hot_stage_plan;
        let l = &self.hot_checkpoint_layout;
        let slots: usize = rt.calibration.tables.len();
        if !rt.sound() || h.nodes.len() as u64 > MAX_TREE_MOVES || h.hot_global_fidx.len() > h.n_hot_features || !all_below_32(&h.hot_global_fidx, feat)
            || plan.feature_offsets.len() == 0 || plan.feature_offsets.len() - 1
            != plan.checkpoints.len() || plan.checkpoints.len() > l.hot_indices.len()
            || !first_below(&l.hot_indices, plan.checkpoints.len(), slots) {
            return false;
        }
        let stages = list_stages(plan, l);
        if !stages_are_fit(
            &stages,
            &plan.hot_feature_ids,
            &h.hot_global_fidx,
            h.n_hot_features,
        ) {
            return false;
        }
        let count: u64 = match count_stages(&stages, h.tree_roots.len()) {
            Some(n) => n,
            None => {
                return false;
            },
        };
        let mut sum: u64 = count;
        let mut k: usize = 0;
        while k < self.late_segments.len()
            invariant
                k <= self.late_segments@.len(),
                sum == count + late_blocks(self.late_segments@, k as int),
                count == stage_work(
                    stages_of(self.hot_stage_plan, self.hot_checkpoint_layout@.hot_indices),
                    self.compiled_hot_pack.tree_roots@.len() as int,
                ),
                slots == rt.calibration.tables@.len(),
                forall|i: int|
                    0 <= i < k ==> {
                        let s = #[trigger] self.late_segments@[i];
                        s.global_cp_idx < slots && part_fits(
                            s.pack,
                            s.local_to_global_fid@,
                            s.all_tree_indices@,
                            feat as nat,
                        )
                    },
            decreases self.late_segments@.len() - k,
        {
            let s = &self.late_segments[k];
            if s.global_cp_idx >= slots || !part_is_fit(
                &s.pack,
                &s.local_to_global_fid,
                &s.all_tree_indices,
                feat,
            ) {
                assert(*s == self.late_segments@[k as int]);
                return false;
            }
            proof {
                lemma_late_blocks_grow(
                    self.late_segments@,
                    k + 1,
                    self.late_segments@.len() as int,
                );
            }
            match add_listed_blocks(&s.pack, &s.all_tree_indices, sum) {
                None => {
                    return false;
                },
                Some(x) => {
                    sum = x;
                },
            }
            k += 1;
        }
        match &self.tail {
            Some(t) => part_is_fit(&t.pack, &t.local_to_global_fid, &t.all_tree_indices, feat),
            None => true,
        }
    }
}

fn hot_map_is_fit(h: &HotCompiledPrefixPack, dim: usize) -> (r: bool)
    ensures
        r == (h@.hot_global_fidx.len() <= h@.n_hot_features && forall|k: int|
            0 <= k < h@.hot_global_fidx.len() ==> (#[trigger] h@.hot_global_fidx[k]) < dim),
{
    h.hot_global_fidx.len() <= h.n_hot_features && all_below_32(&h.hot_global_fidx, dim)
}

impl OnlineL2Runtime {
    /// Finds out whether the second stage can run rows of `dim` values.
    pub fn ready(&self, dim: usize) -> (r: bool)
        ensures
            r == l2_ready(*self, dim as nat),
    {
        let rt = &self.runtime;
        let n: usize = rt.pack.n_features;
        if !rt.sound() || n > dim {
            return false;
        }
        let buf: usize = match &rt.compiled_hot_pack {
            Some(h) => {
                if !hot_map_is_fit(h, dim) {
                    return false;
                }
                h.n_hot_features
            },
            None => 0,
        };
        if !online_is_ready(rt, dim, n, buf) || !prepared_is_ready(rt, dim, n, buf) {
            return false;
        }
        if rt.plan.n_trees > 0x7fff_ffff || rt.plan.suffix_min.len() <= rt.plan.n_trees
            || rt.plan.suffix_max.len() <= rt.plan.n_trees || rt.plan.order.len() > 0x8000_0000 {
            return false;
        }
        if let Some(e) = &self.exp_v1 {
            if !e.ready(rt, dim) {
                return false;
            }
        }
        match &self.kernel_zen4_v1 {
            Some(e) => e.ready(rt, dim),
            None => true,
        }
    }
}

impl MinpackRuntime {
    /// Finds out whether both stages can run rows.
    pub fn ready(&self) -> (r: bool)
        ensures
            r == (course_ready(l1_course(&self.l1, true)) && l2_ready(
                self.l2,
                self.l2_dim as nat,
            )),
    {
        let plan = &self.l1.plan;
        let p = &self.l1.approx_policy;
        let n: usize = p.used_checkpoints.len();
        plan.n_trees <= 0x7fff_ffff && plan.suffix_min.len() > plan.n_trees && plan.suffix_max.len()
            > plan.n_trees && p.used_tau_ref.len() >= n && p.used_tau_positive().len() >= n
            && p.used_tau_ref_dense.len() >= n && p.used_tau_positive_dense.len() >= n && n
            <= 0x7fff_ffff && self.l2.ready(self.l2_dim)
    }
}

} // verus!
