//! Putting a model together out of the parts that its files hold.

use crate::bands::{table_sound, BandView, LoadedPrefixCal, LoadedPrefixCheckpoint};
use crate::certify::{
    atlas_sound, AtlasView, LoadedPrefixAtlas, LoadedPrefixAtlasCheckpoint,
    LoadedPrefixCertifyCheckpoint, LoadedPrefixCertifyPlan, PrefixCertifierKind,
};
use crate::certify_file::{pairs_of, PairView, PlanView};
use crate::descend::RoutingNode;
use crate::forest::{materialize_tree_plan, planned, Bounds, BoundsView, PrefixPack, TreeOrder};
use crate::hot_pack::{
    compile_fault, compile_hot_prefix_pack, compiled, CompileError, CompiledView,
    HotCompiledPrefixNode, HotCompiledPrefixPack,
};
use crate::kinds::PrefixDirectKernel;
use crate::layout::{
    any_past, build_hot_checkpoint_layout, features_readable, late_features, layout_of,
    lemma_none_past, lies_past, places, populate_hot_checkpoint_quant_spans, with_spans,
    HotCheckpointLayout, LayoutView,
};
use crate::hot::MAX_TREE_MOVES;
use crate::network::{network_fits, LoadedMlpCertifier};
use crate::online::late_begin;
use crate::pack_check::pack_sound;
use crate::prefix_runtime::{
    fewer, layout_fits, runtime_sound, LoadedLateSegment, LoadedPrefixRuntime,
};
use crate::qs_extract::{tree_copyable, ExtractError};
use crate::qs_features::{
    clamped, fids_readable, fresh, law_fresh_lists_each_new_feature_once,
    lemma_list_fids_in_range, list_fids, narrow, seen_after, unseen,
};
use crate::qs_pack::{PackModel, QsBlockHdr, QsPack, QsTreeHdr};
use crate::quantize::cuts_readable;
use crate::segments::{cut_late_segments, cut_right, pack_copyable};
use crate::single::{at_most, le};
use crate::stage_plan::{
    build_hot_stage_plan, splits_in_range, stage_plan, HotStagePlan, StageError,
};
use crate::text::same_text;
use vstd::prelude::*;

verus! {

/// How a model is to be run.
#[derive(Clone, Copy, Debug, PartialEq, Eq, Structural)]
pub struct PrefixChoices {
    pub direct_kernel: PrefixDirectKernel,
    pub certifier_kind: PrefixCertifierKind,
    /// Whether the atlas comes in its binary form.
    pub atlas_bin: bool,
    pub hot_exact_prefix_limit: Option<usize>,
    pub telemetry_schema_version: u32,
}

/// What the files of a model hold. What is absent but can be made of the rest is made.
#[derive(Debug)]
pub struct PrefixParts {
    pub pack: QsPack,
    pub calibration: LoadedPrefixCal,
    pub atlas: Option<LoadedPrefixAtlas>,
    pub mlp: Option<LoadedMlpCertifier>,
    pub hot_pack: Option<PrefixPack>,
    pub compiled_hot_pack: Option<HotCompiledPrefixPack>,
    pub tree_order: TreeOrder,
    pub layout: Option<HotCheckpointLayout>,
    pub certify_plan: Option<LoadedPrefixCertifyPlan>,
    pub late_segments: Option<Vec<LoadedLateSegment>>,
}

/// Which parts were made, so that they can be kept.
#[derive(Clone, Copy, Debug, PartialEq, Eq, Structural)]
pub struct Made {
    pub compiled_hot_pack: bool,
    pub layout: bool,
    pub certify_plan: bool,
    pub late_segments: bool,
}

/// Why parts do not make a model.
#[derive(Clone, Copy, Debug, PartialEq, Eq, Structural)]
pub enum RuntimeError {
    AtlasMissing,
    AtlasVariant,
    AtlasCount { calibration: usize, atlas: usize },
    AtlasCheckpoint { slot: usize, calibration: usize, atlas: usize },
    MlpMissing,
    MlpVariant,
    HotPackMissing,
    Compile(CompileError),
    TreePlan,
    Features { model: usize, pack: usize },
    Stage(StageError),
    Segment(ExtractError),
}

/// Whether two lists hold equal values; what is no number equals nothing.
pub open spec fn equal_values(a: Seq<u32>, b: Seq<u32>) -> bool {
    a.len() == b.len() && forall|i: int|
        0 <= i < a.len() ==> at_most(#[trigger] a[i], b[i]) && at_most(b[i], a[i])
}

/// Finds out whether two lists hold equal values.
pub fn same_values(a: &Vec<u32>, b: &Vec<u32>) -> (r: bool)
    ensures
        r == equal_values(a@, b@),
{
    if a.len() != b.len() {
        return false;
    }
    let mut i: usize = 0;
    while i < a.len()
        invariant
            i <= a@.len(),
            a@.len() == b@.len(),
            forall|j: int| 0 <= j < i ==> at_most(#[trigger] a@[j], b@[j]) && at_most(b@[j], a@[j]),
        decreases a@.len() - i,
    {
        if !le(a[i], b[i]) || !le(b[i], a[i]) {
            assert(!(at_most(a@[i as int], b@[i as int]) && at_most(b@[i as int], a@[i as int])));
            return false;
        }
        i += 1;
    }
    true
}

/// The first checkpoint slot from `i` on at which an atlas is for another checkpoint.
pub open spec fn odd_slot(cps: Seq<usize>, a: Seq<LoadedPrefixAtlasCheckpoint>, i: int) -> Option<int>
    decreases cps.len() - i,
{
    if i < 0 || i >= cps.len() {
        None
    } else if a[i].checkpoint != cps[i] {
        Some(i)
    } else {
        odd_slot(cps, a, i + 1)
    }
}

/// What keeps an atlas from going with a calibration.
pub open spec fn atlas_mismatch(a: LoadedPrefixAtlas, c: LoadedPrefixCal) -> Option<RuntimeError> {
    let slot = odd_slot(c.checkpoints@, a.checkpoints@, 0);
    if a.variant_key@ != c.variant_key@ {
        Some(RuntimeError::AtlasVariant)
    } else if a.checkpoints@.len() != c.checkpoints@.len() {
        Some(
            RuntimeError::AtlasCount {
                calibration: c.checkpoints@.len() as usize,
                atlas: a.checkpoints@.len() as usize,
            },
        )
    } else if slot is Some {
        Some(
            RuntimeError::AtlasCheckpoint {
                slot: slot->Some_0 as usize,
                calibration: c.checkpoints@[slot->Some_0],
                atlas: a.checkpoints@[slot->Some_0].checkpoint,
            },
        )
    } else {
        None
    }
}

/// The atlas of a checkpoint beside its bands: without edges of its own it takes theirs, and it
/// knows whether its edges are theirs.
pub open spec fn fitted(a: AtlasView, t: BandView) -> AtlasView {
    let edges = if a.gap_edges.len() == 0 {
        t.gap_edges
    } else {
        a.gap_edges
    };
    AtlasView { gap_edges: edges, shared_gap_edges: equal_values(edges, t.gap_edges), ..a }
}

/// Whether an atlas is another one fitted to a calibration.
pub open spec fn atlas_fitted(
    r: LoadedPrefixAtlas,
    a: LoadedPrefixAtlas,
    c: LoadedPrefixCal,
) -> bool {
    &&& r.feature_schema_version == a.feature_schema_version
    &&& r.variant_key == a.variant_key
    &&& r.tau_edges == a.tau_edges
    &&& r.cluster_count == a.cluster_count
    &&& r.min_cell_count == a.min_cell_count
    &&& r.safe_ref_max_reject_rate == a.safe_ref_max_reject_rate
    &&& r.safe_rej_min_reject_rate == a.safe_rej_min_reject_rate
    &&& r.checkpoints@.len() == a.checkpoints@.len()
    &&& forall|i: int|
        0 <= i < r.checkpoints@.len() ==> (#[trigger] r.checkpoints@[i])@ == fitted(
            a.checkpoints@[i]@,
            c.tables@[i]@,
        )
}

/// Fits an atlas to a calibration.
pub fn fit_atlas(atlas: LoadedPrefixAtlas, calibration: &LoadedPrefixCal) -> (r: Result<
    LoadedPrefixAtlas,
    RuntimeError,
>)
    requires
        calibration.tables@.len() == calibration.checkpoints@.len(),
    ensures
        match atlas_mismatch(atlas, *calibration) {
            Some(e) => r == Err::<LoadedPrefixAtlas, RuntimeError>(e),
            None => r matches Ok(x) && atlas_fitted(x, atlas, *calibration),
        },
{
    if !same_text(atlas.variant_key.as_str(), calibration.variant_key.as_str()) {
        return Err(RuntimeError::AtlasVariant);
    }
    if atlas.checkpoints.len() != calibration.checkpoints.len() {
        return Err(
            RuntimeError::AtlasCount {
                calibration: calibration.checkpoints.len(),
                atlas: atlas.checkpoints.len(),
            },
        );
    }
    let n: usize = calibration.checkpoints.len();
    let mut k: usize = 0;
    while k < n
        invariant
            k <= n,
            n == calibration.checkpoints@.len(),
            n == atlas.checkpoints@.len(),
            atlas.variant_key@ == calibration.variant_key@,
            odd_slot(calibration.checkpoints@, atlas.checkpoints@, 0) == odd_slot(
                calibration.checkpoints@,
                atlas.checkpoints@,
                k as int,
            ),
        decreases n - k,
    {
        if atlas.checkpoints[k].checkpoint != calibration.checkpoints[k] {
            return Err(
                RuntimeError::AtlasCheckpoint {
                    slot: k,
                    calibration: calibration.checkpoints[k],
                    atlas: atlas.checkpoints[k].checkpoint,
                },
            );
        }
        k += 1;
    }
    let mut checkpoints: Vec<LoadedPrefixAtlasCheckpoint> = Vec::new();
    let mut i: usize = 0;
    while i < n
        invariant
            i <= n,
            n == calibration.checkpoints@.len(),
            n == calibration.tables@.len(),
            n == atlas.checkpoints@.len(),
            i == checkpoints@.len(),
            forall|j: int|
                0 <= j < i ==> (#[trigger] checkpoints@[j])@ == fitted(
                    atlas.checkpoints@[j]@,
                    calibration.tables@[j]@,
                ),
        decreases n - i,
    {
        let mut one: LoadedPrefixAtlasCheckpoint = copy_atlas(&atlas.checkpoints[i]);
        if one.gap_edges.len() == 0 {
            one.gap_edges = vstd::slice::slice_to_vec(calibration.tables[i].gap_edges.as_slice());
        }
        one.shared_gap_edges = same_values(&one.gap_edges, &calibration.tables[i].gap_edges);
        assert(one@ =~= fitted(atlas.checkpoints@[i as int]@, calibration.tables@[i as int]@));
        checkpoints.push(one);
        i += 1;
    }
    Ok(
        LoadedPrefixAtlas {
            feature_schema_version: atlas.feature_schema_version,
            variant_key: atlas.variant_key,
            tau_edges: atlas.tau_edges,
            cluster_count: atlas.cluster_count,
            min_cell_count: atlas.min_cell_count,
            safe_ref_max_reject_rate: atlas.safe_ref_max_reject_rate,
            safe_rej_min_reject_rate: atlas.safe_rej_min_reject_rate,
            checkpoints,
        },
    )
}

fn copy_atlas(a: &LoadedPrefixAtlasCheckpoint) -> (r: LoadedPrefixAtlasCheckpoint)
    ensures
        r@ == a@,
{
    LoadedPrefixAtlasCheckpoint {
        checkpoint: a.checkpoint,
        gap_edges: vstd::slice::slice_to_vec(a.gap_edges.as_slice()),
        shared_gap_edges: a.shared_gap_edges,
        feature_mean: a.feature_mean,
        feature_inv_std: a.feature_inv_std,
        cluster_count: a.cluster_count,
        tau_bin_count: a.tau_bin_count,
        centroid_w0: vstd::slice::slice_to_vec(a.centroid_w0.as_slice()),
        centroid_w1: vstd::slice::slice_to_vec(a.centroid_w1.as_slice()),
        centroid_w2: vstd::slice::slice_to_vec(a.centroid_w2.as_slice()),
        centroid_w3: vstd::slice::slice_to_vec(a.centroid_w3.as_slice()),
        centroid_bias: vstd::slice::slice_to_vec(a.centroid_bias.as_slice()),
        centroids16: a.centroids16,
        decision_grid: vstd::slice::slice_to_vec(a.decision_grid.as_slice()),
    }
}

fn copy_bands(t: &LoadedPrefixCheckpoint) -> (r: LoadedPrefixCheckpoint)
    ensures
        r@ == t@,
{
    LoadedPrefixCheckpoint {
        checkpoint: t.checkpoint,
        gap_edges: vstd::slice::slice_to_vec(t.gap_edges.as_slice()),
        global_ref_hi: vstd::slice::slice_to_vec(t.global_ref_hi.as_slice()),
        global_rej_lo: vstd::slice::slice_to_vec(t.global_rej_lo.as_slice()),
        tau_edges: vstd::slice::slice_to_vec(t.tau_edges.as_slice()),
        fold_ids: vstd::slice::slice_to_vec(t.fold_ids.as_slice()),
        fold_lut_base: t.fold_lut_base,
        fold_slot_lut: vstd::slice::slice_to_vec(t.fold_slot_lut.as_slice()),
        fold_ref_hi: vstd::slice::slice_to_vec(t.fold_ref_hi.as_slice()),
        fold_rej_lo: vstd::slice::slice_to_vec(t.fold_rej_lo.as_slice()),
        tau_bin_count: t.tau_bin_count,
        tau_fold_mask: vstd::slice::slice_to_vec(t.tau_fold_mask.as_slice()),
        tau_ref_hi: vstd::slice::slice_to_vec(t.tau_ref_hi.as_slice()),
        tau_rej_lo: vstd::slice::slice_to_vec(t.tau_rej_lo.as_slice()),
    }
}

/// Bands and atlases side by side, as far as there are both.
pub open spec fn paired(
    tables: Seq<LoadedPrefixCheckpoint>,
    atlases: Seq<LoadedPrefixAtlasCheckpoint>,
) -> Seq<PairView> {
    Seq::new(
        fewer(tables.len() as int, atlases.len() as int) as nat,
        |i: int| PairView { table: tables[i]@, atlas: atlases[i]@ },
    )
}

/// Puts bands and atlases side by side.
pub fn pair_up(calibration: &LoadedPrefixCal, atlas: &LoadedPrefixAtlas) -> (r:
    LoadedPrefixCertifyPlan)
    ensures
        r@ == (PlanView {
            tau_edges: atlas.tau_edges@,
            pairs: paired(calibration.tables@, atlas.checkpoints@),
        }),
{
    let n: usize = if calibration.tables.len() <= atlas.checkpoints.len() {
        calibration.tables.len()
    } else {
        atlas.checkpoints.len()
    };
    let mut checkpoints: Vec<LoadedPrefixCertifyCheckpoint> = Vec::new();
    let ghost want = paired(calibration.tables@, atlas.checkpoints@);
    let mut i: usize = 0;
    assert(pairs_of(checkpoints@) =~= want.take(0));
    while i < n
        invariant
            i <= n,
            i == checkpoints@.len(),
            n == want.len(),
            n <= calibration.tables@.len(),
            n <= atlas.checkpoints@.len(),
            want == paired(calibration.tables@, atlas.checkpoints@),
            pairs_of(checkpoints@) == want.take(i as int),
        decreases n - i,
    {
        let ghost before = pairs_of(checkpoints@);
        checkpoints.push(
            LoadedPrefixCertifyCheckpoint {
                table: copy_bands(&calibration.tables[i]),
                atlas: copy_atlas(&atlas.checkpoints[i]),
            },
        );
        assert(pairs_of(checkpoints@) =~= before.push(want[i as int]));
        assert(want.take(i + 1) =~= want.take(i as int).push(want[i as int]));
        i += 1;
    }
    assert(want.take(n as int) =~= want);
    LoadedPrefixCertifyPlan {
        tau_edges: vstd::slice::slice_to_vec(atlas.tau_edges.as_slice()),
        checkpoints,
    }
}

/// How many features the places of the cuts are there of.
pub open spec fn placed_features(p: PackModel) -> int {
    if p.cut_offsets.len() > 0 {
        p.cut_offsets.len() - 1
    } else {
        0
    }
}

/// Whether the places of the cuts of every feature that a tree names are there.
pub open spec fn cuts_placed(p: PackModel) -> bool {
    forall|t: int| 0 <= t < p.n_trees ==> #[trigger] fids_readable(p, t, placed_features(p))
}

/// Whether the features and slots of a layout are those of a pack.
pub open spec fn layout_usable(l: LayoutView, p: PackModel) -> bool {
    &&& l.late_indices.len() >= l.late_values.len()
    &&& forall|i: int|
        0 <= i < l.late_feature_ids.len() ==> (#[trigger] l.late_feature_ids[i]) + 1
            < p.cut_offsets.len()
}

/// The compact form of the first trees: the one on file, or else one made.
pub open spec fn compact_form(parts: PrefixParts) -> Result<CompiledView, RuntimeError> {
    match parts.compiled_hot_pack {
        Some(c) => Ok(c@),
        None => match parts.hot_pack {
            None => Err(RuntimeError::HotPackMissing),
            Some(h) => match compile_fault(h@) {
                Some(e) => Err(RuntimeError::Compile(e)),
                None => Ok(compiled(h@)),
            },
        },
    }
}

/// Whether parts hold everything that is looked up while they are put together. Without first
/// trees next to nothing is; what comes from a file is not made out of the pack.
pub open spec fn parts_ready(choices: PrefixChoices, parts: PrefixParts) -> bool {
    &&& parts.calibration.tables@.len() == parts.calibration.checkpoints@.len()
    &&& parts.tree_order@.complete()
    &&& choices.direct_kernel != PrefixDirectKernel::Qs ==> {
        &&& parts.hot_pack is Some && parts.compiled_hot_pack is None
            ==> parts.hot_pack->Some_0@.node_count <= parts.hot_pack->Some_0@.nodes.len()
        &&& compact_form(parts) is Ok && layout_made(choices, parts)->Some_0.hot_values.len() > 0
            ==> splits_in_range(compact_form(parts)->Ok_0)
        &&& match parts.layout {
            Some(l) => layout_usable(l@, parts.pack@),
            None => compact_form(parts) is Ok && any_past(
                parts.calibration.checkpoints@,
                late_start(parts),
            ) ==> features_readable(parts.pack@) && cuts_placed(parts.pack@),
        }
        &&& compact_form(parts) is Ok && segments_to_cut(choices, parts) ==> pack_copyable(
            parts.pack@,
        )
    }
}

impl PrefixParts {
    /// Finds out whether the features of every tree can be listed, and their cuts found.
    fn features_are_listed(&self) -> (r: bool)
        ensures
            r == (features_readable(self.pack@) && cuts_placed(self.pack@)),
    {
        if !fids_are_readable(&self.pack, self.pack.n_features) {
            assert(!features_readable(self.pack@)) by {
                let n: int = self.pack.n_features as int;
                let t: int = choose|t: int|
                    0 <= t < self.pack@.n_trees && !#[trigger] fids_readable(self.pack@, t, n);
                assert(!fids_readable(self.pack@, t, self.pack@.n_features));
            }
            return false;
        }
        let places: usize = self.pack.cut_offsets.len();
        let placed: usize = if places > 0 {
            places - 1
        } else {
            0
        };
        if !fids_are_readable(&self.pack, placed) {
            assert(!cuts_placed(self.pack@)) by {
                let t: int = choose|t: int|
                    0 <= t < self.pack@.n_trees && !#[trigger] fids_readable(
                        self.pack@,
                        t,
                        placed as int,
                    );
                assert(!fids_readable(self.pack@, t, placed_features(self.pack@)));
            }
            return false;
        }
        true
    }

    /// Finds out whether what is made for a compact form finds what it looks up: stages where
    /// checkpoints lie among its trees, segments where some lie past them and none are on file.
    fn ready_to_cut(&self, choices: PrefixChoices, c: &HotCompiledPrefixPack) -> (r: bool)
        requires
            choices.direct_kernel != PrefixDirectKernel::Qs,
            compact_form(*self) == Ok::<CompiledView, RuntimeError>(c@),
        ensures
            r == ((self.layout is None && any_past(
                self.calibration.checkpoints@,
                late_start(*self),
            ) ==> features_readable(self.pack@) && cuts_placed(self.pack@)) && (layout_made(choices, *self)->Some_0.hot_values.len() > 0 ==> splits_in_range(
                c@,
            )) && (segments_to_cut(choices, *self) ==> pack_copyable(self.pack@))),
    {
        let limit: usize = if c.n_trees <= self.pack.n_trees {
            c.n_trees
        } else {
            self.pack.n_trees
        };
        if self.layout.is_none() && lies_past(&self.calibration.checkpoints, limit)
            && !self.features_are_listed() {
            return false;
        }
        let (early, late): (bool, bool) = match &self.layout {
            Some(l) => (l.hot_values.len() > 0, l.late_values.len() > 0),
            None => match build_hot_checkpoint_layout(
                &self.calibration,
                Some(c.n_trees),
                &self.pack,
                choices.direct_kernel,
            ) {
                Some(l) => (l.hot_values.len() > 0, l.late_values.len() > 0),
                None => (false, false),
            },
        };
        if early && !splits_are_in_range(c) {
            return false;
        }
        !late || self.late_segments.is_some() || pack_is_copyable(&self.pack)
    }

    /// Finds out whether the parts hold everything that is looked up while they are put together.
    pub fn ready(&self, choices: PrefixChoices) -> (r: bool)
        ensures
            r == parts_ready(choices, *self),
    {
        if self.calibration.tables.len() != self.calibration.checkpoints.len() {
            return false;
        }
        let n: usize = self.tree_order.n_trees;
        if self.tree_order.order.len() != n || self.tree_order.suffix_min.len() == 0
            || self.tree_order.suffix_min.len() - 1 != n || self.tree_order.suffix_max.len() == 0
            || self.tree_order.suffix_max.len() - 1 != n {
            return false;
        }
        if choices.direct_kernel == PrefixDirectKernel::Qs {
            return true;
        }
        match &self.layout {
            Some(l) => {
                if !layout_is_usable(l, &self.pack) {
                    return false;
                }
            },
            None => {},
        }
        match &self.compiled_hot_pack {
            Some(c) => self.ready_to_cut(choices, c),
            None => match &self.hot_pack {
                None => true,
                Some(h) => {
                    if h.node_count > h.nodes.len() {
                        return false;
                    }
                    match compile_hot_prefix_pack(h) {
                        Ok(c) => self.ready_to_cut(choices, &c),
                        Err(_) => true,
                    }
                },
            },
        }
    }
}

fn tree_fids_are_readable(pack: &QsPack, t: usize, n: usize) -> (r: bool)
    requires
        t < pack@.tree_hdrs.len(),
    ensures
        r == fids_readable(pack@, t as int, n as int),
{
    let h: QsTreeHdr = pack.tree_hdrs[t];
    assert(pack.block_hdrs@.len() == pack.block_hdrs.len());
    if h.block_off as u64 + h.block_cnt as u64 > pack.block_hdrs.len() as u64 {
        return false;
    }
    let start: usize = h.block_off as usize;
    let mut k: usize = 0;
    while k < h.block_cnt as usize
        invariant
            k <= h.block_cnt,
            t < pack@.tree_hdrs.len(),
            h == pack@.tree_hdrs[t as int],
            start == h.block_off,
            start + h.block_cnt <= pack@.block_hdrs.len() <= usize::MAX,
            forall|b: int| start <= b < start + k ==> (#[trigger] pack@.block_hdrs[b]).fid < n,
        decreases h.block_cnt - k,
    {
        if pack.block_hdrs[start + k].fid as usize >= n {
            assert(!(pack@.block_hdrs[start + k].fid < n));
            return false;
        }
        k += 1;
    }
    true
}

fn fids_are_readable(pack: &QsPack, n: usize) -> (r: bool)
    ensures
        r ==> forall|t: int|
            0 <= t < pack@.n_trees ==> #[trigger] fids_readable(pack@, t, n as int),
        !r ==> exists|t: int|
            0 <= t < pack@.n_trees && !#[trigger] fids_readable(pack@, t, n as int),
{
    let mut t: usize = 0;
    while t < pack.n_trees
        invariant
            t <= pack.n_trees,
            forall|k: int| 0 <= k < t ==> #[trigger] fids_readable(pack@, k, n as int),
        decreases pack.n_trees - t,
    {
        if t >= pack.tree_hdrs.len() || !tree_fids_are_readable(pack, t, n) {
            assert(!fids_readable(pack@, t as int, n as int));
            return false;
        }
        t += 1;
    }
    true
}

fn tree_is_copyable(pack: &QsPack, t: usize) -> (r: bool)
    requires
        t < pack@.tree_hdrs.len(),
    ensures
        r == tree_copyable(pack@, t as int),
{
    let ghost p = pack@;
    if !tree_fids_are_readable(pack, t, pack.n_features) {
        return false;
    }
    let h: QsTreeHdr = pack.tree_hdrs[t];
    if h.leaf_val_off as u64 + h.leaf_cnt as u64 > pack.leaf_values.len() as u64 {
        return false;
    }
    assert(pack.block_hdrs@.len() == pack.block_hdrs.len());
    let start: usize = h.block_off as usize;
    let mut k: usize = 0;
    while k < h.block_cnt as usize
        invariant
            k <= h.block_cnt,
            p == pack@,
            t < p.tree_hdrs.len(),
            h == p.tree_hdrs[t as int],
            start == h.block_off,
            start + h.block_cnt <= p.block_hdrs.len() <= usize::MAX,
            forall|b: int|
                start <= b < start + k ==> (#[trigger] p.block_hdrs[b]).lut_off + 129
                    <= p.luts.len() && p.block_hdrs[b].mask_off + p.block_hdrs[b].bucket_cnt
                    <= p.masks.len() && cuts_readable(p, p.block_hdrs[b].fid as int),
        decreases h.block_cnt - k,
    {
        let bh: QsBlockHdr = pack.block_hdrs[start + k];
        let f: usize = bh.fid as usize;
        let n: usize = pack.cut_offsets.len();
        if bh.lut_off as u64 + 129 > pack.luts.len() as u64 || bh.mask_off as u64
            + bh.bucket_cnt as u64 > pack.masks.len() as u64 || f + 1 >= n || pack.cut_offsets[f]
            > pack.cut_offsets[f + 1] || pack.cut_offsets[f + 1] as u64 > pack.cuts.len() as u64 {
            assert(bh == p.block_hdrs[start + k]);
            return false;
        }
        k += 1;
    }
    true
}

/// Finds out whether every tree of a pack can be copied.
pub fn pack_is_copyable(pack: &QsPack) -> (r: bool)
    ensures
        r == pack_copyable(pack@),
{
    let mut t: usize = 0;
    while t < pack.n_trees
        invariant
            t <= pack.n_trees,
            forall|k: int| 0 <= k < t ==> #[trigger] tree_copyable(pack@, k),
        decreases pack.n_trees - t,
    {
        if t >= pack.tree_hdrs.len() || !tree_is_copyable(pack, t) {
            assert(!tree_copyable(pack@, t as int));
            return false;
        }
        t += 1;
    }
    true
}

fn layout_is_usable(l: &HotCheckpointLayout, pack: &QsPack) -> (r: bool)
    ensures
        r == layout_usable(l@, pack@),
{
    if l.late_indices.len() < l.late_values.len() {
        return false;
    }
    let n: usize = pack.cut_offsets.len();
    let mut i: usize = 0;
    while i < l.late_feature_ids.len()
        invariant
            i <= l.late_feature_ids@.len(),
            n == pack.cut_offsets@.len(),
            forall|k: int| 0 <= k < i ==> (#[trigger] l@.late_feature_ids[k]) + 1 < n,
        decreases l.late_feature_ids@.len() - i,
    {
        if n < 2 || l.late_feature_ids[i] as usize >= n - 1 {
            assert(!(l@.late_feature_ids[i as int] + 1 < n));
            return false;
        }
        i += 1;
    }
    true
}

fn splits_are_in_range(c: &HotCompiledPrefixPack) -> (r: bool)
    ensures
        r == splits_in_range(c@),
{
    let mut i: usize = 0;
    while i < c.nodes.len()
        invariant
            i <= c.nodes@.len(),
            forall|k: int|
                0 <= k < i && !(#[trigger] c@.nodes[k]).model().leaf ==> c@.nodes[k].model().fidx
                    < c.n_hot_features,
        decreases c.nodes@.len() - i,
    {
        let node: HotCompiledPrefixNode = c.nodes[i];
        if !node.is_leaf() && node.hot_fidx() >= c.n_hot_features {
            assert(!(c@.nodes[i as int].model().fidx < c.n_hot_features));
            return false;
        }
        i += 1;
    }
    true
}

/// What keeps parts from making a model before the stages are made: the certifier, the first
/// trees, the order of the trees and the features, in this turn.
pub open spec fn early_fault(
    choices: PrefixChoices,
    parts: PrefixParts,
    bounds: BoundsView,
    features: int,
) -> Option<RuntimeError> {
    let atlas = if choices.certifier_kind == PrefixCertifierKind::AtlasV1 {
        match parts.atlas {
            None => Some(RuntimeError::AtlasMissing),
            Some(a) => atlas_mismatch(a, parts.calibration),
        }
    } else {
        None
    };
    let mlp = if choices.certifier_kind == PrefixCertifierKind::MlpV1 {
        match parts.mlp {
            None => Some(RuntimeError::MlpMissing),
            Some(n) => if n.variant_key@ != parts.calibration.variant_key@ {
                Some(RuntimeError::MlpVariant)
            } else {
                None
            },
        }
    } else {
        None
    };
    if atlas is Some {
        atlas
    } else if mlp is Some {
        mlp
    } else if choices.direct_kernel != PrefixDirectKernel::Qs && parts.hot_pack is None {
        Some(RuntimeError::HotPackMissing)
    } else if choices.direct_kernel != PrefixDirectKernel::Qs && compact_form(parts) is Err {
        Some(compact_form(parts)->Err_0)
    } else if planned(bounds, Some(parts.tree_order@), None) is None {
        Some(RuntimeError::TreePlan)
    } else if parts.pack@.n_features != features {
        Some(RuntimeError::Features { model: features as usize, pack: parts.pack@.n_features as usize })
    } else {
        None
    }
}

/// The layout: the one on file, or else one made, with the places of the cuts. Without first trees
/// there is none.
pub open spec fn layout_made(choices: PrefixChoices, parts: PrefixParts) -> Option<LayoutView> {
    if choices.direct_kernel == PrefixDirectKernel::Qs {
        None
    } else {
        let l = match parts.layout {
            Some(l) => l@,
            None => layout_of(
                parts.pack@,
                parts.calibration.checkpoints@,
                fewer(compact_form(parts)->Ok_0.n_trees, parts.pack@.n_trees),
            ),
        };
        Some(with_spans(l, parts.pack@))
    }
}

/// The stages of the first trees, where checkpoints lie among them.
pub open spec fn stages_made(choices: PrefixChoices, parts: PrefixParts) -> Option<
    Result<(Seq<u32>, Seq<u16>), StageError>,
> {
    match layout_made(choices, parts) {
        Some(l) => if l.hot_values.len() > 0 {
            Some(stage_plan(compact_form(parts)->Ok_0, l.hot_values))
        } else {
            None
        },
        None => None,
    }
}

/// Whether late stretches are needed and not on file.
pub open spec fn segments_to_cut(choices: PrefixChoices, parts: PrefixParts) -> bool {
    layout_made(choices, parts) is Some && layout_made(choices, parts)->Some_0.late_values.len() > 0
        && parts.late_segments is None
}

/// Where the late stretches begin.
pub open spec fn late_start(parts: PrefixParts) -> int {
    fewer(compact_form(parts)->Ok_0.n_trees, parts.pack@.n_trees)
}

/// Whether some late stretch has no trees.
pub open spec fn stretch_empty(parts: PrefixParts, l: LayoutView) -> bool {
    exists|i: int|
        0 <= i < l.late_values.len() && clamped(
            parts.pack@,
            late_begin(l, late_start(parts), i),
            (#[trigger] l.late_values[i]) as int,
        ).len() == 0
}

/// What keeps parts from making a model.
pub open spec fn runtime_fault(
    choices: PrefixChoices,
    parts: PrefixParts,
    bounds: BoundsView,
    features: int,
) -> Option<RuntimeError> {
    match early_fault(choices, parts, bounds, features) {
        Some(e) => Some(e),
        None => match stages_made(choices, parts) {
            Some(Err(e)) => Some(RuntimeError::Stage(e)),
            _ => if segments_to_cut(choices, parts) && stretch_empty(
                parts,
                layout_made(choices, parts)->Some_0,
            ) {
                Some(RuntimeError::Segment(ExtractError::EmptyRange))
            } else {
                None
            },
        },
    }
}

/// Whether stages are those that were made.
pub open spec fn stages_are(
    p: Option<HotStagePlan>,
    made: Option<Result<(Seq<u32>, Seq<u16>), StageError>>,
    cps: Seq<usize>,
) -> bool {
    match made {
        Some(Ok((offsets, ids))) => p matches Some(s) && s.feature_offsets@ == offsets
            && s.hot_feature_ids@ == ids && s.checkpoints@ == cps,
        _ => p is None,
    }
}

/// Whether a plan is the one on file, or bands and atlas side by side. There is one only for an
/// atlas in binary form.
pub open spec fn plan_is(
    p: Option<LoadedPrefixCertifyPlan>,
    choices: PrefixChoices,
    parts: PrefixParts,
    atlas: Option<LoadedPrefixAtlas>,
) -> bool {
    if choices.certifier_kind == PrefixCertifierKind::AtlasV1 && choices.atlas_bin {
        match parts.certify_plan {
            Some(c) => p == Some(c),
            None => p matches Some(x) && x@ == (PlanView {
                tau_edges: atlas->Some_0.tau_edges@,
                pairs: paired(parts.calibration.tables@, atlas->Some_0.checkpoints@),
            }),
        }
    } else {
        p is None
    }
}

/// Whether segments are those on file, or cut out of the pack. There are some only where
/// checkpoints lie past the first trees.
pub open spec fn segments_are(
    s: Option<Vec<LoadedLateSegment>>,
    choices: PrefixChoices,
    parts: PrefixParts,
) -> bool {
    match layout_made(choices, parts) {
        Some(l) => if l.late_values.len() == 0 {
            s is None
        } else {
            match parts.late_segments {
                Some(f) => s == Some(f),
                None => s matches Some(x) && x@.len() == l.late_values.len() && forall|i: int|
                    0 <= i < x@.len() ==> cut_right(
                        #[trigger] x@[i],
                        parts.pack@,
                        l,
                        late_start(parts),
                        i,
                    ),
            }
        },
        None => s is None,
    }
}

/// Whether a model is what the parts make.
pub open spec fn put_together(
    rt: LoadedPrefixRuntime,
    made: Made,
    choices: PrefixChoices,
    parts: PrefixParts,
    bounds: BoundsView,
) -> bool {
    let hot = choices.direct_kernel != PrefixDirectKernel::Qs;
    let atlas_kind = choices.certifier_kind == PrefixCertifierKind::AtlasV1;
    &&& rt.pack == parts.pack
    &&& rt.calibration == parts.calibration
    &&& if atlas_kind {
        rt.atlas_certifier matches Some(a) && atlas_fitted(
            a,
            parts.atlas->Some_0,
            parts.calibration,
        )
    } else {
        rt.atlas_certifier is None
    }
    &&& rt.mlp_certifier == if choices.certifier_kind == PrefixCertifierKind::MlpV1 {
        parts.mlp
    } else {
        None
    }
    &&& rt.hot_pack == if hot {
        parts.hot_pack
    } else {
        None
    }
    &&& if hot {
        rt.compiled_hot_pack matches Some(c) && c@ == compact_form(parts)->Ok_0
    } else {
        rt.compiled_hot_pack is None
    }
    &&& match layout_made(choices, parts) {
        Some(l) => rt.hot_checkpoint_layout matches Some(x) && x@ == l,
        None => rt.hot_checkpoint_layout is None,
    }
    &&& stages_are(
        rt.hot_stage_plan,
        stages_made(choices, parts),
        layout_made(choices, parts)->Some_0.hot_values,
    )
    &&& plan_is(rt.certify_plan, choices, parts, rt.atlas_certifier)
    &&& segments_are(rt.late_segments, choices, parts)
    &&& rt.prefix_v2 is None
    &&& Some(rt.plan@) == planned(bounds, Some(parts.tree_order@), None)
    &&& rt.direct_kernel == choices.direct_kernel
    &&& rt.certifier_kind == choices.certifier_kind
    &&& rt.hot_exact_prefix_limit == match choices.hot_exact_prefix_limit {
        Some(n) => n,
        None => 0,
    }
    &&& rt.telemetry_schema_version == choices.telemetry_schema_version
    &&& made == (Made {
        compiled_hot_pack: hot && parts.compiled_hot_pack is None,
        layout: hot && parts.layout is None,
        certify_plan: atlas_kind && choices.atlas_bin && parts.certify_plan is None,
        late_segments: segments_to_cut(choices, parts),
    })
}

/// Takes the late stretches on file, or cuts them out of the pack.
pub fn build_late_segment_runtime(
    pack: &QsPack,
    layout: &HotCheckpointLayout,
    hot_tree_count: usize,
    on_file: Option<Vec<LoadedLateSegment>>,
) -> (r: Result<Vec<LoadedLateSegment>, ExtractError>)
    requires
        on_file is None && layout@.late_values.len() > 0 ==> pack_copyable(pack@)
            && layout@.late_indices.len() >= layout@.late_values.len(),
    ensures
        ({
            let start = fewer(hot_tree_count as int, pack@.n_trees);
            let l = layout@;
            if l.late_values.len() == 0 {
                r matches Ok(segs) && segs@.len() == 0
            } else if on_file is Some {
                r == Ok::<Vec<LoadedLateSegment>, ExtractError>(on_file->Some_0)
            } else {
                match r {
                    Ok(segs) => segs@.len() == l.late_values.len() && forall|i: int|
                        0 <= i < segs@.len() ==> cut_right(#[trigger] segs@[i], pack@, l, start, i),
                    Err(e) => e == ExtractError::EmptyRange && exists|i: int|
                        0 <= i < l.late_values.len() && clamped(
                            pack@,
                            late_begin(l, start, i),
                            (#[trigger] l.late_values[i]) as int,
                        ).len() == 0,
                }
            }
        }),
{
    if layout.late_values.len() == 0 {
        return Ok(Vec::new());
    }
    match on_file {
        Some(segs) => Ok(segs),
        None => cut_late_segments(pack, layout, hot_tree_count),
    }
}

/// The features of the late stretches are features that trees name.
proof fn lemma_late_ids(
    p: PackModel,
    lates: Seq<usize>,
    i: int,
    start: int,
    seen: Seq<bool>,
    ids: Seq<u16>,
    offsets: Seq<u32>,
)
    requires
        cuts_placed(p),
        0 <= i,
        0 <= start,
        forall|k: int| 0 <= k < ids.len() ==> (#[trigger] ids[k]) + 1 < p.cut_offsets.len(),
    ensures
        ({
            let r = late_features(p, lates, i, start, seen, ids, offsets).0;
            forall|k: int| 0 <= k < r.len() ==> (#[trigger] r[k]) + 1 < p.cut_offsets.len()
        }),
    decreases lates.len() - i,
{
    if i < lates.len() {
        let n = placed_features(p);
        let trees = clamped(p, start, lates[i] as int);
        let fids = list_fids(p, trees);
        assert forall|k: int| 0 <= k < trees.len() implies fids_readable(
            p,
            #[trigger] trees[k],
            n,
        ) by {}
        lemma_list_fids_in_range(p, trees, n);
        law_fresh_lists_each_new_feature_once(fids, seen);
        let new = fresh(fids, seen);
        let more = ids + narrow(new);
        assert forall|k: int| 0 <= k < more.len() implies (#[trigger] more[k]) + 1
            < p.cut_offsets.len() by {
            if k >= ids.len() {
                let f = new[k - ids.len()];
                assert(new.contains(f));
                assert(fids.contains(f));
                let j = choose|j: int| 0 <= j < fids.len() && fids[j] == f;
                assert(0 <= fids[j] < n && fids[j] < 256);
            }
        }
        lemma_late_ids(
            p,
            lates,
            i + 1,
            lates[i] as int,
            seen_after(fids, seen),
            more,
            offsets.push(more.len() as u32),
        );
        assert(late_features(p, lates, i, start, seen, ids, offsets) == late_features(
            p,
            lates,
            i + 1,
            lates[i] as int,
            seen_after(fids, seen),
            more,
            offsets.push(more.len() as u32),
        ));
    }
}

proof fn lemma_built_layout_usable(p: PackModel, cps: Seq<usize>, limit: int)
    requires
        any_past(cps, limit) ==> cuts_placed(p),
        0 <= limit,
    ensures
        layout_usable(layout_of(p, cps, limit), p),
{
    let l = layout_of(p, cps, limit);
    if any_past(cps, limit) {
        lemma_late_ids(p, l.late_values, 0, limit, unseen(p.n_features), Seq::empty(), seq![0u32]);
    } else {
        lemma_none_past(cps, limit, cps.len());
    }
}

/// Puts a model together out of its parts.
pub fn load_prefix_runtime(
    choices: PrefixChoices,
    parts: PrefixParts,
    bounds: &Bounds,
    model_features: usize,
) -> (r: Result<(LoadedPrefixRuntime, Made), RuntimeError>)
    requires
        parts_ready(choices, parts),
        bounds@.complete(),
    ensures
        match runtime_fault(choices, parts, bounds@, model_features as int) {
            Some(e) => r == Err::<(LoadedPrefixRuntime, Made), RuntimeError>(e),
            None => r matches Ok((rt, made)) && put_together(rt, made, choices, parts, bounds@),
        },
{
    let ghost all = parts;
    let hot: bool = choices.direct_kernel != PrefixDirectKernel::Qs;
    let PrefixParts {
        pack,
        calibration,
        atlas,
        mlp,
        hot_pack,
        compiled_hot_pack,
        tree_order,
        layout,
        certify_plan,
        late_segments,
    } = parts;
    let atlas_certifier: Option<LoadedPrefixAtlas> = match choices.certifier_kind {
        PrefixCertifierKind::AtlasV1 => match atlas {
            None => {
                return Err(RuntimeError::AtlasMissing);
            },
            Some(a) => match fit_atlas(a, &calibration) {
                Ok(x) => Some(x),
                Err(e) => {
                    return Err(e);
                },
            },
        },
        _ => None,
    };
    let mlp_certifier: Option<LoadedMlpCertifier> = match choices.certifier_kind {
        PrefixCertifierKind::MlpV1 => match mlp {
            None => {
                return Err(RuntimeError::MlpMissing);
            },
            Some(n) => {
                if !same_text(n.variant_key.as_str(), calibration.variant_key.as_str()) {
                    return Err(RuntimeError::MlpVariant);
                }
                Some(n)
            },
        },
        _ => None,
    };
    let fresh_compiled: bool = hot && compiled_hot_pack.is_none();
    let compiled: Option<HotCompiledPrefixPack> = if !hot {
        None
    } else {
        match &hot_pack {
            None => {
                return Err(RuntimeError::HotPackMissing);
            },
            Some(h) => match compiled_hot_pack {
                Some(c) => Some(c),
                None => match compile_hot_prefix_pack(h) {
                    Ok(c) => Some(c),
                    Err(e) => {
                        return Err(RuntimeError::Compile(e));
                    },
                },
            },
        }
    };
    let plan: TreeOrder = match materialize_tree_plan(bounds, Some(&tree_order), None) {
        Some(p) => p,
        None => {
            return Err(RuntimeError::TreePlan);
        },
    };
    if pack.n_features != model_features {
        return Err(RuntimeError::Features { model: model_features, pack: pack.n_features });
    }
    assert(early_fault(choices, all, bounds@, model_features as int) is None);
    let fresh_layout: bool = hot && layout.is_none();
    let no_segments: bool = late_segments.is_none();
    let (hot_layout, stages, segments): (
        Option<HotCheckpointLayout>,
        Option<HotStagePlan>,
        Option<Vec<LoadedLateSegment>>,
    ) = match &compiled {
        None => (None, None, None),
        Some(c) => {
            let mut l: HotCheckpointLayout = match layout {
                Some(l) => l,
                None => match build_hot_checkpoint_layout(
                    &calibration,
                    Some(c.n_trees),
                    &pack,
                    choices.direct_kernel,
                ) {
                    Some(l) => l,
                    None => {
                        return Err(RuntimeError::HotPackMissing);
                    },
                },
            };
            proof {
                if all.layout is None {
                    lemma_built_layout_usable(pack@, calibration.checkpoints@, late_start(all));
                }
            }
            populate_hot_checkpoint_quant_spans(&mut l, &pack);
            let stages: Option<HotStagePlan> = if l.hot_values.len() > 0 {
                match build_hot_stage_plan(c, l.hot_values.as_slice()) {
                    Ok(s) => Some(s),
                    Err(e) => {
                        return Err(RuntimeError::Stage(e));
                    },
                }
            } else {
                None
            };
            let segments: Option<Vec<LoadedLateSegment>> = if l.late_values.len() > 0 {
                let count: usize = if c.n_trees <= pack.n_trees {
                    c.n_trees
                } else {
                    pack.n_trees
                };
                match build_late_segment_runtime(&pack, &l, count, late_segments) {
                    Ok(s) => {
                        proof {
                            if all.late_segments is None && stretch_empty(all, l@) {
                                let i = choose|i: int|
                                    0 <= i < l@.late_values.len() && clamped(
                                        all.pack@,
                                        late_begin(l@, late_start(all), i),
                                        (#[trigger] l@.late_values[i]) as int,
                                    ).len() == 0;
                                assert(cut_right(s@[i], pack@, l@, late_start(all), i));
                            }
                        }
                        Some(s)
                    },
                    Err(e) => {
                        return Err(RuntimeError::Segment(e));
                    },
                }
            } else {
                None
            };
            (Some(l), stages, segments)
        },
    };
    let with_plan: bool = choices.certifier_kind == PrefixCertifierKind::AtlasV1
        && choices.atlas_bin;
    let fresh_plan: bool = with_plan && certify_plan.is_none();
    let certify: Option<LoadedPrefixCertifyPlan> = if with_plan {
        match certify_plan {
            Some(p) => Some(p),
            None => match &atlas_certifier {
                Some(a) => Some(pair_up(&calibration, a)),
                None => None,
            },
        }
    } else {
        None
    };
    let fresh_segments: bool = match &hot_layout {
        Some(l) => l.late_values.len() > 0 && no_segments,
        None => false,
    };
    let limit: usize = match choices.hot_exact_prefix_limit {
        Some(n) => n,
        None => 0,
    };
    Ok(
        (
            LoadedPrefixRuntime {
                pack,
                calibration,
                atlas_certifier,
                mlp_certifier,
                hot_pack: if hot {
                    hot_pack
                } else {
                    None
                },
                compiled_hot_pack: compiled,
                hot_checkpoint_layout: hot_layout,
                hot_stage_plan: stages,
                certify_plan: certify,
                late_segments: segments,
                prefix_v2: None,
                plan,
                direct_kernel: choices.direct_kernel,
                certifier_kind: choices.certifier_kind,
                hot_exact_prefix_limit: limit,
                telemetry_schema_version: choices.telemetry_schema_version,
            },
            Made {
                compiled_hot_pack: fresh_compiled,
                layout: fresh_layout,
                certify_plan: fresh_plan,
                late_segments: fresh_segments,
            },
        ),
    )
}

/// Places are places of checkpoints.
proof fn lemma_places_range(cps: Seq<usize>, limit: int, within: bool, n: nat)
    requires
        n <= cps.len() <= usize::MAX,
    ensures
        forall|i: int|
            0 <= i < places(cps, limit, within, n).len() ==> #[trigger] places(
                cps,
                limit,
                within,
                n,
            )[i] < cps.len(),
    decreases n,
{
    if n > 0 {
        lemma_places_range(cps, limit, within, (n - 1) as nat);
        let before = places(cps, limit, within, (n - 1) as nat);
        let now = places(cps, limit, within, n);
        assert forall|i: int| 0 <= i < now.len() implies #[trigger] now[i] < cps.len() by {
            if i < before.len() {
                assert(now[i] == before[i]);
            }
        }
    }
}

/// A model that is put together out of sound parts is sound: whatever a row looks up in it is
/// there.
pub proof fn law_sound_parts_make_a_sound_model(
    rt: LoadedPrefixRuntime,
    made: Made,
    choices: PrefixChoices,
    parts: PrefixParts,
    bounds: BoundsView,
)
    requires
        parts_ready(choices, parts),
        pack_sound(parts.pack@),
        put_together(rt, made, choices, parts, bounds),
        choices.certifier_kind == PrefixCertifierKind::AtlasV1 ==> parts.atlas is Some
            && atlas_mismatch(parts.atlas->Some_0, parts.calibration) is None,
        choices.direct_kernel != PrefixDirectKernel::Qs ==> parts.hot_pack is Some && compact_form(
            parts,
        ) is Ok,
        parts.pack@.n_trees <= 0x8000_0000,
        parts.calibration.checkpoints@.len() <= usize::MAX,
        forall|i: int|
            0 <= i < parts.calibration.tables@.len() ==> table_sound(
                (#[trigger] parts.calibration.tables@[i])@,
            ),
        parts.atlas matches Some(a) ==> forall|i: int|
            0 <= i < a.checkpoints@.len() ==> atlas_sound((#[trigger] a.checkpoints@[i])@),
        parts.mlp matches Some(n) ==> network_fits(n),
        parts.hot_pack matches Some(h) ==> h@.nodes.len() <= MAX_TREE_MOVES && h@.n_trees
            <= 0x8000_0000,
        compact_form(parts) matches Ok(c) ==> c.nodes.len() <= MAX_TREE_MOVES && c.n_trees
            <= 0x8000_0000,
        parts.layout matches Some(l) ==> layout_fits(l@, parts.calibration.tables@.len()),
    ensures
        runtime_sound(rt),
{
    let slots = parts.calibration.tables@.len();
    let cps = parts.calibration.checkpoints@;
    if rt.atlas_certifier is Some {
        let a = rt.atlas_certifier->Some_0;
        let from = parts.atlas->Some_0;
        assert forall|i: int| 0 <= i < a.checkpoints@.len() implies atlas_sound(
            (#[trigger] a.checkpoints@[i])@,
        ) by {
            assert(atlas_sound(from.checkpoints@[i]@));
        }
    }
    if choices.direct_kernel != PrefixDirectKernel::Qs && parts.layout is None {
        let limit = fewer(compact_form(parts)->Ok_0.n_trees, parts.pack@.n_trees);
        lemma_places_range(cps, limit, true, cps.len());
        lemma_places_range(cps, limit, false, cps.len());
        assert(layout_fits(layout_of(parts.pack@, cps, limit), slots));
    }
}

} // verus!
