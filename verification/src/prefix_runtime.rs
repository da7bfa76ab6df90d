//! A loaded model whose rows are decided from their first trees, and the ways to run a row.

use crate::arith::{answers, follows, SingleOp};
use crate::bands::{atlas_tau_bin, table_sound, tau_bin_of, LoadedPrefixCal};
use crate::certify::{
    atlases_sound, network_sound, Certifier, LoadedPrefixAtlas, LoadedPrefixCertifyPlan,
    PrefixCertifierKind,
};
use crate::descend::{chosen_row, full_row, PlainRow, RowModel, RowSource, Rule};
use crate::forest::{PrefixPack, TreeOrder};
use crate::hot::{
    filled, map_fits, HotFeatureBuf, HotTrees, LazyHotFeatureCache, LazyRow, MAX_TREE_MOVES,
};
use crate::hot_pack::HotCompiledPrefixPack;
use crate::kinds::{hot_kernel, is_hot_kernel, PrefixDirectKernel};
use crate::layout::{HotCheckpointLayout, LayoutView, PrefixV2HotStagePlan};
use crate::network::LoadedMlpCertifier;
use crate::pack_check::{lemma_ranked_is_readable, marks_sound, pack_sound, ranks_fit};
use crate::qs_pack::{PackModel, QsPack};
use crate::qs_score::ScoreError;
use crate::quantize::{marked, quantize_into, ranked};
use crate::shadow::{
    beginning, hot_phase, hot_steps, judge_ready, qs_phase, recordable, run_hot, run_qs, slot_ready,
    slots_ready, Ended, Judge, Progress,
};
use crate::stage_plan::HotStagePlan;
use vstd::prelude::*;

verus! {

/// What a row comes to when it is decided from its first trees.
#[derive(Debug)]
pub struct PrefixRowShadow {
    pub prefix_score: u32,
    pub trees_used: usize,
    pub work_evals: u64,
    pub resolved_early_trees: u64,
    pub shadow_reject: bool,
    pub shadow_route_score: u32,
    pub fallback_used: bool,
    pub direct_checkpoint: usize,
    pub fallback_entry_checkpoint: usize,
    pub checkpoint_scores: Vec<u32>,
    pub checkpoint_work_evals: Vec<u32>,
    pub checkpoint_deltas: Vec<u32>,
    pub checkpoint_resolved_early: Vec<u32>,
    pub selected_packets: Vec<u16>,
    pub anchor_trees_used: usize,
    pub anchor_direct_checkpoint: usize,
    pub rescue_trees_used: usize,
    pub rescue_direct_checkpoint: usize,
    pub rescue_route: u8,
}

/// What is known of a row that was decided from its first trees.
#[verifier::ext_equal]
pub struct ShadowView {
    pub prefix_score: u32,
    pub trees_used: int,
    pub work_evals: int,
    pub resolved_early_trees: int,
    pub shadow_reject: bool,
    pub shadow_route_score: u32,
    pub fallback_used: bool,
    pub direct_checkpoint: usize,
    pub fallback_entry_checkpoint: usize,
    pub checkpoint_scores: Seq<u32>,
    pub checkpoint_work_evals: Seq<u32>,
    pub checkpoint_deltas: Seq<u32>,
    pub checkpoint_resolved_early: Seq<u32>,
    pub selected_packets: Seq<u16>,
    pub anchor_trees_used: int,
    pub anchor_direct_checkpoint: usize,
    pub rescue_trees_used: int,
    pub rescue_direct_checkpoint: usize,
    pub rescue_route: u8,
}

impl View for PrefixRowShadow {
    type V = ShadowView;

    open spec fn view(&self) -> ShadowView {
        ShadowView {
            prefix_score: self.prefix_score,
            trees_used: self.trees_used as int,
            work_evals: self.work_evals as int,
            resolved_early_trees: self.resolved_early_trees as int,
            shadow_reject: self.shadow_reject,
            shadow_route_score: self.shadow_route_score,
            fallback_used: self.fallback_used,
            direct_checkpoint: self.direct_checkpoint,
            fallback_entry_checkpoint: self.fallback_entry_checkpoint,
            checkpoint_scores: self.checkpoint_scores@,
            checkpoint_work_evals: self.checkpoint_work_evals@,
            checkpoint_deltas: self.checkpoint_deltas@,
            checkpoint_resolved_early: self.checkpoint_resolved_early@,
            selected_packets: self.selected_packets@,
            anchor_trees_used: self.anchor_trees_used as int,
            anchor_direct_checkpoint: self.anchor_direct_checkpoint,
            rescue_trees_used: self.rescue_trees_used as int,
            rescue_direct_checkpoint: self.rescue_direct_checkpoint,
            rescue_route: self.rescue_route,
        }
    }
}

/// What a run comes to: the verdict where there is one; without one the row is kept, and falls
/// back past checkpoint `fallback`.
pub open spec fn concluded(e: Ended, fallback: usize) -> ShadowView {
    ShadowView {
        prefix_score: e.st.score,
        trees_used: e.st.trees_used as int,
        work_evals: e.st.evals,
        resolved_early_trees: e.st.early,
        shadow_reject: e.verdict is Some && e.verdict->Some_0.0,
        shadow_route_score: match e.verdict {
            Some(v) => v.1,
            None => e.st.score,
        },
        fallback_used: e.verdict is None,
        direct_checkpoint: match e.verdict {
            Some(v) => v.2,
            None => 0,
        },
        fallback_entry_checkpoint: match e.verdict {
            Some(_) => 0,
            None => fallback,
        },
        checkpoint_scores: e.st.scores,
        checkpoint_work_evals: e.st.works,
        checkpoint_deltas: e.st.deltas,
        checkpoint_resolved_early: e.st.resolved,
        selected_packets: Seq::empty(),
        anchor_trees_used: 0,
        anchor_direct_checkpoint: 0,
        rescue_trees_used: 0,
        rescue_direct_checkpoint: 0,
        rescue_route: 0,
    }
}

/// What a run comes to, or why it failed.
pub open spec fn outcome(e: Result<Ended, ScoreError>, fallback: usize) -> Result<
    ShadowView,
    ScoreError,
> {
    match e {
        Err(x) => Err(x),
        Ok(x) => Ok(concluded(x, fallback)),
    }
}

/// What was returned, as a value of [`outcome`].
pub open spec fn shown(r: Result<PrefixRowShadow, ScoreError>) -> Result<ShadowView, ScoreError> {
    match r {
        Err(e) => Err(e),
        Ok(row) => Ok(row@),
    }
}

/// Puts together what a run comes to.
pub fn conclude(st: Progress, verdict: Option<(bool, u32, usize)>, fallback: usize) -> (r:
    PrefixRowShadow)
    ensures
        r@ == concluded(Ended { st: st@, verdict }, fallback),
{
    let (reject, route, used, direct, entry) = match verdict {
        Some(v) => (v.0, v.1, false, v.2, 0),
        None => (false, st.score, true, 0, fallback),
    };
    let r: PrefixRowShadow = PrefixRowShadow {
        prefix_score: st.score,
        trees_used: st.trees_used,
        work_evals: st.work_evals,
        resolved_early_trees: st.resolved_early,
        shadow_reject: reject,
        shadow_route_score: route,
        fallback_used: used,
        direct_checkpoint: direct,
        fallback_entry_checkpoint: entry,
        checkpoint_scores: st.scores,
        checkpoint_work_evals: st.works,
        checkpoint_deltas: st.deltas,
        checkpoint_resolved_early: st.resolved,
        selected_packets: Vec::new(),
        anchor_trees_used: 0,
        anchor_direct_checkpoint: 0,
        rescue_trees_used: 0,
        rescue_direct_checkpoint: 0,
        rescue_route: 0,
    };
    assert(r@ =~= concluded(Ended { st: st@, verdict }, fallback));
    r
}

/// A stretch of trees past the first ones as a pack of its own.
#[derive(Debug)]
pub struct LoadedLateSegment {
    pub checkpoint: usize,
    pub global_cp_idx: usize,
    pub start_tree_idx: usize,
    pub local_to_global_fid: Vec<u16>,
    pub pack: QsPack,
}

/// A loaded model.
#[derive(Debug)]
pub struct LoadedPrefixRuntime {
    pub pack: QsPack,
    pub calibration: LoadedPrefixCal,
    pub atlas_certifier: Option<LoadedPrefixAtlas>,
    pub mlp_certifier: Option<LoadedMlpCertifier>,
    pub hot_pack: Option<PrefixPack>,
    pub compiled_hot_pack: Option<HotCompiledPrefixPack>,
    pub hot_checkpoint_layout: Option<HotCheckpointLayout>,
    pub hot_stage_plan: Option<HotStagePlan>,
    pub certify_plan: Option<LoadedPrefixCertifyPlan>,
    pub late_segments: Option<Vec<LoadedLateSegment>>,
    pub prefix_v2: Option<PrefixV2HotStagePlan>,
    pub plan: TreeOrder,
    pub direct_kernel: PrefixDirectKernel,
    pub certifier_kind: PrefixCertifierKind,
    pub hot_exact_prefix_limit: usize,
    pub telemetry_schema_version: u32,
}

/// Whether the slots of a layout are slots of the calibration.
pub open spec fn layout_fits(l: LayoutView, slots: nat) -> bool {
    &&& l.hot_indices.len() >= l.hot_values.len()
    &&& l.late_indices.len() >= l.late_values.len()
    &&& forall|i: int| 0 <= i < l.hot_values.len() ==> #[trigger] l.hot_indices[i] < slots
    &&& forall|i: int| 0 <= i < l.late_values.len() ==> #[trigger] l.late_indices[i] < slots
}

/// Whether everything that a run can look up is there.
pub open spec fn runtime_sound(rt: LoadedPrefixRuntime) -> bool {
    let slots = rt.calibration.tables@.len();
    &&& pack_sound(rt.pack@)
    &&& rt.pack@.n_trees <= 0x8000_0000
    &&& rt.calibration.checkpoints@.len() == slots
    &&& forall|i: int| 0 <= i < slots ==> table_sound(#[trigger] rt.calibration.tables@[i]@)
    &&& atlas_of(&rt) matches Some(a) ==> atlases_sound(Some(a))
    &&& network_sound(mlp_of(&rt))
    &&& rt.hot_pack matches Some(h) ==> h@.nodes.len() <= MAX_TREE_MOVES && h@.n_trees
        <= 0x8000_0000
    &&& rt.compiled_hot_pack matches Some(h) ==> h@.nodes.len() <= MAX_TREE_MOVES && h@.n_trees
        <= 0x8000_0000
    &&& rt.hot_checkpoint_layout matches Some(l) ==> layout_fits(l@, slots)
}

/// The atlas of a model.
pub open spec fn atlas_of<'a>(rt: &'a LoadedPrefixRuntime) -> Option<&'a LoadedPrefixAtlas> {
    match &rt.atlas_certifier {
        Some(a) => Some(a),
        None => None,
    }
}

/// The network of a model.
pub open spec fn mlp_of<'a>(rt: &'a LoadedPrefixRuntime) -> Option<&'a LoadedMlpCertifier> {
    match &rt.mlp_certifier {
        Some(a) => Some(a),
        None => None,
    }
}

/// The bin of the threshold in the tables: by the edges of the first.
pub open spec fn calibration_bin(cal: LoadedPrefixCal, tau: u32) -> int {
    if cal.tables@.len() > 0 {
        tau_bin_of(cal.tables@[0]@.tau_edges, tau)
    } else {
        0
    }
}

/// What a row is judged by.
pub open spec fn judge_for<'a>(
    rt: &'a LoadedPrefixRuntime,
    plan: Option<&'a LoadedPrefixCertifyPlan>,
    fold: i32,
    tau: u32,
) -> Judge<'a> {
    Judge {
        tables: &rt.calibration.tables,
        certifier: Certifier {
            kind: rt.certifier_kind,
            atlas: atlas_of(rt),
            mlp: mlp_of(rt),
        },
        plan,
        fold,
        tau,
        atlas_tau_bin: (match rt.atlas_certifier {
            Some(a) => tau_bin_of(a.tau_edges@, tau),
            None => 0,
        }) as usize,
        calibration_tau_bin: calibration_bin(rt.calibration, tau) as usize,
    }
}

/// Makes what a row is judged by.
pub fn make_judge<'a>(
    rt: &'a LoadedPrefixRuntime,
    plan: Option<&'a LoadedPrefixCertifyPlan>,
    fold: i32,
    tau: u32,
) -> (r: Judge<'a>)
    requires
        runtime_sound(*rt),
        plan matches Some(p) ==> plan_sound(*p),
    ensures
        r == judge_for(rt, plan, fold, tau),
        judge_ready(r),
        forall|k: int|
            0 <= k < rt.calibration.tables@.len() ==> #[trigger] slot_ready(r, k),
{
    let bin: usize = match &rt.atlas_certifier {
        Some(a) => atlas_tau_bin(a.tau_edges.as_slice(), tau),
        None => 0,
    };
    let cal_bin: usize = if rt.calibration.tables.len() > 0 {
        atlas_tau_bin(rt.calibration.tables[0].tau_edges.as_slice(), tau)
    } else {
        0
    };
    Judge {
        tables: &rt.calibration.tables,
        certifier: Certifier {
            kind: rt.certifier_kind,
            atlas: rt.atlas_certifier.as_ref(),
            mlp: rt.mlp_certifier.as_ref(),
        },
        plan,
        fold,
        tau,
        atlas_tau_bin: bin,
        calibration_tau_bin: cal_bin,
    }
}

/// Whether a plan holds everything that can be looked up in it.
pub open spec fn plan_sound(p: LoadedPrefixCertifyPlan) -> bool {
    forall|i: int|
        0 <= i < p.checkpoints@.len() ==> crate::certify::pair_sound(#[trigger] p.checkpoints@[i])
}

/// The last checkpoint, past which a row without a verdict falls back.
pub open spec fn last_checkpoint(cal: LoadedPrefixCal) -> usize {
    if cal.checkpoints@.len() > 0 {
        cal.checkpoints@.last()
    } else {
        0
    }
}

/// Computes [`last_checkpoint`].
pub fn fallback_checkpoint(cal: &LoadedPrefixCal) -> (r: usize)
    ensures
        r == last_checkpoint(*cal),
{
    let n: usize = cal.checkpoints.len();
    if n > 0 {
        cal.checkpoints[n - 1]
    } else {
        0
    }
}

/// The slots of all checkpoints in order.
pub open spec fn all_slots(n: nat) -> Seq<usize> {
    Seq::new(n, |i: int| i as usize)
}

fn list_slots(n: usize) -> (r: Vec<usize>)
    ensures
        r@ == all_slots(n as nat),
{
    let mut r: Vec<usize> = Vec::new();
    let mut i: usize = 0;
    while i < n
        invariant
            i <= n,
            r@ == all_slots(i as nat),
        decreases n - i,
    {
        r.push(i);
        i += 1;
        assert(r@ =~= all_slots(i as nat));
    }
    r
}

/// The smaller of two counts.
pub open spec fn fewer(a: int, b: int) -> int {
    if a <= b {
        a
    } else {
        b
    }
}

/// A run over the first trees, and where it gave no verdict the run over the packed ensemble that
/// follows it.
pub open spec fn followed(
    m: spec_fn(SingleOp) -> u32,
    j: Judge,
    init: u32,
    first: Result<Ended, ScoreError>,
    p: PackModel,
    ranks: Seq<u8>,
    miss: Seq<u8>,
    l: LayoutView,
    start: int,
) -> Result<Ended, ScoreError> {
    match first {
        Err(e) => Err(e),
        Ok(e) => if e.verdict is None && l.late_values.len() > 0 {
            qs_phase(m, j, init, e.st, p, ranks, miss, l.late_values, l.late_indices, start)
        } else {
            Ok(e)
        },
    }
}

/// The run over the first trees of a layout; none where it has no checkpoint there.
pub open spec fn first_phase(
    m: spec_fn(SingleOp) -> u32,
    j: Judge,
    init: u32,
    base: u32,
    trace: bool,
    slots: nat,
    count: int,
    ns: Seq<crate::descend::NodeModel>,
    starts: Seq<int>,
    row: RowModel,
    miss_aware: bool,
    l: LayoutView,
) -> Result<Ended, ScoreError> {
    if l.hot_values.len() == 0 {
        Ok(Ended { st: beginning(base, init, trace, slots), verdict: None })
    } else {
        hot_phase(
            m,
            j,
            init,
            beginning(init, init, trace, slots),
            count,
            hot_steps(
                ns,
                starts,
                row,
                Rule { miss_aware, ranks: None },
                l.hot_values,
                l.hot_indices,
            ),
            l.hot_values,
        )
    }
}

/// What a row comes to, run by the direct kernel from score `init` on.
pub open spec fn shadow_row(
    m: spec_fn(SingleOp) -> u32,
    rt: &LoadedPrefixRuntime,
    feat: Seq<u32>,
    tau: u32,
    fold: i32,
    ranks: Seq<u8>,
    miss: Seq<u8>,
    init: u32,
    trace: bool,
) -> Result<ShadowView, ScoreError> {
    let j = judge_for(rt, None, fold, tau);
    let p = rt.pack@;
    let cps = rt.calibration.checkpoints@;
    let r = ranked(p, feat, ranks);
    let q = marked(p, feat, miss);
    let back = last_checkpoint(rt.calibration);
    if !hot_kernel(rt.direct_kernel) {
        outcome(
            qs_phase(
                m,
                j,
                init,
                beginning(init, init, trace, cps.len()),
                p,
                r,
                q,
                cps,
                all_slots(cps.len()),
                0,
            ),
            back,
        )
    } else {
        match (rt.hot_pack, rt.hot_checkpoint_layout) {
            (Some(h), Some(layout)) => {
                let first = first_phase(
                    m,
                    j,
                    init,
                    p.base_score,
                    trace,
                    cps.len(),
                    h@.n_trees,
                    h.nodes_model(),
                    h.starts(),
                    chosen_row(h@.hot_global_fidx, feat),
                    true,
                    layout@,
                );
                outcome(
                    followed(m, j, init, first, p, r, q, layout@, fewer(h@.n_trees, p.n_trees)),
                    back,
                )
            },
            _ => Err(ScoreError::NotLoaded),
        }
    }
}

/// Whether a row and its buffers are large enough for a pack, and the pack has a mask for every
/// value that the row misses.
pub open spec fn buffers_fit(p: PackModel, feat: Seq<u32>, ranks: Seq<u8>, miss: Seq<u8>) -> bool {
    &&& p.n_features <= feat.len()
    &&& p.n_features <= ranks.len()
    &&& p.n_features <= miss.len()
    &&& marks_sound(p, feat)
}

/// Runs a row by the direct kernel from score `init_score` on.
pub fn run_prefix_shadow_row_from<A: Fn(SingleOp) -> u32>(
    arith: &A,
    runtime: &LoadedPrefixRuntime,
    feat: &[u32],
    row_tau: u32,
    row_fold: i32,
    ranks: &mut [u8],
    missing: &mut [u8],
    hot_cache: &mut LazyHotFeatureCache,
    init_score: u32,
    trace_enabled: bool,
) -> (r: Result<PrefixRowShadow, ScoreError>)
    requires
        answers(*arith),
        runtime_sound(*runtime),
        buffers_fit(runtime.pack@, feat@, old(ranks)@, old(missing)@),
        old(hot_cache).well_formed(),
    ensures
        final(hot_cache).well_formed(),
        final(ranks)@.len() == old(ranks)@.len(),
        final(missing)@.len() == old(missing)@.len(),
        ranks_fit(runtime.pack@, old(ranks)@) ==> ranks_fit(runtime.pack@, final(ranks)@),
        forall|m: spec_fn(SingleOp) -> u32| #[trigger]
            follows(*arith, m) ==> shown(r) == shadow_row(
                m,
                runtime,
                feat@,
                row_tau,
                row_fold,
                old(ranks)@,
                old(missing)@,
                init_score,
                trace_enabled,
            ),
{
    let judge: Judge = make_judge(runtime, None, row_fold, row_tau);
    let back: usize = fallback_checkpoint(&runtime.calibration);
    let n_cps: usize = runtime.calibration.checkpoints.len();
    let ghost p = runtime.pack@;
    let ghost r0 = ranks@;
    let ghost m0 = missing@;
    let ghost tables = runtime.calibration.tables@.len();
    proof {
        lemma_ranked_is_readable(p, feat@, r0, m0);
    }
    if !is_hot_kernel(runtime.direct_kernel) {
        quantize_into(&runtime.pack, feat, ranks, missing);
        let slots: Vec<usize> = list_slots(n_cps);
        let mut st: Progress = Progress::begin(init_score, init_score, trace_enabled, n_cps);
        assert forall|i: int| 0 <= i < n_cps implies slot_ready(
            judge,
            #[trigger] slots@[i] as int,
        ) && recordable(st@, slots@[i] as int) by {
            assert(slots@[i] == i);
            assert(slot_ready(judge, i));
        }
        return match run_qs(
            arith,
            &judge,
            init_score,
            &mut st,
            &runtime.pack,
            ranks,
            Some(&*missing),
            runtime.calibration.checkpoints.as_slice(),
            slots.as_slice(),
            0,
        ) {
            Err(e) => Err(e),
            Ok(verdict) => Ok(conclude(st, verdict, back)),
        };
    }
    match (&runtime.hot_pack, &runtime.hot_checkpoint_layout) {
        (Some(hot), Some(layout)) => {
            let base: u32 = runtime.pack.base_score;
            let has_hot: bool = layout.hot_values.len() > 0;
            let first_score: u32 = if has_hot {
                init_score
            } else {
                base
            };
            let mut st: Progress = Progress::begin(first_score, init_score, trace_enabled, n_cps);
            let mut verdict: Option<(bool, u32, usize)> = None;
            if has_hot {
                hot_cache.next_row();
                let mut cache: LazyHotFeatureCache = LazyHotFeatureCache::new(0);
                std::mem::swap(hot_cache, &mut cache);
                let mut row: LazyRow = LazyRow {
                    cache,
                    map: hot.hot_global_fidx.as_slice(),
                    feat,
                };
                assert(slots_ready(
                    judge,
                    st@,
                    layout.hot_indices@,
                    layout.hot_values@.len(),
                )) by {
                    assert forall|i: int| 0 <= i < layout.hot_values@.len() implies slot_ready(
                        judge,
                        #[trigger] layout.hot_indices@[i] as int,
                    ) && recordable(st@, layout.hot_indices@[i] as int) by {
                        assert(layout@.hot_indices[i] < tables);
                        assert(slot_ready(judge, layout.hot_indices@[i] as int));
                    }
                }
                let got: Result<Option<(bool, u32, usize)>, ScoreError> = run_hot(
                    arith,
                    &judge,
                    init_score,
                    &mut st,
                    hot,
                    &mut row,
                    true,
                    layout.hot_values.as_slice(),
                    layout.hot_indices.as_slice(),
                );
                *hot_cache = row.cache;
                match got {
                    Err(e) => {
                        return Err(e);
                    },
                    Ok(v) => {
                        verdict = v;
                    },
                }
            }
            if verdict.is_none() && layout.late_values.len() > 0 {
                let start: usize = if hot.n_trees <= runtime.pack.n_trees {
                    hot.n_trees
                } else {
                    runtime.pack.n_trees
                };
                quantize_into(&runtime.pack, feat, ranks, missing);
                assert(slots_ready(
                    judge,
                    st@,
                    layout.late_indices@,
                    layout.late_values@.len(),
                )) by {
                    assert forall|i: int| 0 <= i < layout.late_values@.len() implies slot_ready(
                        judge,
                        #[trigger] layout.late_indices@[i] as int,
                    ) && recordable(st@, layout.late_indices@[i] as int) by {
                        assert(layout@.late_indices[i] < tables);
                        assert(slot_ready(judge, layout.late_indices@[i] as int));
                        assert(recordable(
                            beginning(first_score, init_score, trace_enabled, n_cps as nat),
                            layout.late_indices@[i] as int,
                        ));
                    }
                }
                match run_qs(
                    arith,
                    &judge,
                    init_score,
                    &mut st,
                    &runtime.pack,
                    ranks,
                    Some(&*missing),
                    layout.late_values.as_slice(),
                    layout.late_indices.as_slice(),
                    start,
                ) {
                    Err(e) => {
                        return Err(e);
                    },
                    Ok(v) => {
                        verdict = v;
                    },
                }
            }
            Ok(conclude(st, verdict, back))
        },
        _ => Err(ScoreError::NotLoaded),
    }
}

/// Runs a row by the direct kernel.
pub fn run_prefix_shadow_row<A: Fn(SingleOp) -> u32>(
    arith: &A,
    runtime: &LoadedPrefixRuntime,
    feat: &[u32],
    row_tau: u32,
    row_fold: i32,
    ranks: &mut [u8],
    missing: &mut [u8],
    hot_cache: &mut LazyHotFeatureCache,
    trace_enabled: bool,
) -> (r: Result<PrefixRowShadow, ScoreError>)
    requires
        answers(*arith),
        runtime_sound(*runtime),
        buffers_fit(runtime.pack@, feat@, old(ranks)@, old(missing)@),
        old(hot_cache).well_formed(),
    ensures
        final(hot_cache).well_formed(),
        final(ranks)@.len() == old(ranks)@.len(),
        final(missing)@.len() == old(missing)@.len(),
        ranks_fit(runtime.pack@, old(ranks)@) ==> ranks_fit(runtime.pack@, final(ranks)@),
        forall|m: spec_fn(SingleOp) -> u32| #[trigger]
            follows(*arith, m) ==> shown(r) == shadow_row(
                m,
                runtime,
                feat@,
                row_tau,
                row_fold,
                old(ranks)@,
                old(missing)@,
                runtime.pack@.base_score,
                trace_enabled,
            ),
{
    run_prefix_shadow_row_from(
        arith,
        runtime,
        feat,
        row_tau,
        row_fold,
        ranks,
        missing,
        hot_cache,
        runtime.pack.base_score,
        trace_enabled,
    )
}

/// Whether a model has a compact form of its first trees, a layout, and an atlas to decide by.
pub open spec fn compiled_route(rt: LoadedPrefixRuntime) -> bool {
    &&& rt.compiled_hot_pack is Some
    &&& rt.hot_checkpoint_layout is Some
    &&& rt.atlas_certifier is Some
    &&& rt.certifier_kind == PrefixCertifierKind::AtlasV1
    &&& hot_kernel(rt.direct_kernel)
}

/// Computes [`compiled_route`].
pub fn has_compiled_route(rt: &LoadedPrefixRuntime) -> (r: bool)
    ensures
        r == compiled_route(*rt),
{
    rt.compiled_hot_pack.is_some() && rt.hot_checkpoint_layout.is_some()
        && rt.atlas_certifier.is_some() && rt.certifier_kind == PrefixCertifierKind::AtlasV1
        && is_hot_kernel(rt.direct_kernel)
}

/// What a row comes to over the compact form of the first trees. `buf` are the values of the
/// features before they are filled in.
pub open spec fn compiled_row(
    m: spec_fn(SingleOp) -> u32,
    rt: &LoadedPrefixRuntime,
    feat: Seq<u32>,
    tau: u32,
    fold: i32,
    nan_free: bool,
    ranks: Seq<u8>,
    miss: Seq<u8>,
    buf: Seq<u32>,
) -> Result<ShadowView, ScoreError> {
    let j = judge_for(rt, None, fold, tau);
    let p = rt.pack@;
    let base = p.base_score;
    let h = rt.compiled_hot_pack->Some_0;
    let l = rt.hot_checkpoint_layout->Some_0@;
    let first = first_phase(
        m,
        j,
        base,
        base,
        false,
        0,
        h@.n_trees,
        h.nodes_model(),
        h.starts(),
        full_row(filled(buf, h@.hot_global_fidx, feat)),
        !nan_free,
        l,
    );
    outcome(
        followed(
            m,
            j,
            base,
            first,
            p,
            ranked(p, feat, ranks),
            marked(p, feat, miss),
            l,
            fewer(h@.n_trees, p.n_trees),
        ),
        last_checkpoint(rt.calibration),
    )
}

/// Whether the buffer of features is large enough and the row has every feature of the choice.
pub open spec fn hot_buffer_fits(rt: LoadedPrefixRuntime, feat: Seq<u32>, buf: Seq<u32>) -> bool {
    rt.compiled_hot_pack matches Some(h) ==> h@.hot_global_fidx.len() <= buf.len() && map_fits(
        h@.hot_global_fidx,
        feat,
    )
}

/// Runs a row over the compact form of the first trees, or by the direct kernel where the model
/// does not have what that takes.
pub fn run_prefix_shadow_row_single_route_compiled<A: Fn(SingleOp) -> u32>(
    arith: &A,
    runtime: &LoadedPrefixRuntime,
    feat: &[u32],
    row_tau: u32,
    row_fold: i32,
    nan_free: bool,
    ranks: &mut [u8],
    missing: &mut [u8],
    hot_buf: &mut HotFeatureBuf,
    hot_cache: &mut LazyHotFeatureCache,
) -> (r: Result<PrefixRowShadow, ScoreError>)
    requires
        answers(*arith),
        runtime_sound(*runtime),
        buffers_fit(runtime.pack@, feat@, old(ranks)@, old(missing)@),
        hot_buffer_fits(*runtime, feat@, old(hot_buf).values@),
        old(hot_cache).well_formed(),
    ensures
        final(hot_cache).well_formed(),
        final(hot_buf).values@.len() == old(hot_buf).values@.len(),
        final(ranks)@.len() == old(ranks)@.len(),
        final(missing)@.len() == old(missing)@.len(),
        ranks_fit(runtime.pack@, old(ranks)@) ==> ranks_fit(runtime.pack@, final(ranks)@),
        forall|m: spec_fn(SingleOp) -> u32| #[trigger]
            follows(*arith, m) ==> shown(r) == (if compiled_route(*runtime) {
                compiled_row(
                    m,
                    runtime,
                    feat@,
                    row_tau,
                    row_fold,
                    nan_free,
                    old(ranks)@,
                    old(missing)@,
                    old(hot_buf).values@,
                )
            } else {
                shadow_row(
                    m,
                    runtime,
                    feat@,
                    row_tau,
                    row_fold,
                    old(ranks)@,
                    old(missing)@,
                    runtime.pack@.base_score,
                    false,
                )
            }),
{
    if !has_compiled_route(runtime) {
        return run_prefix_shadow_row(
            arith,
            runtime,
            feat,
            row_tau,
            row_fold,
            ranks,
            missing,
            hot_cache,
            false,
        );
    }
    match (&runtime.compiled_hot_pack, &runtime.hot_checkpoint_layout) {
        (Some(hot), Some(layout)) => {
            let judge: Judge = make_judge(runtime, None, row_fold, row_tau);
            let base: u32 = runtime.pack.base_score;
            let ghost p = runtime.pack@;
            let ghost r0 = ranks@;
            let ghost m0 = missing@;
            let ghost tables = runtime.calibration.tables@.len();
            proof {
                        lemma_ranked_is_readable(p, feat@, r0, m0);
            }
            let mut st: Progress = Progress::begin(base, base, false, 0);
            let mut verdict: Option<(bool, u32, usize)> = None;
            if layout.hot_values.len() > 0 {
                hot_buf.fill_from_global_u32(hot.hot_global_fidx.as_slice(), feat);
                let mut row: PlainRow = PlainRow { feat: hot_buf.values.as_slice() };
                assert(slots_ready(
                    judge,
                    st@,
                    layout.hot_indices@,
                    layout.hot_values@.len(),
                )) by {
                    assert forall|i: int| 0 <= i < layout.hot_values@.len() implies slot_ready(
                        judge,
                        #[trigger] layout.hot_indices@[i] as int,
                    ) && recordable(st@, layout.hot_indices@[i] as int) by {
                        assert(layout@.hot_indices[i] < tables);
                        assert(slot_ready(judge, layout.hot_indices@[i] as int));
                    }
                }
                match run_hot(
                    arith,
                    &judge,
                    base,
                    &mut st,
                    hot,
                    &mut row,
                    !nan_free,
                    layout.hot_values.as_slice(),
                    layout.hot_indices.as_slice(),
                ) {
                    Err(e) => {
                        return Err(e);
                    },
                    Ok(v) => {
                        verdict = v;
                    },
                }
            }
            if verdict.is_none() && layout.late_values.len() > 0 {
                let start: usize = if hot.n_trees <= runtime.pack.n_trees {
                    hot.n_trees
                } else {
                    runtime.pack.n_trees
                };
                quantize_into(&runtime.pack, feat, ranks, missing);
                assert(slots_ready(
                    judge,
                    st@,
                    layout.late_indices@,
                    layout.late_values@.len(),
                )) by {
                    assert forall|i: int| 0 <= i < layout.late_values@.len() implies slot_ready(
                        judge,
                        #[trigger] layout.late_indices@[i] as int,
                    ) && recordable(st@, layout.late_indices@[i] as int) by {
                        assert(layout@.late_indices[i] < tables);
                        assert(slot_ready(judge, layout.late_indices@[i] as int));
                        assert(recordable(
                            beginning(base, base, false, 0),
                            layout.late_indices@[i] as int,
                        ));
                    }
                }
                match run_qs(
                    arith,
                    &judge,
                    base,
                    &mut st,
                    &runtime.pack,
                    ranks,
                    Some(&*missing),
                    layout.late_values.as_slice(),
                    layout.late_indices.as_slice(),
                    start,
                ) {
                    Err(e) => {
                        return Err(e);
                    },
                    Ok(v) => {
                        verdict = v;
                    },
                }
            }
            Ok(conclude(st, verdict, fallback_checkpoint(&runtime.calibration)))
        },
        _ => Err(ScoreError::NotLoaded),
    }
}

} // verus!
