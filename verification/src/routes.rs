//! The routes that a row can take through a model, and what they have in common.
//!
//! A model can be run tree by tree from its files, over the compact form of its first trees, in
//! stages that copy features as they are needed, and over segments that were cut out of its pack.

use crate::arith::SingleOp;
use crate::bands::lemma_bin_range;
use crate::certify::{LoadedPrefixCertifyPlan, PrefixCertifierKind};
use crate::descend::{
    chosen_row, full_row, law_complete_rows_need_no_missing_way, models, NodeModel, RowModel, Rule,
};
use crate::forest::PrefixPack;
use crate::hot::{filled, hot_walk, map_fits, tree_landing, HotTrees};
use crate::hot_pack::{
    compact_in_range, compiled, law_compiled_pack_lands_alike, HotCompiledPrefixPack,
};
use crate::layout::{features_readable, late_features, LayoutView, PrefixV2HotStage};
use crate::online::{
    among, late_begin, late_covered, late_ranks, late_steps, online_first, online_row, plan_of, prepared_route,
    prepared_row, segment_ranks, segment_steps, stage_begin, staged_steps, staged_values, stages_of,
    tree_listed,
};
use crate::prefix_runtime::{
    compiled_route, compiled_row, fewer, first_phase, judge_for, layout_fits, shadow_row,
    LoadedLateSegment, LoadedPrefixRuntime,
};
use crate::pack_check::{
    block_sound, cut_count, lemma_rank_top, pack_sound, tree_sound,
};
use crate::qs_extract::{
    extracted, law_extracted_features_keep_their_cuts,
    law_extracted_tree_scores_alike, lemma_extracted_counts, lemma_extracted_cuts, lemma_listed, lemma_local_features,
    lemma_same_blocks_read, lemma_same_candidates, local_features, offsets_fit, tree_copyable,
};
use crate::qs_features::{
    clamped, fids_readable, fresh, law_fresh_lists_each_new_feature_once,
    lemma_list_fids_in_range, list_fids, narrow, seen_after, unseen,
};
use crate::qs_pack::PackModel;
use crate::qs_prefix::{checkpoints_rise, law_checkpoints_pass_when_rising};
use crate::qs_score::{
    block_mask, bucket_of, lemma_blocks_read_range, none_missing, span, tree_outcome, walk,
};
use crate::quantize::{
    cuts_readable, feature_cuts, law_own_spans_rank_alike, marked, ranked, ranked_mapped,
};
use crate::rank::{lower_rank_byte, rank_byte};
use crate::segments::{cut_right, pack_copyable};
use crate::shadow::{
    beginning, hot_steps, judged, qs_phase, qs_steps, run_steps, step, stretch_start, Judge,
    ProgressView, Step, StepStyle, LANDMARK,
};
use crate::single::nan;
use crate::stage_plan::{
    law_staged_rows_land_alike, lemma_plan_shape, offsets_climb, splits_in_range, stage_plan,
    stage_start, StageError,
};
use vstd::prelude::*;

verus! {

/// Trees that land alike gather alike.
proof fn lemma_hot_walks_alike(
    ns: Seq<NodeModel>,
    starts: Seq<int>,
    row: RowModel,
    rule: Rule,
    other_ns: Seq<NodeModel>,
    other_starts: Seq<int>,
    other_row: RowModel,
    other_rule: Rule,
    a: int,
    b: int,
)
    requires
        forall|t: int|
            a <= t < b ==> #[trigger] tree_landing(ns, starts, row, rule, t) == tree_landing(
                other_ns,
                other_starts,
                other_row,
                other_rule,
                t,
            ),
    ensures
        hot_walk(ns, starts, row, rule, a, b) == hot_walk(
            other_ns,
            other_starts,
            other_row,
            other_rule,
            a,
            b,
        ),
    decreases b - a,
{
    if a < b {
        lemma_hot_walks_alike(
            ns,
            starts,
            row,
            rule,
            other_ns,
            other_starts,
            other_row,
            other_rule,
            a,
            b - 1,
        );
        assert(tree_landing(ns, starts, row, rule, b - 1) == tree_landing(
            other_ns,
            other_starts,
            other_row,
            other_rule,
            b - 1,
        ));
    }
}

/// Whether one pack of first trees is the compact form of another.
pub open spec fn compact_of(c: HotCompiledPrefixPack, h: PrefixPack) -> bool {
    &&& compact_in_range(h@)
    &&& forall|i: int| 0 <= i < h@.tree_roots.len() ==> (#[trigger] h@.tree_roots[i]) <= 0xffff
    &&& c@ == compiled(h@)
}

/// Whether no feature of a choice is missing.
pub open spec fn none_nan(map: Seq<u32>, feat: Seq<u32>) -> bool {
    forall|h: int| 0 <= h < map.len() ==> !nan(feat[#[trigger] map[h] as int])
}

proof fn lemma_compact_tree_lands_alike(
    c: HotCompiledPrefixPack,
    h: PrefixPack,
    row: RowModel,
    miss_aware: bool,
    t: int,
)
    requires
        compact_of(c, h),
        !miss_aware ==> forall|f: int|
            0 <= f < row.len() ==> (#[trigger] row[f] matches Some(x) ==> !nan(x)),
    ensures
        tree_landing(
            c.nodes_model(),
            c.starts(),
            row,
            Rule { miss_aware, ranks: None },
            t,
        ) == tree_landing(
            h.nodes_model(),
            h.starts(),
            row,
            Rule { miss_aware: true, ranks: None },
            t,
        ),
{
    assert(c.nodes_model() =~= models(compiled(h@).nodes));
    assert(h.nodes_model() =~= models(h@.nodes));
    assert(c@.tree_roots.len() == h@.tree_roots.len());
    if 0 <= t < h@.tree_roots.len() {
        let root = h@.tree_roots[t];
        assert(root <= 0xffff);
        assert(c@.tree_roots[t] == root as u16);
        assert(c.starts()[t] == h.starts()[t]);
        law_compiled_pack_lands_alike(h@, row, miss_aware, root as int);
        if !miss_aware {
            law_complete_rows_need_no_missing_way(models(h@.nodes), 0, row, root as int);
        }
    }
}

/// A row comes to the same over the compact form of the first trees as over the trees themselves.
/// A row that is said to be complete must not miss any of their features.
pub proof fn law_compact_trees_come_to_the_same_verdict(
    m: spec_fn(SingleOp) -> u32,
    rt: &LoadedPrefixRuntime,
    feat: Seq<u32>,
    tau: u32,
    fold: i32,
    nan_free: bool,
    ranks: Seq<u8>,
    miss: Seq<u8>,
    buf: Seq<u32>,
)
    requires
        compiled_route(*rt),
        rt.hot_pack is Some,
        compact_of(rt.compiled_hot_pack->Some_0, rt.hot_pack->Some_0),
        buf.len() == rt.hot_pack->Some_0@.hot_global_fidx.len(),
        map_fits(rt.hot_pack->Some_0@.hot_global_fidx, feat),
        nan_free ==> none_nan(rt.hot_pack->Some_0@.hot_global_fidx, feat),
    ensures
        compiled_row(m, rt, feat, tau, fold, nan_free, ranks, miss, buf) == shadow_row(
            m,
            rt,
            feat,
            tau,
            fold,
            ranks,
            miss,
            rt.pack@.base_score,
            false,
        ),
{
    let c = rt.compiled_hot_pack->Some_0;
    let h = rt.hot_pack->Some_0;
    let l = rt.hot_checkpoint_layout->Some_0@;
    let map = h@.hot_global_fidx;
    let row = chosen_row(map, feat);
    assert(full_row(filled(buf, map, feat)) =~= row);
    let rule = Rule { miss_aware: !nan_free, ranks: None };
    let plain = Rule { miss_aware: true, ranks: None };
    let one = hot_steps(c.nodes_model(), c.starts(), row, rule, l.hot_values, l.hot_indices);
    let two = hot_steps(h.nodes_model(), h.starts(), row, plain, l.hot_values, l.hot_indices);
    assert forall|t: int| #[trigger]
        tree_landing(c.nodes_model(), c.starts(), row, rule, t) == tree_landing(
            h.nodes_model(),
            h.starts(),
            row,
            plain,
            t,
        ) by {
        lemma_compact_tree_lands_alike(c, h, row, !nan_free, t);
    }
    assert forall|i: int| 0 <= i < one.len() implies one[i] == #[trigger] two[i] by {
        lemma_hot_walks_alike(
            c.nodes_model(),
            c.starts(),
            row,
            rule,
            h.nodes_model(),
            h.starts(),
            row,
            plain,
            stretch_start(l.hot_values, 0, i),
            l.hot_values[i] as int,
        );
    }
    assert(one =~= two);
    let cps = rt.calibration.checkpoints@;
    let base = rt.pack@.base_score;
    assert(beginning(base, base, false, cps.len())
        =~= beginning(base, base, false, 0));
}

/// Whether a row is said to be complete does not matter where it misses none of the features of the
/// first trees.
pub proof fn law_complete_rows_need_no_hint(
    m: spec_fn(SingleOp) -> u32,
    rt: &LoadedPrefixRuntime,
    feat: Seq<u32>,
    tau: u32,
    fold: i32,
    ranks: Seq<u8>,
    miss: Seq<u8>,
    buf: Seq<u32>,
)
    requires
        compiled_route(*rt),
        ({
            let values = filled(buf, rt.compiled_hot_pack->Some_0@.hot_global_fidx, feat);
            forall|f: int| 0 <= f < values.len() ==> !nan(#[trigger] values[f])
        }),
    ensures
        compiled_row(m, rt, feat, tau, fold, true, ranks, miss, buf) == compiled_row(
            m,
            rt,
            feat,
            tau,
            fold,
            false,
            ranks,
            miss,
            buf,
        ),
{
    let h = rt.compiled_hot_pack->Some_0;
    let l = rt.hot_checkpoint_layout->Some_0@;
    let row = full_row(filled(buf, h@.hot_global_fidx, feat));
    let (ns, starts) = (h.nodes_model(), h.starts());
    let bold = Rule { miss_aware: false, ranks: None };
    let wary = Rule { miss_aware: true, ranks: None };
    assert forall|t: int| #[trigger]
        tree_landing(ns, starts, row, bold, t) == tree_landing(ns, starts, row, wary, t) by {
        if 0 <= t < starts.len() {
            law_complete_rows_need_no_missing_way(ns, 0, row, starts[t]);
        }
    }
    let one = hot_steps(ns, starts, row, bold, l.hot_values, l.hot_indices);
    let two = hot_steps(ns, starts, row, wary, l.hot_values, l.hot_indices);
    assert forall|i: int| 0 <= i < one.len() implies one[i] == #[trigger] two[i] by {
        lemma_hot_walks_alike(
            ns,
            starts,
            row,
            bold,
            ns,
            starts,
            row,
            wary,
            stretch_start(l.hot_values, 0, i),
            l.hot_values[i] as int,
        );
    }
    assert(one =~= two);
}

/// Whether a plan holds the tables of a model, each with its atlas.
pub open spec fn plan_pairs(p: LoadedPrefixCertifyPlan, rt: LoadedPrefixRuntime) -> bool {
    let tables = rt.calibration.tables@;
    &&& rt.atlas_certifier matches Some(a) && a.checkpoints@.len() == tables.len()
        && p.checkpoints@.len() == tables.len() && forall|i: int|
        0 <= i < tables.len() ==> (#[trigger] p.checkpoints@[i]).table@ == tables[i]@
            && p.checkpoints@[i].atlas@ == a.checkpoints@[i]@
}

/// Whether all tables of a model have the same edges for thresholds.
pub open spec fn one_set_of_edges(rt: LoadedPrefixRuntime) -> bool {
    let tables = rt.calibration.tables@;
    forall|i: int| 0 <= i < tables.len() ==> (#[trigger] tables[i])@.tau_edges == tables[0]@.tau_edges
}

/// A plan that pairs the tables of a model with its atlas judges a row as the model does.
pub proof fn law_plan_judges_like_the_model(
    m: spec_fn(SingleOp) -> u32,
    rt: &LoadedPrefixRuntime,
    plan: &LoadedPrefixCertifyPlan,
    fold: i32,
    tau: u32,
    slot: usize,
    checkpoint: usize,
    score: u32,
    evals: int,
    early: int,
    delta_prev: u32,
    delta_from_64: u32,
)
    requires
        rt.certifier_kind == PrefixCertifierKind::AtlasV1,
        plan_pairs(*plan, *rt),
        one_set_of_edges(*rt),
        slot < rt.calibration.tables@.len(),
    ensures
        judged(
            m,
            judge_for(rt, Some(plan), fold, tau),
            slot,
            checkpoint,
            score,
            evals,
            early,
            delta_prev,
            delta_from_64,
        ) == judged(
            m,
            judge_for(rt, None, fold, tau),
            slot,
            checkpoint,
            score,
            evals,
            early,
            delta_prev,
            delta_from_64,
        ),
{
    let edges = rt.calibration.tables@[0].tau_edges;
    assert(edges@.len() == edges.len());
    lemma_bin_range(edges@, tau);
    assert(rt.calibration.tables@[slot as int]@.tau_edges == edges@);
    assert(plan.checkpoints@[slot as int].table@ == rt.calibration.tables@[slot as int]@);
}

/// Judges that judge every step alike end a run alike.
proof fn lemma_runs_judged_alike(
    m: spec_fn(SingleOp) -> u32,
    one: Judge,
    two: Judge,
    init: u32,
    st: ProgressView,
    steps: Seq<Step>,
    i: int,
)
    requires
        0 <= i,
        forall|k: int, score: u32, evals: int, early: int, delta_prev: u32, delta_from_64: u32|
            0 <= k < steps.len() ==> #[trigger] judged(
                m,
                one,
                steps[k].slot,
                steps[k].checkpoint,
                score,
                evals,
                early,
                delta_prev,
                delta_from_64,
            ) == judged(
                m,
                two,
                steps[k].slot,
                steps[k].checkpoint,
                score,
                evals,
                early,
                delta_prev,
                delta_from_64,
            ),
    ensures
        run_steps(m, one, init, st, steps, i) == run_steps(m, two, init, st, steps, i),
    decreases steps.len() - i,
{
    if i < steps.len() {
        if let Ok(w) = steps[i].part {
            let s = steps[i];
            let next = step(m, one, init, st, s.slot, s.checkpoint, w, s.style).0;
            lemma_runs_judged_alike(m, one, two, init, next, steps, i + 1);
        }
    }
}

/// Runs over the same steps by a plan and by the model it was made of end alike.
proof fn lemma_run_by_plan(
    m: spec_fn(SingleOp) -> u32,
    rt: &LoadedPrefixRuntime,
    plan: &LoadedPrefixCertifyPlan,
    fold: i32,
    tau: u32,
    st: ProgressView,
    steps: Seq<Step>,
)
    requires
        rt.certifier_kind == PrefixCertifierKind::AtlasV1,
        plan_pairs(*plan, *rt),
        one_set_of_edges(*rt),
        forall|k: int|
            0 <= k < steps.len() ==> (#[trigger] steps[k]).slot < rt.calibration.tables@.len(),
    ensures
        run_steps(
            m,
            judge_for(rt, Some(plan), fold, tau),
            rt.pack@.base_score,
            st,
            steps,
            0,
        ) == run_steps(m, judge_for(rt, None, fold, tau), rt.pack@.base_score, st, steps, 0),
{
    let one = judge_for(rt, Some(plan), fold, tau);
    let two = judge_for(rt, None, fold, tau);
    assert forall|
        k: int,
        score: u32,
        evals: int,
        early: int,
        delta_prev: u32,
        delta_from_64: u32,
    |
        0 <= k < steps.len() implies #[trigger] judged(
        m,
        one,
        steps[k].slot,
        steps[k].checkpoint,
        score,
        evals,
        early,
        delta_prev,
        delta_from_64,
    ) == judged(
        m,
        two,
        steps[k].slot,
        steps[k].checkpoint,
        score,
        evals,
        early,
        delta_prev,
        delta_from_64,
    ) by {
        law_plan_judges_like_the_model(
            m,
            rt,
            plan,
            fold,
            tau,
            steps[k].slot,
            steps[k].checkpoint,
            score,
            evals,
            early,
            delta_prev,
            delta_from_64,
        );
    }
    lemma_runs_judged_alike(m, one, two, rt.pack@.base_score, st, steps, 0);
}

/// Whether the stages of a model are those of its first trees over its early checkpoints.
pub open spec fn stages_made(rt: LoadedPrefixRuntime) -> bool {
    let h = rt.compiled_hot_pack->Some_0@;
    let l = rt.hot_checkpoint_layout->Some_0@;
    rt.hot_stage_plan matches Some(plan) ==> {
        &&& stage_plan(h, l.hot_values) == Ok::<(Seq<u32>, Seq<u16>), StageError>(
            (plan.feature_offsets@, plan.hot_feature_ids@),
        )
        &&& plan.checkpoints@ == l.hot_values
        &&& plan.hot_feature_ids@.len() <= u32::MAX
        &&& splits_in_range(h)
        &&& 0 <= h.n_hot_features <= 0x8000
    }
}

/// The features of the stages so far are the row's.
proof fn lemma_staged_values(
    values: Seq<u32>,
    map: Seq<u32>,
    feat: Seq<u32>,
    ids: Seq<u16>,
    offsets: Seq<u32>,
    stages: Seq<PrefixV2HotStage>,
    k: int,
)
    requires
        0 <= k <= stages.len(),
        offsets.len() == stages.len() + 1,
        offsets_climb(offsets, ids.len() as int),
        forall|i: int|
            0 <= i < stages.len() ==> (#[trigger] stages[i]).feature_start == offsets[i]
                && stages[i].feature_end == offsets[i + 1],
    ensures
        ({
            let v = staged_values(values, map, feat, ids, stages, k);
            &&& v.len() == values.len()
            &&& forall|j: int|
                0 <= j < offsets[k] && (#[trigger] ids[j]) < values.len() ==> v[ids[j] as int]
                    == feat[map[ids[j] as int] as int]
        }),
    decreases k,
{
    if k > 0 {
        lemma_staged_values(values, map, feat, ids, offsets, stages, k - 1);
        let before = staged_values(values, map, feat, ids, stages, k - 1);
        let s = stages[k - 1];
        assert(offsets[k - 1] <= offsets[k]);
        assert(offsets[k] <= ids.len());
        let v = staged_values(values, map, feat, ids, stages, k);
        let own = ids.subrange(offsets[k - 1] as int, offsets[k] as int);
        assert forall|j: int|
            0 <= j < offsets[k] && (#[trigger] ids[j]) < values.len() implies v[ids[j] as int]
            == feat[map[ids[j] as int] as int] by {
            if s.feature_end > s.feature_start && j >= offsets[k - 1] {
                assert(own[j - offsets[k - 1]] == ids[j]);
            }
        }
    }
}

/// Copying features stage by stage, as trees need them, is as good as copying all of them before
/// the first tree.
pub proof fn law_staged_trees_come_to_the_same_verdict(
    m: spec_fn(SingleOp) -> u32,
    j: Judge,
    rt: LoadedPrefixRuntime,
    feat: Seq<u32>,
    buf: Seq<u32>,
)
    requires
        rt.compiled_hot_pack is Some,
        rt.hot_checkpoint_layout is Some,
        stages_made(rt),
        buf.len() == rt.compiled_hot_pack->Some_0@.hot_global_fidx.len(),
    ensures
        online_first(m, j, rt, feat, buf) == first_phase(
            m,
            j,
            rt.pack@.base_score,
            rt.pack@.base_score,
            false,
            0,
            rt.compiled_hot_pack->Some_0@.n_trees,
            rt.compiled_hot_pack->Some_0.nodes_model(),
            rt.compiled_hot_pack->Some_0.starts(),
            full_row(filled(buf, rt.compiled_hot_pack->Some_0@.hot_global_fidx, feat)),
            false,
            rt.hot_checkpoint_layout->Some_0@,
        ),
{
    let h = rt.compiled_hot_pack->Some_0;
    let l = rt.hot_checkpoint_layout->Some_0@;
    if rt.hot_stage_plan is Some && l.hot_values.len() > 0 {
        let plan = rt.hot_stage_plan->Some_0;
        let cps = l.hot_values;
        let map = h@.hot_global_fidx;
        let full = filled(buf, map, feat);
        let rule = Rule { miss_aware: false, ranks: None };
        let stages = stages_of(plan, l.hot_indices);
        let ids = plan.hot_feature_ids@;
        lemma_plan_shape(h@, cps);
        assert(checkpoints_rise(cps, h@.n_trees)) by {
            lemma_rising(cps, h@.n_trees);
        }
        law_checkpoints_pass_when_rising(cps, h@.n_trees);
        let one = staged_steps(h, buf, feat, ids, stages, true, StepStyle::onto(true));
        let two = hot_steps(h.nodes_model(), h.starts(), full_row(full), rule, cps, l.hot_indices);
        assert forall|i: int| 0 <= i < one.len() implies one[i] == #[trigger] two[i] by {
            lemma_staged_values(buf, map, feat, ids, plan.feature_offsets@, stages, i + 1);
            let v = staged_values(buf, map, feat, ids, stages, i + 1);
            assert(stage_begin(stages, i) == stage_start(cps, i));
            assert forall|t: int| stage_start(cps, i) <= t < cps[i] implies #[trigger] tree_landing(
                h.nodes_model(),
                h.starts(),
                full_row(v),
                rule,
                t,
            ) == tree_landing(h.nodes_model(), h.starts(), full_row(full), rule, t) by {
                law_staged_rows_land_alike(h@, cps, i, t, v, full, rule);
            }
            lemma_hot_walks_alike(
                h.nodes_model(),
                h.starts(),
                full_row(v),
                rule,
                h.nodes_model(),
                h.starts(),
                full_row(full),
                rule,
                stage_start(cps, i),
                cps[i] as int,
            );
        }
        assert(one =~= two);
    }
}

proof fn lemma_rising(cps: Seq<usize>, n: int)
    requires
        forall|k: int| 0 <= k < cps.len() ==> stage_start(cps, k) < #[trigger] cps[k] <= n,
    ensures
        checkpoints_rise(cps, n),
{
    assert forall|i: int, j: int| 0 <= i < j < cps.len() implies #[trigger] cps[i] < #[trigger] cps[j] by {
        lemma_rising_from(cps, n, i, j);
    }
}

proof fn lemma_rising_from(cps: Seq<usize>, n: int, i: int, j: int)
    requires
        forall|k: int| 0 <= k < cps.len() ==> stage_start(cps, k) < #[trigger] cps[k] <= n,
        0 <= i < j < cps.len(),
    ensures
        cps[i] < cps[j],
    decreases j - i,
{
    assert(stage_start(cps, j) < cps[j]);
    if i < j - 1 {
        lemma_rising_from(cps, n, i, j - 1);
    }
}

/// Lists of trees that come to the same one by one gather the same.
pub proof fn lemma_walks_alike(
    p: PackModel,
    trees: Seq<int>,
    ranks: Seq<u8>,
    miss: Seq<u8>,
    q: PackModel,
    other_trees: Seq<int>,
    other_ranks: Seq<u8>,
    other_miss: Seq<u8>,
)
    requires
        trees.len() == other_trees.len(),
        forall|i: int|
            0 <= i < trees.len() ==> (#[trigger] trees[i]) < p.n_trees && other_trees[i] < q.n_trees
                && tree_outcome(p, trees[i], ranks, miss) == tree_outcome(
                q,
                other_trees[i],
                other_ranks,
                other_miss,
            ),
    ensures
        walk(p, trees, ranks, miss) == walk(q, other_trees, other_ranks, other_miss),
    decreases trees.len(),
{
    if trees.len() > 0 {
        let a = trees.drop_last();
        let b = other_trees.drop_last();
        assert forall|i: int| 0 <= i < a.len() implies (#[trigger] a[i]) < p.n_trees && b[i]
            < q.n_trees && tree_outcome(p, a[i], ranks, miss) == tree_outcome(
            q,
            b[i],
            other_ranks,
            other_miss,
        ) by {
            assert(a[i] == trees[i]);
        }
        lemma_walks_alike(p, a, ranks, miss, q, b, other_ranks, other_miss);
        assert(trees[trees.len() - 1] < p.n_trees);
    }
}

/// A tree comes to the same on ranks that agree on its features, none of them missing.
pub proof fn lemma_ranks_that_matter(
    p: PackModel,
    t: int,
    ranks: Seq<u8>,
    miss: Seq<u8>,
    other_ranks: Seq<u8>,
    other_miss: Seq<u8>,
)
    requires
        forall|b: int|
            p.tree_hdrs[t].block_off <= b < p.tree_hdrs[t].block_off + p.tree_hdrs[t].block_cnt
                ==> {
                let f = (#[trigger] p.block_hdrs[b]).fid as int;
                miss[f] == 0 && other_miss[f] == 0 && ranks[f] == other_ranks[f]
            },
    ensures
        tree_outcome(p, t, ranks, miss) == tree_outcome(p, t, other_ranks, other_miss),
{
    let h = p.tree_hdrs[t];
    assert forall|k: int| 0 <= k < h.block_cnt implies #[trigger] block_mask(
        p,
        h.block_off + k,
        ranks,
        miss,
    ) == block_mask(p, h.block_off + k, other_ranks, other_miss) by {
        let f = p.block_hdrs[h.block_off + k].fid as int;
        assert(miss[f] == 0 && other_miss[f] == 0 && ranks[f] == other_ranks[f]);
    }
    lemma_same_candidates(p, t, p, t, ranks, miss, other_ranks, other_miss, h.block_cnt as nat);
    lemma_same_blocks_read(p, t, p, t, ranks, miss, other_ranks, other_miss, 0);
    lemma_blocks_read_range(p, t, other_ranks, other_miss, 0);
}

/// Whether every feature that was seen is listed.
pub open spec fn seen_listed(seen: Seq<bool>, ids: Seq<u16>) -> bool {
    forall|f: int| 0 <= f < seen.len() && #[trigger] seen[f] ==> among(ids, ids.len() as int, f)
}

/// After a stretch of trees, everything that it names is listed.
proof fn lemma_stretch_listed(
    p: PackModel,
    start: int,
    end: int,
    seen: Seq<bool>,
    ids: Seq<u16>,
)
    requires
        0 <= start < end <= p.n_trees,
        seen.len() == p.n_features,
        features_readable(p),
        seen_listed(seen, ids),
    ensures
        ({
            let fids = list_fids(p, clamped(p, start, end));
            let more = ids + narrow(fresh(fids, seen));
            &&& seen_listed(seen_after(fids, seen), more)
            &&& forall|t: int|
                start <= t < end ==> #[trigger] tree_listed(p, t, more, more.len() as int)
        }),
{
    let trees = clamped(p, start, end);
    let fids = list_fids(p, trees);
    let found = fresh(fids, seen);
    let more = ids + narrow(found);
    let after = seen_after(fids, seen);
    assert forall|x: int| 0 <= x < trees.len() implies fids_readable(
        p,
        #[trigger] trees[x],
        p.n_features,
    ) by {
        assert(fids_readable(p, start + x, p.n_features));
    }
    lemma_list_fids_in_range(p, trees, p.n_features);
    law_fresh_lists_each_new_feature_once(fids, seen);
    assert forall|f: int| 0 <= f < after.len() && #[trigger] after[f] implies among(
        more,
        more.len() as int,
        f,
    ) by {
        if seen[f] {
            assert(among(ids, ids.len() as int, f));
            let q = choose|q: int| 0 <= q < ids.len() && #[trigger] ids[q] == f;
            assert(more[q] == f);
        } else {
            assert(fids.contains(f));
            assert(found.contains(f));
            let q = choose|q: int| 0 <= q < found.len() && found[q] == f;
            let x = choose|x: int| 0 <= x < fids.len() && fids[x] == f;
            assert(fids[x] < 256);
            assert(more[ids.len() + q] == f);
        }
    }
    assert forall|t: int| start <= t < end implies #[trigger] tree_listed(
        p,
        t,
        more,
        more.len() as int,
    ) by {
        let h = p.tree_hdrs[t];
        assert forall|b: int| h.block_off <= b < h.block_off + h.block_cnt implies among(
            more,
            more.len() as int,
            (#[trigger] p.block_hdrs[b]).fid as int,
        ) by {
            assert(trees[t - start] == t);
            lemma_listed(p, trees, t - start, b);
            let f = p.block_hdrs[b].fid as int;
            assert(fids_readable(p, t, p.n_features));
            assert(f < p.n_features);
            assert(after[f]);
        }
    }
}

/// The rising checkpoints of late stretches, from stretch `i` on.
pub open spec fn lates_rise(lates: Seq<usize>, i: int, start: int, n: int) -> bool {
    forall|j: int|
        i <= j < lates.len() ==> (if j == i {
            start
        } else {
            lates[j - 1] as int
        }) < #[trigger] lates[j] <= n
}

/// The features of the late stretches: those of stretch `k` are listed before its offset ends.
proof fn lemma_late_features(
    p: PackModel,
    lates: Seq<usize>,
    i: int,
    start: int,
    seen: Seq<bool>,
    ids: Seq<u16>,
    offsets: Seq<u32>,
    k: int,
    t: int,
)
    requires
        0 <= i <= lates.len(),
        0 <= start,
        seen.len() == p.n_features,
        features_readable(p),
        seen_listed(seen, ids),
        offsets.len() == i + 1,
        offsets_climb(offsets, ids.len() as int),
        offsets.last() == ids.len(),
        lates_rise(lates, i, start, p.n_trees),
        late_features(p, lates, i, start, seen, ids, offsets).0.len() <= u32::MAX,
        i < k < lates.len() ==> lates[k - 1] <= t < lates[k],
        i == k && k < lates.len() ==> start <= t < lates[k],
    ensures
        ({
            let (all_ids, all_offsets) = late_features(p, lates, i, start, seen, ids, offsets);
            &&& ids.is_prefix_of(all_ids)
            &&& offsets.is_prefix_of(all_offsets)
            &&& all_offsets.len() == lates.len() + 1
            &&& offsets_climb(all_offsets, all_ids.len() as int)
            &&& i <= k < lates.len() ==> tree_listed(p, t, all_ids, all_offsets[k + 1] as int)
        }),
    decreases lates.len() - i,
{
    if i < lates.len() {
        let fids = list_fids(p, clamped(p, start, lates[i] as int));
        let more = ids + narrow(fresh(fids, seen));
        let after = seen_after(fids, seen);
        let grown = offsets.push(more.len() as u32);
        assert(start < lates[i] <= p.n_trees);
        lemma_stretch_listed(p, start, lates[i] as int, seen, ids);
        let (all_ids, all_offsets) = late_features(p, lates, i, start, seen, ids, offsets);
        lemma_late_features_grow(p, lates, i + 1, lates[i] as int, after, more, grown);
        assert(more.len() <= all_ids.len());
        assert(offsets_climb(grown, more.len() as int));
        assert(lates_rise(lates, i + 1, lates[i] as int, p.n_trees));
        lemma_late_features(p, lates, i + 1, lates[i] as int, after, more, grown, k, t);
        assert(more =~= all_ids.subrange(0, more.len() as int));
        assert(grown =~= all_offsets.subrange(0, grown.len() as int));
        assert(ids =~= all_ids.subrange(0, ids.len() as int)) by {
            assert(ids =~= more.subrange(0, ids.len() as int));
        }
        assert(offsets =~= all_offsets.subrange(0, offsets.len() as int));
        if k == i {
            assert(all_offsets[k + 1] == grown[k + 1]);
            assert(tree_listed(p, t, more, more.len() as int));
            lemma_still_listed(p, t, more, all_ids);
        }
    } else {
        assert(ids =~= ids.subrange(0, ids.len() as int));
        assert(offsets =~= offsets.subrange(0, offsets.len() as int));
    }
}

proof fn lemma_still_listed(p: PackModel, t: int, ids: Seq<u16>, all: Seq<u16>)
    requires
        tree_listed(p, t, ids, ids.len() as int),
        ids.len() <= all.len(),
        ids == all.subrange(0, ids.len() as int),
    ensures
        tree_listed(p, t, all, ids.len() as int),
{
    let h = p.tree_hdrs[t];
    assert forall|b: int| h.block_off <= b < h.block_off + h.block_cnt implies among(
        all,
        ids.len() as int,
        (#[trigger] p.block_hdrs[b]).fid as int,
    ) by {
        assert(among(ids, ids.len() as int, p.block_hdrs[b].fid as int));
        let q = choose|q: int| 0 <= q < ids.len() && #[trigger] ids[q] == p.block_hdrs[b].fid as int;
        assert(ids[q] == all.subrange(0, ids.len() as int)[q]);
    }
}

proof fn lemma_late_features_grow(
    p: PackModel,
    lates: Seq<usize>,
    i: int,
    start: int,
    seen: Seq<bool>,
    ids: Seq<u16>,
    offsets: Seq<u32>,
)
    requires
        0 <= i <= lates.len(),
    ensures
        ids.len() <= late_features(p, lates, i, start, seen, ids, offsets).0.len(),
    decreases lates.len() - i,
{
    if i < lates.len() {
        let fids = list_fids(p, clamped(p, start, lates[i] as int));
        let more = ids + narrow(fresh(fids, seen));
        lemma_late_features_grow(
            p,
            lates,
            i + 1,
            lates[i] as int,
            seen_after(fids, seen),
            more,
            offsets.push(more.len() as u32),
        );
    }
}

/// Whether the late stretches of a layout list the features of a pack, each with its own cuts.
pub open spec fn late_listed(l: LayoutView, p: PackModel, start: int) -> bool {
    let (ids, offsets) = late_features(
        p,
        l.late_values,
        0,
        start,
        unseen(p.n_features),
        Seq::empty(),
        seq![0u32],
    );
    &&& l.late_feature_ids == ids
    &&& l.late_feature_offsets == offsets
    &&& ids.len() <= u32::MAX
    &&& l.late_cut_starts.len() == ids.len()
    &&& l.late_cut_ends.len() == ids.len()
    &&& forall|i: int|
        0 <= i < ids.len() ==> (#[trigger] ids[i]) < p.n_features && l.late_cut_starts[i]
            == p.cut_offsets[ids[i] as int] && l.late_cut_ends[i] == p.cut_offsets[ids[i] + 1]
}

/// A layout that lists the features of a pack ranks those of every late stretch in time.
pub proof fn law_listed_layouts_cover(p: PackModel, l: LayoutView, start: int)
    requires
        features_readable(p),
        late_listed(l, p, start),
        0 <= start,
        0 <= p.n_features,
        lates_rise(l.late_values, 0, start, p.n_trees),
    ensures
        late_covered(p, l, start),
{
    let blank = unseen(p.n_features);
    lemma_late_features(p, l.late_values, 0, start, blank, Seq::empty(), seq![0u32], 0, start);
    assert forall|i: int, t: int|
        0 <= i < l.late_values.len() && late_begin(l, start, i) <= t < l.late_values[i] && t
            < p.n_trees implies #[trigger] tree_listed(
        p,
        t,
        l.late_feature_ids,
        l.late_feature_offsets[i + 1] as int,
    ) by {
        lemma_late_features(p, l.late_values, 0, start, blank, Seq::empty(), seq![0u32], i, t);
    }
}

/// The features of the late stretches so far are ranked.
proof fn lemma_late_ranks(
    p: PackModel,
    feat: Seq<u32>,
    ranks: Seq<u8>,
    l: LayoutView,
    start: int,
    k: int,
)
    requires
        late_listed(l, p, start),
        offsets_climb(l.late_feature_offsets, l.late_feature_ids.len() as int),
        0 <= k < l.late_feature_offsets.len(),
        p.n_features <= ranks.len(),
    ensures
        late_ranks(p, feat, ranks, l, k).len() == ranks.len(),
        forall|f: int|
            0 <= f < ranks.len() && #[trigger] among(
                l.late_feature_ids,
                l.late_feature_offsets[k] as int,
                f,
            ) ==> late_ranks(p, feat, ranks, l, k)[f] == rank_byte(feature_cuts(p, f), feat[f]),
    decreases k,
{
    if k > 0 {
        lemma_late_ranks(p, feat, ranks, l, start, k - 1);
        let before = late_ranks(p, feat, ranks, l, k - 1);
        let a = l.late_feature_offsets[k - 1] as int;
        let b = l.late_feature_offsets[k] as int;
        let ids = l.late_feature_ids;
        assert(a <= b <= ids.len());
        let own = ids.subrange(a, b);
        if b > a {
            let starts = l.late_cut_starts.subrange(a, b);
            let ends = l.late_cut_ends.subrange(a, b);
            assert forall|i: int| 0 <= i < own.len() implies {
                &&& #[trigger] own[i] < before.len()
                &&& starts[i] == p.cut_offsets[own[i] as int]
                &&& ends[i] == p.cut_offsets[own[i] + 1]
            } by {
                assert(own[i] == ids[a + i]);
            }
            law_own_spans_rank_alike(p, feat, before, own, starts, ends);
        }
        assert forall|f: int| 0 <= f < ranks.len() && #[trigger] among(ids, b, f) implies late_ranks(
            p,
            feat,
            ranks,
            l,
            k,
        )[f] == rank_byte(feature_cuts(p, f), feat[f]) by {
            let q = choose|q: int| 0 <= q < b && #[trigger] ids[q] == f;
            if q >= a {
                assert(own[q - a] == f);
            } else {
                assert(among(ids, a, f));
            }
        }
    }
}

/// Running a late stretch with only its own features ranked, and those before it, is running it
/// with all features ranked, for a row that misses none.
pub proof fn law_late_stretches_come_to_the_same_verdict(
    m: spec_fn(SingleOp) -> u32,
    j: Judge,
    init: u32,
    st: ProgressView,
    p: PackModel,
    feat: Seq<u32>,
    ranks: Seq<u8>,
    miss: Seq<u8>,
    l: LayoutView,
    start: int,
)
    requires
        features_readable(p),
        0 <= p.n_features <= ranks.len(),
        p.n_features <= miss.len(),
        forall|f: int| 0 <= f < p.n_features ==> !nan(#[trigger] feat[f]),
        late_listed(l, p, start),
        0 <= start,
        l.late_values.len() > 0,
        lates_rise(l.late_values, 0, start, p.n_trees),
    ensures
        run_steps(m, j, init, st, late_steps(p, feat, ranks, l, start), 0) == qs_phase(
            m,
            j,
            init,
            st,
            p,
            ranked(p, feat, ranks),
            marked(p, feat, miss),
            l.late_values,
            l.late_indices,
            start,
        ),
{
    let cps = l.late_values;
    let r = ranked(p, feat, ranks);
    let q = marked(p, feat, miss);
    assert forall|k: int| 0 <= k < cps.len() implies stage_start(cps, k) < #[trigger] cps[k]
        <= p.n_trees by {}
    lemma_rising(cps, p.n_trees);
    law_checkpoints_pass_when_rising(cps, p.n_trees);
    let one = late_steps(p, feat, ranks, l, start);
    let two = qs_steps(p, r, q, cps, l.late_indices, start);
    assert forall|i: int| 0 <= i < one.len() implies one[i] == #[trigger] two[i] by {
        let a = late_begin(l, start, i);
        let cp = cps[i] as int;
        assert(a < cp <= p.n_trees);
        let own = late_ranks(p, feat, ranks, l, i + 1);
        let trees = span(a, cp);
        assert forall|x: int| 0 <= x < trees.len() implies (#[trigger] trees[x]) < p.n_trees
            && tree_outcome(p, trees[x], own, none_missing()) == tree_outcome(
            p,
            trees[x],
            r,
            q,
        ) by {
            lemma_late_tree(p, feat, ranks, miss, l, start, i, a + x);
        }
        lemma_walks_alike(p, trees, own, none_missing(), p, trees, r, q);
    }
    assert(one =~= two);
}

/// A tree of stretch `i` comes to the same with only the features so far ranked.
proof fn lemma_late_tree(
    p: PackModel,
    feat: Seq<u32>,
    ranks: Seq<u8>,
    miss: Seq<u8>,
    l: LayoutView,
    start: int,
    i: int,
    t: int,
)
    requires
        features_readable(p),
        0 <= p.n_features <= ranks.len(),
        p.n_features <= miss.len(),
        forall|f: int| 0 <= f < p.n_features ==> !nan(#[trigger] feat[f]),
        late_listed(l, p, start),
        0 <= start,
        lates_rise(l.late_values, 0, start, p.n_trees),
        0 <= i < l.late_values.len(),
        late_begin(l, start, i) <= t < l.late_values[i],
    ensures
        tree_outcome(p, t, late_ranks(p, feat, ranks, l, i + 1), none_missing()) == tree_outcome(
            p,
            t,
            ranked(p, feat, ranks),
            marked(p, feat, miss),
        ),
{
    let ids = l.late_feature_ids;
    let own = late_ranks(p, feat, ranks, l, i + 1);
    let r = ranked(p, feat, ranks);
    let q = marked(p, feat, miss);
    lemma_late_features(
        p,
        l.late_values,
        0,
        start,
        unseen(p.n_features),
        Seq::empty(),
        seq![0u32],
        i,
        t,
    );
    lemma_late_ranks(p, feat, ranks, l, start, i + 1);
    assert(0 <= t < p.n_trees) by {
        assert(l.late_values[i] <= p.n_trees);
        if i > 0 {
            assert(l.late_values[i - 1] >= 0);
        }
    }
    assert(fids_readable(p, t, p.n_features));
    let h = p.tree_hdrs[t];
    assert forall|b: int| h.block_off <= b < h.block_off + h.block_cnt implies {
        let f = (#[trigger] p.block_hdrs[b]).fid as int;
        none_missing()[f] == 0 && q[f] == 0 && own[f] == r[f]
    } by {
        let f = p.block_hdrs[b].fid as int;
        assert(f < p.n_features);
        assert(among(ids, l.late_feature_offsets[i + 1] as int, f));
        assert(!nan(feat[f]));
    }
    lemma_ranks_that_matter(p, t, own, none_missing(), r, q);
}

/// Whether every bucket that a block of a pack gives to a rank lies below its count of buckets.
pub open spec fn buckets_counted(p: PackModel) -> bool {
    forall|b: int|
        0 <= b < p.block_hdrs.len() ==> {
            let h = #[trigger] p.block_hdrs[b];
            forall|k: int|
                h.lut_off <= k < h.lut_off + 129 ==> (#[trigger] p.luts[k]) < h.bucket_cnt
        }
}

/// Whether every feature that tree `t` names has so few cuts that its ranks lie in the part of a
/// table that is copied.
pub open spec fn tree_cuts_short(p: PackModel, t: int) -> bool {
    let h = p.tree_hdrs[t];
    forall|b: int|
        h.block_off <= b < h.block_off + h.block_cnt ==> cut_count(
            p,
            (#[trigger] p.block_hdrs[b]).fid as int,
        ) <= 128
}

/// Whether that holds of all trees of a pack.
pub open spec fn cuts_short(p: PackModel) -> bool {
    forall|t: int| 0 <= t < p.n_trees ==> #[trigger] tree_cuts_short(p, t)
}

/// Whether a row misses no feature of a pack and meets none of its cuts exactly: both ways of
/// counting the cuts below a value agree.
pub open spec fn off_the_cuts(p: PackModel, feat: Seq<u32>) -> bool {
    forall|f: int|
        0 <= f < p.n_features ==> !nan(#[trigger] feat[f]) && rank_byte(
            feature_cuts(p, f),
            feat[f],
        ) == lower_rank_byte(feature_cuts(p, f), feat[f])
}

/// Whether segments are the late stretches of a layout, cut out of a pack.
pub open spec fn segments_made(
    segs: Seq<LoadedLateSegment>,
    p: PackModel,
    l: LayoutView,
    start: int,
) -> bool {
    &&& segs.len() == l.late_values.len()
    &&& forall|i: int|
        0 <= i < segs.len() ==> cut_right(#[trigger] segs[i], p, l, start, i) && offsets_fit(
            segs[i].pack@,
        ) && segs[i].pack@.cuts.len() <= u32::MAX
}

/// There are as many ranks after every segment as before.
pub proof fn lemma_segment_ranks_len(
    segs: Seq<LoadedLateSegment>,
    feat: Seq<u32>,
    ranks: Seq<u8>,
    k: int,
)
    ensures
        segment_ranks(segs, feat, ranks, k).len() == ranks.len(),
    decreases k,
{
    if k > 0 {
        lemma_segment_ranks_len(segs, feat, ranks, k - 1);
    }
}

/// A tree of a segment comes to what it came to in the pack.
proof fn lemma_segment_tree(
    p: PackModel,
    trees: Seq<int>,
    x: int,
    feat: Seq<u32>,
    ranks: Seq<u8>,
    miss: Seq<u8>,
    before: Seq<u8>,
)
    requires
        pack_sound(p),
        pack_copyable(p),
        buckets_counted(p),
        cuts_short(p),
        0 <= p.n_features <= ranks.len(),
        p.n_features <= miss.len(),
        off_the_cuts(p, feat),
        0 <= x < trees.len(),
        forall|i: int| 0 <= i < trees.len() ==> 0 <= #[trigger] trees[i] < p.n_trees,
        offsets_fit(extracted(p, trees)),
        extracted(p, trees).cuts.len() <= u32::MAX,
        local_features(p, trees).len() <= before.len(),
    ensures
        tree_outcome(
            extracted(p, trees),
            x,
            ranked_mapped(extracted(p, trees), feat, before, narrow(local_features(p, trees))),
            none_missing(),
        ) == tree_outcome(p, trees[x], ranked(p, feat, ranks), marked(p, feat, miss)),
{
    let q = extracted(p, trees);
    let map = local_features(p, trees);
    let r = ranked(p, feat, ranks);
    let own = ranked_mapped(q, feat, before, narrow(map));
    assert forall|i: int| 0 <= i < trees.len() implies tree_copyable(p, #[trigger] trees[i]) by {}
    lemma_local_features(p, trees);
    lemma_extracted_cuts(p, trees);
    assert forall|l: int| 0 <= l < map.len() implies own[l] == r[#[trigger] map[l]]
        && none_missing()[l] == marked(p, feat, miss)[map[l]] by {
        law_extracted_features_keep_their_cuts(p, trees, l);
        assert(narrow(map)[l] == map[l]);
        assert(!nan(feat[map[l]]));
    }
    let t = trees[x];
    let h = p.tree_hdrs[t];
    assert(tree_sound(p, t));
    assert(tree_cuts_short(p, t));
    assert forall|b: int| h.block_off <= b < h.block_off + h.block_cnt implies {
        let bh = #[trigger] p.block_hdrs[b];
        &&& bucket_of(p, b, r, marked(p, feat, miss)) < bh.bucket_cnt
        &&& r[bh.fid as int] < 129
    } by {
        assert(block_sound(p, b));
        let f = p.block_hdrs[b].fid as int;
        assert(f < p.n_features);
        assert(!nan(feat[f]));
        assert(cuts_readable(p, f));
        lemma_rank_top(feature_cuts(p, f), feat[f]);
        assert(r[f] <= 128);
    }
    law_extracted_tree_scores_alike(
        p,
        trees,
        x,
        r,
        marked(p, feat, miss),
        own,
        none_missing(),
    );
}

/// Running the segments that were cut out of a pack is running its late stretches, for a row that
/// misses no feature and meets no cut exactly. (Segments count a cut that the row meets as not
/// passed, the pack counts it as passed.)
pub proof fn law_segments_come_to_the_same_verdict(
    m: spec_fn(SingleOp) -> u32,
    j: Judge,
    init: u32,
    st: ProgressView,
    p: PackModel,
    feat: Seq<u32>,
    ranks: Seq<u8>,
    miss: Seq<u8>,
    l: LayoutView,
    start: int,
    segs: Seq<LoadedLateSegment>,
)
    requires
        pack_sound(p),
        pack_copyable(p),
        buckets_counted(p),
        cuts_short(p),
        0 <= p.n_features <= ranks.len(),
        p.n_features <= miss.len(),
        off_the_cuts(p, feat),
        segments_made(segs, p, l, start),
        0 <= start,
        l.late_values.len() > 0,
        lates_rise(l.late_values, 0, start, p.n_trees),
    ensures
        run_steps(m, j, init, st, segment_steps(segs, feat, ranks, true), 0) == qs_phase(
            m,
            j,
            init,
            st,
            p,
            ranked(p, feat, ranks),
            marked(p, feat, miss),
            l.late_values,
            l.late_indices,
            start,
        ),
{
    let cps = l.late_values;
    let r = ranked(p, feat, ranks);
    let q = marked(p, feat, miss);
    assert forall|k: int| 0 <= k < cps.len() implies stage_start(cps, k) < #[trigger] cps[k]
        <= p.n_trees by {}
    lemma_rising(cps, p.n_trees);
    law_checkpoints_pass_when_rising(cps, p.n_trees);
    let one = segment_steps(segs, feat, ranks, true);
    let two = qs_steps(p, r, q, cps, l.late_indices, start);
    assert forall|i: int| 0 <= i < one.len() implies one[i] == #[trigger] two[i] by {
        let s = segs[i];
        assert(cut_right(s, p, l, start, i) && offsets_fit(s.pack@));
        let a = late_begin(l, start, i);
        let cp = cps[i] as int;
        assert(a < cp <= p.n_trees);
        let trees = span(a, cp);
        assert(clamped(p, a, cp) =~= trees);
        lemma_extracted_counts(p, trees);
        lemma_segment_ranks_len(segs, feat, ranks, i);
        let before = segment_ranks(segs, feat, ranks, i);
        let own = segment_ranks(segs, feat, ranks, i + 1);
        let local = span(0, s.pack@.n_trees);
        assert forall|k: int| 0 <= k < trees.len() implies 0 <= #[trigger] trees[k] < p.n_trees by {
            if i > 0 {
                assert(cps[i - 1] >= 0);
            }
        }
        assert forall|k: int| 0 <= k < trees.len() implies tree_copyable(p, #[trigger] trees[k]) by {}
        lemma_local_features(p, trees);
        lemma_local_few(p, trees);
        assert forall|x: int| 0 <= x < local.len() implies (#[trigger] local[x]) < s.pack@.n_trees
            && trees[x] < p.n_trees && tree_outcome(s.pack@, local[x], own, none_missing())
            == tree_outcome(p, trees[x], r, q) by {
            lemma_segment_tree(p, trees, x, feat, ranks, miss, before);
            assert(local[x] == x);
        }
        lemma_walks_alike(s.pack@, local, own, none_missing(), p, trees, r, q);
    }
    assert(one =~= two);
}

/// Trees name no more features than the pack has.
proof fn lemma_local_few(p: PackModel, trees: Seq<int>)
    requires
        forall|i: int| 0 <= i < trees.len() ==> tree_copyable(p, #[trigger] trees[i]),
        0 <= p.n_features,
    ensures
        local_features(p, trees).len() <= p.n_features,
{
    let map = local_features(p, trees);
    lemma_local_features(p, trees);
    let all = vstd::set_lib::set_int_range(0, p.n_features);
    vstd::set_lib::lemma_int_range(0, p.n_features);
    assert(map.to_set().subset_of(all)) by {
        assert forall|f: int| map.to_set().contains(f) implies #[trigger] all.contains(f) by {
            let i = choose|i: int| 0 <= i < map.len() && map[i] == f;
            assert(map[i] < p.n_features);
        }
    }
    vstd::set_lib::lemma_len_subset(map.to_set(), all);
    map.unique_seq_to_set();
}

/// Whether everything that was made out of a model for rows without missing values goes with it:
/// the plan, the stages, and the late stretches or the segments that stand for them.
pub open spec fn made_to_match(rt: LoadedPrefixRuntime) -> bool {
    let p = rt.pack@;
    let l = rt.hot_checkpoint_layout->Some_0@;
    let start = fewer(rt.compiled_hot_pack->Some_0@.n_trees, p.n_trees);
    &&& layout_fits(l, rt.calibration.tables@.len())
    &&& rt.certify_plan matches Some(plan) ==> plan_pairs(plan, rt) && one_set_of_edges(rt)
    &&& stages_made(rt)
    &&& 0 <= start
    &&& lates_rise(l.late_values, 0, start, p.n_trees)
    &&& if rt.late_segments is Some && rt.late_segments->Some_0@.len() > 0 {
        &&& segments_made(rt.late_segments->Some_0@, p, l, start)
        &&& pack_copyable(p)
        &&& buckets_counted(p)
        &&& cuts_short(p)
    } else {
        &&& l.late_values.len() > 0 ==> late_listed(l, p, start)
        &&& features_readable(p)
    }
}

/// A row that misses no feature and meets no cut exactly comes to the same stage by stage as over
/// the whole trees.
pub proof fn law_stages_come_to_the_same_verdict(
    m: spec_fn(SingleOp) -> u32,
    rt: &LoadedPrefixRuntime,
    feat: Seq<u32>,
    tau: u32,
    fold: i32,
    ranks: Seq<u8>,
    miss: Seq<u8>,
    buf: Seq<u32>,
)
    requires
        compiled_route(*rt),
        pack_sound(rt.pack@),
        made_to_match(*rt),
        buf.len() == rt.compiled_hot_pack->Some_0@.hot_global_fidx.len(),
        0 <= rt.pack@.n_features <= ranks.len(),
        rt.pack@.n_features <= miss.len(),
        off_the_cuts(rt.pack@, feat),
    ensures
        online_row(m, rt, feat, tau, fold, ranks, buf) == compiled_row(
            m,
            rt,
            feat,
            tau,
            fold,
            true,
            ranks,
            miss,
            buf,
        ),
{
    let p = rt.pack@;
    let base = p.base_score;
    let h = rt.compiled_hot_pack->Some_0;
    let l = rt.hot_checkpoint_layout->Some_0@;
    let start = fewer(h@.n_trees, p.n_trees);
    let one = judge_for(rt, plan_of(rt), fold, tau);
    let two = judge_for(rt, None, fold, tau);
    let row = full_row(filled(buf, h@.hot_global_fidx, feat));
    let rule = Rule { miss_aware: false, ranks: None };
    law_staged_trees_come_to_the_same_verdict(m, one, *rt, feat, buf);
    let begun = beginning(base, base, false, 0);
    let steps = hot_steps(
        h.nodes_model(),
        h.starts(),
        row,
        rule,
        l.hot_values,
        l.hot_indices,
    );
    assert forall|k: int| 0 <= k < steps.len() implies (#[trigger] steps[k]).slot
        < rt.calibration.tables@.len() by {
        assert(l.hot_indices[k] < rt.calibration.tables@.len());
    }
    if rt.certify_plan is Some {
        lemma_run_by_plan(m, rt, &rt.certify_plan->Some_0, fold, tau, begun, steps);
    }
    let first = online_first(m, one, *rt, feat, buf);
    if let Ok(e) = first {
        if e.verdict is None {
            if rt.late_segments is Some && rt.late_segments->Some_0@.len() > 0 {
                let segs = rt.late_segments->Some_0@;
                let late = segment_steps(segs, feat, ranks, true);
                assert forall|k: int| 0 <= k < late.len() implies (#[trigger] late[k]).slot
                    < rt.calibration.tables@.len() by {
                    assert(cut_right(segs[k], p, l, start, k));
                    assert(l.late_indices[k] < rt.calibration.tables@.len());
                }
                if rt.certify_plan is Some {
                    lemma_run_by_plan(m, rt, &rt.certify_plan->Some_0, fold, tau, e.st, late);
                }
                law_segments_come_to_the_same_verdict(
                    m,
                    two,
                    base,
                    e.st,
                    p,
                    feat,
                    ranks,
                    miss,
                    l,
                    start,
                    segs,
                );
            } else if l.late_values.len() > 0 {
                let late = late_steps(p, feat, ranks, l, start);
                assert forall|k: int| 0 <= k < late.len() implies (#[trigger] late[k]).slot
                    < rt.calibration.tables@.len() by {
                    assert(l.late_indices[k] < rt.calibration.tables@.len());
                }
                if rt.certify_plan is Some {
                    lemma_run_by_plan(m, rt, &rt.certify_plan->Some_0, fold, tau, e.st, late);
                }
                law_late_stretches_come_to_the_same_verdict(
                    m,
                    two,
                    base,
                    e.st,
                    p,
                    feat,
                    ranks,
                    miss,
                    l,
                    start,
                );
            }
        }
    }
}

/// Steps that do not touch what their styles differ in end a run alike.
proof fn lemma_marks_do_not_matter(
    m: spec_fn(SingleOp) -> u32,
    j: Judge,
    init: u32,
    st: ProgressView,
    one: Seq<Step>,
    two: Seq<Step>,
    i: int,
)
    requires
        0 <= i,
        one.len() == two.len(),
        forall|k: int|
            0 <= k < one.len() ==> {
                &&& (#[trigger] one[k]).slot == two[k].slot
                &&& one[k].checkpoint == two[k].checkpoint
                &&& one[k].part == two[k].part
                &&& one[k].style.apart == two[k].style.apart
                &&& one[k].slot != 0
                &&& one[k].checkpoint != LANDMARK
            },
    ensures
        run_steps(m, j, init, st, one, i) == run_steps(m, j, init, st, two, i),
    decreases one.len() - i,
{
    if i < one.len() {
        let a = one[i];
        let b = two[i];
        if let Ok(w) = a.part {
            let next = step(m, j, init, st, a.slot, a.checkpoint, w, a.style);
            assert(next == step(m, j, init, st, b.slot, b.checkpoint, w, b.style));
            lemma_marks_do_not_matter(m, j, init, next.0, one, two, i + 1);
        }
    }
}

/// Whether the prepared stages of a model are its own, and its segments start past the first slot
/// and miss the landmark.
pub open spec fn prepared_to_match(rt: LoadedPrefixRuntime) -> bool {
    let l = rt.hot_checkpoint_layout->Some_0@;
    let segs = rt.late_segments->Some_0@;
    &&& rt.hot_stage_plan matches Some(plan) && rt.prefix_v2->Some_0.hot_feature_ids@
        == plan.hot_feature_ids@ && rt.prefix_v2->Some_0.stages@ == stages_of(plan, l.hot_indices)
    &&& stages_made(rt)
    &&& l.hot_values.len() > 0
    &&& segs.len() > 0
    &&& forall|i: int|
        0 <= i < segs.len() ==> (#[trigger] segs[i]).global_cp_idx != 0 && segs[i].checkpoint
            != LANDMARK && segs[i].pack@.n_trees > 0
}

/// A row comes to the same over stages that were prepared as over stages that are tested as it
/// goes.
pub proof fn law_prepared_stages_come_to_the_same_verdict(
    m: spec_fn(SingleOp) -> u32,
    rt: &LoadedPrefixRuntime,
    feat: Seq<u32>,
    tau: u32,
    fold: i32,
    ranks: Seq<u8>,
    buf: Seq<u32>,
)
    requires
        prepared_route(*rt),
        rt.hot_checkpoint_layout is Some,
        prepared_to_match(*rt),
    ensures
        prepared_row(m, rt, feat, tau, fold, ranks, buf) == online_row(
            m,
            rt,
            feat,
            tau,
            fold,
            ranks,
            buf,
        ),
{
    let j = judge_for(rt, plan_of(rt), fold, tau);
    let base = rt.pack@.base_score;
    let h = rt.compiled_hot_pack->Some_0;
    let l = rt.hot_checkpoint_layout->Some_0@;
    let plan = rt.hot_stage_plan->Some_0;
    let segs = rt.late_segments->Some_0@;
    let stages = stages_of(plan, l.hot_indices);
    lemma_plan_shape(h@, l.hot_values);
    let style = StepStyle::onto(true);
    let bold = staged_steps(h, buf, feat, plan.hot_feature_ids@, stages, false, style);
    let tested = staged_steps(h, buf, feat, plan.hot_feature_ids@, stages, true, style);
    assert forall|i: int| 0 <= i < bold.len() implies bold[i] == #[trigger] tested[i] by {
        assert(stage_begin(stages, i) == stage_start(l.hot_values, i));
        assert(stage_start(l.hot_values, i) < l.hot_values[i] <= h@.n_trees);
    }
    assert(bold =~= tested);
    let first = run_steps(m, j, base, beginning(base, base, false, 0), bold, 0);
    if let Ok(e) = first {
        let one = segment_steps(segs, feat, ranks, false);
        let two = segment_steps(segs, feat, ranks, true);
        assert forall|k: int| 0 <= k < one.len() implies {
            &&& (#[trigger] one[k]).slot == two[k].slot
            &&& one[k].checkpoint == two[k].checkpoint
            &&& one[k].part == two[k].part
            &&& one[k].style.apart == two[k].style.apart
            &&& one[k].slot != 0
            &&& one[k].checkpoint != LANDMARK
        } by {
            assert(segs[k].pack@.n_trees > 0);
        }
        lemma_marks_do_not_matter(m, j, base, e.st, one, two, 0);
    }
}

} // verus!
