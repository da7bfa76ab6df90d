//! Laws on the two stages: what their scores are made of, and which side they find a row on.

use crate::arith::{law_totals_continue, total, SingleOp};
use crate::descend::{chosen_row, full_row, NodeModel, RowModel, Rule, TraverseError};
use crate::exact::{law_opposite_worth, lemma_sum_worth_splits, sum_worth, weighed, worth};
use crate::exp_v1::{readied, resized};
use crate::forest::TreeOrder;
use crate::hot::{filled, hot_walk, tree_landing, HotTrees};
use crate::kernel::exact_course;
use crate::kinds::{hot_kernel, InferMode};
use crate::layout::LayoutView;
use crate::minpack::{
    concluded_row, hot_len, l1_course, l1_ready, l1_row, l2_prefix, l2_row, refitted, OnlineL1Runtime,
    OnlineL2Runtime, ScratchView,
};
use crate::online::prepared_route;
use crate::pack_check::pack_sound;
use crate::prefix_runtime::{
    all_slots, compiled_route, compiled_row, fewer, first_phase, followed, judge_for,
    last_checkpoint, shadow_row, LoadedPrefixRuntime, ShadowView,
};
use crate::qs_pack::PackModel;
use crate::qs_prefix::law_checkpoints_pass_when_rising;
use crate::qs_score::{span, tree_outcome, walk};
use crate::quantize::{marked, ranked};
use crate::routes::{
    law_prepared_stages_come_to_the_same_verdict, law_stages_come_to_the_same_verdict,
    made_to_match, off_the_cuts, prepared_to_match,
};
use crate::shadow::{
    beginning, hot_steps, qs_phase, qs_steps, run_steps, step, stretch_start, Judge, ProgressView,
    Step,
};
use crate::single::nan;
use crate::sums::{
    checkpoints_rising, high_enough, law_policy_stops_at_its_levels,
    law_scores_are_sums_of_visited_trees, law_stopping_early_keeps_the_side, leaves_are,
    lemma_stops_at_checkpoints, low_enough, settles, sum_by, unrounded, within_bounds,
};
use crate::tail::{model_leaves, plan_ready, tail_result};
use crate::traverse::{opening, travel, Course, RowMeta, RowResult};
use vstd::prelude::*;

verus! {

/// The first stage scores a row by the trees it visited and, where its policy does not stop it, is
/// right about the side: the row passes exactly if all trees together reach the threshold. It goes
/// on only as long as the trees to come can still change the side.
pub proof fn law_first_stage_is_right_about_the_side(
    m: spec_fn(SingleOp) -> u32,
    l1: &OnlineL1Runtime,
    feat: Seq<u32>,
    nan_free: bool,
    leaves: Seq<u32>,
)
    requires
        l1_ready(*l1),
        leaves.len() == l1.plan.n_trees,
        leaves_are(model_leaves(l1.model, l1.plan.order@, feat, !nan_free), leaves),
        unrounded(m, leaves, l1.plan, l1.threshold, 0, 0, nan_free, l1.base_score, 0),
        within_bounds(leaves, l1.plan, 0),
    ensures
        l1_row(m, l1, feat, nan_free) matches Ok(o) && {
            let seen = leaves.take(o.visited_trees as int);
            let cps = l1.approx_policy@.used_checkpoints;
            &&& 0 <= o.visited_trees <= leaves.len()
            &&& !nan_free ==> o.score == total(m, l1.base_score, seen)
            &&& nan_free ==> o.score == m(
                SingleOp::Sum(
                    total(m, m(SingleOp::Difference(l1.base_score, l1.threshold)), seen),
                    l1.threshold,
                ),
            )
            &&& o.visited_trees > l1.approx_policy@.k_hot || (forall|q: int|
                0 <= q < cps.len() ==> #[trigger] cps[q] != o.visited_trees) ==> (o.passed <==> worth(
                l1.base_score,
            ) + sum_worth(leaves) >= worth(l1.threshold))
            &&& l1.approx_policy@.k_hot < o.visited_trees < leaves.len() ==> settles(
                leaves,
                l1.plan,
                l1.threshold,
                0,
                l1.base_score,
                0,
                o.visited_trees as int,
                o.passed,
            )
            &&& forall|i: int|
                #![trigger leaves.take(i)]
                0 < i < o.visited_trees && i > l1.approx_policy@.k_hot ==> {
                    let so_far = worth(l1.base_score) + sum_worth(leaves.take(i));
                    &&& so_far + worth(l1.plan.suffix_min@[i]) < worth(l1.threshold)
                    &&& so_far + worth(l1.plan.suffix_max@[i]) >= worth(l1.threshold)
                }
        },
{
    let c = l1_course(l1, nan_free);
    let leaf = model_leaves(l1.model, l1.plan.order@, feat, !nan_free);
    law_scores_are_sums_of_visited_trees(m, leaf, leaves, c, l1.base_score, 0);
    law_stopping_early_keeps_the_side(m, leaf, leaves, c, l1.base_score, 0);
    lemma_stops_at_checkpoints(m, leaf, leaves, c, l1.base_score, 0);
    law_opposite_worth(0);
    let o = l1_row(m, l1, feat, nan_free)->Ok_0;
    assert(leaves.skip(0) =~= leaves);
    assert(leaves.subrange(0, o.visited_trees as int) =~= leaves.take(o.visited_trees as int));
    assert forall|i: int|
        #![trigger leaves.take(i)]
        0 < i < o.visited_trees && i > l1.approx_policy@.k_hot implies {
        let so_far = worth(l1.base_score) + sum_worth(leaves.take(i));
        &&& so_far + worth(l1.plan.suffix_min@[i]) < worth(l1.threshold)
        &&& so_far + worth(l1.plan.suffix_max@[i]) >= worth(l1.threshold)
    } by {
        assert(leaves.subrange(0, i) =~= leaves.take(i));
        assert(i % 1 == 0);
    }
}

/// A row that stops before the last tree, and before its bounds are looked at, was stopped by the
/// policy.
proof fn lemma_early_stops_are_the_policys(
    m: spec_fn(SingleOp) -> u32,
    leaf: spec_fn(int) -> Result<u32, TraverseError>,
    c: Course,
    pos: int,
    sum: u32,
    k: int,
)
    requires
        0 <= pos <= c.plan.n_trees <= 0x7fff_ffff,
        c.policy is Some,
        0 <= k,
        c.policy->Some_0@.used_checkpoints.len() <= 0x7fff_ffff,
    ensures
        travel(m, leaf, c, pos, sum, k) matches Ok(r) ==> (r.visited <= c.approx_trees && r.visited
            < c.plan.n_trees ==> r.meta != RowMeta::none()),
    decreases c.plan.n_trees - pos,
{
    if pos < c.plan.n_trees {
        if let Ok(v) = leaf(pos) {
            let next = m(SingleOp::Sum(sum, v));
            lemma_early_stops_are_the_policys(m, leaf, c, pos + 1, next, k);
            lemma_early_stops_are_the_policys(m, leaf, c, pos + 1, next, k + 1);
        }
    }
}

/// The policy stops a row of the first stage at the first of its checkpoints at which the row is far
/// enough from the threshold: no checkpoint that the row went past was far enough on either side,
/// and one at which it stopped was far enough on the side that it was put on, the lower first.
pub proof fn law_first_stage_stops_at_its_levels(
    m: spec_fn(SingleOp) -> u32,
    l1: &OnlineL1Runtime,
    feat: Seq<u32>,
    nan_free: bool,
    leaves: Seq<u32>,
)
    requires
        leaves.len() == l1.plan.n_trees <= 0x7fff_ffff,
        leaves_are(model_leaves(l1.model, l1.plan.order@, feat, !nan_free), leaves),
        l1.approx_policy@.used_checkpoints.len() <= 0x7fff_ffff,
        checkpoints_rising(l1.approx_policy@.used_checkpoints),
        l1.approx_policy@.used_checkpoints.len() > 0 ==> l1.approx_policy@.used_checkpoints[0] > 0,
        unrounded(m, leaves, l1.plan, l1.threshold, 0, 0, nan_free, l1.base_score, 0),
        !nan_free ==> forall|j: int|
            0 < j <= leaves.len() ==> {
                let d = m(
                    SingleOp::Difference(
                        #[trigger] sum_by(m, l1.base_score, leaves, 0, j),
                        l1.threshold,
                    ),
                );
                !nan(d) && worth(d) == worth(sum_by(m, l1.base_score, leaves, 0, j)) - worth(
                    l1.threshold,
                )
            },
    ensures
        l1_row(m, l1, feat, nan_free) matches Ok(o) && {
            let p = l1.approx_policy@;
            let away = |j: int|
                worth(l1.base_score) + sum_worth(leaves.subrange(0, j)) - worth(l1.threshold);
            let refers = |q: int|
                if nan_free {
                    Some(p.used_tau_ref_dense[q])
                } else {
                    p.used_tau_ref[q]
                };
            let passes_at = |q: int|
                if nan_free {
                    Some(p.used_tau_positive_dense[q])
                } else if p.used_tau_reject.len() > 0 {
                    p.used_tau_reject[q]
                } else {
                    p.used_tau_pass[q]
                };
            &&& forall|q: int|
                0 <= q < p.used_checkpoints.len() && {
                    let j = #[trigger] p.used_checkpoints[q];
                    j < o.visited_trees && j <= p.k_hot
                } ==> !low_enough(away(p.used_checkpoints[q] as int), refers(q)) && !high_enough(
                    away(p.used_checkpoints[q] as int),
                    passes_at(q),
                )
            &&& o.visited_trees <= p.k_hot && o.visited_trees < leaves.len() ==> exists|q: int|
                0 <= q < p.used_checkpoints.len() && {
                    &&& #[trigger] p.used_checkpoints[q] == o.visited_trees
                    &&& low_enough(away(o.visited_trees as int), refers(q)) == !o.passed
                    &&& o.passed ==> high_enough(away(o.visited_trees as int), passes_at(q))
                }
        },
{
    let c = l1_course(l1, nan_free);
    let p = l1.approx_policy@;
    let leaf = model_leaves(l1.model, l1.plan.order@, feat, !nan_free);
    assert forall|q: int| 0 <= q < p.used_checkpoints.len() implies #[trigger] p.used_checkpoints[q]
        > 0 by {
        assert(p.used_checkpoints[0] > 0);
    }
    law_policy_stops_at_its_levels(m, leaf, leaves, c, l1.base_score, 0);
    lemma_early_stops_are_the_policys(m, leaf, c, 0, opening(m, c, l1.base_score), 0);
    law_scores_are_sums_of_visited_trees(m, leaf, leaves, c, l1.base_score, 0);
    let r = travel(m, leaf, c, 0, opening(m, c, l1.base_score), 0)->Ok_0;
    if r.visited <= p.k_hot && r.visited < leaves.len() {
        assert(p.used_checkpoints[r.meta.approx_checkpoint_idx as int] == r.visited);
    }
}

/// Whether a run has counted the trees that it used: each once, in order, and no others.
pub open spec fn counted(
    m: spec_fn(SingleOp) -> u32,
    base: u32,
    leaves: Seq<u32>,
    score: u32,
    trees_used: int,
) -> bool {
    0 <= trees_used <= leaves.len() && score == total(m, base, leaves.take(trees_used))
}

/// Whether packed trees give a row its leaf values.
pub open spec fn packed_give(
    p: PackModel,
    ranks: Seq<u8>,
    miss: Seq<u8>,
    leaves: Seq<u32>,
) -> bool {
    forall|t: int|
        0 <= t < leaves.len() && t < p.n_trees ==> (#[trigger] tree_outcome(
            p,
            t,
            ranks,
            miss,
        ) matches Ok(o) ==> o.leaf == leaves[t])
}

/// Whether trees that are evaluated node by node give a row its leaf values.
pub open spec fn nodes_give(
    ns: Seq<NodeModel>,
    starts: Seq<int>,
    row: RowModel,
    miss_aware: bool,
    leaves: Seq<u32>,
) -> bool {
    forall|t: int|
        0 <= t < leaves.len() ==> (#[trigger] tree_landing(
            ns,
            starts,
            row,
            Rule { miss_aware, ranks: None },
            t,
        ) matches Ok(o) ==> o.leaf == leaves[t])
}

proof fn lemma_walk_leaves(
    p: PackModel,
    a: int,
    b: int,
    ranks: Seq<u8>,
    miss: Seq<u8>,
    leaves: Seq<u32>,
)
    requires
        0 <= a <= b <= leaves.len(),
        packed_give(p, ranks, miss, leaves),
    ensures
        walk(p, span(a, b), ranks, miss) matches Ok(w) ==> w.leaves == leaves.subrange(a, b),
    decreases b - a,
{
    if a < b {
        lemma_walk_leaves(p, a, b - 1, ranks, miss, leaves);
        assert(span(a, b).drop_last() =~= span(a, b - 1));
        assert(span(a, b).last() == b - 1);
        if let Ok(w) = walk(p, span(a, b), ranks, miss) {
            assert(tree_outcome(p, b - 1, ranks, miss) is Ok);
            assert(w.leaves =~= leaves.subrange(a, b));
        }
    } else {
        assert(leaves.subrange(a, b) =~= Seq::empty());
    }
}

proof fn lemma_hot_leaves(
    ns: Seq<NodeModel>,
    starts: Seq<int>,
    row: RowModel,
    miss_aware: bool,
    a: int,
    b: int,
    leaves: Seq<u32>,
)
    requires
        0 <= a <= b <= leaves.len(),
        nodes_give(ns, starts, row, miss_aware, leaves),
    ensures
        hot_walk(ns, starts, row, Rule { miss_aware, ranks: None }, a, b) matches Ok(w)
            ==> w.leaves == leaves.subrange(a, b),
    decreases b - a,
{
    let rule = Rule { miss_aware, ranks: None };
    if a < b {
        lemma_hot_leaves(ns, starts, row, miss_aware, a, b - 1, leaves);
        if let Ok(w) = hot_walk(ns, starts, row, rule, a, b) {
            assert(tree_landing(ns, starts, row, rule, b - 1) is Ok);
            assert(w.leaves =~= leaves.subrange(a, b));
        }
    } else {
        assert(leaves.subrange(a, b) =~= Seq::empty());
    }
}

/// A run over stretches that follow each other counts the trees that it uses.
proof fn lemma_steps_count(
    m: spec_fn(SingleOp) -> u32,
    j: Judge,
    init: u32,
    st: ProgressView,
    steps: Seq<Step>,
    i: int,
    base: u32,
    leaves: Seq<u32>,
)
    requires
        0 <= i <= steps.len(),
        counted(m, base, leaves, st.score, st.trees_used as int),
        forall|q: int|
            i <= q < steps.len() ==> {
                let begin = if q == i {
                    st.trees_used
                } else {
                    steps[q - 1].checkpoint
                };
                let s = #[trigger] steps[q];
                &&& !s.style.apart
                &&& begin <= s.checkpoint <= leaves.len()
                &&& s.part matches Ok(w) ==> w.leaves == leaves.subrange(
                    begin as int,
                    s.checkpoint as int,
                )
            },
    ensures
        run_steps(m, j, init, st, steps, i) matches Ok(e) ==> {
            &&& counted(m, base, leaves, e.st.score, e.st.trees_used as int)
            &&& e.verdict is None ==> e.st.trees_used == if i < steps.len() {
                steps.last().checkpoint
            } else {
                st.trees_used
            }
            &&& e.verdict matches Some(v) ==> v.2 == e.st.trees_used
        },
    decreases steps.len() - i,
{
    if i < steps.len() {
        let s = steps[i];
        if let Ok(w) = s.part {
            let (next, verdict) = step(
                m,
                j,
                init,
                st,
                s.slot,
                s.checkpoint,
                w,
                s.style,
            );
            law_totals_continue(m, base, leaves.take(st.trees_used as int), w.leaves);
            assert(leaves.take(st.trees_used as int) + w.leaves =~= leaves.take(
                s.checkpoint as int,
            ));
            assert(counted(m, base, leaves, next.score, next.trees_used as int));
            if verdict is None {
                assert forall|q: int| i + 1 <= q < steps.len() implies {
                    let begin = if q == i + 1 {
                        next.trees_used
                    } else {
                        steps[q - 1].checkpoint
                    };
                    let s = #[trigger] steps[q];
                    &&& !s.style.apart
                    &&& begin <= s.checkpoint <= leaves.len()
                    &&& s.part matches Ok(w) ==> w.leaves == leaves.subrange(
                        begin as int,
                        s.checkpoint as int,
                    )
                } by {}
                lemma_steps_count(m, j, init, next, steps, i + 1, base, leaves);
            }
        }
    }
}

/// Whether the stretch of late trees begins where the first trees end, where there is one.
pub open spec fn stretches_join(l: LayoutView, start: int) -> bool {
    l.late_values.len() > 0 ==> if l.hot_values.len() > 0 {
        l.hot_values.last() == start
    } else {
        start == 0
    }
}

/// The last checkpoint of a layout.
pub open spec fn last_of(l: LayoutView) -> int {
    if l.late_values.len() > 0 {
        l.late_values.last() as int
    } else if l.hot_values.len() > 0 {
        l.hot_values.last() as int
    } else {
        0
    }
}

/// A run over a packed ensemble counts the trees that it uses.
proof fn lemma_qs_counts(
    m: spec_fn(SingleOp) -> u32,
    j: Judge,
    init: u32,
    st: ProgressView,
    p: PackModel,
    ranks: Seq<u8>,
    miss: Seq<u8>,
    cps: Seq<usize>,
    slots: Seq<usize>,
    start: int,
    base: u32,
    leaves: Seq<u32>,
)
    requires
        counted(m, base, leaves, st.score, st.trees_used as int),
        st.trees_used == start,
        p.n_trees <= leaves.len(),
        packed_give(p, ranks, miss, leaves),
    ensures
        qs_phase(m, j, init, st, p, ranks, miss, cps, slots, start) matches Ok(e) ==> {
            &&& counted(m, base, leaves, e.st.score, e.st.trees_used as int)
            &&& cps.len() > 0
            &&& e.verdict is None ==> e.st.trees_used == cps.last()
            &&& e.verdict matches Some(v) ==> v.2 == e.st.trees_used
        },
{
    law_checkpoints_pass_when_rising(cps, p.n_trees);
    if qs_phase(m, j, init, st, p, ranks, miss, cps, slots, start) is Ok {
        let steps = qs_steps(p, ranks, miss, cps, slots, start);
        assert forall|q: int| 0 <= q < steps.len() implies {
            let begin = if q == 0 {
                st.trees_used
            } else {
                steps[q - 1].checkpoint
            };
            let s = #[trigger] steps[q];
            &&& !s.style.apart
            &&& begin <= s.checkpoint <= leaves.len()
            &&& s.part matches Ok(w) ==> w.leaves == leaves.subrange(
                begin as int,
                s.checkpoint as int,
            )
        } by {
            if q > 0 {
                assert(cps[q - 1] < cps[q]);
            }
            lemma_walk_leaves(
                p,
                stretch_start(cps, start, q),
                cps[q] as int,
                ranks,
                miss,
                leaves,
            );
        }
        lemma_steps_count(m, j, init, st, steps, 0, base, leaves);
    }
}

/// A run over first trees and the packed ensemble behind them counts the trees that it uses.
proof fn lemma_followed_counts(
    m: spec_fn(SingleOp) -> u32,
    j: Judge,
    base: u32,
    trace: bool,
    slots: nat,
    count: int,
    ns: Seq<NodeModel>,
    starts: Seq<int>,
    row: RowModel,
    miss_aware: bool,
    l: LayoutView,
    p: PackModel,
    ranks: Seq<u8>,
    miss: Seq<u8>,
    start: int,
    leaves: Seq<u32>,
)
    requires
        p.n_trees <= leaves.len(),
        count <= leaves.len(),
        packed_give(p, ranks, miss, leaves),
        nodes_give(ns, starts, row, miss_aware, leaves),
        stretches_join(l, start),
    ensures
        followed(
            m,
            j,
            base,
            first_phase(
                m,
                j,
                base,
                base,
                trace,
                slots,
                count,
                ns,
                starts,
                row,
                miss_aware,
                l,
            ),
            p,
            ranks,
            miss,
            l,
            start,
        ) matches Ok(e) ==> {
            &&& counted(m, base, leaves, e.st.score, e.st.trees_used as int)
            &&& e.verdict is None ==> e.st.trees_used == last_of(l)
            &&& e.verdict matches Some(v) ==> v.2 == e.st.trees_used
        },
{
    let first = first_phase(
        m,
        j,
        base,
        base,
        trace,
        slots,
        count,
        ns,
        starts,
        row,
        miss_aware,
        l,
    );
    let cps = l.hot_values;
    let st = beginning(base, base, trace, slots);
    assert(leaves.take(0) =~= Seq::empty());
    if first is Ok {
        if cps.len() > 0 {
            law_checkpoints_pass_when_rising(cps, count);
            let rule = Rule { miss_aware, ranks: None };
            let steps = hot_steps(ns, starts, row, rule, cps, l.hot_indices);
            assert forall|q: int| 0 <= q < steps.len() implies {
                let begin = if q == 0 {
                    st.trees_used
                } else {
                    steps[q - 1].checkpoint
                };
                let s = #[trigger] steps[q];
                &&& !s.style.apart
                &&& begin <= s.checkpoint <= leaves.len()
                &&& s.part matches Ok(w) ==> w.leaves == leaves.subrange(
                    begin as int,
                    s.checkpoint as int,
                )
            } by {
                if q > 0 {
                    assert(cps[q - 1] < cps[q]);
                }
                lemma_hot_leaves(
                    ns,
                    starts,
                    row,
                    miss_aware,
                    stretch_start(cps, 0, q),
                    cps[q] as int,
                    leaves,
                );
            }
            lemma_steps_count(m, j, base, st, steps, 0, base, leaves);
        }
        let e = first->Ok_0;
        if e.verdict is None && l.late_values.len() > 0 {
            lemma_qs_counts(
                m,
                j,
                base,
                e.st,
                p,
                ranks,
                miss,
                l.late_values,
                l.late_indices,
                start,
                base,
                leaves,
            );
        }
    }
}

/// Whether the first trees of a model give a row its leaf values, and are no more than those.
pub open spec fn first_trees_give(
    rt: LoadedPrefixRuntime,
    row: Seq<u32>,
    nan_free: bool,
    ranks: Seq<u8>,
    miss: Seq<u8>,
    buf: Seq<u32>,
    leaves: Seq<u32>,
) -> bool {
    let p = rt.pack@;
    &&& p.n_trees <= leaves.len()
    &&& packed_give(p, ranked(p, row, ranks), marked(p, row, miss), leaves)
    &&& if compiled_route(rt) {
        let h = rt.compiled_hot_pack->Some_0;
        &&& h@.n_trees <= leaves.len()
        &&& nodes_give(
            h.nodes_model(),
            h.starts(),
            full_row(filled(buf, h@.hot_global_fidx, row)),
            !nan_free,
            leaves,
        )
        &&& stretches_join(
            rt.hot_checkpoint_layout->Some_0@,
            fewer(h@.n_trees, p.n_trees),
        )
    } else {
        hot_kernel(rt.direct_kernel) && rt.hot_pack is Some && rt.hot_checkpoint_layout is Some ==> {
            let h = rt.hot_pack->Some_0;
            &&& h@.n_trees <= leaves.len()
            &&& nodes_give(
                h.nodes_model(),
                h.starts(),
                chosen_row(h@.hot_global_fidx, row),
                true,
                leaves,
            )
            &&& stretches_join(
                rt.hot_checkpoint_layout->Some_0@,
                fewer(h@.n_trees, p.n_trees),
            )
        }
    }
}

/// The checkpoint that a row without a verdict has come to.
pub open spec fn reached_without_verdict(rt: LoadedPrefixRuntime) -> int {
    if hot_kernel(rt.direct_kernel) {
        last_of(rt.hot_checkpoint_layout->Some_0@)
    } else {
        last_checkpoint(rt.calibration) as int
    }
}

/// Deciding a row from its first trees, the score is that of exactly the trees that are said to
/// be used: each counted once, in order. A row without a verdict has used those up to the last
/// checkpoint; a verdict is given at the checkpoint that was come to.
pub proof fn law_prefixes_count_their_trees(
    m: spec_fn(SingleOp) -> u32,
    rt: &LoadedPrefixRuntime,
    row: Seq<u32>,
    tau: u32,
    fold: i32,
    nan_free: bool,
    ranks: Seq<u8>,
    miss: Seq<u8>,
    buf: Seq<u32>,
    trace: bool,
    leaves: Seq<u32>,
)
    requires
        first_trees_give(*rt, row, nan_free, ranks, miss, buf, leaves),
    ensures
        ({
            let r = if compiled_route(*rt) {
                compiled_row(m, rt, row, tau, fold, nan_free, ranks, miss, buf)
            } else {
                shadow_row(m, rt, row, tau, fold, ranks, miss, rt.pack@.base_score, trace)
            };
            r matches Ok(v) ==> {
                &&& counted(m, rt.pack@.base_score, leaves, v.prefix_score, v.trees_used)
                &&& v.fallback_used ==> v.trees_used == reached_without_verdict(*rt)
                &&& !v.fallback_used ==> v.direct_checkpoint == v.trees_used
            }
        }),
{
    let p = rt.pack@;
    let base = p.base_score;
    let j = judge_for(rt, None, fold, tau);
    let cps = rt.calibration.checkpoints@;
    let r = ranked(p, row, ranks);
    let q = marked(p, row, miss);
    assert(leaves.take(0) =~= Seq::empty());
    if compiled_route(*rt) {
        let h = rt.compiled_hot_pack->Some_0;
        lemma_followed_counts(
            m,
            j,
            base,
            false,
            0,
            h@.n_trees,
            h.nodes_model(),
            h.starts(),
            full_row(filled(buf, h@.hot_global_fidx, row)),
            !nan_free,
            rt.hot_checkpoint_layout->Some_0@,
            p,
            r,
            q,
            fewer(h@.n_trees, p.n_trees),
            leaves,
        );
    } else if !hot_kernel(rt.direct_kernel) {
        lemma_qs_counts(
            m,
            j,
            base,
            beginning(base, base, trace, cps.len()),
            p,
            r,
            q,
            cps,
            all_slots(cps.len()),
            0,
            base,
            leaves,
        );
    } else if rt.hot_pack is Some && rt.hot_checkpoint_layout is Some {
        let h = rt.hot_pack->Some_0;
        lemma_followed_counts(
            m,
            j,
            base,
            trace,
            cps.len(),
            h@.n_trees,
            h.nodes_model(),
            h.starts(),
            chosen_row(h@.hot_global_fidx, row),
            true,
            rt.hot_checkpoint_layout->Some_0@,
            p,
            r,
            q,
            fewer(h@.n_trees, p.n_trees),
            leaves,
        );
    }
}

/// Whether the first trees of a model give a row its leaf values, whatever its buffers held.
pub open spec fn always_give(
    rt: LoadedPrefixRuntime,
    row: Seq<u32>,
    nan_free: bool,
    leaves: Seq<u32>,
) -> bool {
    let n = rt.pack@.n_features as nat;
    forall|ranks: Seq<u8>, miss: Seq<u8>, buf: Seq<u32>|
        ranks.len() == n && miss.len() == n && buf.len() == hot_len(rt)
            ==> #[trigger] first_trees_give(rt, row, nan_free, ranks, miss, buf, leaves)
}

/// Whether a row without missing values may be run stage by stage: the stages, segments and late
/// stretches of the model are its own, and the row meets no cut exactly.
pub open spec fn staged_alike(rt: LoadedPrefixRuntime, row: Seq<u32>) -> bool {
    &&& compiled_route(rt)
    &&& pack_sound(rt.pack@)
    &&& made_to_match(rt)
    &&& hot_len(rt) == rt.compiled_hot_pack->Some_0@.hot_global_fidx.len()
    &&& off_the_cuts(rt.pack@, row)
    &&& prepared_route(rt) ==> prepared_to_match(rt)
}

/// What a row has counted may be added to without rounding where counting from the start does not
/// round.
proof fn lemma_unrounded_on(
    m: spec_fn(SingleOp) -> u32,
    leaves: Seq<u32>,
    plan: TreeOrder,
    threshold: u32,
    base: u32,
    score: u32,
    k: int,
)
    requires
        unrounded(m, leaves, plan, threshold, 0, 0, false, base, 0),
        counted(m, base, leaves, score, k),
    ensures
        unrounded(m, leaves, plan, threshold, 0, 0, false, score, k),
        worth(score) == worth(base) + sum_worth(leaves.take(k)),
        forall|j: int|
            #![trigger sum_by(m, score, leaves, k, j)]
            k <= j <= leaves.len() ==> sum_by(m, score, leaves, k, j) == total(
                m,
                base,
                leaves.take(j),
            ),
{
    assert(leaves.skip(0) =~= leaves);
    assert(worth(total(m, base, leaves.take(k))) == worth(base) + sum_worth(leaves.take(k)));
    assert forall|j: int| #![trigger sum_by(m, score, leaves, k, j)] k <= j <= leaves.len() implies sum_by(
        m,
        score,
        leaves,
        k,
        j,
    ) == total(m, base, leaves.take(j)) by {
        law_totals_continue(m, base, leaves.take(k), leaves.subrange(k, j));
        assert(leaves.take(k) + leaves.subrange(k, j) =~= leaves.take(j));
    }
    let tail = leaves.skip(k);
    assert forall|i: int| 0 <= i <= tail.len() implies !nan(
        #[trigger] total(m, score, tail.take(i)),
    ) && worth(total(m, score, tail.take(i))) == worth(score) + sum_worth(tail.take(i)) by {
        assert(tail.take(i) =~= leaves.subrange(k, k + i));
        assert(sum_by(m, score, leaves, k, k + i) == total(m, base, leaves.take(k + i)));
        lemma_sum_worth_splits(leaves.take(k + i), k);
        assert(leaves.take(k + i).take(k) =~= leaves.take(k));
        assert(leaves.take(k + i).skip(k) =~= leaves.subrange(k, k + i));
    }
    assert forall|j: int| k < j <= leaves.len() implies weighed(
        m,
        #[trigger] sum_by(m, score, leaves, k, j),
        plan.suffix_min@[j],
    ) && weighed(m, sum_by(m, score, leaves, k, j), plan.suffix_max@[j]) by {
        assert(leaves.subrange(0, j) =~= leaves.take(j));
        assert(sum_by(m, base, leaves, 0, j) == total(m, base, leaves.take(j)));
    }
}

/// The first trees of a row in the second stage are counted.
proof fn lemma_prefix_counts(
    m: spec_fn(SingleOp) -> u32,
    l2: &OnlineL2Runtime,
    row: Seq<u32>,
    tau: u32,
    fold: i32,
    nan_free: bool,
    s: ScratchView,
    leaves: Seq<u32>,
)
    requires
        always_give(l2.runtime, row, nan_free, leaves),
        0 <= l2.runtime.pack@.n_features,
        nan_free && (compiled_route(l2.runtime) || prepared_route(l2.runtime)) ==> staged_alike(
            l2.runtime,
            row,
        ),
    ensures
        l2_prefix(m, l2, row, tau, fold, nan_free, s) matches Ok(v) ==> counted(
            m,
            l2.runtime.pack@.base_score,
            leaves,
            v.prefix_score,
            v.trees_used,
        ) && (v.fallback_used ==> v.trees_used == reached_without_verdict(l2.runtime)),
{
    let rt = &l2.runtime;
    let n = rt.pack@.n_features as nat;
    let buf = refitted(s.hot, hot_len(*rt));
    let staged = nan_free && (prepared_route(*rt) || compiled_route(*rt));
    let ranks = if staged {
        resized(s.ranks, n)
    } else if nan_free && rt.compiled_hot_pack is Some {
        readied(resized(s.ranks, n), n)
    } else {
        readied(s.ranks, n)
    };
    let miss = readied(s.missing, n);
    assert(first_trees_give(*rt, row, nan_free, ranks, miss, buf, leaves));
    law_prefixes_count_their_trees(
        m,
        rt,
        row,
        tau,
        fold,
        nan_free,
        ranks,
        miss,
        buf,
        false,
        leaves,
    );
    if staged {
        assert(staged_alike(*rt, row));
        law_stages_come_to_the_same_verdict(m, rt, row, tau, fold, ranks, miss, buf);
        if prepared_route(*rt) {
            law_prepared_stages_come_to_the_same_verdict(m, rt, row, tau, fold, ranks, buf);
        }
    }
}

/// The trees behind the first ones are counted too, and the side is that of all trees.
proof fn lemma_tail_counts(
    m: spec_fn(SingleOp) -> u32,
    l2: &OnlineL2Runtime,
    row: Seq<u32>,
    tau: u32,
    nan_free: bool,
    v: ShadowView,
    leaves: Seq<u32>,
)
    requires
        plan_ready(l2.runtime.plan),
        leaves.len() == l2.runtime.plan.n_trees,
        leaves_are(model_leaves(l2.model, l2.runtime.plan.order@, row, !nan_free), leaves),
        counted(m, l2.runtime.pack@.base_score, leaves, v.prefix_score, v.trees_used),
        v.fallback_used,
    ensures
        concluded_row(m, l2, row, tau, nan_free, v) matches Ok(o) ==> {
            let base = l2.runtime.pack@.base_score;
            let n = leaves.len() as int;
            let k = v.trees_used;
            &&& o.used_fallback
            &&& exists|j: int| #[trigger]
                counted(m, base, leaves, o.score, j) && k <= j <= n && (n <= 0x3fff_ffff
                    ==> o.trees_used == k + j) && (unrounded(
                    m,
                    leaves,
                    l2.runtime.plan,
                    tau,
                    0,
                    0,
                    false,
                    base,
                    0,
                ) && within_bounds(leaves, l2.runtime.plan, 0) && j < n ==> settles(
                    leaves,
                    l2.runtime.plan,
                    tau,
                    0,
                    base,
                    0,
                    j,
                    o.reject,
                ))
            &&& unrounded(
                m,
                leaves,
                l2.runtime.plan,
                tau,
                0,
                0,
                false,
                base,
                0,
            ) && within_bounds(leaves, l2.runtime.plan, 0) ==> (o.reject <==> worth(base)
                + sum_worth(leaves) >= worth(tau))
        },
{
    let rt = &l2.runtime;
    let base = rt.pack@.base_score;
    let k = v.trees_used;
    let c = exact_course(&rt.plan, None, InferMode::L2RouteExactReordered, tau, 0, 0, 1);
    let leaf = model_leaves(l2.model, rt.plan.order@, row, !nan_free);
    law_scores_are_sums_of_visited_trees(m, leaf, leaves, c, v.prefix_score, k);
    lemma_stops_at_checkpoints(m, leaf, leaves, c, v.prefix_score, k);
    let t = travel(m, leaf, c, k, v.prefix_score, 0)->Ok_0;
    let j = t.visited as int;
    law_totals_continue(m, base, leaves.take(k), leaves.subrange(k, j));
    assert(leaves.take(k) + leaves.subrange(k, j) =~= leaves.take(j));
    assert(counted(m, base, leaves, t.score, j));
    assert(tail_result(m, l2.model, &rt.plan, row, tau, nan_free, v.prefix_score, k) == Ok::<
        RowResult,
        TraverseError,
    >(t));
    let o = concluded_row(m, l2, row, tau, nan_free, v)->Ok_0;
    assert(counted(m, base, leaves, o.score, j));
    assert(leaves.len() <= 0x3fff_ffff ==> o.trees_used == k + j);
    if unrounded(m, leaves, rt.plan, tau, 0, 0, false, base, 0) && within_bounds(
        leaves,
        rt.plan,
        0,
    ) {
        law_opposite_worth(0);
        lemma_unrounded_on(m, leaves, rt.plan, tau, base, v.prefix_score, k);
        law_stopping_early_keeps_the_side(m, leaf, leaves, c, v.prefix_score, k);
        lemma_sum_worth_splits(leaves, k);
        lemma_sum_worth_splits(leaves.take(j), k);
        assert(leaves.take(j).take(k) =~= leaves.take(k));
        assert(leaves.take(j).skip(k) =~= leaves.subrange(k, j));
        assert(leaves.subrange(0, j) =~= leaves.take(j));
    }
}

/// The second stage accounts for every tree: a row that no checkpoint decides is scored by the
/// base score and the leaf values of the trees in order, each counted once, those of the first
/// trees and those behind them alike, up to the tree at which the bounds settle the side; and it
/// is rejected exactly if all trees together reach the threshold.
pub proof fn law_undecided_rows_count_every_tree(
    m: spec_fn(SingleOp) -> u32,
    l2: &OnlineL2Runtime,
    row: Seq<u32>,
    tau: u32,
    fold: i32,
    nan_free: bool,
    s: ScratchView,
    leaves: Seq<u32>,
)
    requires
        plan_ready(l2.runtime.plan),
        leaves.len() == l2.runtime.plan.n_trees,
        leaves_are(model_leaves(l2.model, l2.runtime.plan.order@, row, !nan_free), leaves),
        always_give(l2.runtime, row, nan_free, leaves),
        0 <= l2.runtime.pack@.n_features,
        nan_free && (compiled_route(l2.runtime) || prepared_route(l2.runtime)) ==> staged_alike(
            l2.runtime,
            row,
        ),
    ensures
        l2_row(m, l2, row, tau, fold, nan_free, s) matches Ok(o) ==> {
            let v = l2_prefix(m, l2, row, tau, fold, nan_free, s)->Ok_0;
            let base = l2.runtime.pack@.base_score;
            let n = leaves.len() as int;
            let k = reached_without_verdict(l2.runtime);
            &&& o.used_fallback == v.fallback_used
            &&& !o.used_fallback ==> o.score == v.shadow_route_score && o.reject == v.shadow_reject
            &&& o.used_fallback ==> exists|j: int| #[trigger]
                counted(m, base, leaves, o.score, j) && k <= j <= n && (n <= 0x3fff_ffff
                    ==> o.trees_used == k + j) && (unrounded(
                    m,
                    leaves,
                    l2.runtime.plan,
                    tau,
                    0,
                    0,
                    false,
                    base,
                    0,
                ) && within_bounds(leaves, l2.runtime.plan, 0) && j < n ==> settles(
                    leaves,
                    l2.runtime.plan,
                    tau,
                    0,
                    base,
                    0,
                    j,
                    o.reject,
                ))
            &&& o.used_fallback && unrounded(
                m,
                leaves,
                l2.runtime.plan,
                tau,
                0,
                0,
                false,
                base,
                0,
            ) && within_bounds(leaves, l2.runtime.plan, 0) ==> (o.reject <==> worth(base)
                + sum_worth(leaves) >= worth(tau))
        },
{
    lemma_prefix_counts(m, l2, row, tau, fold, nan_free, s, leaves);
    if let Ok(v) = l2_prefix(m, l2, row, tau, fold, nan_free, s) {
        if v.fallback_used {
            lemma_tail_counts(m, l2, row, tau, nan_free, v, leaves);
        }
    }
}

} // verus!
