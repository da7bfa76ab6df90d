//! Laws on rows that are run over a package or over what is left of a pack: every tree counts once.

use crate::arith::{total, SingleOp};
use crate::continuation::{continued, rest_of_pack, Continuation};
use crate::descend::{full_row, NodeModel, RowModel, Rule};
use crate::exact::{
    adds_steps, countable, in_steps, law_opposite_worth, law_small_multiples_add_exactly,
    law_worth_orders, lemma_sizes_split, lemma_sum_in_steps, lemma_sum_worth_splits, size,
    sum_size, sum_worth, worth,
};
use crate::exp_v1::{
    exp_hot_style, exp_judge, exp_late_steps, exp_ranks, exp_row, exp_tail, readied,
    resized_values, L2ExpV1Runtime,
};
use crate::forest::SoaModel;
use crate::hot::{hot_walk, tree_landing, HotTrees};
use crate::kernel::exact_course;
use crate::kinds::InferMode;
use crate::minpack::pack_tail;
use crate::online::{staged_steps, staged_values, stages_of};
use crate::prefix_runtime::{LoadedPrefixRuntime, ShadowView};
use crate::qs_pack::PackModel;
use crate::qs_score::{indices, none_missing, tree_outcome, walk};
use crate::quantize::ranked_mapped;
use crate::shadow::{beginning, run_steps, step, Judge, ProgressView, Step};
use crate::sums::{
    law_scores_are_sums_of_visited_trees, law_stopping_early_keeps_the_side, leaves_are,
    lemma_stops_at_checkpoints, unrounded, within_bounds,
};
use crate::tail::model_leaves;
use vstd::prelude::*;

verus! {

/// Whether listed trees of a pack give the leaf values of a stretch.
pub open spec fn part_gives(
    p: PackModel,
    trees: Seq<int>,
    ranks: Seq<u8>,
    miss: Seq<u8>,
    stretch: Seq<u32>,
) -> bool {
    &&& trees.len() == stretch.len()
    &&& forall|x: int|
        0 <= x < stretch.len() ==> (tree_outcome(p, #[trigger] trees[x], ranks, miss) matches Ok(o)
            ==> o.leaf == stretch[x])
}

/// Whether trees that are evaluated node by node give the leaf values of a stretch.
pub open spec fn stage_gives(
    ns: Seq<NodeModel>,
    starts: Seq<int>,
    row: RowModel,
    a: int,
    b: int,
    leaves: Seq<u32>,
) -> bool {
    forall|t: int|
        a <= t < b ==> (#[trigger] tree_landing(
            ns,
            starts,
            row,
            Rule { miss_aware: false, ranks: None },
            t,
        ) matches Ok(o) ==> o.leaf == leaves[t])
}

/// Listed trees of a pack gather the leaf values that they give.
pub proof fn lemma_part_leaves(
    p: PackModel,
    trees: Seq<int>,
    ranks: Seq<u8>,
    miss: Seq<u8>,
    stretch: Seq<u32>,
)
    requires
        part_gives(p, trees, ranks, miss, stretch),
    ensures
        walk(p, trees, ranks, miss) matches Ok(w) ==> w.leaves == stretch,
    decreases trees.len(),
{
    if trees.len() > 0 {
        let n = trees.len() - 1;
        assert forall|x: int| 0 <= x < stretch.drop_last().len() implies (tree_outcome(
            p,
            #[trigger] trees.drop_last()[x],
            ranks,
            miss,
        ) matches Ok(o) ==> o.leaf == stretch.drop_last()[x]) by {
            assert(trees[x] == trees.drop_last()[x]);
        }
        lemma_part_leaves(p, trees.drop_last(), ranks, miss, stretch.drop_last());
        if let Ok(w) = walk(p, trees, ranks, miss) {
            assert(tree_outcome(p, trees[n], ranks, miss) is Ok);
            assert(w.leaves =~= stretch);
        }
    } else {
        assert(stretch =~= Seq::empty());
    }
}

proof fn lemma_stage_leaves(
    ns: Seq<NodeModel>,
    starts: Seq<int>,
    row: RowModel,
    a: int,
    b: int,
    leaves: Seq<u32>,
)
    requires
        0 <= a <= b <= leaves.len(),
        stage_gives(ns, starts, row, a, b, leaves),
    ensures
        hot_walk(ns, starts, row, Rule { miss_aware: false, ranks: None }, a, b) matches Ok(w)
            ==> w.leaves == leaves.subrange(a, b),
    decreases b - a,
{
    let rule = Rule { miss_aware: false, ranks: None };
    if a < b {
        lemma_stage_leaves(ns, starts, row, a, b - 1, leaves);
        if let Ok(w) = hot_walk(ns, starts, row, rule, a, b) {
            assert(tree_landing(ns, starts, row, rule, b - 1) is Ok);
            assert(w.leaves =~= leaves.subrange(a, b));
        }
    } else {
        assert(leaves.subrange(a, b) =~= Seq::empty());
    }
}

/// Whether numbers are so coarse and so few that adding them does not round: a base and leaf values
/// that are multiples of a step and come to at most 2^24 steps.
pub open spec fn adds_up(m: spec_fn(SingleOp) -> u32, q: int, base: u32, leaves: Seq<u32>) -> bool {
    &&& adds_steps(m, q)
    &&& countable(base)
    &&& worth(base) % q == 0
    &&& in_steps(leaves, q)
    &&& size(base) + sum_size(leaves) <= 0x100_0000 * q
}

/// Whether a score is worth the base and the leaf values of the trees used, each once.
pub open spec fn counts(base: u32, leaves: Seq<u32>, score: u32, used: int) -> bool {
    &&& 0 <= used <= leaves.len()
    &&& countable(score)
    &&& worth(score) == worth(base) + sum_worth(leaves.take(used))
}

/// Adding a stretch, tree by tree or on its own first, counts its trees.
proof fn lemma_stretch_counts(
    m: spec_fn(SingleOp) -> u32,
    q: int,
    base: u32,
    leaves: Seq<u32>,
    score: u32,
    a: int,
    b: int,
)
    requires
        adds_up(m, q, base, leaves),
        counts(base, leaves, score, a),
        a <= b <= leaves.len(),
    ensures
        counts(base, leaves, total(m, score, leaves.subrange(a, b)), b),
        counts(
            base,
            leaves,
            m(SingleOp::Sum(score, total(m, 0, leaves.subrange(a, b)))),
            b,
        ),
{
    let part = leaves.subrange(a, b);
    let before = leaves.take(a);
    let after = leaves.take(b);
    assert(after.take(a) =~= before);
    assert(after.skip(a) =~= part);
    lemma_sum_worth_splits(after, a);
    lemma_sizes_split(after, a);
    lemma_sizes_split(leaves, b);
    assert(in_steps(before, q)) by {
        assert forall|i: int| 0 <= i < before.len() implies worth(#[trigger] before[i]) % q == 0 by {
            assert(before[i] == leaves[i]);
        }
    }
    assert(in_steps(part, q)) by {
        assert forall|i: int| 0 <= i < part.len() implies worth(#[trigger] part[i]) % q == 0 by {
            assert(part[i] == leaves[a + i]);
        }
    }
    lemma_sum_in_steps(before, q);
    lemma_sum_in_steps(part, q);
    vstd::arithmetic::div_mod::lemma_small_mod(0, q as nat);
    vstd::arithmetic::div_mod::lemma_add_mod_noop(worth(base), sum_worth(before), q);
    assert((worth(base) + sum_worth(before)) % q == 0);
    law_small_multiples_add_exactly(m, q, score, part);
    law_opposite_worth(0);
    law_small_multiples_add_exactly(m, q, 0, part);
    let own = total(m, 0, part);
    let r = m(SingleOp::Sum(score, own));
    assert(countable(r) && worth(r) == worth(score) + worth(own));
}

/// Whether stretches from one on follow each other, the first from a tree on, and give the leaf
/// values of the trees that they cover.
pub open spec fn in_line(steps: Seq<Step>, i: int, from: int, leaves: Seq<u32>) -> bool {
    forall|k: int|
        i <= k < steps.len() ==> {
            let begin = if k == i {
                from
            } else {
                steps[k - 1].checkpoint as int
            };
            let s = #[trigger] steps[k];
            &&& begin <= s.checkpoint <= leaves.len()
            &&& s.part matches Ok(w) ==> w.leaves == leaves.subrange(begin, s.checkpoint as int)
        }
}

/// A run over stretches that follow each other counts the trees that it uses.
proof fn lemma_steps_count(
    m: spec_fn(SingleOp) -> u32,
    q: int,
    j: Judge,
    init: u32,
    st: ProgressView,
    steps: Seq<Step>,
    i: int,
    base: u32,
    leaves: Seq<u32>,
)
    requires
        adds_up(m, q, base, leaves),
        0 <= i <= steps.len(),
        counts(base, leaves, st.score, st.trees_used as int),
        in_line(steps, i, st.trees_used as int, leaves),
    ensures
        run_steps(m, j, init, st, steps, i) matches Ok(e) ==> {
            &&& counts(base, leaves, e.st.score, e.st.trees_used as int)
            &&& e.verdict is None ==> e.st.trees_used == if i < steps.len() {
                steps.last().checkpoint
            } else {
                st.trees_used
            }
        },
    decreases steps.len() - i,
{
    if i < steps.len() {
        let s = steps[i];
        if let Ok(w) = s.part {
            let (next, verdict) = step(m, j, init, st, s.slot, s.checkpoint, w, s.style);
            lemma_stretch_counts(
                m,
                q,
                base,
                leaves,
                st.score,
                st.trees_used as int,
                s.checkpoint as int,
            );
            assert(counts(base, leaves, next.score, next.trees_used as int));
            if verdict is None {
                assert(in_line(steps, i + 1, next.trees_used as int, leaves));
                lemma_steps_count(m, q, j, init, next, steps, i + 1, base, leaves);
            }
        }
    }
}

/// Where a late stretch of a package begins.
pub open spec fn late_from(exp: L2ExpV1Runtime, i: int) -> int {
    let cps = exp.hot_stage_plan.checkpoints@;
    if i > 0 {
        exp.late_segments@[i - 1].checkpoint as int
    } else if cps.len() > 0 {
        cps.last() as int
    } else {
        0
    }
}

/// Whether the parts of a package follow each other and give a row its leaf values: its stages, its
/// late stretches, and the trees behind them.
pub open spec fn package_gives(
    exp: L2ExpV1Runtime,
    feat: Seq<u32>,
    buf: Seq<u32>,
    ranks: Seq<u8>,
    leaves: Seq<u32>,
) -> bool {
    let h = exp.compiled_hot_pack;
    let cps = exp.hot_stage_plan.checkpoints@;
    let segs = exp.late_segments@;
    let stages = stages_of(exp.hot_stage_plan, exp.hot_checkpoint_layout@.hot_indices);
    let last = late_from(exp, segs.len() as int);
    &&& forall|i: int|
        0 <= i < cps.len() ==> {
            let begin = if i > 0 {
                cps[i - 1] as int
            } else {
                0
            };
            &&& begin <= #[trigger] cps[i] <= leaves.len()
            &&& stage_gives(
                h.nodes_model(),
                h.starts(),
                full_row(
                    staged_values(
                        resized_values(buf, h@.n_hot_features as nat),
                        h@.hot_global_fidx,
                        feat,
                        exp.hot_stage_plan.hot_feature_ids@,
                        stages,
                        i + 1,
                    ),
                ),
                begin,
                cps[i] as int,
                leaves,
            )
        }
    &&& forall|i: int|
        0 <= i < segs.len() ==> {
            let s = #[trigger] segs[i];
            &&& late_from(exp, i) <= s.checkpoint <= leaves.len()
            &&& part_gives(
                s.pack@,
                indices(s.all_tree_indices@),
                exp_ranks(segs, feat, ranks, i + 1),
                none_missing(),
                leaves.subrange(late_from(exp, i), s.checkpoint as int),
            )
        }
    &&& 0 <= last <= leaves.len()
    &&& match exp.tail {
        None => last == leaves.len(),
        Some(t) => part_gives(
            t.pack@,
            indices(t.all_tree_indices@),
            ranked_mapped(
                t.pack@,
                feat,
                readied(
                    exp_ranks(segs, feat, ranks, segs.len() as int),
                    t.pack@.n_features as nat,
                ),
                t.local_to_global_fid@,
            ),
            none_missing(),
            leaves.skip(last),
        ),
    }
}

proof fn lemma_hot_in_line(
    exp: L2ExpV1Runtime,
    feat: Seq<u32>,
    buf: Seq<u32>,
    ranks: Seq<u8>,
    leaves: Seq<u32>,
)
    requires
        package_gives(exp, feat, buf, ranks, leaves),
    ensures
        in_line(hot_stretches(exp, feat, buf), 0, 0, leaves),
        hot_stretches(exp, feat, buf).len() == exp.hot_stage_plan.checkpoints@.len(),
        exp.hot_stage_plan.checkpoints@.len() > 0 ==> hot_stretches(exp, feat, buf).last().checkpoint
            == late_from(exp, 0),
{
    let h = exp.compiled_hot_pack;
    let cps = exp.hot_stage_plan.checkpoints@;
    let stages = stages_of(exp.hot_stage_plan, exp.hot_checkpoint_layout@.hot_indices);
    let values = resized_values(buf, h@.n_hot_features as nat);
    let ids = exp.hot_stage_plan.hot_feature_ids@;
    let one = hot_stretches(exp, feat, buf);
    assert forall|k: int| 0 <= k < one.len() implies {
        let begin = if k == 0 {
            0
        } else {
            one[k - 1].checkpoint as int
        };
        let s = #[trigger] one[k];
        &&& begin <= s.checkpoint <= leaves.len()
        &&& s.part matches Ok(w) ==> w.leaves == leaves.subrange(begin, s.checkpoint as int)
    } by {
        assert(stages[k].checkpoint == cps[k]);
        if k > 0 {
            assert(stages[k - 1].checkpoint == cps[k - 1]);
            assert(cps[k - 1] <= leaves.len());
        }
        let begin = if k > 0 {
            cps[k - 1] as int
        } else {
            0
        };
        lemma_stage_leaves(
            h.nodes_model(),
            h.starts(),
            full_row(staged_values(values, h@.hot_global_fidx, feat, ids, stages, k + 1)),
            begin,
            cps[k] as int,
            leaves,
        );
    }
}

proof fn lemma_late_in_line(
    exp: L2ExpV1Runtime,
    feat: Seq<u32>,
    buf: Seq<u32>,
    ranks: Seq<u8>,
    leaves: Seq<u32>,
)
    requires
        package_gives(exp, feat, buf, ranks, leaves),
    ensures
        in_line(exp_late_steps(exp.late_segments@, feat, ranks), 0, late_from(exp, 0), leaves),
{
    let segs = exp.late_segments@;
    let two = exp_late_steps(segs, feat, ranks);
    assert(0 <= late_from(exp, 0) <= leaves.len()) by {
        let cps = exp.hot_stage_plan.checkpoints@;
        if cps.len() > 0 {
            assert(cps[cps.len() - 1] <= leaves.len());
        }
    }
    assert forall|k: int| 0 <= k < two.len() implies {
        let begin = if k == 0 {
            late_from(exp, 0)
        } else {
            two[k - 1].checkpoint as int
        };
        let s = #[trigger] two[k];
        &&& begin <= s.checkpoint <= leaves.len()
        &&& s.part matches Ok(w) ==> w.leaves == leaves.subrange(begin, s.checkpoint as int)
    } by {
        let s = segs[k];
        assert(late_from(exp, k) <= s.checkpoint);
        if k > 0 {
            assert(two[k - 1].checkpoint == segs[k - 1].checkpoint);
        }
        lemma_part_leaves(
            s.pack@,
            indices(s.all_tree_indices@),
            exp_ranks(segs, feat, ranks, k + 1),
            none_missing(),
            leaves.subrange(late_from(exp, k), s.checkpoint as int),
        );
    }
}

proof fn lemma_tail_counts(
    m: spec_fn(SingleOp) -> u32,
    exp: L2ExpV1Runtime,
    base: u32,
    feat: Seq<u32>,
    tau: u32,
    buf: Seq<u32>,
    ranks: Seq<u8>,
    leaves: Seq<u32>,
    q: int,
    st: ProgressView,
)
    requires
        adds_up(m, q, base, leaves),
        package_gives(exp, feat, buf, ranks, leaves),
        countable(tau),
        counts(base, leaves, st.score, late_from(exp, exp.late_segments@.len() as int)),
        st.trees_used == late_from(exp, exp.late_segments@.len() as int),
    ensures
        exp_tail(
            m,
            exp,
            feat,
            tau,
            exp_ranks(exp.late_segments@, feat, ranks, exp.late_segments@.len() as int),
            st,
        ) matches Ok(o) ==> {
            &&& worth(o.score) == worth(base) + sum_worth(leaves)
            &&& o.reject <==> worth(base) + sum_worth(leaves) >= worth(tau)
            &&& leaves.len() <= 0x7fff_ffff && (exp.tail matches Some(t) ==> t.tree_count
                == t.all_tree_indices@.len()) ==> o.trees_used == leaves.len()
        },
{
    let segs = exp.late_segments@;
    let last = late_from(exp, segs.len() as int);
    lemma_stretch_counts(m, q, base, leaves, st.score, last, leaves.len() as int);
    assert(leaves.take(leaves.len() as int) =~= leaves);
    assert(leaves.subrange(last, leaves.len() as int) =~= leaves.skip(last));
    if let Some(t) = exp.tail {
        lemma_part_leaves(
            t.pack@,
            indices(t.all_tree_indices@),
            ranked_mapped(
                t.pack@,
                feat,
                readied(
                    exp_ranks(segs, feat, ranks, segs.len() as int),
                    t.pack@.n_features as nat,
                ),
                t.local_to_global_fid@,
            ),
            none_missing(),
            leaves.skip(last),
        );
        law_worth_orders(tau, m(SingleOp::Sum(st.score, total(m, 0, leaves.skip(last)))));
    } else {
        law_worth_orders(tau, st.score);
    }
}

/// The stretches that the stages of a package evaluate.
pub open spec fn hot_stretches(exp: L2ExpV1Runtime, feat: Seq<u32>, buf: Seq<u32>) -> Seq<Step> {
    staged_steps(
        exp.compiled_hot_pack,
        resized_values(buf, exp.compiled_hot_pack@.n_hot_features as nat),
        feat,
        exp.hot_stage_plan.hot_feature_ids@,
        stages_of(exp.hot_stage_plan, exp.hot_checkpoint_layout@.hot_indices),
        false,
        exp_hot_style(),
    )
}

/// A row that no stage of a package decides is worth the base score and all of its leaf values,
/// each counted once, and is rejected exactly if that reaches the threshold; it has used every tree.
pub proof fn law_packages_count_every_tree(
    m: spec_fn(SingleOp) -> u32,
    exp: &L2ExpV1Runtime,
    rt: &LoadedPrefixRuntime,
    feat: Seq<u32>,
    tau: u32,
    fold: i32,
    buf: Seq<u32>,
    ranks: Seq<u8>,
    leaves: Seq<u32>,
    q: int,
)
    requires
        adds_up(m, q, rt.pack@.base_score, leaves),
        package_gives(*exp, feat, buf, ranks, leaves),
        countable(tau),
    ensures
        exp_row(m, exp, rt, feat, tau, fold, buf, ranks) matches Ok(o) ==> (o.used_fallback ==> {
            &&& worth(o.score) == worth(rt.pack@.base_score) + sum_worth(leaves)
            &&& o.reject <==> worth(rt.pack@.base_score) + sum_worth(leaves) >= worth(tau)
            &&& leaves.len() <= 0x7fff_ffff && (exp.tail matches Some(t) ==> t.tree_count
                == t.all_tree_indices@.len()) ==> o.trees_used == leaves.len()
        }),
{
    let base = rt.pack@.base_score;
    let j = exp_judge(rt, fold, tau);
    let st = beginning(base, base, false, 0);
    let one = hot_stretches(*exp, feat, buf);
    let two = exp_late_steps(exp.late_segments@, feat, ranks);
    assert(leaves.take(0) =~= Seq::empty());
    lemma_hot_in_line(*exp, feat, buf, ranks, leaves);
    lemma_late_in_line(*exp, feat, buf, ranks, leaves);
    lemma_steps_count(m, q, j, base, st, one, 0, base, leaves);
    if let Ok(first) = run_steps(m, j, base, st, one, 0) {
        if first.verdict is None {
            lemma_steps_count(m, q, j, base, first.st, two, 0, base, leaves);
            if let Ok(second) = run_steps(m, j, base, first.st, two, 0) {
                if second.verdict is None {
                    lemma_tail_counts(m, *exp, base, feat, tau, buf, ranks, leaves, q, second.st);
                }
            }
        }
    }
}

/// What is left of a pack is added to a row that no stage decided, each tree of the order past
/// those used once: the row is worth what it was and the leaf values of those trees, and is
/// rejected exactly if that reaches the threshold.
pub proof fn law_rest_of_pack_counts_every_tree(
    m: spec_fn(SingleOp) -> u32,
    rt: &LoadedPrefixRuntime,
    tau: u32,
    v: ShadowView,
    ranks: Seq<u8>,
    leaves: Seq<u32>,
    q: int,
)
    requires
        leaves.len() == rt.plan.order@.len() <= 0x7fff_ffff,
        0 <= v.trees_used <= leaves.len(),
        adds_up(m, q, rt.pack@.base_score, leaves),
        counts(rt.pack@.base_score, leaves, v.prefix_score, v.trees_used),
        forall|i: int|
            v.trees_used <= i < leaves.len() ==> (tree_outcome(
                rt.pack@,
                #[trigger] rt.plan.order@[i] as int,
                ranks,
                none_missing(),
            ) matches Ok(o) ==> o.leaf == leaves[i]),
        countable(tau),
    ensures
        rest_of_pack(m, rt, tau, v, ranks) matches Ok((score, reject, left)) ==> {
            &&& worth(score) == worth(rt.pack@.base_score) + sum_worth(leaves)
            &&& reject <==> worth(rt.pack@.base_score) + sum_worth(leaves) >= worth(tau)
            &&& left == leaves.len() - v.trees_used
        },
{
    let k = v.trees_used;
    let order = rt.plan.order@;
    let rest = order.skip(k);
    let stretch = leaves.skip(k);
    assert forall|x: int| 0 <= x < stretch.len() implies (tree_outcome(
        rt.pack@,
        #[trigger] indices(rest)[x],
        ranks,
        none_missing(),
    ) matches Ok(o) ==> o.leaf == stretch[x]) by {
        assert(order[k + x] == rest[x]);
    }
    lemma_part_leaves(rt.pack@, indices(rest), ranks, none_missing(), stretch);
    lemma_stretch_counts(
        m,
        q,
        rt.pack@.base_score,
        leaves,
        v.prefix_score,
        k,
        leaves.len() as int,
    );
    assert(leaves.take(leaves.len() as int) =~= leaves);
    assert(leaves.subrange(k, leaves.len() as int) =~= stretch);
    let score = m(SingleOp::Sum(v.prefix_score, total(m, 0, stretch)));
    law_worth_orders(tau, score);
}

/// A row that the kernel leaves undecided is worth all trees of the pack once the rest is added, is
/// rejected exactly if that reaches the threshold, and has used every tree.
pub proof fn law_kernel_rows_use_every_tree(
    m: spec_fn(SingleOp) -> u32,
    rt: &LoadedPrefixRuntime,
    tau: u32,
    v: ShadowView,
    ranks: Seq<u8>,
    leaves: Seq<u32>,
    q: int,
)
    requires
        leaves.len() == rt.plan.order@.len() <= 0x7fff_ffff,
        0 <= v.trees_used <= leaves.len(),
        adds_up(m, q, rt.pack@.base_score, leaves),
        counts(rt.pack@.base_score, leaves, v.prefix_score, v.trees_used),
        forall|i: int|
            v.trees_used <= i < leaves.len() ==> (tree_outcome(
                rt.pack@,
                #[trigger] rt.plan.order@[i] as int,
                ranks,
                none_missing(),
            ) matches Ok(o) ==> o.leaf == leaves[i]),
        countable(tau),
    ensures
        pack_tail(m, rt, tau, ranks, v) matches Ok(o) ==> {
            &&& o.used_fallback
            &&& worth(o.score) == worth(rt.pack@.base_score) + sum_worth(leaves)
            &&& o.reject <==> worth(rt.pack@.base_score) + sum_worth(leaves) >= worth(tau)
            &&& o.trees_used == leaves.len()
        },
{
    law_rest_of_pack_counts_every_tree(m, rt, tau, v, ranks, leaves, q);
}

/// An undecided row of a plain model goes on from its score with the trees of the order that it has
/// not used: it is rejected exactly if its score and all of them together reach the threshold,
/// however early that is settled.
pub proof fn law_plain_rows_go_on_where_they_stand(
    m: spec_fn(SingleOp) -> u32,
    rt: &LoadedPrefixRuntime,
    model: SoaModel,
    feat: Seq<u32>,
    tau: u32,
    v: ShadowView,
    nan_free: bool,
    ranks: Seq<u8>,
    missing: Seq<u8>,
    leaves: Seq<u32>,
)
    requires
        leaves.len() == rt.plan.n_trees <= 0x7fff_ffff,
        0 <= v.trees_used <= leaves.len(),
        leaves_are(model_leaves(model, rt.plan.order@, feat, !nan_free), leaves),
        unrounded(m, leaves, rt.plan, tau, 0, 0, false, v.prefix_score, v.trees_used),
        within_bounds(leaves, rt.plan, v.trees_used),
    ensures
        continued(
            m,
            Continuation::Plain(rt),
            model,
            feat,
            tau,
            v,
            nan_free,
            ranks,
            missing,
        ) matches Ok((score, reject, visited)) && {
            &&& v.trees_used <= visited <= leaves.len()
            &&& score == total(
                m,
                v.prefix_score,
                leaves.subrange(v.trees_used, visited as int),
            )
            &&& reject <==> worth(v.prefix_score) + sum_worth(leaves.skip(v.trees_used)) >= worth(
                tau,
            )
        },
{
    let c = exact_course(&rt.plan, None, InferMode::L2RouteExactReordered, tau, 0, 0, 1);
    let leaf = model_leaves(model, rt.plan.order@, feat, !nan_free);
    law_scores_are_sums_of_visited_trees(m, leaf, leaves, c, v.prefix_score, v.trees_used);
    law_stopping_early_keeps_the_side(m, leaf, leaves, c, v.prefix_score, v.trees_used);
    lemma_stops_at_checkpoints(m, leaf, leaves, c, v.prefix_score, v.trees_used);
}

} // verus!
