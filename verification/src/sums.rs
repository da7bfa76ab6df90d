//! Laws on adding up trees: what a score is the sum of, and what stopping early may claim.

use crate::arith::{total, SingleOp};
use crate::descend::TraverseError;
use crate::exact::{
    adds_exactly, countable, law_opposite_worth, law_worth_orders, lemma_sum_worth_splits,
    sum_worth, weighed, worth,
};
use crate::forest::TreeOrder;
use crate::policy::positive;
use crate::single::{nan, opposite};
use crate::traverse::{
    approx_exit, bound_exit, due, level, opening, pass_cut, pass_level, passes, refer_cut,
    refer_level, reported, travel, Course, RowMeta,
};
use vstd::prelude::*;

verus! {

/// Whether values are the leaf values of a row, place by place.
pub open spec fn leaves_are(
    leaf: spec_fn(int) -> Result<u32, TraverseError>,
    leaves: Seq<u32>,
) -> bool {
    forall|p: int|
        0 <= p < leaves.len() ==> #[trigger] leaf(p) == Ok::<u32, TraverseError>(leaves[p])
}

/// What a row has come to by the tree at place `j`, from `open` before the tree at place `start`.
pub open spec fn sum_by(
    m: spec_fn(SingleOp) -> u32,
    open: u32,
    leaves: Seq<u32>,
    start: int,
    j: int,
) -> u32 {
    total(m, open, leaves.subrange(start, j))
}

/// Where a row stops, and for which reason.
proof fn lemma_travel(
    m: spec_fn(SingleOp) -> u32,
    leaf: spec_fn(int) -> Result<u32, TraverseError>,
    leaves: Seq<u32>,
    c: Course,
    start: int,
    open: u32,
    pos: int,
    k: int,
)
    requires
        leaves_are(leaf, leaves),
        leaves.len() == c.plan.n_trees <= 0x7fff_ffff,
        0 <= start <= pos <= leaves.len(),
        0 <= k,
        c.policy matches Some(p) ==> p@.used_checkpoints.len() <= 0x7fff_ffff,
    ensures
        travel(m, leaf, c, pos, sum_by(m, open, leaves, start, pos), k) matches Ok(r) && {
            let j = r.visited as int;
            let sum = sum_by(m, open, leaves, start, j);
            &&& pos <= j <= leaves.len()
            &&& r.score == reported(m, c, sum)
            &&& r.meta == RowMeta::none() ==> {
                ||| j == leaves.len() && r.pass == passes(c, sum)
                ||| j > pos && j > c.approx_trees && c.bounds && bound_exit(m, c, sum, j) == Some(
                    r.pass,
                )
            }
            &&& forall|i: int|
                #![trigger sum_by(m, open, leaves, start, i)]
                pos < i < j && i > c.approx_trees && c.bounds && i % (c.every as int) == 0
                    ==> bound_exit(m, c, sum_by(m, open, leaves, start, i), i) is None
            &&& r.meta != RowMeta::none() ==> {
                let q = r.meta.approx_checkpoint_idx as int;
                &&& j <= c.approx_trees
                &&& approx_exit(m, c, sum, q) == Some((r.pass, r.meta))
                &&& k <= q
                &&& due(c, q, j)
            }
        },
    decreases leaves.len() - pos,
{
    let sum = sum_by(m, open, leaves, start, pos);
    if pos < leaves.len() {
        let next = sum_by(m, open, leaves, start, pos + 1);
        assert(leaves.subrange(start, pos + 1).drop_last() =~= leaves.subrange(start, pos));
        assert(leaf(pos) == Ok::<u32, TraverseError>(leaves[pos]));
        assert(next == m(SingleOp::Sum(sum, leaves[pos])));
        lemma_travel(m, leaf, leaves, c, start, open, pos + 1, k);
        lemma_travel(m, leaf, leaves, c, start, open, pos + 1, k + 1);
    }
}

/// What trees are added to: the start, or its distance to the threshold.
pub open spec fn opened(m: spec_fn(SingleOp) -> u32, margin: bool, init: u32, threshold: u32) -> u32 {
    if margin {
        m(SingleOp::Difference(init, threshold))
    } else {
        init
    }
}

/// Whether nothing is rounded that a row is stopped by: the sums over its leaf values from place
/// `start` on, the distance to the threshold, and the threshold with its slacks, which are not
/// negative.
pub open spec fn unrounded(
    m: spec_fn(SingleOp) -> u32,
    leaves: Seq<u32>,
    plan: TreeOrder,
    threshold: u32,
    eps: u32,
    guard: u32,
    margin: bool,
    init: u32,
    start: int,
) -> bool {
    let open = opened(m, margin, init, threshold);
    &&& countable(threshold)
    &&& worth(eps) >= 0
    &&& worth(guard) >= 0
    &&& margin ==> worth(open) == worth(init) - worth(threshold)
    &&& adds_exactly(m, open, leaves.skip(start))
    &&& if margin {
        let slack = m(SingleOp::Sum(eps, guard));
        countable(slack) && worth(slack) == worth(eps) + worth(guard)
    } else {
        let high = m(SingleOp::Sum(m(SingleOp::Sum(threshold, eps)), guard));
        let low = m(SingleOp::Difference(m(SingleOp::Difference(threshold, eps)), guard));
        &&& countable(high) && worth(high) == worth(threshold) + worth(eps) + worth(guard)
        &&& countable(low) && worth(low) == worth(threshold) - worth(eps) - worth(guard)
    }
    &&& forall|j: int|
        start < j <= leaves.len() ==> weighed(
            m,
            #[trigger] sum_by(m, open, leaves, start, j),
            plan.suffix_min@[j],
        ) && weighed(m, sum_by(m, open, leaves, start, j), plan.suffix_max@[j])
}

/// Whether the leaf values past each place stay together within the bounds there.
pub open spec fn within_bounds(leaves: Seq<u32>, plan: TreeOrder, start: int) -> bool {
    forall|j: int|
        start < j <= leaves.len() ==> worth(plan.suffix_min@[j]) <= sum_worth(
            #[trigger] leaves.skip(j),
        ) <= worth(plan.suffix_max@[j])
}

/// Whether the trees past place `j` cannot lead a row back across the threshold, to which it keeps
/// a slack: on the side that passes even if they come to the least, on the other even if they come
/// to the most.
pub open spec fn settles(
    leaves: Seq<u32>,
    plan: TreeOrder,
    threshold: u32,
    slack: int,
    init: u32,
    start: int,
    j: int,
    pass: bool,
) -> bool {
    let so_far = worth(init) + sum_worth(leaves.subrange(start, j));
    if pass {
        so_far + worth(plan.suffix_min@[j]) >= worth(threshold) + slack
    } else {
        so_far + worth(plan.suffix_max@[j]) < worth(threshold) - slack
    }
}

proof fn lemma_sums_by_worth(
    m: spec_fn(SingleOp) -> u32,
    open: u32,
    leaves: Seq<u32>,
    start: int,
    j: int,
)
    requires
        0 <= start <= j <= leaves.len(),
        adds_exactly(m, open, leaves.skip(start)),
    ensures
        !nan(sum_by(m, open, leaves, start, j)),
        worth(sum_by(m, open, leaves, start, j)) == worth(open) + sum_worth(
            leaves.subrange(start, j),
        ),
        sum_worth(leaves.skip(start)) == sum_worth(leaves.subrange(start, j)) + sum_worth(
            leaves.skip(j),
        ),
{
    let tail = leaves.skip(start);
    assert(tail.take(j - start) =~= leaves.subrange(start, j));
    assert(tail.skip(j - start) =~= leaves.skip(j));
    assert(worth(total(m, open, tail.take(j - start))) == worth(open) + sum_worth(
        tail.take(j - start),
    ));
    lemma_sum_worth_splits(tail, j - start);
}

/// A row that its leaf values lead through is scored by the trees it visited, each added once and
/// in order, and no others.
pub proof fn law_scores_are_sums_of_visited_trees(
    m: spec_fn(SingleOp) -> u32,
    leaf: spec_fn(int) -> Result<u32, TraverseError>,
    leaves: Seq<u32>,
    c: Course,
    init: u32,
    start: int,
)
    requires
        leaves_are(leaf, leaves),
        leaves.len() == c.plan.n_trees <= 0x7fff_ffff,
        0 <= start <= leaves.len(),
        c.policy matches Some(p) ==> p@.used_checkpoints.len() <= 0x7fff_ffff,
    ensures
        travel(m, leaf, c, start, opening(m, c, init), 0) matches Ok(r) && {
            let seen = leaves.subrange(start, r.visited as int);
            &&& start <= r.visited <= leaves.len()
            &&& !c.margin ==> r.score == total(m, init, seen)
            &&& c.margin ==> r.score == m(
                SingleOp::Sum(
                    total(m, m(SingleOp::Difference(init, c.threshold)), seen),
                    c.threshold,
                ),
            )
        },
{
    let open = opening(m, c, init);
    assert(leaves.subrange(start, start) =~= Seq::empty());
    lemma_travel(m, leaf, leaves, c, start, open, start, 0);
}

/// A row that the policy does not stop is told apart as adding up all trees would tell it apart,
/// however early it stops, whether scores or margins are added; and it stops as soon as the bounds
/// settle the side wherever they are looked at.
pub proof fn law_stopping_early_keeps_the_side(
    m: spec_fn(SingleOp) -> u32,
    leaf: spec_fn(int) -> Result<u32, TraverseError>,
    leaves: Seq<u32>,
    c: Course,
    init: u32,
    start: int,
)
    requires
        leaves_are(leaf, leaves),
        leaves.len() == c.plan.n_trees <= 0x7fff_ffff,
        0 <= start <= leaves.len(),
        c.policy matches Some(p) ==> p@.used_checkpoints.len() <= 0x7fff_ffff,
        c.bounds,
        unrounded(
            m,
            leaves,
            *c.plan,
            c.threshold,
            c.eps,
            c.guard,
            c.margin,
            init,
            start,
        ),
        within_bounds(leaves, *c.plan, start),
    ensures
        travel(m, leaf, c, start, opening(m, c, init), 0) matches Ok(r) && {
            &&& r.meta == RowMeta::none() ==> (r.pass <==> worth(init) + sum_worth(
                leaves.skip(start),
            ) >= worth(c.threshold))
            &&& r.meta == RowMeta::none() && r.visited < leaves.len() ==> settles(
                leaves,
                *c.plan,
                c.threshold,
                worth(c.eps) + worth(c.guard),
                init,
                start,
                r.visited as int,
                r.pass,
            )
            &&& forall|i: int|
                #![trigger leaves.subrange(start, i)]
                start < i < r.visited && i > c.approx_trees && i % (c.every as int) == 0 ==> {
                    let so_far = worth(init) + sum_worth(leaves.subrange(start, i));
                    let slack = worth(c.eps) + worth(c.guard);
                    &&& so_far + worth(c.plan.suffix_min@[i]) < worth(c.threshold) + slack
                    &&& so_far + worth(c.plan.suffix_max@[i]) >= worth(c.threshold) - slack
                }
        },
{
    let open = opening(m, c, init);
    assert(open == opened(m, c.margin, init, c.threshold));
    assert(leaves.subrange(start, start) =~= Seq::empty());
    lemma_travel(m, leaf, leaves, c, start, open, start, 0);
    let r = travel(m, leaf, c, start, open, 0)->Ok_0;
    let j = r.visited as int;
    lemma_sums_by_worth(m, open, leaves, start, j);
    let sum = sum_by(m, open, leaves, start, j);
    law_worth_orders(0, sum);
    law_worth_orders(c.threshold, sum);
    law_opposite_worth(m(SingleOp::Sum(c.eps, c.guard)));
    assert(countable(opposite(m(SingleOp::Sum(c.eps, c.guard)))) == countable(
        m(SingleOp::Sum(c.eps, c.guard)),
    ));
    assert(countable(pass_cut(m, c)));
    assert(countable(refer_cut(m, c)));
    if r.meta == RowMeta::none() {
        if j == leaves.len() && r.pass == passes(c, sum) {
            assert(leaves.skip(j) =~= Seq::empty());
        } else {
            assert(worth(c.plan.suffix_min@[j]) <= sum_worth(leaves.skip(j)));
        }
    }
    assert forall|i: int|
        #![trigger leaves.subrange(start, i)]
        start < i < r.visited && i > c.approx_trees && i % (c.every as int) == 0 implies {
        let so_far = worth(init) + sum_worth(leaves.subrange(start, i));
        let slack = worth(c.eps) + worth(c.guard);
        &&& so_far + worth(c.plan.suffix_min@[i]) < worth(c.threshold) + slack
        &&& so_far + worth(c.plan.suffix_max@[i]) >= worth(c.threshold) - slack
    } by {
        lemma_sums_by_worth(m, open, leaves, start, i);
        let at = sum_by(m, open, leaves, start, i);
        assert(bound_exit(m, c, at, i) is None);
        assert(weighed(m, at, c.plan.suffix_min@[i]) && weighed(m, at, c.plan.suffix_max@[i]));
    }
}

/// Whether the checkpoints of a policy in use rise.
pub open spec fn checkpoints_rising(cps: Seq<usize>) -> bool {
    forall|a: int, b: int| 0 <= a < b < cps.len() ==> #[trigger] cps[a] < #[trigger] cps[b]
}

/// No checkpoint that a row went past stopped it.
proof fn lemma_checkpoints_passed(
    m: spec_fn(SingleOp) -> u32,
    leaf: spec_fn(int) -> Result<u32, TraverseError>,
    leaves: Seq<u32>,
    c: Course,
    start: int,
    open: u32,
    pos: int,
    k: int,
)
    requires
        leaves_are(leaf, leaves),
        leaves.len() == c.plan.n_trees <= 0x7fff_ffff,
        0 <= start <= pos <= leaves.len(),
        0 <= k,
        c.policy is Some,
        c.policy->Some_0@.used_checkpoints.len() <= 0x7fff_ffff,
        checkpoints_rising(c.policy->Some_0@.used_checkpoints),
        forall|q: int|
            k <= q < c.policy->Some_0@.used_checkpoints.len()
                ==> #[trigger] c.policy->Some_0@.used_checkpoints[q] > pos,
    ensures
        travel(m, leaf, c, pos, sum_by(m, open, leaves, start, pos), k) matches Ok(r) && (forall|
            q: int,
        |
            k <= q < c.policy->Some_0@.used_checkpoints.len() && {
                let j = #[trigger] c.policy->Some_0@.used_checkpoints[q];
                j < r.visited && j <= c.approx_trees
            } ==> approx_exit(
                m,
                c,
                sum_by(m, open, leaves, start, c.policy->Some_0@.used_checkpoints[q] as int),
                q,
            ) is None),
    decreases leaves.len() - pos,
{
    let cps = c.policy->Some_0@.used_checkpoints;
    let sum = sum_by(m, open, leaves, start, pos);
    lemma_travel(m, leaf, leaves, c, start, open, pos, k);
    if pos < leaves.len() {
        let next = sum_by(m, open, leaves, start, pos + 1);
        assert(leaves.subrange(start, pos + 1).drop_last() =~= leaves.subrange(start, pos));
        assert(leaf(pos) == Ok::<u32, TraverseError>(leaves[pos]));
        assert(next == m(SingleOp::Sum(sum, leaves[pos])));
        if pos < c.approx_trees && due(c, k, pos + 1) {
            assert forall|q: int| k + 1 <= q < cps.len() implies #[trigger] cps[q] > pos + 1 by {
                assert(cps[k] < cps[q]);
            }
            lemma_checkpoints_passed(m, leaf, leaves, c, start, open, pos + 1, k + 1);
        } else if pos < c.approx_trees {
            assert forall|q: int| k <= q < cps.len() implies #[trigger] cps[q] > pos + 1 by {
                if k < q {
                    assert(cps[k] < cps[q]);
                }
            }
            lemma_checkpoints_passed(m, leaf, leaves, c, start, open, pos + 1, k);
        }
    }
}

/// How far a row is from the threshold once the trees before place `j` are added.
pub open spec fn distance(leaves: Seq<u32>, threshold: u32, init: u32, start: int, j: int) -> int {
    worth(init) + sum_worth(leaves.subrange(start, j)) - worth(threshold)
}

/// Whether a distance is at most a level; there may be none.
pub open spec fn low_enough(away: int, t: Option<u32>) -> bool {
    t matches Some(x) && !nan(x) && away <= worth(x)
}

/// Whether a distance is at least a level; there may be none.
pub open spec fn high_enough(away: int, t: Option<u32>) -> bool {
    t matches Some(x) && !nan(x) && away >= worth(x)
}

/// The policy stops a row at the first of its checkpoints at which the distance to the threshold is
/// at most the level that refers or at least the level that passes, the former first, whether
/// scores or margins are added.
pub proof fn law_policy_stops_at_its_levels(
    m: spec_fn(SingleOp) -> u32,
    leaf: spec_fn(int) -> Result<u32, TraverseError>,
    leaves: Seq<u32>,
    c: Course,
    init: u32,
    start: int,
)
    requires
        leaves_are(leaf, leaves),
        leaves.len() == c.plan.n_trees <= 0x7fff_ffff,
        0 <= start <= leaves.len(),
        c.policy is Some,
        c.policy->Some_0@.used_checkpoints.len() <= 0x7fff_ffff,
        checkpoints_rising(c.policy->Some_0@.used_checkpoints),
        forall|q: int|
            0 <= q < c.policy->Some_0@.used_checkpoints.len()
                ==> #[trigger] c.policy->Some_0@.used_checkpoints[q] > start,
        adds_exactly(m, opened(m, c.margin, init, c.threshold), leaves.skip(start)),
        c.margin ==> worth(m(SingleOp::Difference(init, c.threshold))) == worth(init) - worth(
            c.threshold,
        ),
        !c.margin ==> forall|j: int|
            start < j <= leaves.len() ==> {
                let d = m(
                    SingleOp::Difference(
                        #[trigger] sum_by(m, init, leaves, start, j),
                        c.threshold,
                    ),
                );
                !nan(d) && worth(d) == worth(sum_by(m, init, leaves, start, j)) - worth(
                    c.threshold,
                )
            },
    ensures
        travel(m, leaf, c, start, opening(m, c, init), 0) matches Ok(r) && {
            let p = c.policy->Some_0@;
            let refers = |q: int|
                if c.margin {
                    Some(p.used_tau_ref_dense[q])
                } else {
                    p.used_tau_ref[q]
                };
            let passes_at = |q: int|
                if c.margin {
                    Some(p.used_tau_positive_dense[q])
                } else {
                    positive(p.used_tau_reject, p.used_tau_pass)[q]
                };
            &&& r.meta != RowMeta::none() ==> {
                let q = r.meta.approx_checkpoint_idx as int;
                let away = distance(leaves, c.threshold, init, start, r.visited as int);
                &&& 0 <= q < p.used_checkpoints.len()
                &&& p.used_checkpoints[q] == r.visited
                &&& r.meta.approx_pass == r.pass
                &&& r.meta.approx_refer == !r.pass
                &&& low_enough(away, refers(q)) == !r.pass
                &&& r.pass ==> high_enough(away, passes_at(q))
            }
            &&& forall|q: int|
                0 <= q < p.used_checkpoints.len() && {
                    let j = #[trigger] p.used_checkpoints[q];
                    j < r.visited && j <= c.approx_trees
                } ==> {
                    let away = distance(
                        leaves,
                        c.threshold,
                        init,
                        start,
                        p.used_checkpoints[q] as int,
                    );
                    !low_enough(away, refers(q)) && !high_enough(away, passes_at(q))
                }
        },
{
    let p = c.policy->Some_0@;
    let open = opening(m, c, init);
    assert(open == opened(m, c.margin, init, c.threshold));
    assert(leaves.subrange(start, start) =~= Seq::empty());
    lemma_travel(m, leaf, leaves, c, start, open, start, 0);
    lemma_checkpoints_passed(m, leaf, leaves, c, start, open, start, 0);
    let r = travel(m, leaf, c, start, open, 0)->Ok_0;
    if r.meta != RowMeta::none() {
        lemma_level(m, leaves, c, init, start, r.meta.approx_checkpoint_idx as int, r.visited as int);
    }
    assert forall|q: int|
        0 <= q < p.used_checkpoints.len() && {
            let j = #[trigger] p.used_checkpoints[q];
            j < r.visited && j <= c.approx_trees
        } implies {
        let away = distance(leaves, c.threshold, init, start, p.used_checkpoints[q] as int);
        &&& !low_enough(
            away,
            if c.margin {
                Some(p.used_tau_ref_dense[q])
            } else {
                p.used_tau_ref[q]
            },
        )
        &&& !high_enough(
            away,
            if c.margin {
                Some(p.used_tau_positive_dense[q])
            } else {
                positive(p.used_tau_reject, p.used_tau_pass)[q]
            },
        )
    } by {
        lemma_level(m, leaves, c, init, start, q, p.used_checkpoints[q] as int);
    }
}

/// Asking the policy is comparing distances.
proof fn lemma_level(
    m: spec_fn(SingleOp) -> u32,
    leaves: Seq<u32>,
    c: Course,
    init: u32,
    start: int,
    q: int,
    j: int,
)
    requires
        0 <= start < j <= leaves.len(),
        c.policy is Some,
        0 <= q <= 0x7fff_ffff,
        adds_exactly(m, opened(m, c.margin, init, c.threshold), leaves.skip(start)),
        c.margin ==> worth(m(SingleOp::Difference(init, c.threshold))) == worth(init) - worth(
            c.threshold,
        ),
        !c.margin ==> {
            let d = m(SingleOp::Difference(sum_by(m, init, leaves, start, j), c.threshold));
            !nan(d) && worth(d) == worth(sum_by(m, init, leaves, start, j)) - worth(c.threshold)
        },
    ensures
        ({
            let p = c.policy->Some_0@;
            let refer = if c.margin {
                Some(p.used_tau_ref_dense[q])
            } else {
                p.used_tau_ref[q]
            };
            let pass = if c.margin {
                Some(p.used_tau_positive_dense[q])
            } else {
                positive(p.used_tau_reject, p.used_tau_pass)[q]
            };
            let away = distance(leaves, c.threshold, init, start, j);
            match approx_exit(
                m,
                c,
                sum_by(m, opened(m, c.margin, init, c.threshold), leaves, start, j),
                q,
            ) {
                None => !low_enough(away, refer) && !high_enough(away, pass),
                Some((side, meta)) => {
                    &&& meta.approx_pass == side
                    &&& meta.approx_refer == !side
                    &&& low_enough(away, refer) == !side
                    &&& side ==> high_enough(away, pass)
                },
            }
        }),
{
    let open = opened(m, c.margin, init, c.threshold);
    lemma_sums_by_worth(m, open, leaves, start, j);
    let sum = sum_by(m, open, leaves, start, j);
    let at = level(m, c, sum);
    if let Some(x) = refer_level(c, q) {
        if !nan(x) {
            law_worth_orders(at, x);
        }
    }
    if let Some(x) = pass_level(c, q) {
        if !nan(x) {
            law_worth_orders(x, at);
        }
    }
}

/// The policy stops rows at checkpoints among the trees after which it is asked.
pub proof fn lemma_stops_at_checkpoints(
    m: spec_fn(SingleOp) -> u32,
    leaf: spec_fn(int) -> Result<u32, TraverseError>,
    leaves: Seq<u32>,
    c: Course,
    init: u32,
    start: int,
)
    requires
        leaves_are(leaf, leaves),
        leaves.len() == c.plan.n_trees <= 0x7fff_ffff,
        0 <= start <= leaves.len(),
        c.policy matches Some(p) ==> p@.used_checkpoints.len() <= 0x7fff_ffff,
    ensures
        travel(m, leaf, c, start, opening(m, c, init), 0) matches Ok(r) && (r.meta
            != RowMeta::none() ==> {
            let q = r.meta.approx_checkpoint_idx as int;
            &&& c.policy is Some
            &&& 0 <= q < c.policy->Some_0@.used_checkpoints.len()
            &&& c.policy->Some_0@.used_checkpoints[q] == r.visited
            &&& r.visited <= c.approx_trees
        }),
{
    assert(leaves.subrange(start, start) =~= Seq::empty());
    lemma_travel(m, leaf, leaves, c, start, opening(m, c, init), start, 0);
}

} // verus!
