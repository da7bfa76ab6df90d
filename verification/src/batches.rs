//! Laws on batches of rows: each row comes to what it comes to alone, on the side that its trees
//! lead to.

use crate::arith::SingleOp;
use crate::exact::{law_worth_orders, sum_worth, worth};
use crate::features::BatchModel;
use crate::kernel::{course_of, leaves_of, row_result, Kernel};
use crate::kernel_batch::{rows, visit_histogram};
use crate::kinds::InferMode;
use crate::descend::TraverseError;
use crate::sums::{
    law_scores_are_sums_of_visited_trees, law_stopping_early_keeps_the_side, leaves_are,
    lemma_stops_at_checkpoints, settles, unrounded, within_bounds,
};
use crate::single::nan;
use crate::traverse::{opening, passes, travel, Course, RowMeta};
use vstd::prelude::*;

verus! {

/// A row of a batch comes to what it comes to alone, held against its own threshold where there is
/// one for each row and against the common one otherwise. A row that is not to be scored gets a
/// score that is no number, does not pass, and visits no tree.
pub proof fn law_batch_rows_come_to_what_they_come_to_alone(
    m: spec_fn(SingleOp) -> u32,
    k: Kernel,
    b: BatchModel,
    a: int,
    e: int,
    i: int,
)
    requires
        a <= i < e,
    ensures
        rows(m, k, b, a, e) matches Ok(v) ==> {
            let scored = match k.meta {
                Some(meta) => meta.active@[i] != 0,
                None => true,
            };
            let threshold = match k.meta {
                Some(meta) => meta.tau_used@[i],
                None => k.threshold,
            };
            &&& v.scores.len() == e - a
            &&& v.passes.len() == e - a
            &&& v.visits.len() == e - a
            &&& !scored ==> v.scores[i - a] == 0x7fc0_0000 && !v.passes[i - a] && v.visits[i - a]
                == 0
            &&& scored ==> (row_result(m, k, b.nan_free, b.row(i), threshold) matches Ok(r)
                && v.scores[i - a] == r.score && v.passes[i - a] == r.pass && v.visits[i - a]
                == r.visited)
        },
    decreases e - a,
{
    lemma_lens(m, k, b, a, e - 1);
    if i < e - 1 {
        law_batch_rows_come_to_what_they_come_to_alone(m, k, b, a, e - 1, i);
    }
}

proof fn lemma_lens(m: spec_fn(SingleOp) -> u32, k: Kernel, b: BatchModel, a: int, e: int)
    requires
        a <= e,
    ensures
        rows(m, k, b, a, e) matches Ok(v) ==> {
            &&& v.scores.len() == e - a
            &&& v.passes.len() == e - a
            &&& v.visits.len() == e - a
        },
    decreases e - a,
{
    if a < e {
        lemma_lens(m, k, b, a, e - 1);
    }
}

/// A row that is neither stopped by a policy nor by bounds visits every tree.
proof fn lemma_all_visited(
    m: spec_fn(SingleOp) -> u32,
    leaf: spec_fn(int) -> Result<u32, TraverseError>,
    c: Course,
    pos: int,
    sum: u32,
    k: int,
)
    requires
        0 <= pos <= c.plan.n_trees <= 0x7fff_ffff,
        c.approx_trees == 0,
        !c.bounds,
        !c.margin,
    ensures
        travel(m, leaf, c, pos, sum, k) matches Ok(r) ==> {
            &&& r.visited == c.plan.n_trees
            &&& r.pass == passes(c, r.score)
        },
    decreases c.plan.n_trees - pos,
{
    if pos < c.plan.n_trees {
        if let Ok(v) = leaf(pos) {
            lemma_all_visited(m, leaf, c, pos + 1, m(SingleOp::Sum(sum, v)), k);
        }
    }
}

/// A row passes exactly if the base score and all of its trees together reach the threshold, in every
/// mode, unless a policy stopped it. A mode that routes stops where the rest cannot lead the row
/// back across the threshold by more than its slack, and a mode that measures visits every tree.
pub proof fn law_kernel_rows_are_on_their_side(
    m: spec_fn(SingleOp) -> u32,
    k: Kernel,
    nan_free: bool,
    feat: Seq<u32>,
    threshold: u32,
    leaves: Seq<u32>,
)
    requires
        leaves.len() == k.plan.n_trees <= 0x7fff_ffff,
        leaves_are(leaves_of(k, nan_free, feat), leaves),
        k.policy matches Some(p) ==> p@.used_checkpoints.len() <= 0x7fff_ffff,
        !(k.mode == InferMode::RouteApprox || k.mode == InferMode::L2RouteApprox),
        unrounded(
            m,
            leaves,
            *k.plan,
            threshold,
            k.eps,
            k.guard,
            false,
            k.base_score,
            0,
        ),
        within_bounds(leaves, *k.plan, 0),
    ensures
        row_result(m, k, nan_free, feat, threshold) matches Ok(r) && {
            let measures = k.mode == InferMode::MarginExact || k.mode
                == InferMode::MarginExactReordered;
            &&& 0 <= r.visited <= leaves.len()
            &&& worth(r.score) == worth(k.base_score) + sum_worth(leaves.take(r.visited as int))
            &&& measures ==> r.visited == leaves.len()
            &&& r.pass <==> worth(k.base_score) + sum_worth(leaves) >= worth(threshold)
            &&& r.visited < leaves.len() ==> settles(
                leaves,
                *k.plan,
                threshold,
                worth(k.eps) + worth(k.guard),
                k.base_score,
                0,
                r.visited as int,
                r.pass,
            )
        },
{
    let c = course_of(k, nan_free, threshold);
    let leaf = leaves_of(k, nan_free, feat);
    law_scores_are_sums_of_visited_trees(m, leaf, leaves, c, k.base_score, 0);
    lemma_stops_at_checkpoints(m, leaf, leaves, c, k.base_score, 0);
    let r = travel(m, leaf, c, 0, opening(m, c, k.base_score), 0)->Ok_0;
    assert(leaves.skip(0) =~= leaves);
    assert(leaves.subrange(0, r.visited as int) =~= leaves.take(r.visited as int));
    if c.bounds {
        law_stopping_early_keeps_the_side(m, leaf, leaves, c, k.base_score, 0);
        if r.meta != RowMeta::none() {
            assert(r.visited <= c.approx_trees);
            lemma_no_policy(m, leaf, c, 0, opening(m, c, k.base_score), 0);
        }
    } else {
        lemma_all_visited(m, leaf, c, 0, opening(m, c, k.base_score), 0);
        assert(leaves.take(leaves.len() as int) =~= leaves);
        assert(!nan(r.score));
        law_worth_orders(threshold, r.score);
    }
}

/// A course without trees that are asked of the policy never stops by it.
proof fn lemma_no_policy(
    m: spec_fn(SingleOp) -> u32,
    leaf: spec_fn(int) -> Result<u32, TraverseError>,
    c: Course,
    pos: int,
    sum: u32,
    k: int,
)
    requires
        0 <= pos <= c.plan.n_trees,
        c.approx_trees == 0,
    ensures
        travel(m, leaf, c, pos, sum, k) matches Ok(r) ==> r.meta == RowMeta::none(),
    decreases c.plan.n_trees - pos,
{
    if pos < c.plan.n_trees {
        if let Ok(v) = leaf(pos) {
            lemma_no_policy(m, leaf, c, pos + 1, m(SingleOp::Sum(sum, v)), k);
        }
    }
}

/// How many of the first `n` rows visited as many trees as said, all trees at most and none at least.
pub open spec fn visited_count(visits: Seq<i32>, trees: int, j: int, n: int) -> int
    decreases n,
{
    if n <= 0 {
        0
    } else {
        let v = visits[n - 1];
        let counted: int = if v < 0 {
            0
        } else if v > trees {
            trees
        } else {
            v as int
        };
        visited_count(visits, trees, j, n - 1) + if counted == j {
            1int
        } else {
            0
        }
    }
}

proof fn lemma_visited_count(a: Seq<i32>, b: Seq<i32>, trees: int, j: int, n: int)
    requires
        n <= a.len(),
        n <= b.len(),
        forall|i: int| 0 <= i < n ==> #[trigger] a[i] == b[i],
    ensures
        visited_count(a, trees, j, n) == visited_count(b, trees, j, n),
    decreases n,
{
    if n > 0 {
        assert(a[n - 1] == b[n - 1]);
        lemma_visited_count(a, b, trees, j, n - 1);
    }
}

/// A histogram tells for every number of trees how many rows visited that many.
pub proof fn law_histograms_count_rows(visits: Seq<i32>, trees: nat, j: int)
    requires
        0 <= j <= trees,
    ensures
        visit_histogram(visits, trees).len() == trees + 1,
        visit_histogram(visits, trees)[j] == visited_count(
            visits,
            trees as int,
            j,
            visits.len() as int,
        ),
    decreases visits.len(),
{
    if visits.len() > 0 {
        law_histograms_count_rows(visits.drop_last(), trees, j);
        lemma_visited_count(
            visits.drop_last(),
            visits,
            trees as int,
            j,
            visits.len() - 1,
        );
    }
}

} // verus!
