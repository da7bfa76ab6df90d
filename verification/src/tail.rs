//! Adding up the trees that are left after the first ones did not decide a row.

use crate::arith::{answers, follows, SingleOp};
use crate::descend::{full_row, Rule, TraverseError};
use crate::forest::{SoaModel, TreeOrder};
use crate::kernel::{exact_course, make_exact_course};
use crate::kinds::InferMode;
use crate::policy::ApproxPolicy;
use crate::traverse::{
    course_ready, model_leaf, travel, traverse_course, ByValue, Course, LeafSource, RowResult,
};
use vstd::prelude::*;

verus! {

/// The leaf values of a row over a model.
pub open spec fn model_leaves(
    model: SoaModel,
    order: Seq<u32>,
    feat: Seq<u32>,
    miss_aware: bool,
) -> spec_fn(int) -> Result<u32, TraverseError> {
    |p: int| model_leaf(model, order, full_row(feat), Rule { miss_aware, ranks: None }, p)
}

/// Adds up the trees from `start_tree_idx` on, no value counting as missing.
pub fn traverse_float_nomiss_from<A: Fn(SingleOp) -> u32>(
    arith: &A,
    model: &SoaModel,
    feat: &[u32],
    threshold: u32,
    init_score: u32,
    mode: InferMode,
    plan: &TreeOrder,
    approx_policy: Option<&ApproxPolicy>,
    eps: u32,
    bound_guard: u32,
    bound_check_every: usize,
    start_tree_idx: usize,
) -> (r: Result<RowResult, TraverseError>)
    requires
        answers(*arith),
        course_ready(
            exact_course(
                plan,
                approx_policy,
                mode,
                threshold,
                eps,
                bound_guard,
                bound_check_every,
            ),
        ),
    ensures
        forall|m: spec_fn(SingleOp) -> u32| #[trigger]
            follows(*arith, m) ==> r == travel(
                m,
                model_leaves(*model, plan.order@, feat@, false),
                exact_course(
                    plan,
                    approx_policy,
                    mode,
                    threshold,
                    eps,
                    bound_guard,
                    bound_check_every,
                ),
                start_tree_idx as int,
                init_score,
                0,
            ),
{
    let c: Course = make_exact_course(
        plan,
        approx_policy,
        mode,
        threshold,
        eps,
        bound_guard,
        bound_check_every,
    );
    let mut source: ByValue = ByValue { model, order: &plan.order, feat, miss_aware: false };
    proof {
        assert((|p: int| source.leaf_at(p)) =~= model_leaves(
            *model,
            plan.order@,
            feat@,
            false,
        ));
    }
    traverse_course(arith, &mut source, &c, init_score, start_tree_idx)
}

/// Adds up the trees from `start_tree_idx` on; missing values take their own way.
pub fn traverse_generic_from<A: Fn(SingleOp) -> u32>(
    arith: &A,
    model: &SoaModel,
    feat: &[u32],
    threshold: u32,
    init_score: u32,
    mode: InferMode,
    plan: &TreeOrder,
    approx_policy: Option<&ApproxPolicy>,
    eps: u32,
    bound_guard: u32,
    bound_check_every: usize,
    start_tree_idx: usize,
) -> (r: Result<RowResult, TraverseError>)
    requires
        answers(*arith),
        course_ready(
            exact_course(
                plan,
                approx_policy,
                mode,
                threshold,
                eps,
                bound_guard,
                bound_check_every,
            ),
        ),
    ensures
        forall|m: spec_fn(SingleOp) -> u32| #[trigger]
            follows(*arith, m) ==> r == travel(
                m,
                model_leaves(*model, plan.order@, feat@, true),
                exact_course(
                    plan,
                    approx_policy,
                    mode,
                    threshold,
                    eps,
                    bound_guard,
                    bound_check_every,
                ),
                start_tree_idx as int,
                init_score,
                0,
            ),
{
    let c: Course = make_exact_course(
        plan,
        approx_policy,
        mode,
        threshold,
        eps,
        bound_guard,
        bound_check_every,
    );
    let mut source: ByValue = ByValue { model, order: &plan.order, feat, miss_aware: true };
    proof {
        assert((|p: int| source.leaf_at(p)) =~= model_leaves(*model, plan.order@, feat@, true));
    }
    traverse_course(arith, &mut source, &c, init_score, start_tree_idx)
}

/// What the trees that are left make of a row: they are added up until the rest cannot change the
/// side any more.
pub open spec fn tail_result(
    m: spec_fn(SingleOp) -> u32,
    model: SoaModel,
    plan: &TreeOrder,
    feat: Seq<u32>,
    tau: u32,
    nan_free: bool,
    score: u32,
    start: int,
) -> Result<RowResult, TraverseError> {
    travel(
        m,
        model_leaves(model, plan.order@, feat, !nan_free),
        exact_course(plan, None, InferMode::L2RouteExactReordered, tau, 0, 0, 1),
        start,
        score,
        0,
    )
}

/// Whether the bounds of an order are there for every number of trees.
pub open spec fn plan_ready(plan: TreeOrder) -> bool {
    &&& plan.n_trees <= 0x7fff_ffff
    &&& plan.suffix_min@.len() > plan.n_trees
    &&& plan.suffix_max@.len() > plan.n_trees
}

/// Computes [`tail_result`].
pub fn run_tail<A: Fn(SingleOp) -> u32>(
    arith: &A,
    model: &SoaModel,
    plan: &TreeOrder,
    feat: &[u32],
    tau: u32,
    nan_free: bool,
    score: u32,
    start: usize,
) -> (r: Result<RowResult, TraverseError>)
    requires
        answers(*arith),
        plan_ready(*plan),
    ensures
        forall|m: spec_fn(SingleOp) -> u32| #[trigger]
            follows(*arith, m) ==> r == tail_result(
                m,
                *model,
                plan,
                feat@,
                tau,
                nan_free,
                score,
                start as int,
            ),
{
    if nan_free {
        traverse_float_nomiss_from(
            arith,
            model,
            feat,
            tau,
            score,
            InferMode::L2RouteExactReordered,
            plan,
            None,
            0,
            0,
            1,
            start,
        )
    } else {
        traverse_generic_from(
            arith,
            model,
            feat,
            tau,
            score,
            InferMode::L2RouteExactReordered,
            plan,
            None,
            0,
            0,
            1,
            start,
        )
    }
}

} // verus!
