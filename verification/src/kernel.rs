//! Scoring the rows of a batch against a model, and what the batch adds up to.

use crate::arith::{answers, follows, SingleOp};
use crate::descend::{lemma_clean_agrees, models, splits_have_room, RankCache, TraverseError};
use crate::forest::{PrefixPack, RankPack, SoaModel, TreeOrder};
use crate::hot::{filled, HotFeatureBuf};
use crate::kinds::{approx_mode, is_approx_mode, is_route_mode, route_mode, InferMode, RankMode};
use crate::policy::{policy_ready, ApproxPolicy};
use crate::row_meta::RouteMeta;
use crate::traverse::{
    opening, travel, traverse_course, ByRank, ByValue, Course, HotFirst, LeafSource, RowResult,
};
use vstd::prelude::*;

verus! {

/// Why rows could not be scored.
#[derive(Clone, Copy, Debug, PartialEq, Eq, Structural)]
pub enum KernelError {
    /// The mode asks for a policy and there is none.
    NoPolicy,
    /// A walk from node to node went astray.
    Astray(TraverseError),
}

/// What rows are scored with.
pub struct Kernel<'a> {
    pub model: &'a SoaModel,
    pub plan: &'a TreeOrder,
    pub meta: Option<&'a RouteMeta>,
    pub rank_pack: Option<&'a RankPack>,
    pub policy: Option<&'a ApproxPolicy>,
    pub hot_pack: Option<&'a PrefixPack>,
    pub threshold: u32,
    pub base_score: u32,
    pub mode: InferMode,
    pub eps: u32,
    pub guard: u32,
    pub every: usize,
}

/// Which of the packs of first trees serves a policy: the one that holds its first checkpoint,
/// where the policy compares values.
pub open spec fn hot_choice<'a>(
    p: ApproxPolicy,
    prefix16: Option<&'a PrefixPack>,
    prefix32: Option<&'a PrefixPack>,
) -> Option<&'a PrefixPack> {
    let cps = p.used_checkpoints@;
    if p.rank_mode != RankMode::Float || cps.len() == 0 {
        None
    } else if cps[0] <= 16 {
        prefix16
    } else if cps[0] <= 32 {
        prefix32
    } else {
        None
    }
}

/// Computes [`hot_choice`].
pub fn choose_hot_pack<'a>(
    policy: &ApproxPolicy,
    prefix16: Option<&'a PrefixPack>,
    prefix32: Option<&'a PrefixPack>,
) -> (r: Option<&'a PrefixPack>)
    ensures
        r == hot_choice(*policy, prefix16, prefix32),
{
    if policy.rank_mode != RankMode::Float || policy.used_checkpoints.len() == 0 {
        return None;
    }
    let first: usize = policy.used_checkpoints[0];
    if first <= 16 {
        prefix16
    } else if first <= 32 {
        prefix32
    } else {
        None
    }
}

/// The smaller count.
pub open spec fn smaller_count(a: usize, b: usize) -> usize {
    if a <= b {
        a
    } else {
        b
    }
}

/// The course of a mode that asks the policy first and the bounds after.
pub open spec fn approx_course<'a>(
    plan: &'a TreeOrder,
    policy: &'a ApproxPolicy,
    threshold: u32,
    eps: u32,
    guard: u32,
    every: usize,
    margin: bool,
) -> Course<'a> {
    Course {
        plan,
        policy: Some(policy),
        approx_trees: smaller_count(policy.k_hot, plan.n_trees),
        bounds: true,
        margin,
        threshold,
        eps,
        guard,
        every,
    }
}

/// Makes an [`approx_course`].
pub fn make_approx_course<'a>(
    plan: &'a TreeOrder,
    policy: &'a ApproxPolicy,
    threshold: u32,
    eps: u32,
    guard: u32,
    every: usize,
    margin: bool,
) -> (r: Course<'a>)
    ensures
        r == approx_course(plan, policy, threshold, eps, guard, every, margin),
{
    let approx_trees: usize = if policy.k_hot <= plan.n_trees {
        policy.k_hot
    } else {
        plan.n_trees
    };
    Course {
        plan,
        policy: Some(policy),
        approx_trees,
        bounds: true,
        margin,
        threshold,
        eps,
        guard,
        every,
    }
}

/// The course of any mode over all trees: the bounds are tested where the mode routes, the policy
/// is asked where the mode is approximate.
pub open spec fn exact_course<'a>(
    plan: &'a TreeOrder,
    policy: Option<&'a ApproxPolicy>,
    mode: InferMode,
    threshold: u32,
    eps: u32,
    guard: u32,
    every: usize,
) -> Course<'a> {
    Course {
        plan,
        policy,
        approx_trees: if approx_mode(mode) {
            plan.n_trees
        } else {
            0
        },
        bounds: route_mode(mode),
        margin: false,
        threshold,
        eps,
        guard,
        every,
    }
}

/// Makes an [`exact_course`].
pub fn make_exact_course<'a>(
    plan: &'a TreeOrder,
    policy: Option<&'a ApproxPolicy>,
    mode: InferMode,
    threshold: u32,
    eps: u32,
    guard: u32,
    every: usize,
) -> (r: Course<'a>)
    ensures
        r == exact_course(plan, policy, mode, threshold, eps, guard, every),
{
    let approx_trees: usize = if is_approx_mode(mode) {
        plan.n_trees
    } else {
        0
    };
    Course {
        plan,
        policy,
        approx_trees,
        bounds: is_route_mode(mode),
        margin: false,
        threshold,
        eps,
        guard,
        every,
    }
}

/// Whether the distance to the threshold is added up: the first stage's approximate mode over
/// plain rows.
pub open spec fn adds_margin(k: Kernel, nan_free: bool) -> bool {
    k.mode == InferMode::RouteApprox && nan_free && k.meta is None && k.rank_pack is None
        && k.hot_pack is None && k.policy is Some
}

/// Whether the first trees come from a pack of their own.
pub open spec fn takes_hot(k: Kernel, nan_free: bool) -> bool {
    approx_mode(k.mode) && nan_free && k.rank_pack is None && k.policy is Some && k.hot_pack is Some
}

/// The course of a row.
pub open spec fn course_of<'a>(k: Kernel<'a>, nan_free: bool, threshold: u32) -> Course<'a> {
    if approx_mode(k.mode) {
        approx_course(
            k.plan,
            k.policy->Some_0,
            threshold,
            k.eps,
            k.guard,
            k.every,
            adds_margin(k, nan_free),
        )
    } else {
        exact_course(k.plan, k.policy, k.mode, threshold, k.eps, k.guard, k.every)
    }
}

/// The features of the first trees' own pack, taken from a row.
pub open spec fn hot_features(h: PrefixPack, feat: Seq<u32>) -> Seq<u32> {
    filled(Seq::new(h.n_hot_features as nat, |i: int| 0u32), h.hot_global_fidx@, feat)
}

/// The leaf values of a row.
pub open spec fn leaves_of(k: Kernel, nan_free: bool, feat: Seq<u32>) -> spec_fn(int) -> Result<
    u32,
    TraverseError,
> {
    let rule = crate::descend::Rule {
        miss_aware: !nan_free,
        ranks: match k.rank_pack {
            Some(p) => Some(p@),
            None => None,
        },
    };
    let row = crate::descend::full_row(feat);
    if takes_hot(k, nan_free) {
        let h = *k.hot_pack->Some_0;
        let hot_trees = smaller_count(h.n_trees, smaller_count(k.policy->Some_0.k_hot, k.plan.n_trees));
        |p: int|
            if p < hot_trees {
                match crate::hot::tree_landing(
                    crate::hot::HotTrees::nodes_model(&h),
                    crate::hot::HotTrees::starts(&h),
                    crate::descend::full_row(hot_features(h, feat)),
                    crate::descend::Rule { miss_aware: false, ranks: None },
                    p,
                ) {
                    Ok(o) => Ok(o.leaf),
                    Err(e) => Err(e),
                }
            } else {
                crate::traverse::model_leaf(*k.model, k.plan.order@, row, rule, p)
            }
    } else {
        |p: int| crate::traverse::model_leaf(*k.model, k.plan.order@, row, rule, p)
    }
}

/// What a row comes to.
pub open spec fn row_result(
    m: spec_fn(SingleOp) -> u32,
    k: Kernel,
    nan_free: bool,
    feat: Seq<u32>,
    threshold: u32,
) -> Result<RowResult, KernelError> {
    if approx_mode(k.mode) && k.policy is None {
        Err(KernelError::NoPolicy)
    } else {
        let c = course_of(k, nan_free, threshold);
        match travel(m, leaves_of(k, nan_free, feat), c, 0, opening(m, c, k.base_score), 0) {
            Ok(r) => Ok(r),
            Err(e) => Err(KernelError::Astray(e)),
        }
    }
}

/// Whether everything that rows of `cols` features can look up is there.
pub open spec fn kernel_ready(k: Kernel, cols: int) -> bool {
    &&& k.plan.n_trees <= 0x7fff_ffff
    &&& k.every > 0
    &&& k.plan.suffix_min@.len() > k.plan.n_trees
    &&& k.plan.suffix_max@.len() > k.plan.n_trees
    &&& k.policy matches Some(p) ==> policy_ready(p@) && p@.used_checkpoints.len() <= 0x7fff_ffff
    &&& k.rank_pack matches Some(p) ==> splits_have_room(
        models(k.model.nodes@),
        p@,
        cols,
        p.n_features as int,
    )
    &&& k.hot_pack matches Some(h) ==> {
        &&& h.hot_global_fidx@.len() <= h.n_hot_features
        &&& forall|i: int|
            0 <= i < h.hot_global_fidx@.len() ==> (#[trigger] h.hot_global_fidx@[i]) < cols
    }
}

/// Room that rows share: ranks and features of the row at hand.
pub struct Workspace {
    pub ranks: RankCache,
    pub hot: HotFeatureBuf,
}

/// Whether the room fits what rows are scored with.
pub open spec fn workspace_fits(w: Workspace, k: Kernel) -> bool {
    &&& w.ranks.well_formed()
    &&& k.rank_pack matches Some(p) ==> w.ranks.stamps@.len() == p.n_features
    &&& k.hot_pack matches Some(h) ==> {
        &&& w.hot.values@.len() == h.n_hot_features
        &&& forall|i: int|
            h.hot_global_fidx@.len() <= i < h.n_hot_features ==> #[trigger] w.hot.values@[i] == 0
    }
}

impl Workspace {
    /// Room for rows.
    pub fn new<'a>(k: &Kernel<'a>) -> (r: Workspace)
        ensures
            workspace_fits(r, *k),
    {
        let ranks: usize = match k.rank_pack {
            Some(p) => p.n_features,
            None => 0,
        };
        let hot: usize = match k.hot_pack {
            Some(h) => h.n_hot_features,
            None => 0,
        };
        Workspace { ranks: RankCache::new(ranks), hot: HotFeatureBuf::new(hot) }
    }
}

/// Whether a row visited no more trees than there are, and stopped at a slot of the policy if it
/// stopped by the policy.
pub open spec fn row_fits(r: RowResult, k: Kernel) -> bool {
    &&& 0 <= r.visited <= k.plan.n_trees
    &&& r.meta.approx_checkpoint_idx == -1i32 || (k.policy is Some && 0
        <= r.meta.approx_checkpoint_idx < k.policy->Some_0@.used_checkpoints.len())
}

/// Scores a row.
pub fn score_row_by_kernel<'a, A: Fn(SingleOp) -> u32>(
    arith: &A,
    k: &Kernel<'a>,
    nan_free: bool,
    feat: &[u32],
    threshold: u32,
    work: &mut Workspace,
) -> (r: Result<RowResult, KernelError>)
    requires
        answers(*arith),
        kernel_ready(*k, feat@.len() as int),
        workspace_fits(*old(work), *k),
    ensures
        workspace_fits(*final(work), *k),
        r matches Ok(x) ==> row_fits(x, *k),
        forall|m: spec_fn(SingleOp) -> u32| #[trigger]
            follows(*arith, m) ==> r == row_result(m, *k, nan_free, feat@, threshold),
{
    let approx: bool = is_approx_mode(k.mode);
    let course: Course = if approx {
        match k.policy {
            None => {
                return Err(KernelError::NoPolicy);
            },
            Some(policy) => {
                let margin: bool = k.mode == InferMode::RouteApprox && nan_free && k.meta.is_none()
                    && k.rank_pack.is_none() && k.hot_pack.is_none();
                make_approx_course(
                    k.plan,
                    policy,
                    threshold,
                    k.eps,
                    k.guard,
                    k.every,
                    margin,
                )
            },
        }
    } else {
        make_exact_course(k.plan, k.policy, k.mode, threshold, k.eps, k.guard, k.every)
    };
    assert(course == course_of(*k, nan_free, threshold));
    let ghost leaf = leaves_of(*k, nan_free, feat@);
    if let Some(pack) = k.rank_pack {
        work.ranks.next_row();
        proof {
            lemma_clean_agrees(work.ranks, pack@, feat@);
        }
        let mut cache: RankCache = RankCache::new(0);
        std::mem::swap(&mut work.ranks, &mut cache);
        let mut source: ByRank = ByRank {
            model: k.model,
            order: &k.plan.order,
            pack,
            cache,
            feat,
            miss_aware: !nan_free,
        };
        proof {
            assert((|p: int| source.leaf_at(p)) =~= leaf);
        }
        let got: Result<RowResult, TraverseError> = traverse_course(
            arith,
            &mut source,
            &course,
            k.base_score,
            0,
        );
        work.ranks = source.cache;
        return match got {
            Ok(x) => Ok(x),
            Err(e) => Err(KernelError::Astray(e)),
        };
    }
    let mut plain: ByValue = ByValue {
        model: k.model,
        order: &k.plan.order,
        feat,
        miss_aware: !nan_free,
    };
    if approx && nan_free {
        if let (Some(policy), Some(hot)) = (k.policy, k.hot_pack) {
            work.hot.fill_from_global_u32(hot.hot_global_fidx.as_slice(), feat);
            assert(work.hot.values@ =~= hot_features(*hot, feat@));
            let limit: usize = if policy.k_hot <= k.plan.n_trees {
                policy.k_hot
            } else {
                k.plan.n_trees
            };
            let hot_trees: usize = if hot.n_trees <= limit {
                hot.n_trees
            } else {
                limit
            };
            let mut source: HotFirst = HotFirst {
                hot,
                hot_feat: work.hot.values.as_slice(),
                hot_trees,
                rest: plain,
            };
            proof {
                assert((|p: int| source.leaf_at(p)) =~= leaf);
            }
            return match traverse_course(arith, &mut source, &course, k.base_score, 0) {
                Ok(x) => Ok(x),
                Err(e) => Err(KernelError::Astray(e)),
            };
        }
    }
    proof {
        assert((|p: int| plain.leaf_at(p)) =~= leaf);
    }
    match traverse_course(arith, &mut plain, &course, k.base_score, 0) {
        Ok(x) => Ok(x),
        Err(e) => Err(KernelError::Astray(e)),
    }
}

} // verus!
