//! Adding up the trees of a model in a chosen order, with the tests at which a row may stop.

use crate::arith::{answers, follows, SingleOp};
use crate::descend::{
    descend_by_rank, descend_by_value, full_row, land, models, PlainRow, RankCache, RowModel,
    splits_have_room, RowSource, Rule, TraverseError,
};
use crate::forest::{PrefixPack, RankPack, SoaModel, TreeOrder};
use crate::hot::HotTrees;
use crate::policy::{policy_ready, positive, ApproxPolicy};
use crate::single::{at_most, le, negated, opposite};
use vstd::prelude::*;

verus! {

/// How a row stopped by the policy, if it did.
#[derive(Clone, Copy, Debug, PartialEq, Eq, Structural)]
pub struct RowMeta {
    pub approx_pass: bool,
    pub approx_refer: bool,
    pub approx_checkpoint_idx: i32,
}

impl RowMeta {
    /// Not stopped by the policy.
    pub open spec fn none() -> RowMeta {
        RowMeta { approx_pass: false, approx_refer: false, approx_checkpoint_idx: -1i32 }
    }
}

impl Default for RowMeta {
    fn default() -> (r: RowMeta)
        ensures
            r == RowMeta::none(),
    {
        RowMeta { approx_pass: false, approx_refer: false, approx_checkpoint_idx: -1 }
    }
}

/// What a row comes to.
#[derive(Clone, Copy, Debug, PartialEq, Eq, Structural)]
pub struct RowResult {
    pub score: u32,
    pub pass: bool,
    pub visited: i32,
    pub meta: RowMeta,
}

/// How the trees are added up and where the row is tested.
pub struct Course<'a> {
    pub plan: &'a TreeOrder,
    pub policy: Option<&'a ApproxPolicy>,
    /// After each of this many trees the policy is asked.
    pub approx_trees: usize,
    /// Whether the bounds are tested after the others.
    pub bounds: bool,
    /// Whether the distance to the threshold is added up in place of the score.
    pub margin: bool,
    pub threshold: u32,
    pub eps: u32,
    pub guard: u32,
    pub every: usize,
}

/// The level that the policy looks at.
pub open spec fn level(m: spec_fn(SingleOp) -> u32, c: Course, sum: u32) -> u32 {
    if c.margin {
        sum
    } else {
        m(SingleOp::Difference(sum, c.threshold))
    }
}

/// The level at or below which checkpoint slot `k` refers a row.
pub open spec fn refer_level(c: Course, k: int) -> Option<u32> {
    let p = c.policy->Some_0@;
    if c.margin {
        Some(p.used_tau_ref_dense[k])
    } else {
        p.used_tau_ref[k]
    }
}

/// The level from which checkpoint slot `k` passes a row.
pub open spec fn pass_level(c: Course, k: int) -> Option<u32> {
    let p = c.policy->Some_0@;
    if c.margin {
        Some(p.used_tau_positive_dense[k])
    } else {
        positive(p.used_tau_reject, p.used_tau_pass)[k]
    }
}

/// Whether checkpoint slot `k` is due after `visited` trees.
pub open spec fn due(c: Course, k: int, visited: int) -> bool {
    c.policy is Some && 0 <= k < c.policy->Some_0@.used_checkpoints.len()
        && c.policy->Some_0@.used_checkpoints[k] == visited
}

/// Whether the policy stops a row at checkpoint slot `k`, and on which side.
pub open spec fn approx_exit(
    m: spec_fn(SingleOp) -> u32,
    c: Course,
    sum: u32,
    k: int,
) -> Option<(bool, RowMeta)> {
    let at = level(m, c, sum);
    if refer_level(c, k) is Some && at_most(at, refer_level(c, k)->Some_0) {
        Some(
            (
                false,
                RowMeta { approx_pass: false, approx_refer: true, approx_checkpoint_idx: k as i32 },
            ),
        )
    } else if pass_level(c, k) is Some && at_most(pass_level(c, k)->Some_0, at) {
        Some(
            (
                true,
                RowMeta { approx_pass: true, approx_refer: false, approx_checkpoint_idx: k as i32 },
            ),
        )
    } else {
        None
    }
}

/// What a sum that passes for certain reaches: the threshold and both slacks. Margins are sums less
/// the threshold, so for them only the slacks count.
pub open spec fn pass_cut(m: spec_fn(SingleOp) -> u32, c: Course) -> u32 {
    if c.margin {
        m(SingleOp::Sum(c.eps, c.guard))
    } else {
        m(SingleOp::Sum(m(SingleOp::Sum(c.threshold, c.eps)), c.guard))
    }
}

/// What a sum that fails for certain falls short of: the threshold less both slacks.
pub open spec fn refer_cut(m: spec_fn(SingleOp) -> u32, c: Course) -> u32 {
    if c.margin {
        opposite(m(SingleOp::Sum(c.eps, c.guard)))
    } else {
        m(SingleOp::Difference(m(SingleOp::Difference(c.threshold, c.eps)), c.guard))
    }
}

/// Whether the remaining trees cannot change the side of a row, and which side that is.
pub open spec fn bound_exit(m: spec_fn(SingleOp) -> u32, c: Course, sum: u32, visited: int) -> Option<
    bool,
> {
    if m(
        SingleOp::Reaches(sum, c.plan.suffix_min@[visited], pass_cut(m, c)),
    ) != 0 {
        Some(true)
    } else if m(
        SingleOp::FallsShort(sum, c.plan.suffix_max@[visited], refer_cut(m, c)),
    ) != 0 {
        Some(false)
    } else {
        None
    }
}

/// The score that is reported.
pub open spec fn reported(m: spec_fn(SingleOp) -> u32, c: Course, sum: u32) -> u32 {
    if c.margin {
        m(SingleOp::Sum(sum, c.threshold))
    } else {
        sum
    }
}

/// Whether a row whose trees are all added up passes.
pub open spec fn passes(c: Course, sum: u32) -> bool {
    if c.margin {
        at_most(0, sum)
    } else {
        at_most(c.threshold, sum)
    }
}

/// What a row comes to from tree `pos` on, with sum `sum` so far and checkpoint slot `k` next.
pub open spec fn travel(
    m: spec_fn(SingleOp) -> u32,
    leaf: spec_fn(int) -> Result<u32, TraverseError>,
    c: Course,
    pos: int,
    sum: u32,
    k: int,
) -> Result<RowResult, TraverseError>
    decreases c.plan.n_trees - pos,
{
    if pos >= c.plan.n_trees {
        Ok(
            RowResult {
                score: reported(m, c, sum),
                pass: passes(c, sum),
                visited: pos as i32,
                meta: RowMeta::none(),
            },
        )
    } else {
        match leaf(pos) {
            Err(e) => Err(e),
            Ok(v) => {
                let next = m(SingleOp::Sum(sum, v));
                let visited = pos + 1;
                if pos < c.approx_trees {
                    if due(c, k, visited) {
                        match approx_exit(m, c, next, k) {
                            Some((pass, meta)) => Ok(
                                RowResult {
                                    score: reported(m, c, next),
                                    pass,
                                    visited: visited as i32,
                                    meta,
                                },
                            ),
                            None => travel(m, leaf, c, visited, next, k + 1),
                        }
                    } else {
                        travel(m, leaf, c, visited, next, k)
                    }
                } else if c.bounds && (visited % (c.every as int) == 0 || visited
                    == c.plan.n_trees) {
                    match bound_exit(m, c, next, visited) {
                        Some(pass) => Ok(
                            RowResult {
                                score: reported(m, c, next),
                                pass,
                                visited: visited as i32,
                                meta: RowMeta::none(),
                            },
                        ),
                        None => travel(m, leaf, c, visited, next, k),
                    }
                } else {
                    travel(m, leaf, c, visited, next, k)
                }
            },
        }
    }
}

/// A row visits no more trees than there are.
pub proof fn lemma_visits_in_range(
    m: spec_fn(SingleOp) -> u32,
    leaf: spec_fn(int) -> Result<u32, TraverseError>,
    c: Course,
    pos: int,
    sum: u32,
    k: int,
)
    requires
        0 <= pos <= c.plan.n_trees <= 0x7fff_ffff,
    ensures
        travel(m, leaf, c, pos, sum, k) matches Ok(r) ==> 0 <= r.visited <= c.plan.n_trees,
    decreases c.plan.n_trees - pos,
{
    if pos < c.plan.n_trees {
        if let Ok(v) = leaf(pos) {
            let next = m(SingleOp::Sum(sum, v));
            lemma_visits_in_range(m, leaf, c, pos + 1, next, k);
            lemma_visits_in_range(m, leaf, c, pos + 1, next, k + 1);
        }
    }
}

/// The sum to begin with.
pub open spec fn opening(m: spec_fn(SingleOp) -> u32, c: Course, init: u32) -> u32 {
    if c.margin {
        m(SingleOp::Difference(init, c.threshold))
    } else {
        init
    }
}

/// A source of the leaf values of a row, tree by tree.
pub trait LeafSource: Sized {
    /// The leaf value at place `pos` of the order.
    spec fn leaf_at(&self, pos: int) -> Result<u32, TraverseError>;

    /// Whether the source is in order.
    spec fn ready(&self) -> bool;

    /// How much room the source keeps.
    spec fn room(&self) -> nat;

    /// Finds the leaf value at place `pos` of the order.
    fn leaf(&mut self, pos: usize) -> (r: Result<u32, TraverseError>)
        requires
            old(self).ready(),
        ensures
            final(self).ready(),
            final(self).room() == old(self).room(),
            forall|p: int| #[trigger] final(self).leaf_at(p) == old(self).leaf_at(p),
            r == old(self).leaf_at(pos as int),
    ;
}

/// The leaf that a walk reached.
pub open spec fn landed(l: Result<crate::descend::Landing, TraverseError>) -> Result<
    u32,
    TraverseError,
> {
    match l {
        Ok(x) => Ok(x.value),
        Err(e) => Err(e),
    }
}

/// The leaf value at place `pos` of an order over a model.
pub open spec fn model_leaf(
    model: SoaModel,
    order: Seq<u32>,
    row: RowModel,
    rule: Rule,
    pos: int,
) -> Result<u32, TraverseError> {
    if !(0 <= pos < order.len()) || order[pos] >= model.tree_roots@.len() {
        Err(TraverseError::Stray)
    } else {
        landed(
            land(
                models(model.nodes@),
                0,
                row,
                rule,
                model.tree_roots@[order[pos] as int] as int,
            ),
        )
    }
}

/// A row that is walked down the trees of a model by its values.
pub struct ByValue<'a> {
    pub model: &'a SoaModel,
    pub order: &'a Vec<u32>,
    pub feat: &'a [u32],
    pub miss_aware: bool,
}

impl<'a> LeafSource for ByValue<'a> {
    open spec fn leaf_at(&self, pos: int) -> Result<u32, TraverseError> {
        model_leaf(
            *self.model,
            self.order@,
            full_row(self.feat@),
            Rule { miss_aware: self.miss_aware, ranks: None },
            pos,
        )
    }

    open spec fn ready(&self) -> bool {
        true
    }

    open spec fn room(&self) -> nat {
        0
    }

    fn leaf(&mut self, pos: usize) -> (r: Result<u32, TraverseError>) {
        if pos >= self.order.len() {
            return Err(TraverseError::Stray);
        }
        let tree: usize = self.order[pos] as usize;
        if tree >= self.model.tree_roots.len() {
            return Err(TraverseError::Stray);
        }
        let mut row: PlainRow = PlainRow { feat: self.feat };
        match descend_by_value(
            &self.model.nodes,
            0,
            &mut row,
            self.miss_aware,
            self.model.tree_roots[tree] as usize,
        ) {
            Ok((v, _)) => Ok(v),
            Err(e) => Err(e),
        }
    }
}

/// A row that is walked down the trees of a model by the ranks of its values.
pub struct ByRank<'a> {
    pub model: &'a SoaModel,
    pub order: &'a Vec<u32>,
    pub pack: &'a RankPack,
    pub cache: RankCache,
    pub feat: &'a [u32],
    pub miss_aware: bool,
}

impl<'a> LeafSource for ByRank<'a> {
    open spec fn leaf_at(&self, pos: int) -> Result<u32, TraverseError> {
        model_leaf(
            *self.model,
            self.order@,
            full_row(self.feat@),
            Rule { miss_aware: self.miss_aware, ranks: Some(self.pack@) },
            pos,
        )
    }

    open spec fn ready(&self) -> bool {
        &&& self.cache.well_formed()
        &&& self.cache.agrees(self.pack@, self.feat@)
        &&& splits_have_room(
            models(self.model.nodes@),
            self.pack@,
            self.feat@.len() as int,
            self.cache.stamps@.len() as int,
        )
    }

    open spec fn room(&self) -> nat {
        self.cache.stamps@.len()
    }

    fn leaf(&mut self, pos: usize) -> (r: Result<u32, TraverseError>) {
        if pos >= self.order.len() {
            return Err(TraverseError::Stray);
        }
        let tree: usize = self.order[pos] as usize;
        if tree >= self.model.tree_roots.len() {
            return Err(TraverseError::Stray);
        }
        let root: usize = self.model.tree_roots[tree] as usize;
        match descend_by_rank(
            &self.model.nodes,
            self.pack,
            &mut self.cache,
            self.feat,
            self.miss_aware,
            root,
        ) {
            Ok((v, _)) => Ok(v),
            Err(e) => Err(e),
        }
    }
}

/// A row whose first trees come from a pack of their own, and the others from the model. No value
/// counts as missing.
pub struct HotFirst<'a> {
    pub hot: &'a PrefixPack,
    pub hot_feat: &'a [u32],
    pub hot_trees: usize,
    pub rest: ByValue<'a>,
}

impl<'a> LeafSource for HotFirst<'a> {
    open spec fn leaf_at(&self, pos: int) -> Result<u32, TraverseError> {
        if pos < self.hot_trees {
            match crate::hot::tree_landing(
                self.hot.nodes_model(),
                self.hot.starts(),
                full_row(self.hot_feat@),
                Rule { miss_aware: false, ranks: None },
                pos,
            ) {
                Ok(o) => Ok(o.leaf),
                Err(e) => Err(e),
            }
        } else {
            self.rest.leaf_at(pos)
        }
    }

    open spec fn ready(&self) -> bool {
        true
    }

    open spec fn room(&self) -> nat {
        0
    }

    fn leaf(&mut self, pos: usize) -> (r: Result<u32, TraverseError>) {
        if pos < self.hot_trees {
            let mut row: PlainRow = PlainRow { feat: self.hot_feat };
            match self.hot.fall(pos, &mut row, false) {
                Ok((v, _)) => Ok(v),
                Err(e) => Err(e),
            }
        } else {
            let ghost before = *self;
            let r: Result<u32, TraverseError> = self.rest.leaf(pos);
            assert forall|p: int| #[trigger] self.leaf_at(p) == before.leaf_at(p) by {
                assert(self.rest.leaf_at(p) == before.rest.leaf_at(p));
            }
            r
        }
    }
}

/// Whether the tables that a course looks things up in are long enough.
pub open spec fn course_ready(c: Course) -> bool {
    &&& c.plan.n_trees <= 0x7fff_ffff
    &&& c.bounds ==> c.every > 0 && c.plan.suffix_min@.len() > c.plan.n_trees
        && c.plan.suffix_max@.len() > c.plan.n_trees
    &&& c.policy matches Some(p) ==> policy_ready(p@) && p@.used_checkpoints.len() <= 0x7fff_ffff
}

/// Whether a row stopped at a checkpoint slot of the policy, or not by the policy at all.
pub open spec fn meta_fits(meta: RowMeta, c: Course) -> bool {
    meta.approx_checkpoint_idx == -1i32 || (c.policy is Some && 0 <= meta.approx_checkpoint_idx
        < c.policy->Some_0@.used_checkpoints.len())
}

fn ask_policy<'a, A: Fn(SingleOp) -> u32>(arith: &A, c: &Course<'a>, sum: u32, k: usize) -> (r:
    Option<(bool, RowMeta)>)
    requires
        answers(*arith),
        course_ready(*c),
        c.policy is Some,
        k < c.policy->Some_0@.used_checkpoints.len(),
    ensures
        r matches Some(x) ==> meta_fits(x.1, *c),
        forall|m: spec_fn(SingleOp) -> u32| #[trigger]
            follows(*arith, m) ==> r == approx_exit(m, *c, sum, k as int),
{
    match c.policy {
        None => None,
        Some(p) => {
            let at: u32 = if c.margin {
                sum
            } else {
                arith(SingleOp::Difference(sum, c.threshold))
            };
            let refer: Option<u32> = if c.margin {
                Some(p.used_tau_ref_dense[k])
            } else {
                p.used_tau_ref[k]
            };
            let pass: Option<u32> = if c.margin {
                Some(p.used_tau_positive_dense[k])
            } else {
                p.used_tau_positive()[k]
            };
            if let Some(t) = refer {
                if le(at, t) {
                    return Some(
                        (
                            false,
                            RowMeta {
                                approx_pass: false,
                                approx_refer: true,
                                approx_checkpoint_idx: k as i32,
                            },
                        ),
                    );
                }
            }
            if let Some(t) = pass {
                if le(t, at) {
                    return Some(
                        (
                            true,
                            RowMeta {
                                approx_pass: true,
                                approx_refer: false,
                                approx_checkpoint_idx: k as i32,
                            },
                        ),
                    );
                }
            }
            None
        },
    }
}

fn test_bounds<'a, A: Fn(SingleOp) -> u32>(arith: &A, c: &Course<'a>, sum: u32, visited: usize) -> (r:
    Option<bool>)
    requires
        answers(*arith),
        course_ready(*c),
        c.bounds,
        visited <= c.plan.n_trees,
    ensures
        forall|m: spec_fn(SingleOp) -> u32| #[trigger]
            follows(*arith, m) ==> r == bound_exit(m, *c, sum, visited as int),
{
    let (high, low): (u32, u32) = if c.margin {
        let slack: u32 = arith(SingleOp::Sum(c.eps, c.guard));
        (slack, negated(slack))
    } else {
        let lifted: u32 = arith(SingleOp::Sum(c.threshold, c.eps));
        let high: u32 = arith(SingleOp::Sum(lifted, c.guard));
        let lowered: u32 = arith(SingleOp::Difference(c.threshold, c.eps));
        let low: u32 = arith(SingleOp::Difference(lowered, c.guard));
        (high, low)
    };
    let above: u32 = arith(SingleOp::Reaches(sum, c.plan.suffix_min[visited], high));
    if above != 0 {
        return Some(true);
    }
    let beneath: u32 = arith(SingleOp::FallsShort(sum, c.plan.suffix_max[visited], low));
    if beneath != 0 {
        return Some(false);
    }
    None
}

fn report<'a, A: Fn(SingleOp) -> u32>(arith: &A, c: &Course<'a>, sum: u32) -> (r: u32)
    requires
        answers(*arith),
    ensures
        forall|m: spec_fn(SingleOp) -> u32| #[trigger]
            follows(*arith, m) ==> r == reported(m, *c, sum),
{
    if c.margin {
        arith(SingleOp::Sum(sum, c.threshold))
    } else {
        sum
    }
}

/// Adds up the trees of a course from tree `start` on.
pub fn traverse_course<'a, A: Fn(SingleOp) -> u32, L: LeafSource>(
    arith: &A,
    source: &mut L,
    c: &Course<'a>,
    init: u32,
    start: usize,
) -> (r: Result<RowResult, TraverseError>)
    requires
        answers(*arith),
        old(source).ready(),
        course_ready(*c),
    ensures
        final(source).ready(),
        final(source).room() == old(source).room(),
        r matches Ok(x) ==> meta_fits(x.meta, *c) && (start <= c.plan.n_trees ==> 0 <= x.visited
            <= c.plan.n_trees),
        forall|m: spec_fn(SingleOp) -> u32| #[trigger]
            follows(*arith, m) ==> r == travel(
                m,
                |p: int| old(source).leaf_at(p),
                *c,
                start as int,
                opening(m, *c, init),
                0,
            ),
{
    let n: usize = c.plan.n_trees;
    let ghost leaf = |p: int| old(source).leaf_at(p);
    let mut sum: u32 = if c.margin {
        arith(SingleOp::Difference(init, c.threshold))
    } else {
        init
    };
    let mut k: usize = 0;
    let mut pos: usize = start;
    while pos < n
        invariant
            answers(*arith),
            source.ready(),
            source.room() == old(source).room(),
            course_ready(*c),
            n == c.plan.n_trees,
            start <= pos,
            pos <= n || pos == start,
            k <= 0x7fff_ffff,
            leaf == (|p: int| old(source).leaf_at(p)),
            forall|p: int| #[trigger] source.leaf_at(p) == old(source).leaf_at(p),
            forall|m: spec_fn(SingleOp) -> u32| #[trigger]
                follows(*arith, m) ==> travel(
                    m,
                    leaf,
                    *c,
                    start as int,
                    opening(m, *c, init),
                    0,
                ) == travel(m, leaf, *c, pos as int, sum, k as int),
        decreases n - pos,
    {
        let got: Result<u32, TraverseError> = source.leaf(pos);
        assert(got == leaf(pos as int));
        let v: u32 = match got {
            Err(e) => {
                return Err(e);
            },
            Ok(v) => v,
        };
        let next: u32 = arith(SingleOp::Sum(sum, v));
        let visited: usize = pos + 1;
        if pos < c.approx_trees {
            if let Some(p) = c.policy {
                if k < p.used_checkpoints.len() && p.used_checkpoints[k] == visited {
                    match ask_policy(arith, c, next, k) {
                        Some((pass, meta)) => {
                            let score: u32 = report(arith, c, next);
                            return Ok(RowResult { score, pass, visited: visited as i32, meta });
                        },
                        None => {},
                    }
                    k += 1;
                }
            }
        } else if c.bounds && (visited % c.every == 0 || visited == n) {
            match test_bounds(arith, c, next, visited) {
                Some(pass) => {
                    let score: u32 = report(arith, c, next);
                    let meta: RowMeta = RowMeta::default();
                    return Ok(RowResult { score, pass, visited: visited as i32, meta });
                },
                None => {},
            }
        }
        sum = next;
        pos = visited;
    }
    let score: u32 = report(arith, c, sum);
    let pass: bool = if c.margin {
        le(0, sum)
    } else {
        le(c.threshold, sum)
    };
    let meta: RowMeta = RowMeta::default();
    Ok(RowResult { score, pass, visited: pos as i32, meta })
}

} // verus!
