//! The two stages of the online scorer.

use crate::arith::{answers, follows, SingleOp};
use crate::certify::PrefixCertifierKind;
use crate::compact::{
    compact_fault, compile_hot_approx_l1_compact_pack, law_compact_trees_give_the_same_leaves,
    mirrors_model, model_fits, own_form_trees, CompactError, CompactFirst, HotApproxL1CompactPack,
};
use crate::continuation::{rest_of_pack, run_rest_of_pack};
use crate::descend::TraverseError;
use crate::exp_v1::{
    ensure_local_ranks, exp_ready, exp_row, predict_nomiss, readied, resized, L2ExpV1Runtime,
};
use crate::forest::{SoaModel, TreeOrder};
use crate::hot::{HotFeatureBuf, LazyHotFeatureCache};
use crate::kernel::{approx_course, make_approx_course};
use crate::kinds::{hot_kernel, is_hot_kernel};
use crate::le::{get_u32s, u32s_at};
use crate::online::{
    has_segments, late_covered, late_ready, lemma_covered_is_late_readable,
    lemma_fit_is_late_readable, lemma_late_ranks_fit, online_ranks, online_ready, online_row,
    prepared_ready, prepared_route, prepared_row,
    run_prefix_shadow_row_single_route_compiled_nomiss_online,
    run_prefix_shadow_row_single_route_prefix_v2_nomiss, segment_fits, segment_ranks,
};
use crate::pack_check::{
    block_sound, cut_count, feature_takes, lemma_rank_top, lemma_zeros_fit, marks_sound,
    pack_sound, ranks_fit, takes, tree_sound, tree_takes,
};
use crate::policy::ApproxPolicy;
use crate::prefix_runtime::{
    compiled_route, compiled_row, fewer, run_prefix_shadow_row_single_route_compiled, runtime_sound,
    shadow_row, LoadedLateSegment, LoadedPrefixRuntime, PrefixRowShadow, ShadowView,
};
use crate::qs_pack::PackModel;
use crate::qs_score::{block_readable, none_missing, tree_readable, ScoreError};
use crate::quantize::{cuts_readable, feature_cuts};
use crate::single::{is_nan, nan};
use crate::tail::{model_leaves, plan_ready, run_tail, tail_result};
use crate::traverse::{
    course_ready, opening, travel, traverse_course, ByValue, Course, LeafSource, RowResult,
};
use vstd::prelude::*;

verus! {

/// What a row comes to in the first stage.
#[derive(Clone, Copy, Debug, PartialEq, Eq, Structural)]
pub struct OnlineL1Output {
    pub score: u32,
    pub passed: bool,
    pub visited_trees: i32,
}

/// What a row comes to in the second stage.
#[derive(Clone, Copy, Debug, PartialEq, Eq, Structural)]
pub struct OnlineL2Output {
    pub score: u32,
    pub reject: bool,
    pub used_fallback: bool,
    pub trees_used: i32,
}

/// Why a row is not scored.
#[derive(Clone, Copy, Debug, PartialEq, Eq, Structural)]
pub enum OnlineError {
    DimTooLarge { dim: usize },
    BytesLen { got: usize, expected: usize },
    L1Len { got: usize, expected: usize },
    L2Len { got: usize, expected: usize },
    L1(TraverseError),
    L2(ScoreError),
    KernelUnavailable,
    HotPathUnavailable,
    RouteUnavailable,
}

/// The values that bytes stand for: exactly as many as asked for.
pub open spec fn dense_values(bytes: Seq<u8>, dim: int) -> Result<Seq<u32>, OnlineError> {
    if dim * 4 > usize::MAX {
        Err(OnlineError::DimTooLarge { dim: dim as usize })
    } else if bytes.len() != dim * 4 {
        Err(OnlineError::BytesLen { got: bytes.len() as usize, expected: (dim * 4) as usize })
    } else {
        Ok(u32s_at(bytes, 0, dim as nat))
    }
}

/// Takes bytes for values.
pub fn decode_dense_f32le(bytes: &[u8], dim: usize) -> (r: Result<Vec<u32>, OnlineError>)
    ensures
        match dense_values(bytes@, dim as int) {
            Ok(v) => r matches Ok(x) && x@ == v,
            Err(e) => r == Err::<Vec<u32>, OnlineError>(e),
        },
{
    let need: usize = match dim.checked_mul(4) {
        None => {
            return Err(OnlineError::DimTooLarge { dim });
        },
        Some(n) => n,
    };
    if bytes.len() != need {
        return Err(OnlineError::BytesLen { got: bytes.len(), expected: need });
    }
    Ok(get_u32s(bytes, 0, dim))
}

/// Takes bytes for values and keeps them in a buffer, which is left alone where that fails.
pub fn decode_dense_f32le_into(bytes: &[u8], dim: usize, out: &mut Vec<u32>) -> (r: Result<
    (),
    OnlineError,
>)
    ensures
        match dense_values(bytes@, dim as int) {
            Ok(v) => r is Ok && final(out)@ == v,
            Err(e) => r == Err::<(), OnlineError>(e) && final(out)@ == old(out)@,
        },
{
    match decode_dense_f32le(bytes, dim) {
        Err(e) => Err(e),
        Ok(v) => {
            *out = v;
            Ok(())
        },
    }
}

/// Whether no value of a row is missing.
pub open spec fn whole(row: Seq<u32>) -> bool {
    forall|i: int| 0 <= i < row.len() ==> !nan(#[trigger] row[i])
}

/// Computes [`whole`].
pub fn is_nan_free(row: &[u32]) -> (r: bool)
    ensures
        r == whole(row@),
{
    let mut i: usize = 0;
    while i < row.len()
        invariant
            i <= row@.len(),
            forall|k: int| 0 <= k < i ==> !nan(#[trigger] row@[k]),
        decreases row@.len() - i,
    {
        if is_nan(row[i]) {
            return false;
        }
        i += 1;
    }
    true
}

/// The first stage.
#[derive(Debug)]
pub struct OnlineL1Runtime {
    pub model: SoaModel,
    pub plan: TreeOrder,
    pub approx_policy: ApproxPolicy,
    pub hot_compact_pack: Option<HotApproxL1CompactPack>,
    pub threshold: u32,
    pub base_score: u32,
}

/// The course of a row through the first stage. A row without missing values is told apart by its
/// margin.
pub open spec fn l1_course<'a>(l1: &'a OnlineL1Runtime, nan_free: bool) -> Course<'a> {
    approx_course(&l1.plan, &l1.approx_policy, l1.threshold, 0, 0, 1, nan_free)
}

/// Whether the first stage can run rows.
pub open spec fn l1_ready(l1: OnlineL1Runtime) -> bool {
    &&& course_ready(l1_course(&l1, true))
    &&& l1.hot_compact_pack matches Some(p) ==> mirrors_model(p, l1.model, l1.plan.order@)
}

/// What a row comes to in the first stage.
pub open spec fn l1_row(
    m: spec_fn(SingleOp) -> u32,
    l1: &OnlineL1Runtime,
    feat: Seq<u32>,
    nan_free: bool,
) -> Result<OnlineL1Output, OnlineError> {
    let c = l1_course(l1, nan_free);
    match travel(
        m,
        model_leaves(l1.model, l1.plan.order@, feat, !nan_free),
        c,
        0,
        opening(m, c, l1.base_score),
        0,
    ) {
        Err(e) => Err(OnlineError::L1(e)),
        Ok(r) => Ok(
            OnlineL1Output { score: r.score, passed: r.pass, visited_trees: r.visited },
        ),
    }
}

/// Runs a row through the first stage.
fn run_l1<A: Fn(SingleOp) -> u32>(
    arith: &A,
    l1: &OnlineL1Runtime,
    feat: &[u32],
    nan_free: bool,
) -> (r: Result<OnlineL1Output, OnlineError>)
    requires
        answers(*arith),
        l1_ready(*l1),
    ensures
        forall|m: spec_fn(SingleOp) -> u32| #[trigger]
            follows(*arith, m) ==> r == l1_row(m, l1, feat@, nan_free),
{
    let c: Course = make_approx_course(
        &l1.plan,
        &l1.approx_policy,
        l1.threshold,
        0,
        0,
        1,
        nan_free,
    );
    let ghost leaves = model_leaves(l1.model, l1.plan.order@, feat@, !nan_free);
    let compact: Option<&HotApproxL1CompactPack> = if nan_free {
        l1.hot_compact_pack.as_ref()
    } else {
        None
    };
    let run: Result<RowResult, TraverseError> = match compact {
        Some(pack) => {
            let mut source: CompactFirst = CompactFirst {
                pack,
                model: &l1.model,
                order: &l1.plan.order,
                feat,
            };
            proof {
                assert forall|p: int| #[trigger] source.leaf_at(p) == leaves(p) by {
                    law_compact_trees_give_the_same_leaves(source, p);
                }
                assert((|p: int| source.leaf_at(p)) =~= leaves);
            }
            traverse_course(arith, &mut source, &c, l1.base_score, 0)
        },
        None => {
            let mut source: ByValue = ByValue {
                model: &l1.model,
                order: &l1.plan.order,
                feat,
                miss_aware: !nan_free,
            };
            assert((|p: int| source.leaf_at(p)) =~= leaves);
            traverse_course(arith, &mut source, &c, l1.base_score, 0)
        },
    };
    match run {
        Err(e) => Err(OnlineError::L1(e)),
        Ok(x) => Ok(
            OnlineL1Output { score: x.score, passed: x.pass, visited_trees: x.visited },
        ),
    }
}

/// That a model can be run by the first form of the second stage's kernel.
#[derive(Clone, Copy, Debug)]
pub struct ExperimentalL2KernelZen4 {}

/// Whether a model has what that kernel takes.
pub open spec fn zen4_fits(rt: LoadedPrefixRuntime) -> bool {
    &&& hot_kernel(rt.direct_kernel)
    &&& rt.certifier_kind == PrefixCertifierKind::AtlasV1
    &&& rt.compiled_hot_pack is Some
    &&& rt.hot_checkpoint_layout is Some
}

impl ExperimentalL2KernelZen4 {
    /// The kernel, where a model has what it takes.
    pub fn new(runtime: &LoadedPrefixRuntime) -> (r: Option<Self>)
        ensures
            r is Some <==> zen4_fits(*runtime),
    {
        if !is_hot_kernel(runtime.direct_kernel) {
            return None;
        }
        if runtime.certifier_kind != PrefixCertifierKind::AtlasV1 {
            return None;
        }
        if runtime.compiled_hot_pack.is_none() || runtime.hot_checkpoint_layout.is_none() {
            return None;
        }
        Some(ExperimentalL2KernelZen4 {  })
    }
}

/// The second stage.
#[derive(Debug)]
pub struct OnlineL2Runtime {
    pub model: SoaModel,
    pub runtime: LoadedPrefixRuntime,
    pub experimental_zen4: Option<ExperimentalL2KernelZen4>,
    pub exp_v1: Option<L2ExpV1Runtime>,
    pub kernel_zen4_v1: Option<L2ExpV1Runtime>,
}

/// Both stages.
#[derive(Debug)]
pub struct MinpackRuntime {
    pub l1: OnlineL1Runtime,
    pub l2: OnlineL2Runtime,
    pub l1_dim: usize,
    pub l2_dim: usize,
    pub bundle_dir: String,
}

/// What is kept from row to row so that memory is used again.
#[derive(Debug)]
pub struct OnlineScratch {
    pub l1_feat: Vec<u32>,
    pub l2_ranks: Vec<u8>,
    pub l2_missing: Vec<u8>,
    pub l2_hot_buf: HotFeatureBuf,
    pub l2_hot_cache: LazyHotFeatureCache,
    pub l2_exp_hot_buf: HotFeatureBuf,
    pub l2_exp_local_ranks: Vec<u8>,
}

/// What of it a later row can depend on. The features of a row are written anew for each, and
/// those in the cache are marked as stale.
pub struct ScratchView {
    pub ranks: Seq<u8>,
    pub missing: Seq<u8>,
    pub hot: Seq<u32>,
    pub exp_hot: Seq<u32>,
    pub exp_ranks: Seq<u8>,
}

impl View for OnlineScratch {
    type V = ScratchView;

    open spec fn view(&self) -> ScratchView {
        ScratchView {
            ranks: self.l2_ranks@,
            missing: self.l2_missing@,
            hot: self.l2_hot_buf.values@,
            exp_hot: self.l2_exp_hot_buf.values@,
            exp_ranks: self.l2_exp_local_ranks@,
        }
    }
}

impl OnlineScratch {
    /// Whether everything kept is fit for the next row.
    pub open spec fn well_formed(self) -> bool {
        self.l2_hot_cache.well_formed()
    }

    /// Nothing kept yet.
    pub fn new() -> (r: Self)
        ensures
            r.well_formed(),
            r@.ranks.len() == 0,
            r@.missing.len() == 0,
            r@.hot.len() == 0,
            r@.exp_hot.len() == 0,
            r@.exp_ranks.len() == 0,
    {
        OnlineScratch {
            l1_feat: Vec::new(),
            l2_ranks: Vec::new(),
            l2_missing: Vec::new(),
            l2_hot_buf: HotFeatureBuf::new(0),
            l2_hot_cache: LazyHotFeatureCache::new(0),
            l2_exp_hot_buf: HotFeatureBuf::new(0),
            l2_exp_local_ranks: Vec::new(),
        }
    }
}

/// A buffer kept where it has the length needed, and one of zeros otherwise.
pub open spec fn refitted(buf: Seq<u32>, n: nat) -> Seq<u32> {
    if buf.len() == n {
        buf
    } else {
        Seq::new(n, |i: int| 0u32)
    }
}

/// Makes a buffer as long as needed.
fn refit(buf: &mut HotFeatureBuf, n: usize)
    ensures
        final(buf).values@ == refitted(old(buf).values@, n as nat),
{
    if buf.values.len() != n {
        *buf = HotFeatureBuf::new(n);
    }
}

/// How long the buffer of a model must be.
pub open spec fn hot_len(rt: LoadedPrefixRuntime) -> nat {
    match rt.compiled_hot_pack {
        Some(h) => h@.n_hot_features as nat,
        None => 0,
    }
}

/// Whether the second stage can run rows of `dim` values.
pub open spec fn l2_ready(l2: OnlineL2Runtime, dim: nat) -> bool {
    let rt = l2.runtime;
    let n = rt.pack@.n_features as nat;
    &&& runtime_sound(rt)
    &&& n <= dim
    &&& rt.compiled_hot_pack matches Some(h) ==> {
        &&& h@.hot_global_fidx.len() <= h@.n_hot_features
        &&& forall|k: int|
            0 <= k < h@.hot_global_fidx.len() ==> (#[trigger] h@.hot_global_fidx[k]) < dim
    }
    &&& online_ready(rt, dim, n, hot_len(rt))
    &&& prepared_ready(rt, dim, n, hot_len(rt))
    &&& plan_ready(rt.plan)
    &&& rt.plan.order@.len() <= 0x8000_0000
    &&& l2.exp_v1 matches Some(e) ==> exp_ready(e, rt, dim)
    &&& l2.kernel_zen4_v1 matches Some(e) ==> exp_ready(e, rt, dim)
}

/// Whether no row of a model is run with ranks that earlier rows left behind.
pub open spec fn ranks_anew(rt: LoadedPrefixRuntime) -> bool {
    ||| !compiled_route(rt)
    ||| prepared_route(rt)
    ||| has_segments(rt)
    ||| late_covered(
        rt.pack@,
        rt.hot_checkpoint_layout->Some_0@,
        fewer(rt.compiled_hot_pack->Some_0@.n_trees, rt.pack@.n_trees),
    )
}

/// Whether the trees of a model can be read with the ranks that were kept, where rows are run with
/// them.
pub open spec fn scratch_fits(rt: LoadedPrefixRuntime, s: ScratchView) -> bool {
    ranks_anew(rt) || ranks_fit(rt.pack@, resized(s.ranks, rt.pack@.n_features as nat))
}

/// Where nothing was kept yet, any model can be run.
pub proof fn law_new_scratch_fits(rt: LoadedPrefixRuntime, s: ScratchView)
    requires
        runtime_sound(rt),
        s.ranks.len() == 0,
    ensures
        scratch_fits(rt, s),
{
    lemma_zeros_fit(rt.pack@, resized(s.ranks, rt.pack@.n_features as nat));
}

/// Whether a model can run a row where it looks for missing values.
pub open spec fn row_fits(rt: LoadedPrefixRuntime, row: Seq<u32>, nan_free: bool) -> bool {
    ||| nan_free && (compiled_route(rt) || prepared_route(rt))
    ||| marks_sound(rt.pack@, row)
}

/// What a row that was decided at a checkpoint comes to.
pub open spec fn at_checkpoint(v: ShadowView) -> OnlineL2Output {
    OnlineL2Output {
        score: v.shadow_route_score,
        reject: v.shadow_reject,
        used_fallback: false,
        trees_used: (v.trees_used as usize) as i32,
    }
}

/// What a row comes to after the first trees: their verdict, or that of the trees that are left.
pub open spec fn concluded_row(
    m: spec_fn(SingleOp) -> u32,
    l2: &OnlineL2Runtime,
    row: Seq<u32>,
    tau: u32,
    nan_free: bool,
    v: ShadowView,
) -> Result<OnlineL2Output, OnlineError> {
    if !v.fallback_used {
        Ok(at_checkpoint(v))
    } else {
        match tail_result(
            m,
            l2.model,
            &l2.runtime.plan,
            row,
            tau,
            nan_free,
            v.prefix_score,
            v.trees_used,
        ) {
            Err(e) => Err(OnlineError::L2(ScoreError::Astray(e))),
            Ok(t) => Ok(
                OnlineL2Output {
                    score: t.score,
                    reject: t.pass,
                    used_fallback: true,
                    trees_used: ((v.trees_used as usize) as i32).wrapping_add(t.visited),
                },
            ),
        }
    }
}

/// What the first trees make of a row: by prepared stages where the model has them, by its own
/// stages otherwise, and without stages where it has neither or the row lacks values.
pub open spec fn l2_prefix(
    m: spec_fn(SingleOp) -> u32,
    l2: &OnlineL2Runtime,
    row: Seq<u32>,
    tau: u32,
    fold: i32,
    nan_free: bool,
    s: ScratchView,
) -> Result<ShadowView, ScoreError> {
    let rt = &l2.runtime;
    let n = rt.pack@.n_features as nat;
    if nan_free && prepared_route(*rt) {
        prepared_row(m, rt, row, tau, fold, resized(s.ranks, n), refitted(s.hot, hot_len(*rt)))
    } else if nan_free && compiled_route(*rt) {
        online_row(m, rt, row, tau, fold, resized(s.ranks, n), refitted(s.hot, hot_len(*rt)))
    } else {
        let ranks = if nan_free && rt.compiled_hot_pack is Some {
            readied(resized(s.ranks, n), n)
        } else {
            readied(s.ranks, n)
        };
        if compiled_route(*rt) {
            compiled_row(
                m,
                rt,
                row,
                tau,
                fold,
                nan_free,
                ranks,
                readied(s.missing, n),
                refitted(s.hot, hot_len(*rt)),
            )
        } else {
            shadow_row(
                m,
                rt,
                row,
                tau,
                fold,
                ranks,
                readied(s.missing, n),
                rt.pack@.base_score,
                false,
            )
        }
    }
}

/// What a row comes to in the second stage.
pub open spec fn l2_row(
    m: spec_fn(SingleOp) -> u32,
    l2: &OnlineL2Runtime,
    row: Seq<u32>,
    tau: u32,
    fold: i32,
    nan_free: bool,
    s: ScratchView,
) -> Result<OnlineL2Output, OnlineError> {
    match l2_prefix(m, l2, row, tau, fold, nan_free, s) {
        Err(e) => Err(OnlineError::L2(e)),
        Ok(v) => concluded_row(m, l2, row, tau, nan_free, v),
    }
}

/// Concludes a row.
fn conclude_row<A: Fn(SingleOp) -> u32>(
    arith: &A,
    l2: &OnlineL2Runtime,
    row: &[u32],
    tau: u32,
    nan_free: bool,
    shadow: &PrefixRowShadow,
) -> (r: Result<OnlineL2Output, OnlineError>)
    requires
        answers(*arith),
        plan_ready(l2.runtime.plan),
    ensures
        forall|m: spec_fn(SingleOp) -> u32| #[trigger]
            follows(*arith, m) ==> r == concluded_row(m, l2, row@, tau, nan_free, shadow@),
{
    if !shadow.fallback_used {
        return Ok(
            OnlineL2Output {
                score: shadow.shadow_route_score,
                reject: shadow.shadow_reject,
                used_fallback: false,
                trees_used: shadow.trees_used as i32,
            },
        );
    }
    match run_tail(
        arith,
        &l2.model,
        &l2.runtime.plan,
        row,
        tau,
        nan_free,
        shadow.prefix_score,
        shadow.trees_used,
    ) {
        Err(e) => Err(OnlineError::L2(ScoreError::Astray(e))),
        Ok(t) => Ok(
            OnlineL2Output {
                score: t.score,
                reject: t.pass,
                used_fallback: true,
                trees_used: (shadow.trees_used as i32).wrapping_add(t.visited),
            },
        ),
    }
}

/// Ranks that fit a pack still fit it when they are made as many as it has features.
proof fn lemma_readied_fit(p: PackModel, s: Seq<u8>, n: nat)
    requires
        pack_sound(p),
        n == p.n_features,
        ranks_fit(p, resized(s, n)),
    ensures
        ranks_fit(p, readied(s, n)),
{
    if s.len() == n {
        lemma_zeros_fit(p, readied(s, n));
    }
}

/// As many ranks as needed are left alone.
proof fn lemma_resized_same(s: Seq<u8>, n: nat)
    requires
        s.len() == n,
    ensures
        resized(s, n) == s,
{
    assert(resized(s, n) =~= s);
}

/// Where what was kept fits, the late stretches can be run.
proof fn lemma_scratch_suits(rt: LoadedPrefixRuntime, row: Seq<u32>, s: ScratchView, buf: nat)
    requires
        scratch_fits(rt, s),
        !prepared_route(rt),
        online_ready(rt, row.len(), rt.pack@.n_features as nat, buf),
    ensures
        late_ready(rt, row, resized(s.ranks, rt.pack@.n_features as nat)),
{
    if compiled_route(rt) && !has_segments(rt) {
        let l = rt.hot_checkpoint_layout->Some_0@;
        let start = fewer(rt.compiled_hot_pack->Some_0@.n_trees, rt.pack@.n_trees);
        let ranks = resized(s.ranks, rt.pack@.n_features as nat);
        if ranks_fit(rt.pack@, ranks) {
            lemma_fit_is_late_readable(rt.pack@, row, ranks, l, start);
        } else {
            lemma_covered_is_late_readable(rt.pack@, row, ranks, l, start);
        }
    }
}

/// Gives ranks the length needed.
fn resize_ranks(v: &mut Vec<u8>, n: usize)
    ensures
        final(v)@ == resized(old(v)@, n as nat),
{
    let ghost before = v@;
    if v.len() != n {
        ensure_local_ranks(v, n);
    }
    assert(v@ =~= resized(before, n as nat));
}

/// Runs a row through the second stage.
fn run_l2<A: Fn(SingleOp) -> u32>(
    arith: &A,
    l2: &OnlineL2Runtime,
    row: &[u32],
    tau: u32,
    fold: i32,
    nan_free: bool,
    scratch: &mut OnlineScratch,
) -> (r: Result<OnlineL2Output, OnlineError>)
    requires
        answers(*arith),
        l2_ready(*l2, row@.len()),
        row_fits(l2.runtime, row@, nan_free),
        old(scratch).well_formed(),
        scratch_fits(l2.runtime, old(scratch)@),
    ensures
        final(scratch).well_formed(),
        scratch_fits(l2.runtime, final(scratch)@),
        forall|m: spec_fn(SingleOp) -> u32| #[trigger]
            follows(*arith, m) ==> r == l2_row(m, l2, row@, tau, fold, nan_free, old(scratch)@),
{
    let rt: &LoadedPrefixRuntime = &l2.runtime;
    let n: usize = rt.pack.n_features;
    let ghost kept = scratch@;
    proof {
        if ranks_fit(rt.pack@, resized(kept.ranks, n as nat)) {
            lemma_readied_fit(rt.pack@, kept.ranks, n as nat);
            lemma_resized_same(resized(kept.ranks, n as nat), n as nat);
            lemma_readied_fit(rt.pack@, resized(kept.ranks, n as nat), n as nat);
        }
    }
    if nan_free {
        if let Some(h) = &rt.compiled_hot_pack {
            refit(&mut scratch.l2_hot_buf, h.n_hot_features);
            resize_ranks(&mut scratch.l2_ranks, n);
            match run_prefix_shadow_row_single_route_prefix_v2_nomiss(
                arith,
                rt,
                row,
                tau,
                fold,
                &mut scratch.l2_hot_buf,
                scratch.l2_ranks.as_mut_slice(),
            ) {
                Err(e) => {
                    return Err(OnlineError::L2(e));
                },
                Ok(Some(shadow)) => {
                    return conclude_row(arith, l2, row, tau, true, &shadow);
                },
                Ok(None) => {},
            }
            proof {
                lemma_scratch_suits(*rt, row@, kept, h.n_hot_features as nat);
            }
            let shown: Result<Option<PrefixRowShadow>, ScoreError> =
                run_prefix_shadow_row_single_route_compiled_nomiss_online(
                arith,
                rt,
                row,
                tau,
                fold,
                &mut scratch.l2_hot_buf,
                scratch.l2_ranks.as_mut_slice(),
            );
            proof {
                lemma_resized_same(scratch.l2_ranks@, n as nat);
            }
            match shown {
                Err(e) => {
                    return Err(OnlineError::L2(e));
                },
                Ok(Some(shadow)) => {
                    return conclude_row(arith, l2, row, tau, true, &shadow);
                },
                Ok(None) => {},
            }
        }
    }
    ensure_local_ranks(&mut scratch.l2_ranks, n);
    ensure_local_ranks(&mut scratch.l2_missing, n);
    let hot_need: usize = match &rt.compiled_hot_pack {
        Some(h) => h.n_hot_features,
        None => 0,
    };
    refit(&mut scratch.l2_hot_buf, hot_need);
    let cache_need: usize = match &rt.hot_pack {
        Some(p) => p.n_hot_features,
        None => 0,
    };
    if scratch.l2_hot_cache.values.len() != cache_need {
        scratch.l2_hot_cache = LazyHotFeatureCache::new(cache_need);
    } else {
        scratch.l2_hot_cache.next_row();
    }
    let shown: Result<PrefixRowShadow, ScoreError> = run_prefix_shadow_row_single_route_compiled(
        arith,
        rt,
        row,
        tau,
        fold,
        nan_free,
        scratch.l2_ranks.as_mut_slice(),
        scratch.l2_missing.as_mut_slice(),
        &mut scratch.l2_hot_buf,
        &mut scratch.l2_hot_cache,
    );
    proof {
        lemma_resized_same(scratch.l2_ranks@, n as nat);
    }
    match shown {
        Err(e) => Err(OnlineError::L2(e)),
        Ok(shadow) => conclude_row(arith, l2, row, tau, nan_free, &shadow),
    }
}

/// What the trees left of a pack make of a row that no stage decided.
pub open spec fn pack_tail(
    m: spec_fn(SingleOp) -> u32,
    rt: &LoadedPrefixRuntime,
    tau: u32,
    ranks: Seq<u8>,
    v: ShadowView,
) -> Result<OnlineL2Output, OnlineError> {
    match rest_of_pack(m, rt, tau, v, ranks) {
        Err(e) => Err(OnlineError::L2(e)),
        Ok((score, reject, left)) => Ok(
            OnlineL2Output {
                score,
                reject,
                used_fallback: true,
                trees_used: ((v.trees_used as usize) as i32).wrapping_add(left),
            },
        ),
    }
}

/// What a row comes to by the first form of the kernel.
pub open spec fn zen4_row(
    m: spec_fn(SingleOp) -> u32,
    rt: &LoadedPrefixRuntime,
    row: Seq<u32>,
    tau: u32,
    fold: i32,
    s: ScratchView,
) -> Result<OnlineL2Output, OnlineError> {
    let ranks = resized(s.ranks, rt.pack@.n_features as nat);
    if !compiled_route(*rt) {
        Err(OnlineError::RouteUnavailable)
    } else {
        match online_row(m, rt, row, tau, fold, ranks, refitted(s.hot, hot_len(*rt))) {
            Err(e) => Err(OnlineError::L2(e)),
            Ok(v) => if !v.fallback_used {
                Ok(at_checkpoint(v))
            } else {
                pack_tail(m, rt, tau, online_ranks(*rt, row, ranks), v)
            },
        }
    }
}

/// Adds the trees left of a pack to a row that no stage decided.
fn run_pack_tail<A: Fn(SingleOp) -> u32>(
    arith: &A,
    rt: &LoadedPrefixRuntime,
    tau: u32,
    ranks: &[u8],
    shadow: &PrefixRowShadow,
) -> (r: Result<OnlineL2Output, OnlineError>)
    requires
        answers(*arith),
        runtime_sound(*rt),
        rt.plan.order@.len() <= 0x8000_0000,
        rt.pack@.n_features <= ranks@.len(),
        ranks_fit(rt.pack@, ranks@),
    ensures
        forall|m: spec_fn(SingleOp) -> u32| #[trigger]
            follows(*arith, m) ==> r == pack_tail(m, rt, tau, ranks@, shadow@),
{
    match run_rest_of_pack(arith, rt, tau, shadow, ranks) {
        Err(e) => Err(OnlineError::L2(e)),
        Ok((score, reject, left)) => Ok(
            OnlineL2Output {
                score,
                reject,
                used_fallback: true,
                trees_used: (shadow.trees_used as i32).wrapping_add(left),
            },
        ),
    }
}

/// Whether the kernel can run a row with ranks: the late stretches, and what is left of the pack
/// with the ranks that those leave behind.
pub open spec fn zen4_ready(rt: LoadedPrefixRuntime, row: Seq<u32>, ranks: Seq<u8>) -> bool {
    compiled_route(rt) ==> late_ready(rt, row, ranks) && ranks_fit(
        rt.pack@,
        online_ranks(rt, row, ranks),
    )
}

/// Where a model has no segments, the kernel can run any row with ranks that fit the pack.
pub proof fn law_fitting_ranks_suit_the_kernel(
    rt: LoadedPrefixRuntime,
    row: Seq<u32>,
    ranks: Seq<u8>,
    buf: nat,
)
    requires
        online_ready(rt, row.len(), ranks.len(), buf),
        !has_segments(rt),
        ranks_fit(rt.pack@, ranks),
    ensures
        zen4_ready(rt, row, ranks),
{
    if compiled_route(rt) {
        let l = rt.hot_checkpoint_layout->Some_0@;
        let start = fewer(rt.compiled_hot_pack->Some_0@.n_trees, rt.pack@.n_trees);
        lemma_fit_is_late_readable(rt.pack@, row, ranks, l, start);
        lemma_late_ranks_fit(rt.pack@, row, ranks, l, l.late_values.len() as int);
    }
}

/// Whether no rank is above `top`.
pub open spec fn low(ranks: Seq<u8>, top: int) -> bool {
    forall|f: int| 0 <= f < ranks.len() ==> #[trigger] ranks[f] <= top
}

/// Whether no feature of segments has more than `top` cuts.
pub open spec fn segments_low(segs: Seq<LoadedLateSegment>, top: int) -> bool {
    forall|i: int, f: int|
        0 <= i < segs.len() && 0 <= f < segs[i].local_to_global_fid@.len() ==> #[trigger] cut_count(
            segs[i].pack@,
            f,
        ) <= top
}

proof fn lemma_segment_ranks_low(
    segs: Seq<LoadedLateSegment>,
    feat: Seq<u32>,
    ranks: Seq<u8>,
    top: int,
    k: int,
)
    requires
        forall|i: int|
            0 <= i < segs.len() ==> segment_fits(#[trigger] segs[i], feat.len(), ranks.len()),
        segments_low(segs, top),
        low(ranks, top),
        0 <= k <= segs.len(),
    ensures
        low(segment_ranks(segs, feat, ranks, k), top),
        segment_ranks(segs, feat, ranks, k).len() == ranks.len(),
    decreases k,
{
    if k > 0 {
        lemma_segment_ranks_low(segs, feat, ranks, top, k - 1);
        let s = segs[k - 1];
        let p = s.pack@;
        let before = segment_ranks(segs, feat, ranks, k - 1);
        let now = segment_ranks(segs, feat, ranks, k);
        assert(segment_fits(s, feat.len(), ranks.len()));
        assert forall|f: int| 0 <= f < now.len() implies #[trigger] now[f] <= top by {
            if f < s.local_to_global_fid@.len() {
                assert(cuts_readable(p, f));
                assert(cut_count(segs[k - 1].pack@, f) <= top);
                lemma_rank_top(feature_cuts(p, f), feat[s.local_to_global_fid@[f] as int]);
            } else {
                assert(before[f] <= top);
            }
        }
    }
}

/// Where a model has segments, the kernel can run any row with low ranks, as long as its segments
/// rank no higher and every block of its pack takes ranks that are as low.
pub proof fn law_low_ranks_suit_the_kernel(
    rt: LoadedPrefixRuntime,
    row: Seq<u32>,
    ranks: Seq<u8>,
    top: int,
    buf: nat,
)
    requires
        online_ready(rt, row.len(), ranks.len(), buf),
        has_segments(rt),
        segments_low(rt.late_segments->Some_0@, top),
        forall|f: int| 0 <= f < rt.pack@.n_features ==> #[trigger] feature_takes(rt.pack@, f, top),
        low(ranks, top),
    ensures
        zen4_ready(rt, row, ranks),
        compiled_route(rt) ==> low(online_ranks(rt, row, ranks), top),
{
    if compiled_route(rt) {
        let p = rt.pack@;
        let segs = rt.late_segments->Some_0@;
        let after = online_ranks(rt, row, ranks);
        lemma_segment_ranks_low(segs, row, ranks, top, segs.len() as int);
        assert forall|t: int| 0 <= t < p.n_trees implies #[trigger] tree_readable(
            p,
            t,
            after,
            none_missing(),
        ) by {
            assert(tree_sound(p, t));
            let h = p.tree_hdrs[t];
            assert forall|b: int| h.block_off <= b < h.block_off + h.block_cnt implies
                #[trigger] block_readable(p, b, after, none_missing()) by {
                assert(block_sound(p, b));
                let f = p.block_hdrs[b].fid as int;
                assert(feature_takes(p, f, top));
                assert(tree_takes(p, t, f, top));
                assert(takes(p, b, after[f] as int));
            }
        }
    }
}

impl ExperimentalL2KernelZen4 {
    /// Runs a row without missing values.
    pub fn predict_nomiss<A: Fn(SingleOp) -> u32>(
        &self,
        arith: &A,
        runtime: &LoadedPrefixRuntime,
        row: &[u32],
        row_tau: u32,
        row_fold: i32,
        hot_buf: &mut HotFeatureBuf,
        ranks: &mut [u8],
    ) -> (r: Result<OnlineL2Output, OnlineError>)
        requires
            answers(*arith),
            online_ready(
                *runtime,
                row@.len(),
                old(ranks)@.len(),
                old(hot_buf).values@.len(),
            ),
            runtime.plan.order@.len() <= 0x8000_0000,
            zen4_ready(*runtime, row@, old(ranks)@),
        ensures
            final(ranks)@.len() == old(ranks)@.len(),
            !has_segments(*runtime) && ranks_fit(runtime.pack@, old(ranks)@) ==> ranks_fit(
                runtime.pack@,
                final(ranks)@,
            ),
            !compiled_route(*runtime) ==> r == Err::<OnlineL2Output, OnlineError>(
                OnlineError::RouteUnavailable,
            ),
            compiled_route(*runtime) ==> forall|m: spec_fn(SingleOp) -> u32| #[trigger]
                follows(*arith, m) ==> r == match online_row(
                    m,
                    runtime,
                    row@,
                    row_tau,
                    row_fold,
                    old(ranks)@,
                    old(hot_buf).values@,
                ) {
                    Err(e) => Err(OnlineError::L2(e)),
                    Ok(v) => if !v.fallback_used {
                        Ok(at_checkpoint(v))
                    } else {
                        pack_tail(m, runtime, row_tau, online_ranks(*runtime, row@, old(ranks)@), v)
                    },
                },
    {
        match run_prefix_shadow_row_single_route_compiled_nomiss_online(
            arith,
            runtime,
            row,
            row_tau,
            row_fold,
            hot_buf,
            ranks,
        ) {
            Err(e) => Err(OnlineError::L2(e)),
            Ok(None) => Err(OnlineError::RouteUnavailable),
            Ok(Some(shadow)) => {
                if !shadow.fallback_used {
                    return Ok(
                        OnlineL2Output {
                            score: shadow.shadow_route_score,
                            reject: shadow.shadow_reject,
                            used_fallback: false,
                            trees_used: shadow.trees_used as i32,
                        },
                    );
                }
                run_pack_tail(arith, runtime, row_tau, ranks, &shadow)
            },
        }
    }
}

/// What a row without missing values comes to by the experimental kernels: by the package of the
/// later one, of the earlier one, or by the first form.
pub open spec fn experimental_row(
    m: spec_fn(SingleOp) -> u32,
    l2: &OnlineL2Runtime,
    row: Seq<u32>,
    tau: u32,
    fold: i32,
    s: ScratchView,
) -> Result<OnlineL2Output, OnlineError> {
    let blank = Seq::new(s.exp_ranks.len(), |i: int| 0u8);
    match l2.kernel_zen4_v1 {
        Some(e) => by_package(exp_row(m, &e, &l2.runtime, row, tau, fold, s.exp_hot, blank)),
        None => match l2.exp_v1 {
            Some(e) => by_package(exp_row(m, &e, &l2.runtime, row, tau, fold, s.exp_hot, blank)),
            None => if l2.experimental_zen4 is None {
                Err(OnlineError::KernelUnavailable)
            } else if l2.runtime.compiled_hot_pack is None {
                Err(OnlineError::HotPathUnavailable)
            } else {
                zen4_row(m, &l2.runtime, row, tau, fold, s)
            },
        },
    }
}

/// Whether the experimental kernels can run a row.
pub open spec fn experimental_fits(l2: OnlineL2Runtime, row: Seq<u32>, s: ScratchView) -> bool {
    l2.kernel_zen4_v1 is None && l2.exp_v1 is None && l2.experimental_zen4 is Some ==> zen4_ready(
        l2.runtime,
        row,
        resized(s.ranks, l2.runtime.pack@.n_features as nat),
    )
}

/// The outcome of a package as that of the second stage.
pub open spec fn by_package(r: Result<OnlineL2Output, ScoreError>) -> Result<
    OnlineL2Output,
    OnlineError,
> {
    match r {
        Ok(x) => Ok(x),
        Err(e) => Err(OnlineError::L2(e)),
    }
}

/// Runs a row over a package.
fn run_package<A: Fn(SingleOp) -> u32>(
    arith: &A,
    exp: &L2ExpV1Runtime,
    rt: &LoadedPrefixRuntime,
    row: &[u32],
    tau: u32,
    fold: i32,
    scratch: &mut OnlineScratch,
) -> (r: Result<OnlineL2Output, OnlineError>)
    requires
        answers(*arith),
        exp_ready(*exp, *rt, row@.len()),
        old(scratch).well_formed(),
    ensures
        final(scratch).well_formed(),
        final(scratch)@.ranks == old(scratch)@.ranks,
        forall|m: spec_fn(SingleOp) -> u32| #[trigger]
            follows(*arith, m) ==> r == by_package(
                exp_row(
                    m,
                    exp,
                    rt,
                    row@,
                    tau,
                    fold,
                    old(scratch)@.exp_hot,
                    Seq::new(old(scratch)@.exp_ranks.len(), |i: int| 0u8),
                ),
            ),
{
    let k: usize = scratch.l2_exp_local_ranks.len();
    let ghost blank = Seq::new(k as nat, |i: int| 0u8);
    scratch.l2_exp_local_ranks = vec![0u8; k];
    assert(scratch.l2_exp_local_ranks@ =~= blank);
    match predict_nomiss(
        arith,
        exp,
        rt,
        row,
        tau,
        fold,
        &mut scratch.l2_exp_hot_buf,
        &mut scratch.l2_exp_local_ranks,
    ) {
        Ok(x) => Ok(x),
        Err(e) => Err(OnlineError::L2(e)),
    }
}

impl MinpackRuntime {
    /// Puts both stages together. The first trees of the first stage are compiled, and what the
    /// second stage does not need online is let go.
    pub fn load(
        l1_model: SoaModel,
        l1_plan: TreeOrder,
        l1_policy: ApproxPolicy,
        l1_threshold: u32,
        l1_base_score: u32,
        l1_dim: usize,
        l2_model: SoaModel,
        l2_runtime: LoadedPrefixRuntime,
        l2_exp_v1: Option<L2ExpV1Runtime>,
        l2_kernel_zen4_v1: Option<L2ExpV1Runtime>,
        l2_dim: usize,
        bundle_dir: String,
    ) -> (r: Result<Self, CompactError>)
        requires
            model_fits(l1_model),
            l1_plan.n_trees <= l1_plan.order@.len(),
            forall|p: int|
                0 <= p < l1_plan.order@.len() ==> (#[trigger] l1_plan.order@[p])
                    < l1_model.tree_roots@.len(),
        ensures
            match compact_fault(
                l1_model,
                l1_plan.order@,
                own_form_trees(l1_model, l1_plan, l1_policy) as int,
            ) {
                Some(e) => r == Err::<Self, CompactError>(e),
                None => r is Ok,
            },
            r matches Ok(x) ==> {
                &&& x.l1.model == l1_model
                &&& x.l1.plan == l1_plan
                &&& x.l1.approx_policy == l1_policy
                &&& x.l1.threshold == l1_threshold
                &&& x.l1.base_score == l1_base_score
                &&& match x.l1.hot_compact_pack {
                    Some(p) => p.n_trees == own_form_trees(l1_model, l1_plan, l1_policy)
                        && mirrors_model(p, l1_model, l1_plan.order@),
                    None => own_form_trees(l1_model, l1_plan, l1_policy) == 0,
                }
                &&& x.l2.model == l2_model
                &&& x.l2.runtime == trimmed_runtime(l2_runtime)
                &&& x.l2.exp_v1 == l2_exp_v1
                &&& x.l2.kernel_zen4_v1 == l2_kernel_zen4_v1
                &&& (x.l2.experimental_zen4 is Some <==> zen4_fits(l2_runtime))
                &&& x.l1_dim == l1_dim
                &&& x.l2_dim == l2_dim
                &&& x.bundle_dir == bundle_dir
            },
    {
        let hot_compact_pack: Option<HotApproxL1CompactPack> =
            match compile_hot_approx_l1_compact_pack(&l1_model, &l1_plan, &l1_policy) {
            Err(e) => {
                return Err(e);
            },
            Ok(p) => p,
        };
        let mut runtime: LoadedPrefixRuntime = l2_runtime;
        runtime.trim_for_online();
        let experimental_zen4: Option<ExperimentalL2KernelZen4> = ExperimentalL2KernelZen4::new(
            &runtime,
        );
        Ok(
            MinpackRuntime {
                l1: OnlineL1Runtime {
                    model: l1_model,
                    plan: l1_plan,
                    approx_policy: l1_policy,
                    hot_compact_pack,
                    threshold: l1_threshold,
                    base_score: l1_base_score,
                },
                l2: OnlineL2Runtime {
                    model: l2_model,
                    runtime,
                    experimental_zen4,
                    exp_v1: l2_exp_v1,
                    kernel_zen4_v1: l2_kernel_zen4_v1,
                },
                l1_dim,
                l2_dim,
                bundle_dir,
            },
        )
    }

    /// The name of this scorer.
    pub fn backend_name(&self) -> (r: &'static str)
        ensures
            r@ == "rust_quickscorer_zen4"@,
    {
        "rust_quickscorer_zen4"
    }

    /// Where the files were loaded from.
    pub fn bundle_dir(&self) -> (r: &str)
        ensures
            r@ == self.bundle_dir@,
    {
        self.bundle_dir.as_str()
    }

    /// How many values a row of the first stage has.
    pub fn l1_dim(&self) -> (r: usize)
        ensures
            r == self.l1_dim,
    {
        self.l1_dim
    }

    /// How many values a row of the second stage has.
    pub fn l2_dim(&self) -> (r: usize)
        ensures
            r == self.l2_dim,
    {
        self.l2_dim
    }

    /// The threshold of the first stage.
    pub fn l1_threshold(&self) -> (r: u32)
        ensures
            r == self.l1.threshold,
    {
        self.l1.threshold
    }

    /// Runs a row given as bytes through the first stage.
    pub fn predict_l1_bytes<A: Fn(SingleOp) -> u32>(
        &self,
        arith: &A,
        bytes: &[u8],
        scratch: &mut OnlineScratch,
    ) -> (r: Result<OnlineL1Output, OnlineError>)
        requires
            answers(*arith),
            l1_ready(self.l1),
        ensures
            final(scratch)@ == old(scratch)@,
            old(scratch).well_formed() ==> final(scratch).well_formed(),
            match dense_values(bytes@, self.l1_dim as int) {
                Err(e) => r == Err::<OnlineL1Output, OnlineError>(e),
                Ok(v) => final(scratch).l1_feat@ == v && forall|m: spec_fn(SingleOp) -> u32|
                    #[trigger]
                    follows(*arith, m) ==> r == l1_row(m, &self.l1, v, whole(v)),
            },
    {
        match decode_dense_f32le_into(bytes, self.l1_dim, &mut scratch.l1_feat) {
            Err(e) => Err(e),
            Ok(()) => self.predict_l1_feat(arith, scratch.l1_feat.as_slice()),
        }
    }

    /// Runs a row given as bytes through the first stage, no value counting as missing.
    pub fn predict_l1_bytes_nomiss<A: Fn(SingleOp) -> u32>(
        &self,
        arith: &A,
        bytes: &[u8],
        scratch: &mut OnlineScratch,
    ) -> (r: Result<OnlineL1Output, OnlineError>)
        requires
            answers(*arith),
            l1_ready(self.l1),
        ensures
            final(scratch)@ == old(scratch)@,
            old(scratch).well_formed() ==> final(scratch).well_formed(),
            match dense_values(bytes@, self.l1_dim as int) {
                Err(e) => r == Err::<OnlineL1Output, OnlineError>(e),
                Ok(v) => final(scratch).l1_feat@ == v && forall|m: spec_fn(SingleOp) -> u32|
                    #[trigger]
                    follows(*arith, m) ==> r == l1_row(m, &self.l1, v, true),
            },
    {
        match decode_dense_f32le_into(bytes, self.l1_dim, &mut scratch.l1_feat) {
            Err(e) => Err(e),
            Ok(()) => self.predict_l1_feat_nomiss(arith, scratch.l1_feat.as_slice()),
        }
    }

    /// Runs a row through the first stage.
    pub fn predict_l1_feat<A: Fn(SingleOp) -> u32>(&self, arith: &A, feat: &[u32]) -> (r: Result<
        OnlineL1Output,
        OnlineError,
    >)
        requires
            answers(*arith),
            l1_ready(self.l1),
        ensures
            if feat@.len() != self.l1_dim {
                r == Err::<OnlineL1Output, OnlineError>(
                    OnlineError::L1Len { got: feat@.len() as usize, expected: self.l1_dim },
                )
            } else {
                forall|m: spec_fn(SingleOp) -> u32| #[trigger]
                    follows(*arith, m) ==> r == l1_row(m, &self.l1, feat@, whole(feat@))
            },
    {
        if feat.len() != self.l1_dim {
            return Err(OnlineError::L1Len { got: feat.len(), expected: self.l1_dim });
        }
        let nan_free: bool = is_nan_free(feat);
        run_l1(arith, &self.l1, feat, nan_free)
    }

    /// Runs a row through the first stage, no value counting as missing.
    pub fn predict_l1_feat_nomiss<A: Fn(SingleOp) -> u32>(&self, arith: &A, feat: &[u32]) -> (r:
        Result<OnlineL1Output, OnlineError>)
        requires
            answers(*arith),
            l1_ready(self.l1),
        ensures
            if feat@.len() != self.l1_dim {
                r == Err::<OnlineL1Output, OnlineError>(
                    OnlineError::L1Len { got: feat@.len() as usize, expected: self.l1_dim },
                )
            } else {
                forall|m: spec_fn(SingleOp) -> u32| #[trigger]
                    follows(*arith, m) ==> r == l1_row(m, &self.l1, feat@, true)
            },
    {
        if feat.len() != self.l1_dim {
            return Err(OnlineError::L1Len { got: feat.len(), expected: self.l1_dim });
        }
        run_l1(arith, &self.l1, feat, true)
    }

    /// Runs a row through the second stage.
    pub fn predict_l2_row<A: Fn(SingleOp) -> u32>(
        &self,
        arith: &A,
        row: &[u32],
        row_tau: u32,
        row_fold: i32,
        scratch: &mut OnlineScratch,
    ) -> (r: Result<OnlineL2Output, OnlineError>)
        requires
            answers(*arith),
            l2_ready(self.l2, self.l2_dim as nat),
            row@.len() == self.l2_dim ==> marks_sound(self.l2.runtime.pack@, row@),
            old(scratch).well_formed(),
            scratch_fits(self.l2.runtime, old(scratch)@),
        ensures
            final(scratch).well_formed(),
            scratch_fits(self.l2.runtime, final(scratch)@),
            if row@.len() != self.l2_dim {
                r == Err::<OnlineL2Output, OnlineError>(
                    OnlineError::L2Len { got: row@.len() as usize, expected: self.l2_dim },
                )
            } else {
                forall|m: spec_fn(SingleOp) -> u32| #[trigger]
                    follows(*arith, m) ==> r == l2_row(
                        m,
                        &self.l2,
                        row@,
                        row_tau,
                        row_fold,
                        whole(row@),
                        old(scratch)@,
                    )
            },
    {
        if row.len() != self.l2_dim {
            return Err(OnlineError::L2Len { got: row.len(), expected: self.l2_dim });
        }
        let nan_free: bool = is_nan_free(row);
        run_l2(arith, &self.l2, row, row_tau, row_fold, nan_free, scratch)
    }

    /// Runs a row through the second stage, no value counting as missing.
    pub fn predict_l2_row_nomiss<A: Fn(SingleOp) -> u32>(
        &self,
        arith: &A,
        row: &[u32],
        row_tau: u32,
        row_fold: i32,
        scratch: &mut OnlineScratch,
    ) -> (r: Result<OnlineL2Output, OnlineError>)
        requires
            answers(*arith),
            l2_ready(self.l2, self.l2_dim as nat),
            row@.len() == self.l2_dim ==> row_fits(self.l2.runtime, row@, true),
            old(scratch).well_formed(),
            scratch_fits(self.l2.runtime, old(scratch)@),
        ensures
            final(scratch).well_formed(),
            scratch_fits(self.l2.runtime, final(scratch)@),
            if row@.len() != self.l2_dim {
                r == Err::<OnlineL2Output, OnlineError>(
                    OnlineError::L2Len { got: row@.len() as usize, expected: self.l2_dim },
                )
            } else {
                forall|m: spec_fn(SingleOp) -> u32| #[trigger]
                    follows(*arith, m) ==> r == l2_row(
                        m,
                        &self.l2,
                        row@,
                        row_tau,
                        row_fold,
                        true,
                        old(scratch)@,
                    )
            },
    {
        if row.len() != self.l2_dim {
            return Err(OnlineError::L2Len { got: row.len(), expected: self.l2_dim });
        }
        run_l2(arith, &self.l2, row, row_tau, row_fold, true, scratch)
    }

    /// Runs a row through the second stage by the experimental kernels.
    pub fn predict_l2_row_nomiss_experimental_zen4<A: Fn(SingleOp) -> u32>(
        &self,
        arith: &A,
        row: &[u32],
        row_tau: u32,
        row_fold: i32,
        scratch: &mut OnlineScratch,
    ) -> (r: Result<OnlineL2Output, OnlineError>)
        requires
            answers(*arith),
            l2_ready(self.l2, self.l2_dim as nat),
            row@.len() == self.l2_dim ==> experimental_fits(self.l2, row@, old(scratch)@),
            old(scratch).well_formed(),
            scratch_fits(self.l2.runtime, old(scratch)@),
        ensures
            final(scratch).well_formed(),
            scratch_fits(self.l2.runtime, final(scratch)@),
            if row@.len() != self.l2_dim {
                r == Err::<OnlineL2Output, OnlineError>(
                    OnlineError::L2Len { got: row@.len() as usize, expected: self.l2_dim },
                )
            } else {
                forall|m: spec_fn(SingleOp) -> u32| #[trigger]
                    follows(*arith, m) ==> r == experimental_row(
                        m,
                        &self.l2,
                        row@,
                        row_tau,
                        row_fold,
                        old(scratch)@,
                    )
            },
    {
        if row.len() != self.l2_dim {
            return Err(OnlineError::L2Len { got: row.len(), expected: self.l2_dim });
        }
        let l2: &OnlineL2Runtime = &self.l2;
        if let Some(exp) = &l2.kernel_zen4_v1 {
            return run_package(arith, exp, &l2.runtime, row, row_tau, row_fold, scratch);
        }
        if let Some(exp) = &l2.exp_v1 {
            return run_package(arith, exp, &l2.runtime, row, row_tau, row_fold, scratch);
        }
        let kernel: ExperimentalL2KernelZen4 = match l2.experimental_zen4 {
            None => {
                return Err(OnlineError::KernelUnavailable);
            },
            Some(k) => k,
        };
        let need: usize = match &l2.runtime.compiled_hot_pack {
            None => {
                return Err(OnlineError::HotPathUnavailable);
            },
            Some(h) => h.n_hot_features,
        };
        refit(&mut scratch.l2_hot_buf, need);
        resize_ranks(&mut scratch.l2_ranks, l2.runtime.pack.n_features);
        let r: Result<OnlineL2Output, OnlineError> = kernel.predict_nomiss(
            arith,
            &l2.runtime,
            row,
            row_tau,
            row_fold,
            &mut scratch.l2_hot_buf,
            scratch.l2_ranks.as_mut_slice(),
        );
        proof {
            lemma_resized_same(scratch.l2_ranks@, l2.runtime.pack@.n_features as nat);
        }
        r
    }
}

/// A model without what it does not need online.
pub open spec fn trimmed_runtime(rt: LoadedPrefixRuntime) -> LoadedPrefixRuntime {
    if rt.compiled_hot_pack is Some {
        LoadedPrefixRuntime { hot_pack: None, ..rt }
    } else {
        rt
    }
}

impl LoadedPrefixRuntime {
    /// Lets go of what is not needed online.
    pub fn trim_for_online(&mut self)
        ensures
            *final(self) == trimmed_runtime(*old(self)),
    {
        if self.compiled_hot_pack.is_some() {
            self.hot_pack = None;
        }
    }
}

/// Two stages for rows of missing values or none agree on rows that lack nothing: the row is run
/// the same way whether or not it is known beforehand.
pub proof fn law_whole_rows_need_no_hint(
    m: spec_fn(SingleOp) -> u32,
    x: MinpackRuntime,
    row: Seq<u32>,
    tau: u32,
    fold: i32,
    s: ScratchView,
)
    requires
        whole(row),
    ensures
        l1_row(m, &x.l1, row, whole(row)) == l1_row(m, &x.l1, row, true),
        l2_row(m, &x.l2, row, tau, fold, whole(row), s) == l2_row(
            m,
            &x.l2,
            row,
            tau,
            fold,
            true,
            s,
        ),
{
}

} // verus!
