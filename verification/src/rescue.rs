//! Rows that an anchor model leaves undecided, and the two models that may take them over.

use crate::arith::{add_values, answers, follows, total, SingleOp};
use crate::bands::{bin_of, less_to_zero, lesser, mlp_tau_bin, prefix_gap_bin, tau_bin_of};
use crate::buffers::law_earlier_rows_leave_no_trace;
use crate::hot::LazyHotFeatureCache;
use crate::kinds::{parse_rescue_action, rescue_code, rescue_named, rescue_route_code, RescueAction};
use crate::pack_check::{lemma_ranked_is_readable, lemma_ranked_nomiss_is_readable};
use crate::prefix_runtime::{
    buffers_fit, fallback_checkpoint, last_checkpoint, run_prefix_shadow_row,
    run_prefix_shadow_row_from, runtime_sound, shadow_row, shown, LoadedPrefixRuntime,
    PrefixRowShadow, ShadowView,
};
use crate::qs_score::{
    indices, none_missing, score_tree_indices_from_quantized,
    score_tree_indices_from_quantized_nomiss, walk, ScoreError,
};
use crate::quantize::{marked, quantize_into, quantize_into_nomiss, ranked, ranked_nomiss};
use crate::single::{at_most, le};
use crate::text::same_text;
use vstd::prelude::*;

verus! {

/// What is done with a row in one state.
#[derive(Clone, Copy, Debug, PartialEq, Eq, Structural)]
pub struct RescueEntry {
    pub anchor_checkpoint: usize,
    pub tau_bin: usize,
    pub fold_id: i32,
    pub shadow_side: i8,
    pub gap_bin: usize,
    pub action: RescueAction,
}

/// What is done with a row on one side.
#[derive(Clone, Copy, Debug, PartialEq, Eq, Structural)]
pub struct RescueDefault {
    pub anchor_checkpoint: usize,
    pub tau_bin: usize,
    pub shadow_side: i8,
    pub action: RescueAction,
}

/// Which rows are taken over. Of several entries for the same state the last counts.
#[derive(Debug)]
pub struct LoadedRescueRouter {
    pub tau_edges: Vec<u32>,
    pub gap_edges: Vec<u32>,
    pub actions: Vec<RescueEntry>,
    pub defaults: Vec<RescueDefault>,
}

/// A bin, cut off at the last of its edges.
pub open spec fn capped_bin(bin: int, edges: nat) -> int {
    lesser(bin, less_to_zero(edges as int, 2))
}

/// The last of the first `n` entries for a state.
pub open spec fn entry_for(
    s: Seq<RescueEntry>,
    cp: usize,
    tau_bin: int,
    fold: i32,
    side: i8,
    gap_bin: int,
    n: int,
) -> Option<RescueAction>
    decreases n,
{
    if n <= 0 {
        None
    } else {
        let e = s[n - 1];
        if e.anchor_checkpoint == cp && e.tau_bin == tau_bin && e.fold_id == fold && e.shadow_side
            == side && e.gap_bin == gap_bin {
            Some(e.action)
        } else {
            entry_for(s, cp, tau_bin, fold, side, gap_bin, n - 1)
        }
    }
}

/// The last of the first `n` entries for a side.
pub open spec fn default_for(
    s: Seq<RescueDefault>,
    cp: usize,
    tau_bin: int,
    side: i8,
    n: int,
) -> Option<RescueAction>
    decreases n,
{
    if n <= 0 {
        None
    } else {
        let e = s[n - 1];
        if e.anchor_checkpoint == cp && e.tau_bin == tau_bin && e.shadow_side == side {
            Some(e.action)
        } else {
            default_for(s, cp, tau_bin, side, n - 1)
        }
    }
}

/// Which side of the threshold a score is on.
pub open spec fn side_of(score: u32, tau: u32) -> i8 {
    if at_most(tau, score) {
        1
    } else {
        -1i8
    }
}

/// What is done with a row that was left undecided at checkpoint `cp`.
pub open spec fn rescue_choice(
    m: spec_fn(SingleOp) -> u32,
    r: LoadedRescueRouter,
    cp: usize,
    tau: u32,
    fold: i32,
    score: u32,
) -> RescueAction {
    let tau_bin = capped_bin(tau_bin_of(r.tau_edges@, tau), r.tau_edges@.len());
    let gap = m(SingleOp::Difference(tau, score));
    let gap_bin = capped_bin(bin_of(r.gap_edges@, gap), r.gap_edges@.len());
    let side = side_of(score, tau);
    match entry_for(r.actions@, cp, tau_bin, fold, side, gap_bin, r.actions@.len() as int) {
        Some(a) => a,
        None => match default_for(r.defaults@, cp, tau_bin, side, r.defaults@.len() as int) {
            Some(a) => a,
            None => RescueAction::Fallback,
        },
    }
}

/// Cuts a bin off at the last of its edges.
pub(crate) fn cap_bin(bin: usize, edges: usize) -> (r: usize)
    ensures
        r == capped_bin(bin as int, edges as nat),
{
    let top: usize = if edges >= 2 {
        edges - 2
    } else {
        0
    };
    if bin <= top {
        bin
    } else {
        top
    }
}

/// Looks up what is done with a row.
pub fn lookup_rescue_action<A: Fn(SingleOp) -> u32>(
    arith: &A,
    router: &LoadedRescueRouter,
    anchor_checkpoint: usize,
    row_tau: u32,
    row_fold: i32,
    prefix_score: u32,
) -> (r: RescueAction)
    requires
        answers(*arith),
    ensures
        forall|m: spec_fn(SingleOp) -> u32| #[trigger]
            follows(*arith, m) ==> r == rescue_choice(
                m,
                *router,
                anchor_checkpoint,
                row_tau,
                row_fold,
                prefix_score,
            ),
{
    let tau_bin: usize = cap_bin(
        mlp_tau_bin(router.tau_edges.as_slice(), row_tau),
        router.tau_edges.len(),
    );
    let gap: u32 = arith(SingleOp::Difference(row_tau, prefix_score));
    let gap_bin: usize = cap_bin(
        prefix_gap_bin(router.gap_edges.as_slice(), gap),
        router.gap_edges.len(),
    );
    let side: i8 = if le(row_tau, prefix_score) {
        1
    } else {
        -1
    };
    let ghost acts = router.actions@;
    let ghost defs = router.defaults@;
    let mut n: usize = router.actions.len();
    while n > 0
        invariant
            n <= acts.len(),
            acts == router.actions@,
            entry_for(
                acts,
                anchor_checkpoint,
                tau_bin as int,
                row_fold,
                side,
                gap_bin as int,
                acts.len() as int,
            ) == entry_for(
                acts,
                anchor_checkpoint,
                tau_bin as int,
                row_fold,
                side,
                gap_bin as int,
                n as int,
            ),
            side == side_of(prefix_score, row_tau),
            tau_bin == capped_bin(
                tau_bin_of(router.tau_edges@, row_tau),
                router.tau_edges@.len(),
            ),
            gap_bin == capped_bin(bin_of(router.gap_edges@, gap), router.gap_edges@.len()),
            forall|m: spec_fn(SingleOp) -> u32| #[trigger]
                follows(*arith, m) ==> gap == m(SingleOp::Difference(row_tau, prefix_score)),
        decreases n,
    {
        let e: RescueEntry = router.actions[n - 1];
        if e.anchor_checkpoint == anchor_checkpoint && e.tau_bin == tau_bin && e.fold_id
            == row_fold && e.shadow_side == side && e.gap_bin == gap_bin {
            return e.action;
        }
        n -= 1;
    }
    let mut k: usize = router.defaults.len();
    while k > 0
        invariant
            k <= defs.len(),
            defs == router.defaults@,
            entry_for(
                router.actions@,
                anchor_checkpoint,
                tau_bin as int,
                row_fold,
                side,
                gap_bin as int,
                router.actions@.len() as int,
            ) is None,
            default_for(
                defs,
                anchor_checkpoint,
                tau_bin as int,
                side,
                defs.len() as int,
            ) == default_for(defs, anchor_checkpoint, tau_bin as int, side, k as int),
            side == side_of(prefix_score, row_tau),
            tau_bin == capped_bin(
                tau_bin_of(router.tau_edges@, row_tau),
                router.tau_edges@.len(),
            ),
            gap_bin == capped_bin(bin_of(router.gap_edges@, gap), router.gap_edges@.len()),
            forall|m: spec_fn(SingleOp) -> u32| #[trigger]
                follows(*arith, m) ==> gap == m(SingleOp::Difference(row_tau, prefix_score)),
        decreases k,
    {
        let e: RescueDefault = router.defaults[k - 1];
        if e.anchor_checkpoint == anchor_checkpoint && e.tau_bin == tau_bin && e.shadow_side
            == side {
            return e.action;
        }
        k -= 1;
    }
    RescueAction::Fallback
}

/// An anchor model with the two models that take rows over from it.
#[derive(Debug)]
pub struct LoadedAnchorRescueRuntime {
    pub anchor: LoadedPrefixRuntime,
    pub reject_rescue: LoadedPrefixRuntime,
    pub refer_rescue: LoadedPrefixRuntime,
    pub router: LoadedRescueRouter,
    pub anchor_limit: usize,
    pub rescue_limit: usize,
}

/// The model that an action stands for.
pub open spec fn rescue_model(a: LoadedAnchorRescueRuntime, action: RescueAction) -> LoadedPrefixRuntime {
    if action == RescueAction::RejectRescue {
        a.reject_rescue
    } else {
        a.refer_rescue
    }
}

/// What the anchor makes of a row, noted as such.
pub open spec fn anchored(o: ShadowView) -> ShadowView {
    ShadowView {
        anchor_trees_used: o.trees_used,
        anchor_direct_checkpoint: o.direct_checkpoint,
        ..o
    }
}

/// What a row comes to once another model has taken it over. A verdict on the side that the model
/// was not asked about does not count.
pub open spec fn taken_over(
    o: ShadowView,
    s: ShadowView,
    action: RescueAction,
    back: usize,
) -> ShadowView {
    let wrong_side = !s.fallback_used && ((action == RescueAction::RejectRescue && !s.shadow_reject)
        || (action == RescueAction::ReferRescue && s.shadow_reject));
    let summed = ShadowView {
        prefix_score: s.prefix_score,
        trees_used: (o.anchor_trees_used as usize).wrapping_add(s.trees_used as usize) as int,
        work_evals: (o.work_evals as u64).wrapping_add(s.work_evals as u64) as int,
        resolved_early_trees: (o.resolved_early_trees as u64).wrapping_add(
            s.resolved_early_trees as u64,
        ) as int,
        rescue_trees_used: s.trees_used,
        ..o
    };
    if wrong_side {
        ShadowView {
            shadow_reject: false,
            shadow_route_score: s.prefix_score,
            fallback_used: true,
            direct_checkpoint: 0,
            rescue_direct_checkpoint: 0,
            fallback_entry_checkpoint: back,
            ..summed
        }
    } else {
        ShadowView {
            shadow_reject: s.shadow_reject,
            shadow_route_score: s.shadow_route_score,
            fallback_used: s.fallback_used,
            direct_checkpoint: s.direct_checkpoint,
            rescue_direct_checkpoint: s.direct_checkpoint,
            fallback_entry_checkpoint: s.fallback_entry_checkpoint,
            ..summed
        }
    }
}

/// What a row comes to with the anchor and the models that may take it over.
pub open spec fn rescued_row(
    m: spec_fn(SingleOp) -> u32,
    a: &LoadedAnchorRescueRuntime,
    feat: Seq<u32>,
    tau: u32,
    fold: i32,
    ranks: Seq<u8>,
    miss: Seq<u8>,
    trace: bool,
) -> Result<ShadowView, ScoreError> {
    match shadow_row(
        m,
        &a.anchor,
        feat,
        tau,
        fold,
        ranks,
        miss,
        a.anchor.pack@.base_score,
        trace,
    ) {
        Err(e) => Err(e),
        Ok(first) => {
            let o = anchored(first);
            let action = rescue_choice(
                m,
                a.router,
                first.fallback_entry_checkpoint,
                tau,
                fold,
                first.prefix_score,
            );
            let noted = ShadowView { rescue_route: rescue_code(action), ..o };
            if !first.fallback_used {
                Ok(o)
            } else if action == RescueAction::Fallback {
                Ok(noted)
            } else {
                let rt = rescue_model(*a, action);
                match shadow_row(
                    m,
                    &rt,
                    feat,
                    tau,
                    fold,
                    ranks,
                    miss,
                    first.prefix_score,
                    false,
                ) {
                    Err(e) => Err(e),
                    Ok(s) => Ok(taken_over(noted, s, action, last_checkpoint(rt.calibration))),
                }
            }
        },
    }
}

/// Whether an anchor and the models that take rows over can run rows of `feat`.
pub open spec fn rescue_ready(
    a: LoadedAnchorRescueRuntime,
    feat: Seq<u32>,
    ranks: Seq<u8>,
    miss: Seq<u8>,
) -> bool {
    &&& runtime_sound(a.anchor)
    &&& runtime_sound(a.reject_rescue)
    &&& runtime_sound(a.refer_rescue)
    &&& buffers_fit(a.anchor.pack@, feat, ranks, miss)
    &&& buffers_fit(a.reject_rescue.pack@, feat, ranks, miss)
    &&& buffers_fit(a.refer_rescue.pack@, feat, ranks, miss)
}

/// Runs a row over the anchor, and over the model that takes it over.
pub fn run_anchor_rescue_shadow_row<A: Fn(SingleOp) -> u32>(
    arith: &A,
    rescue: &LoadedAnchorRescueRuntime,
    feat: &[u32],
    row_tau: u32,
    row_fold: i32,
    ranks: &mut [u8],
    missing: &mut [u8],
    hot_cache: &mut LazyHotFeatureCache,
    trace_enabled: bool,
) -> (r: Result<PrefixRowShadow, ScoreError>)
    requires
        answers(*arith),
        rescue_ready(*rescue, feat@, old(ranks)@, old(missing)@),
        old(hot_cache).well_formed(),
    ensures
        final(hot_cache).well_formed(),
        final(ranks)@.len() == old(ranks)@.len(),
        final(missing)@.len() == old(missing)@.len(),
        forall|m: spec_fn(SingleOp) -> u32| #[trigger]
            follows(*arith, m) ==> shown(r) == rescued_row(
                m,
                rescue,
                feat@,
                row_tau,
                row_fold,
                old(ranks)@,
                old(missing)@,
                trace_enabled,
            ),
{
    let ghost r0 = ranks@;
    let ghost q0 = missing@;
    let first: PrefixRowShadow = match run_prefix_shadow_row(
        arith,
        &rescue.anchor,
        feat,
        row_tau,
        row_fold,
        ranks,
        missing,
        hot_cache,
        trace_enabled,
    ) {
        Err(e) => {
            return Err(e);
        },
        Ok(x) => x,
    };
    let ghost f0 = first@;
    let mut out: PrefixRowShadow = first;
    out.anchor_trees_used = out.trees_used;
    out.anchor_direct_checkpoint = out.direct_checkpoint;
    assert(out@ =~= anchored(f0));
    if !out.fallback_used {
        return Ok(out);
    }
    let action: RescueAction = lookup_rescue_action(
        arith,
        &rescue.router,
        out.fallback_entry_checkpoint,
        row_tau,
        row_fold,
        out.prefix_score,
    );
    out.rescue_route = rescue_route_code(action);
    let ghost noted = ShadowView { rescue_route: rescue_code(action), ..anchored(f0) };
    assert(out@ =~= noted);
    let rt: &LoadedPrefixRuntime = match action {
        RescueAction::Fallback => {
            return Ok(out);
        },
        RescueAction::RejectRescue => &rescue.reject_rescue,
        RescueAction::ReferRescue => &rescue.refer_rescue,
    };
    let cache_len: usize = match &rt.hot_pack {
        Some(p) => p.n_hot_features,
        None => 0,
    };
    let mut cache: LazyHotFeatureCache = LazyHotFeatureCache::new(cache_len);
    proof {
        assert forall|m: spec_fn(SingleOp) -> u32| #[trigger] follows(*arith, m) implies shadow_row(
            m,
            rt,
            feat@,
            row_tau,
            row_fold,
            ranks@,
            missing@,
            out.prefix_score,
            false,
        ) == shadow_row(m, rt, feat@, row_tau, row_fold, r0, q0, out.prefix_score, false) by {
            law_earlier_rows_leave_no_trace(
                m,
                rt,
                feat@,
                row_tau,
                row_fold,
                ranks@,
                missing@,
                r0,
                q0,
                out.prefix_score,
                false,
            );
        }
    }
    let s: PrefixRowShadow = match run_prefix_shadow_row_from(
        arith,
        rt,
        feat,
        row_tau,
        row_fold,
        ranks,
        missing,
        &mut cache,
        out.prefix_score,
        false,
    ) {
        Err(e) => {
            return Err(e);
        },
        Ok(x) => x,
    };
    let back: usize = fallback_checkpoint(&rt.calibration);
    out.prefix_score = s.prefix_score;
    out.trees_used = out.anchor_trees_used.wrapping_add(s.trees_used);
    out.work_evals = out.work_evals.wrapping_add(s.work_evals);
    out.resolved_early_trees = out.resolved_early_trees.wrapping_add(s.resolved_early_trees);
    out.rescue_trees_used = s.trees_used;
    out.rescue_direct_checkpoint = s.direct_checkpoint;
    let wrong_side: bool = !s.fallback_used && match action {
        RescueAction::RejectRescue => !s.shadow_reject,
        RescueAction::ReferRescue => s.shadow_reject,
        RescueAction::Fallback => false,
    };
    if wrong_side {
        out.shadow_reject = false;
        out.shadow_route_score = out.prefix_score;
        out.fallback_used = true;
        out.direct_checkpoint = 0;
        out.rescue_direct_checkpoint = 0;
        out.fallback_entry_checkpoint = back;
    } else {
        out.shadow_reject = s.shadow_reject;
        out.shadow_route_score = s.shadow_route_score;
        out.fallback_used = s.fallback_used;
        out.direct_checkpoint = s.direct_checkpoint;
        out.fallback_entry_checkpoint = s.fallback_entry_checkpoint;
    }
    assert(out@ =~= taken_over(noted, s@, action, back));
    Ok(out)
}

/// A verdict that a model which took a row over reaches is always on the side it was asked about.
pub proof fn law_rescues_decide_their_own_side(
    o: ShadowView,
    s: ShadowView,
    action: RescueAction,
    back: usize,
)
    requires
        action != RescueAction::Fallback,
    ensures
        ({
            let r = taken_over(o, s, action, back);
            !r.fallback_used ==> r.shadow_reject == (action == RescueAction::RejectRescue)
        }),
{
}

/// Whether a tree stands at no later position of an order.
pub open spec fn last_position(order: Seq<u32>, pos: int) -> bool {
    forall|k: int| pos < k < order.len() ==> #[trigger] order[k] != order[pos]
}

/// Whether the tree at a position of the anchor's order has been added up already: by the anchor, or
/// by the model that took the row over.
pub open spec fn executed(
    order: Seq<u32>,
    anchor_used: int,
    taken: Seq<u32>,
    taken_used: int,
    pos: int,
) -> bool {
    pos < anchor_used || (last_position(order, pos) && exists|k: int|
        0 <= k < taken_used && k < taken.len() && #[trigger] taken[k] == order[pos])
}

/// The positions of the first `n` trees that have not been added up.
pub open spec fn positions_left(
    order: Seq<u32>,
    anchor_used: int,
    taken: Seq<u32>,
    taken_used: int,
    n: int,
) -> Seq<u32>
    decreases n,
{
    if n <= 0 {
        Seq::empty()
    } else {
        let rest = positions_left(order, anchor_used, taken, taken_used, n - 1);
        if executed(order, anchor_used, taken, taken_used, n - 1) {
            rest
        } else {
            rest.push((n - 1) as u32)
        }
    }
}

/// The order of the model that took a row over, by the code of its route; none where none did.
pub open spec fn taken_order(a: LoadedAnchorRescueRuntime, route: u8) -> Seq<u32> {
    if route == 2 {
        a.reject_rescue.plan.order@
    } else if route == 3 {
        a.refer_rescue.plan.order@
    } else {
        Seq::empty()
    }
}

/// The positions of the anchor's trees that are left for a row.
pub open spec fn left_over(a: LoadedAnchorRescueRuntime, v: ShadowView) -> Seq<u32> {
    let order = a.anchor.plan.order@;
    positions_left(
        order,
        v.anchor_trees_used,
        taken_order(a, v.rescue_route),
        v.rescue_trees_used,
        order.len() as int,
    )
}

/// What the trees that are left make of a row: score, verdict, and how many there were.
pub open spec fn rescue_tail(
    m: spec_fn(SingleOp) -> u32,
    a: &LoadedAnchorRescueRuntime,
    feat: Seq<u32>,
    tau: u32,
    v: ShadowView,
    ranks: Seq<u8>,
    miss: Seq<u8>,
) -> Result<(u32, bool, i32), ScoreError> {
    let left = left_over(*a, v);
    match walk(a.anchor.pack@, indices(left), ranks, miss) {
        Err(e) => Err(e),
        Ok(w) => {
            let score = m(SingleOp::Sum(v.prefix_score, total(m, 0, w.leaves)));
            Ok((score, at_most(tau, score), left.len() as i32))
        },
    }
}

/// The last position of a tree in an order, if it stands there.
fn find_last(order: &Vec<u32>, tree: u32) -> (r: Option<usize>)
    ensures
        match r {
            Some(p) => p < order@.len() && order@[p as int] == tree && last_position(
                order@,
                p as int,
            ),
            None => forall|k: int| 0 <= k < order@.len() ==> #[trigger] order@[k] != tree,
        },
{
    let mut n: usize = order.len();
    while n > 0
        invariant
            n <= order@.len(),
            forall|k: int| n <= k < order@.len() ==> #[trigger] order@[k] != tree,
        decreases n,
    {
        if order[n - 1] == tree {
            return Some(n - 1);
        }
        n -= 1;
    }
    None
}

/// Finds the positions of the anchor's trees that are left for a row.
fn find_left(
    order: &Vec<u32>,
    anchor_used: usize,
    taken: Option<&Vec<u32>>,
    taken_used: usize,
) -> (r: Vec<u32>)
    requires
        order@.len() <= u32::MAX,
    ensures
        r@ == positions_left(
            order@,
            anchor_used as int,
            match taken {
                Some(t) => t@,
                None => Seq::empty(),
            },
            taken_used as int,
            order@.len() as int,
        ),
        r@.len() <= order@.len(),
{
    let n: usize = order.len();
    let ghost ts = match taken {
        Some(t) => t@,
        None => Seq::empty(),
    };
    let mut done: Vec<bool> = vec![false; n];
    let stop: usize = if anchor_used <= n {
        anchor_used
    } else {
        n
    };
    let mut i: usize = 0;
    while i < stop
        invariant
            i <= stop <= n,
            done@.len() == n,
            forall|k: int| 0 <= k < n ==> #[trigger] done@[k] == (k < i),
        decreases stop - i,
    {
        done.set(i, true);
        i += 1;
    }
    if let Some(t) = taken {
        let last: usize = if taken_used <= t.len() {
            taken_used
        } else {
            t.len()
        };
        let mut j: usize = 0;
        while j < last
            invariant
                j <= last <= t@.len(),
                n == order@.len(),
                done@.len() == n,
                stop <= n,
                forall|k: int|
                    0 <= k < n ==> #[trigger] done@[k] == (k < stop || (last_position(order@, k)
                        && exists|x: int| 0 <= x < j && #[trigger] t@[x] == order@[k])),
            decreases last - j,
        {
            let ghost before = done@;
            let tree: u32 = t[j];
            let found: Option<usize> = find_last(order, tree);
            if let Some(p) = found {
                done.set(p, true);
            }
            proof {
                assert forall|k: int| 0 <= k < n implies #[trigger] done@[k] == (k < stop || (
                last_position(order@, k) && exists|x: int|
                    0 <= x < j + 1 && #[trigger] t@[x] == order@[k])) by {
                    let old_there = exists|x: int| 0 <= x < j && #[trigger] t@[x] == order@[k];
                    let new_there = exists|x: int| 0 <= x < j + 1 && #[trigger] t@[x] == order@[k];
                    if old_there {
                        let x = choose|x: int| 0 <= x < j && #[trigger] t@[x] == order@[k];
                        assert(0 <= x < j + 1 && t@[x] == order@[k]);
                    }
                    if t@[j as int] == order@[k] {
                        assert(new_there);
                    } else if new_there && !old_there {
                        let x = choose|x: int| 0 <= x < j + 1 && #[trigger] t@[x] == order@[k];
                        assert(x == j);
                    }
                    assert(before[k] == (k < stop || (last_position(order@, k) && old_there)));
                    match found {
                        Some(p) => {
                            if k == p {
                                assert(t@[j as int] == order@[k]);
                            } else if t@[j as int] == order@[k] && last_position(order@, k) {
                                if k < p {
                                    assert(order@[p as int] != order@[k]);
                                } else {
                                    assert(order@[k] != order@[p as int]);
                                }
                            }
                        },
                        None => {},
                    }
                }
            }
            j += 1;
        }
    }
    assert forall|k: int| 0 <= k < n implies #[trigger] done@[k] == executed(
        order@,
        anchor_used as int,
        ts,
        taken_used as int,
        k,
    ) by {
        let there = exists|x: int|
            0 <= x < taken_used && x < ts.len() && #[trigger] ts[x] == order@[k];
        if taken is Some {
            let t = taken->0@;
            let last = if taken_used <= t.len() {
                taken_used as int
            } else {
                t.len() as int
            };
            let here = exists|x: int| 0 <= x < last && #[trigger] t[x] == order@[k];
            if here {
                let x = choose|x: int| 0 <= x < last && #[trigger] t[x] == order@[k];
                assert(0 <= x < taken_used && x < ts.len() && ts[x] == order@[k]);
            }
            if there {
                let x = choose|x: int|
                    0 <= x < taken_used && x < ts.len() && #[trigger] ts[x] == order@[k];
                assert(0 <= x < last && t[x] == order@[k]);
            }
            assert(here == there);
        }
    }
    let mut out: Vec<u32> = Vec::new();
    let mut k: usize = 0;
    while k < n
        invariant
            k <= n,
            n == order@.len(),
            n <= u32::MAX,
            done@.len() == n,
            forall|x: int|
                0 <= x < n ==> #[trigger] done@[x] == executed(
                    order@,
                    anchor_used as int,
                    ts,
                    taken_used as int,
                    x,
                ),
            out@ == positions_left(
                order@,
                anchor_used as int,
                ts,
                taken_used as int,
                k as int,
            ),
            out@.len() <= k,
        decreases n - k,
    {
        if !done[k] {
            out.push(k as u32);
        }
        k += 1;
    }
    out
}

/// Adds up the trees that are left for a row that neither model decided.
pub fn run_rescue_continuation<A: Fn(SingleOp) -> u32>(
    arith: &A,
    rescue: &LoadedAnchorRescueRuntime,
    feat: &[u32],
    row_tau: u32,
    shadow: &PrefixRowShadow,
    ranks: &mut [u8],
    missing: &mut [u8],
) -> (r: Result<(u32, bool, i32), ScoreError>)
    requires
        answers(*arith),
        runtime_sound(rescue.anchor),
        rescue.anchor.plan.order@.len() <= 0x8000_0000,
        buffers_fit(rescue.anchor.pack@, feat@, old(ranks)@, old(missing)@),
    ensures
        final(ranks)@ == ranked(rescue.anchor.pack@, feat@, old(ranks)@),
        final(missing)@ == marked(rescue.anchor.pack@, feat@, old(missing)@),
        forall|m: spec_fn(SingleOp) -> u32| #[trigger]
            follows(*arith, m) ==> r == rescue_tail(
                m,
                rescue,
                feat@,
                row_tau,
                shadow@,
                final(ranks)@,
                final(missing)@,
            ),
{
    let rt: &LoadedPrefixRuntime = &rescue.anchor;
    let ghost p = rt.pack@;
    proof {
        lemma_ranked_is_readable(p, feat@, ranks@, missing@);
    }
    quantize_into(&rt.pack, feat, ranks, missing);
    let taken: Option<&Vec<u32>> = if shadow.rescue_route == 2 {
        Some(&rescue.reject_rescue.plan.order)
    } else if shadow.rescue_route == 3 {
        Some(&rescue.refer_rescue.plan.order)
    } else {
        None
    };
    let left: Vec<u32> = find_left(
        &rt.plan.order,
        shadow.anchor_trees_used,
        taken,
        shadow.rescue_trees_used,
    );
    assert(left@ == left_over(*rescue, shadow@));
    match score_tree_indices_from_quantized(&rt.pack, left.as_slice(), ranks, missing) {
        Err(e) => Err(e),
        Ok(w) => {
            let own: u32 = add_values(arith, 0, &w.leaves, 0);
            assert(w.leaves@.subrange(0, w.leaves@.len() as int) =~= w.leaves@);
            let score: u32 = arith(SingleOp::Sum(shadow.prefix_score, own));
            Ok((score, le(row_tau, score), left.len() as i32))
        },
    }
}

/// Adds up the trees that are left for a row without missing values.
pub fn run_rescue_continuation_nomiss<A: Fn(SingleOp) -> u32>(
    arith: &A,
    rescue: &LoadedAnchorRescueRuntime,
    feat: &[u32],
    row_tau: u32,
    shadow: &PrefixRowShadow,
    ranks: &mut [u8],
) -> (r: Result<(u32, bool, i32), ScoreError>)
    requires
        answers(*arith),
        runtime_sound(rescue.anchor),
        rescue.anchor.plan.order@.len() <= 0x8000_0000,
        rescue.anchor.pack@.n_features <= feat@.len(),
        rescue.anchor.pack@.n_features <= old(ranks)@.len(),
    ensures
        final(ranks)@ == ranked_nomiss(rescue.anchor.pack@, feat@, old(ranks)@),
        forall|m: spec_fn(SingleOp) -> u32| #[trigger]
            follows(*arith, m) ==> r == rescue_tail(
                m,
                rescue,
                feat@,
                row_tau,
                shadow@,
                final(ranks)@,
                none_missing(),
            ),
{
    let rt: &LoadedPrefixRuntime = &rescue.anchor;
    let ghost p = rt.pack@;
    proof {
        lemma_ranked_nomiss_is_readable(p, feat@, ranks@);
    }
    quantize_into_nomiss(&rt.pack, feat, ranks);
    let taken: Option<&Vec<u32>> = if shadow.rescue_route == 2 {
        Some(&rescue.reject_rescue.plan.order)
    } else if shadow.rescue_route == 3 {
        Some(&rescue.refer_rescue.plan.order)
    } else {
        None
    };
    let left: Vec<u32> = find_left(
        &rt.plan.order,
        shadow.anchor_trees_used,
        taken,
        shadow.rescue_trees_used,
    );
    assert(left@ == left_over(*rescue, shadow@));
    match score_tree_indices_from_quantized_nomiss(&rt.pack, left.as_slice(), ranks) {
        Err(e) => Err(e),
        Ok(w) => {
            let own: u32 = add_values(arith, 0, &w.leaves, 0);
            assert(w.leaves@.subrange(0, w.leaves@.len() as int) =~= w.leaves@);
            let score: u32 = arith(SingleOp::Sum(shadow.prefix_score, own));
            Ok((score, le(row_tau, score), left.len() as i32))
        },
    }
}

/// Every position is either counted as added up or left over, and no position is left over twice.
pub proof fn law_no_tree_is_left_out(
    order: Seq<u32>,
    anchor_used: int,
    taken: Seq<u32>,
    taken_used: int,
    n: int,
)
    requires
        0 <= n <= order.len(),
        order.len() <= u32::MAX,
    ensures
        ({
            let left = positions_left(order, anchor_used, taken, taken_used, n);
            &&& forall|pos: int|
                #![trigger executed(order, anchor_used, taken, taken_used, pos)]
                0 <= pos < n ==> (executed(order, anchor_used, taken, taken_used, pos)
                    <==> !left.contains(pos as u32))
            &&& forall|i: int| 0 <= i < left.len() ==> (#[trigger] left[i]) < n
            &&& forall|i: int, j: int|
                0 <= i < j < left.len() ==> #[trigger] left[i] < #[trigger] left[j]
        }),
    decreases n,
{
    if n > 0 {
        law_no_tree_is_left_out(order, anchor_used, taken, taken_used, n - 1);
        let before = positions_left(order, anchor_used, taken, taken_used, n - 1);
        let left = positions_left(order, anchor_used, taken, taken_used, n);
        assert forall|pos: int|
            #![trigger executed(order, anchor_used, taken, taken_used, pos)]
            0 <= pos < n implies (executed(order, anchor_used, taken, taken_used, pos)
            <==> !left.contains(pos as u32)) by {
            if executed(order, anchor_used, taken, taken_used, n - 1) {
                if pos == n - 1 && before.contains(pos as u32) {
                    let i = before.index_of(pos as u32);
                    assert(before[i] < n - 1);
                }
            } else {
                if pos == n - 1 {
                    assert(left[left.len() - 1] == pos as u32);
                } else {
                    if left.contains(pos as u32) {
                        let i = left.index_of(pos as u32);
                        assert(i < before.len());
                        assert(before[i] == pos as u32);
                    }
                    if before.contains(pos as u32) {
                        let i = before.index_of(pos as u32);
                        assert(left[i] == pos as u32);
                    }
                }
            }
        }
    }
}

/// A row of a router file.
#[derive(Debug)]
pub struct RescueRouterRow {
    pub anchor_checkpoint: usize,
    pub tau_bin: usize,
    pub fold_id: i32,
    pub shadow_side: i8,
    pub gap_bin: usize,
    pub action: String,
}

/// A default of a router file.
#[derive(Debug)]
pub struct RescueRouterDefault {
    pub anchor_checkpoint: usize,
    pub tau_bin: usize,
    pub shadow_side: i8,
    pub action: String,
}

/// Why a router is not accepted.
#[derive(Clone, Copy, Debug, PartialEq, Eq, Structural)]
pub enum RouterError {
    Format,
    RowAction { row: usize },
    DefaultAction { row: usize },
}

/// The checkpoint that a row of a router counts for. The first version of the format knows none.
pub open spec fn router_checkpoint(v2: bool, cp: usize) -> usize {
    if v2 {
        cp
    } else {
        0
    }
}

/// Whether an entry stands for a row of a file.
pub open spec fn entry_read(e: RescueEntry, row: RescueRouterRow, v2: bool) -> bool {
    &&& e.anchor_checkpoint == router_checkpoint(v2, row.anchor_checkpoint)
    &&& e.tau_bin == row.tau_bin
    &&& e.fold_id == row.fold_id
    &&& e.shadow_side == row.shadow_side
    &&& e.gap_bin == row.gap_bin
    &&& rescue_named(row.action@) == Some(e.action)
}

/// Whether an entry stands for a default of a file.
pub open spec fn default_read(e: RescueDefault, row: RescueRouterDefault, v2: bool) -> bool {
    &&& e.anchor_checkpoint == router_checkpoint(v2, row.anchor_checkpoint)
    &&& e.tau_bin == row.tau_bin
    &&& e.shadow_side == row.shadow_side
    &&& rescue_named(row.action@) == Some(e.action)
}

/// Makes a router out of what a file lists. The first row whose action is unknown is reported.
pub fn load_rescue_router(
    format: &str,
    tau_edges: Vec<u32>,
    gap_edges: Vec<u32>,
    rows: &Vec<RescueRouterRow>,
    defaults: &Vec<RescueRouterDefault>,
) -> (r: Result<LoadedRescueRouter, RouterError>)
    ensures
        ({
            let v2 = format@ == "L2AnchorRescueRouterV2"@;
            match r {
                Err(RouterError::Format) => !v2 && format@ != "L2AnchorRescueRouterV1"@,
                Err(RouterError::RowAction { row }) => {
                    &&& v2 || format@ == "L2AnchorRescueRouterV1"@
                    &&& row < rows@.len()
                    &&& rescue_named(rows@[row as int].action@) is None
                    &&& forall|i: int|
                        0 <= i < row ==> rescue_named((#[trigger] rows@[i]).action@) is Some
                },
                Err(RouterError::DefaultAction { row }) => {
                    &&& v2 || format@ == "L2AnchorRescueRouterV1"@
                    &&& forall|i: int|
                        0 <= i < rows@.len() ==> rescue_named((#[trigger] rows@[i]).action@) is Some
                    &&& row < defaults@.len()
                    &&& rescue_named(defaults@[row as int].action@) is None
                    &&& forall|i: int|
                        0 <= i < row ==> rescue_named((#[trigger] defaults@[i]).action@) is Some
                },
                Ok(x) => {
                    &&& v2 || format@ == "L2AnchorRescueRouterV1"@
                    &&& x.tau_edges == tau_edges
                    &&& x.gap_edges == gap_edges
                    &&& x.actions@.len() == rows@.len()
                    &&& forall|i: int|
                        0 <= i < rows@.len() ==> entry_read(
                            #[trigger] x.actions@[i],
                            rows@[i],
                            v2,
                        )
                    &&& x.defaults@.len() == defaults@.len()
                    &&& forall|i: int|
                        0 <= i < defaults@.len() ==> default_read(
                            #[trigger] x.defaults@[i],
                            defaults@[i],
                            v2,
                        )
                },
            }
        }),
{
    let v2: bool = same_text(format, "L2AnchorRescueRouterV2");
    let v1: bool = same_text(format, "L2AnchorRescueRouterV1");
    if !v2 && !v1 {
        return Err(RouterError::Format);
    }
    let mut actions: Vec<RescueEntry> = Vec::new();
    let mut i: usize = 0;
    while i < rows.len()
        invariant
            i <= rows@.len(),
            v2 == (format@ == "L2AnchorRescueRouterV2"@),
            v2 || format@ == "L2AnchorRescueRouterV1"@,
            actions@.len() == i,
            forall|k: int| 0 <= k < i ==> entry_read(#[trigger] actions@[k], rows@[k], v2),
            forall|k: int| 0 <= k < i ==> rescue_named((#[trigger] rows@[k]).action@) is Some,
        decreases rows@.len() - i,
    {
        let row: &RescueRouterRow = &rows[i];
        let action: RescueAction = match parse_rescue_action(row.action.as_str()) {
            None => {
                return Err(RouterError::RowAction { row: i });
            },
            Some(a) => a,
        };
        let cp: usize = if v2 {
            row.anchor_checkpoint
        } else {
            0
        };
        actions.push(
            RescueEntry {
                anchor_checkpoint: cp,
                tau_bin: row.tau_bin,
                fold_id: row.fold_id,
                shadow_side: row.shadow_side,
                gap_bin: row.gap_bin,
                action,
            },
        );
        i += 1;
    }
    let mut outs: Vec<RescueDefault> = Vec::new();
    let mut k: usize = 0;
    while k < defaults.len()
        invariant
            k <= defaults@.len(),
            v2 == (format@ == "L2AnchorRescueRouterV2"@),
            v2 || format@ == "L2AnchorRescueRouterV1"@,
            forall|j: int|
                0 <= j < rows@.len() ==> rescue_named((#[trigger] rows@[j]).action@) is Some,
            outs@.len() == k,
            forall|j: int| 0 <= j < k ==> default_read(#[trigger] outs@[j], defaults@[j], v2),
            forall|j: int| 0 <= j < k ==> rescue_named((#[trigger] defaults@[j]).action@) is Some,
        decreases defaults@.len() - k,
    {
        let row: &RescueRouterDefault = &defaults[k];
        let action: RescueAction = match parse_rescue_action(row.action.as_str()) {
            None => {
                return Err(RouterError::DefaultAction { row: k });
            },
            Some(a) => a,
        };
        let cp: usize = if v2 {
            row.anchor_checkpoint
        } else {
            0
        };
        outs.push(
            RescueDefault {
                anchor_checkpoint: cp,
                tau_bin: row.tau_bin,
                shadow_side: row.shadow_side,
                action,
            },
        );
        k += 1;
    }
    Ok(LoadedRescueRouter { tau_edges, gap_edges, actions, defaults: outs })
}

} // verus!
