//! What becomes of a row that its first trees leave undecided.

use crate::arith::{add_values, answers, follows, total, SingleOp};
use crate::forest::SoaModel;
use crate::pack_check::ranks_fit;
use crate::packets::{packet_tail, run_packet_continuation, scheduler_ready, LoadedPacketScheduler};
use crate::prefix_runtime::{
    buffers_fit, fewer, runtime_sound, LoadedPrefixRuntime, PrefixRowShadow, ShadowView,
};
use crate::qs_score::{
    indices, none_missing, score_tree_indices_from_quantized_nomiss, walk, ScoreError,
};
use crate::quantize::{marked, ranked, ranked_nomiss};
use crate::rescue::{
    rescue_tail, run_rescue_continuation, run_rescue_continuation_nomiss,
    LoadedAnchorRescueRuntime,
};
use crate::single::{at_most, le};
use crate::tail::{plan_ready, run_tail, tail_result};
use crate::qs_prefix::span_readable;
use vstd::prelude::*;

verus! {

/// Who takes a row on: rescue models, packets of trees, or the rest of the trees in order.
pub enum Continuation<'a> {
    Rescue(&'a LoadedAnchorRescueRuntime),
    Packets(&'a LoadedPrefixRuntime, &'a LoadedPacketScheduler),
    Plain(&'a LoadedPrefixRuntime),
}

/// What the trees left of a pack make of a row: its score, whether it is rejected, and how many
/// trees there were.
pub open spec fn rest_of_pack(
    m: spec_fn(SingleOp) -> u32,
    rt: &LoadedPrefixRuntime,
    tau: u32,
    v: ShadowView,
    ranks: Seq<u8>,
) -> Result<(u32, bool, i32), ScoreError> {
    let order = rt.plan.order@;
    let rest = order.skip(fewer(v.trees_used, order.len() as int));
    match walk(rt.pack@, indices(rest), ranks, none_missing()) {
        Err(e) => Err(e),
        Ok(w) => {
            let score = m(SingleOp::Sum(v.prefix_score, total(m, 0, w.leaves)));
            Ok((score, at_most(tau, score), rest.len() as i32))
        },
    }
}

/// Computes [`rest_of_pack`].
pub fn run_rest_of_pack<A: Fn(SingleOp) -> u32>(
    arith: &A,
    rt: &LoadedPrefixRuntime,
    tau: u32,
    shadow: &PrefixRowShadow,
    ranks: &[u8],
) -> (r: Result<(u32, bool, i32), ScoreError>)
    requires
        answers(*arith),
        runtime_sound(*rt),
        rt.plan.order@.len() <= 0x8000_0000,
        ranks_fit(rt.pack@, ranks@),
    ensures
        forall|m: spec_fn(SingleOp) -> u32| #[trigger]
            follows(*arith, m) ==> r == rest_of_pack(m, rt, tau, shadow@, ranks@),
{
    let order: &Vec<u32> = &rt.plan.order;
    let from: usize = if shadow.trees_used <= order.len() {
        shadow.trees_used
    } else {
        order.len()
    };
    let rest: &[u32] = vstd::slice::slice_subrange(order.as_slice(), from, order.len());
    proof {
        assert(rest@ =~= order@.skip(from as int));
    }
    match score_tree_indices_from_quantized_nomiss(&rt.pack, rest, ranks) {
        Err(e) => Err(e),
        Ok(w) => {
            let own: u32 = add_values(arith, 0, &w.leaves, 0);
            assert(w.leaves@.subrange(0, w.leaves@.len() as int) =~= w.leaves@);
            let score: u32 = arith(SingleOp::Sum(shadow.prefix_score, own));
            Ok((score, le(tau, score), rest.len() as i32))
        },
    }
}

/// What the rest of the trees in order makes of a row.
pub open spec fn plain_tail(
    m: spec_fn(SingleOp) -> u32,
    rt: &LoadedPrefixRuntime,
    model: SoaModel,
    feat: Seq<u32>,
    tau: u32,
    nan_free: bool,
    v: ShadowView,
) -> Result<(u32, bool, i32), ScoreError> {
    match tail_result(
        m,
        model,
        &rt.plan,
        feat,
        tau,
        nan_free,
        v.prefix_score,
        v.trees_used,
    ) {
        Err(e) => Err(ScoreError::Astray(e)),
        Ok(t) => Ok((t.score, t.pass, t.visited)),
    }
}

/// The ranks of a row once it was taken on: made anew where rescue models take it on.
pub open spec fn ranks_after(c: Continuation, feat: Seq<u32>, ranks: Seq<u8>) -> Seq<u8> {
    match c {
        Continuation::Rescue(a) => ranked(a.anchor.pack@, feat, ranks),
        _ => ranks,
    }
}

/// The marks of missing values once a row was taken on.
pub open spec fn marks_after(c: Continuation, feat: Seq<u32>, missing: Seq<u8>) -> Seq<u8> {
    match c {
        Continuation::Rescue(a) => marked(a.anchor.pack@, feat, missing),
        _ => missing,
    }
}

/// What an undecided row comes to.
pub open spec fn continued(
    m: spec_fn(SingleOp) -> u32,
    c: Continuation,
    model: SoaModel,
    feat: Seq<u32>,
    tau: u32,
    v: ShadowView,
    nan_free: bool,
    ranks: Seq<u8>,
    missing: Seq<u8>,
) -> Result<(u32, bool, i32), ScoreError> {
    match c {
        Continuation::Rescue(a) => rescue_tail(
            m,
            a,
            feat,
            tau,
            v,
            ranks_after(c, feat, ranks),
            marks_after(c, feat, missing),
        ),
        Continuation::Packets(rt, sch) => packet_tail(m, rt, sch, feat, tau, v, ranks, missing),
        Continuation::Plain(rt) => plain_tail(m, rt, model, feat, tau, nan_free, v),
    }
}

/// Whether an undecided row can be taken on.
pub open spec fn continuation_ready(
    c: Continuation,
    feat: Seq<u32>,
    ranks: Seq<u8>,
    missing: Seq<u8>,
) -> bool {
    match c {
        Continuation::Rescue(a) => {
            &&& runtime_sound(a.anchor)
            &&& a.anchor.plan.order@.len() <= 0x8000_0000
            &&& buffers_fit(a.anchor.pack@, feat, ranks, missing)
        },
        Continuation::Packets(rt, sch) => {
            &&& runtime_sound(*rt)
            &&& scheduler_ready(*sch)
            &&& span_readable(rt.pack@, 0, rt.pack@.n_trees, ranks, missing)
        },
        Continuation::Plain(rt) => plan_ready(rt.plan),
    }
}

/// Takes an undecided row on: gives its score, whether it is rejected, and how many trees it took.
pub fn run_exact_continuation<'a, A: Fn(SingleOp) -> u32>(
    arith: &A,
    how: &Continuation<'a>,
    model: &SoaModel,
    feat: &[u32],
    row_tau: u32,
    shadow: &PrefixRowShadow,
    nan_free: bool,
    ranks: &mut [u8],
    missing: &mut [u8],
) -> (r: Result<(u32, bool, i32), ScoreError>)
    requires
        answers(*arith),
        continuation_ready(*how, feat@, old(ranks)@, old(missing)@),
    ensures
        final(ranks)@ == ranks_after(*how, feat@, old(ranks)@),
        final(missing)@ == marks_after(*how, feat@, old(missing)@),
        forall|m: spec_fn(SingleOp) -> u32| #[trigger]
            follows(*arith, m) ==> r == continued(
                m,
                *how,
                *model,
                feat@,
                row_tau,
                shadow@,
                nan_free,
                old(ranks)@,
                old(missing)@,
            ),
{
    match how {
        Continuation::Rescue(a) => run_rescue_continuation(
            arith,
            a,
            feat,
            row_tau,
            shadow,
            ranks,
            missing,
        ),
        Continuation::Packets(rt, sch) => run_packet_continuation(
            arith,
            rt,
            sch,
            feat,
            row_tau,
            shadow,
            ranks,
            Some(missing),
        ),
        Continuation::Plain(rt) => match run_tail(
            arith,
            model,
            &rt.plan,
            feat,
            row_tau,
            nan_free,
            shadow.prefix_score,
            shadow.trees_used,
        ) {
            Err(e) => Err(ScoreError::Astray(e)),
            Ok(t) => Ok((t.score, t.pass, t.visited)),
        },
    }
}

/// The ranks of a row without missing values once it was taken on.
pub open spec fn ranks_after_nomiss(c: Continuation, feat: Seq<u32>, ranks: Seq<u8>) -> Seq<u8> {
    match c {
        Continuation::Rescue(a) => ranked_nomiss(a.anchor.pack@, feat, ranks),
        _ => ranks,
    }
}

/// What an undecided row without missing values comes to.
pub open spec fn continued_nomiss(
    m: spec_fn(SingleOp) -> u32,
    c: Continuation,
    feat: Seq<u32>,
    tau: u32,
    v: ShadowView,
    ranks: Seq<u8>,
) -> Result<(u32, bool, i32), ScoreError> {
    match c {
        Continuation::Rescue(a) => rescue_tail(
            m,
            a,
            feat,
            tau,
            v,
            ranks_after_nomiss(c, feat, ranks),
            none_missing(),
        ),
        Continuation::Packets(rt, sch) => packet_tail(
            m,
            rt,
            sch,
            feat,
            tau,
            v,
            ranks,
            none_missing(),
        ),
        Continuation::Plain(rt) => rest_of_pack(m, rt, tau, v, ranks),
    }
}

/// Whether an undecided row without missing values can be taken on.
pub open spec fn continuation_ready_nomiss(c: Continuation, feat: Seq<u32>, ranks: Seq<u8>) -> bool {
    match c {
        Continuation::Rescue(a) => {
            &&& runtime_sound(a.anchor)
            &&& a.anchor.plan.order@.len() <= 0x8000_0000
            &&& a.anchor.pack@.n_features <= feat.len()
            &&& a.anchor.pack@.n_features <= ranks.len()
        },
        Continuation::Packets(rt, sch) => {
            &&& runtime_sound(*rt)
            &&& scheduler_ready(*sch)
            &&& ranks_fit(rt.pack@, ranks)
        },
        Continuation::Plain(rt) => {
            &&& runtime_sound(*rt)
            &&& rt.plan.order@.len() <= 0x8000_0000
            &&& ranks_fit(rt.pack@, ranks)
        },
    }
}

/// Takes an undecided row without missing values on.
pub fn run_exact_continuation_nomiss<'a, A: Fn(SingleOp) -> u32>(
    arith: &A,
    how: &Continuation<'a>,
    feat: &[u32],
    row_tau: u32,
    shadow: &PrefixRowShadow,
    ranks: &mut [u8],
) -> (r: Result<(u32, bool, i32), ScoreError>)
    requires
        answers(*arith),
        continuation_ready_nomiss(*how, feat@, old(ranks)@),
    ensures
        final(ranks)@ == ranks_after_nomiss(*how, feat@, old(ranks)@),
        forall|m: spec_fn(SingleOp) -> u32| #[trigger]
            follows(*arith, m) ==> r == continued_nomiss(
                m,
                *how,
                feat@,
                row_tau,
                shadow@,
                old(ranks)@,
            ),
{
    match how {
        Continuation::Rescue(a) => run_rescue_continuation_nomiss(
            arith,
            a,
            feat,
            row_tau,
            shadow,
            ranks,
        ),
        Continuation::Packets(rt, sch) => run_packet_continuation(
            arith,
            rt,
            sch,
            feat,
            row_tau,
            shadow,
            ranks,
            None,
        ),
        Continuation::Plain(rt) => run_rest_of_pack(arith, rt, row_tau, shadow, ranks),
    }
}

} // verus!
