//! Laws on the verdict at a checkpoint: what of the row and of the model it goes by.

use crate::arith::SingleOp;
use crate::bands::{band_for, bin_of, fold_slot, place_of, BandView};
use crate::certain::{
    law_atlases_decide_by_their_cells, law_bands_decide_as_the_rest_does,
    law_networks_decide_by_their_thresholds, lies_beside,
};
use crate::certify::{cluster_of, Certifier, PrefixCertifierKind, RowAt, RowState, RowWork};
use crate::exact::worth;
use crate::minpack::{l2_prefix, l2_row, OnlineL2Runtime, ScratchView};
use crate::network::{forward, network_input, LoadedMlpCertifier, NetworkRow};
use crate::packets::{packet_verdict, PacketState};
use crate::prefix_runtime::{judge_for, outcome, LoadedPrefixRuntime};
use crate::shadow::{judged, Ended, Judge};
use crate::single::{at_most, below, nan, rising};
use crate::takeovers::{in_bin, law_bins_are_found};
use vstd::prelude::*;

verus! {

/// A fold is found at its first place in the list, where there is no lookup table.
pub proof fn law_folds_are_found(t: BandView, fold: i32, i: int)
    requires
        t.fold_slot_lut.len() == 0,
        0 <= i <= t.fold_ids.len(),
        forall|k: int| 0 <= k < i ==> #[trigger] t.fold_ids[k] != fold,
        i < t.fold_ids.len() ==> t.fold_ids[i] == fold,
    ensures
        fold_slot(t, fold) == if i < t.fold_ids.len() {
            Some(i)
        } else {
            None
        },
{
    lemma_place(t.fold_ids, fold, 0, i);
}

/// A number is found at its first place.
pub proof fn lemma_place(ids: Seq<i32>, fold: i32, k: int, i: int)
    requires
        0 <= k <= i <= ids.len(),
        forall|j: int| 0 <= j < i ==> #[trigger] ids[j] != fold,
        i < ids.len() ==> ids[i] == fold,
    ensures
        place_of(ids, fold, k) == if i < ids.len() {
            Some(i)
        } else {
            None
        },
    decreases i - k,
{
    if k < i {
        assert(ids[k] != fold);
        lemma_place(ids, fold, k + 1, i);
    }
}

/// A model judges rows by its own tables, by its own kind of certifier, and in the bins of its
/// tables and of its atlas that hold the threshold.
pub proof fn law_models_judge_in_the_bins_of_the_threshold(
    rt: &LoadedPrefixRuntime,
    fold: i32,
    tau: u32,
    tau_bin: int,
    atlas_bin: int,
)
    requires
        !nan(tau),
        rt.calibration.tables@.len() > 0,
        rising(rt.calibration.tables@[0]@.tau_edges),
        in_bin(rt.calibration.tables@[0]@.tau_edges, tau, tau_bin),
        tau_bin <= usize::MAX,
        match rt.atlas_certifier {
            Some(a) => rising(a.tau_edges@) && in_bin(a.tau_edges@, tau, atlas_bin) && atlas_bin
                <= usize::MAX,
            None => atlas_bin == 0,
        },
    ensures
        ({
            let j = judge_for(rt, None, fold, tau);
            &&& j.plan is None
            &&& j.fold == fold
            &&& j.tau == tau
            &&& *j.tables == rt.calibration.tables
            &&& j.certifier.kind == rt.certifier_kind
            &&& j.calibration_tau_bin == tau_bin
            &&& j.atlas_tau_bin == atlas_bin
        }),
{
    law_bins_are_found(rt.calibration.tables@[0]@.tau_edges, tau, tau_bin);
    if let Some(a) = rt.atlas_certifier {
        law_bins_are_found(a.tau_edges@, tau, atlas_bin);
    }
}

/// Where the trees to come stay within the band of the row's fold, bin and distance from the
/// threshold, a verdict by the band is the side that the row ends on, and one is reached wherever
/// the band does not lie across the threshold.
pub proof fn law_runs_are_decided_by_their_bands(
    m: spec_fn(SingleOp) -> u32,
    j: Judge,
    slot: usize,
    checkpoint: usize,
    score: u32,
    evals: int,
    early: int,
    delta_prev: u32,
    delta_from_64: u32,
    rest: int,
)
    requires
        j.plan is None,
        ({
            let t = j.tables@[slot as int]@;
            let gap = m(SingleOp::Difference(j.tau, score));
            let (hi, lo) = band_for(
                m,
                t,
                fold_slot(t, j.fold),
                j.calibration_tau_bin as int,
                gap,
            );
            &&& !nan(gap) && worth(gap) == worth(j.tau) - worth(score)
            &&& !nan(hi) && !nan(lo)
            &&& worth(lo) <= rest <= worth(hi)
        }),
    ensures
        ({
            let t = j.tables@[slot as int]@;
            let gap = m(SingleOp::Difference(j.tau, score));
            let (hi, lo) = band_for(
                m,
                t,
                fold_slot(t, j.fold),
                j.calibration_tau_bin as int,
                gap,
            );
            let refers = worth(score) + worth(hi) < worth(j.tau);
            let rejects = worth(score) + worth(lo) >= worth(j.tau);
            let v = judged(
                m,
                j,
                slot,
                checkpoint,
                score,
                evals,
                early,
                delta_prev,
                delta_from_64,
            );
            &&& refers || rejects ==> v is Some && v->Some_0.0 == (worth(score) + rest >= worth(
                j.tau,
            ))
            &&& refers ==> v == Some((false, m(SingleOp::Sum(score, hi))))
            &&& !refers && rejects ==> v == Some((true, m(SingleOp::Sum(score, lo))))
            &&& !refers && !rejects && j.certifier.kind == PrefixCertifierKind::TableV1 ==> v
                is None
        }),
{
    let t = j.tables@[slot as int]@;
    law_bands_decide_as_the_rest_does(
        m,
        j.certifier,
        t,
        RowAt {
            slot,
            fold_slot: fold_slot(t, j.fold),
            tau: j.tau,
            atlas_tau_bin: j.atlas_tau_bin as int,
            calibration_tau_bin: j.calibration_tau_bin as int,
            score,
            delta_prev,
            delta_from_64,
        },
        RowWork {
            checkpoint,
            fold: j.fold,
            work_evals: evals as u64,
            trees_used: checkpoint,
            resolved_early: early as u64,
        },
        rest,
    );
}

/// A row that its band leaves undecided goes by the network: it is told the fold, the threshold, the
/// score, the way that the score has come, the trees up to the checkpoint, and per tree the work
/// and the early ends.
pub proof fn law_runs_are_decided_by_their_network(
    m: spec_fn(SingleOp) -> u32,
    j: Judge,
    slot: usize,
    checkpoint: usize,
    score: u32,
    evals: u64,
    early: u64,
    delta_prev: u32,
    delta_from_64: u32,
    i: int,
)
    requires
        j.plan is None,
        j.certifier.kind == PrefixCertifierKind::MlpV1,
        j.certifier.mlp is Some,
        ({
            let t = j.tables@[slot as int]@;
            let gap = m(SingleOp::Difference(j.tau, score));
            let (hi, lo) = band_for(
                m,
                t,
                fold_slot(t, j.fold),
                j.calibration_tau_bin as int,
                gap,
            );
            !below(hi, gap) && !at_most(gap, lo)
        }),
        0 < checkpoint <= j.certifier.mlp->Some_0.checkpoint_limit,
        0 <= i < j.certifier.mlp->Some_0.thresholds@.len(),
        j.certifier.mlp->Some_0.thresholds@[i].checkpoint == checkpoint,
        forall|k: int|
            i < k < j.certifier.mlp->Some_0.thresholds@.len()
                ==> (#[trigger] j.certifier.mlp->Some_0.thresholds@[k]).checkpoint != checkpoint,
    ensures
        ({
            let n = *j.certifier.mlp->Some_0;
            let e = n.thresholds@[i];
            let trees = m(SingleOp::Nearest(checkpoint as u64));
            let p = forward(
                m,
                n,
                network_input(
                    m,
                    n,
                    NetworkRow {
                        checkpoint,
                        fold: j.fold,
                        tau: j.tau,
                        score,
                        gap: m(SingleOp::Difference(j.tau, score)),
                        delta_prev,
                        delta_from_64,
                        evals_per_tree: m(
                            SingleOp::Quotient(m(SingleOp::Nearest(evals)), trees),
                        ),
                        trees_used: checkpoint,
                        early_rate: m(SingleOp::Quotient(m(SingleOp::Nearest(early)), trees)),
                    },
                ),
            );
            let v = judged(
                m,
                j,
                slot,
                checkpoint,
                score,
                evals as int,
                early as int,
                delta_prev,
                delta_from_64,
            );
            &&& at_most(p, e.tau_ref) ==> lies_beside(m, v, j.tau, false)
            &&& !at_most(p, e.tau_ref) && at_most(e.tau_rej, p) ==> lies_beside(m, v, j.tau, true)
            &&& !at_most(p, e.tau_ref) && !at_most(e.tau_rej, p) ==> v is None
        }),
{
    let t = j.tables@[slot as int]@;
    law_networks_decide_by_their_thresholds(
        m,
        j.certifier,
        t,
        RowAt {
            slot,
            fold_slot: fold_slot(t, j.fold),
            tau: j.tau,
            atlas_tau_bin: j.atlas_tau_bin as int,
            calibration_tau_bin: j.calibration_tau_bin as int,
            score,
            delta_prev,
            delta_from_64,
        },
        RowWork {
            checkpoint,
            fold: j.fold,
            work_evals: evals,
            trees_used: checkpoint,
            resolved_early: early,
        },
        i,
    );
}

/// A row that its band leaves undecided goes by the atlas of its place: by the cell of the bin of
/// the threshold, of the cluster that fits the way the score has come, and of the distance.
pub proof fn law_runs_are_decided_by_their_atlas(
    m: spec_fn(SingleOp) -> u32,
    j: Judge,
    slot: usize,
    checkpoint: usize,
    score: u32,
    evals: int,
    early: int,
    delta_prev: u32,
    delta_from_64: u32,
    k: int,
)
    requires
        j.plan is None,
        j.certifier.kind == PrefixCertifierKind::AtlasV1,
        j.certifier.atlas is Some,
        slot < j.certifier.atlas->Some_0.checkpoints@.len(),
        ({
            let t = j.tables@[slot as int]@;
            let a = j.certifier.atlas->Some_0.checkpoints@[slot as int]@;
            let gap = m(SingleOp::Difference(j.tau, score));
            let (hi, lo) = band_for(
                m,
                t,
                fold_slot(t, j.fold),
                j.calibration_tau_bin as int,
                gap,
            );
            &&& !below(hi, gap) && !at_most(gap, lo)
            &&& j.atlas_tau_bin < a.tau_bin_count
            &&& cluster_of(m, a, RowState { gap, delta_prev, delta_from_64 }) == Some(k)
            &&& 0 <= k < a.cluster_count
            &&& bin_of(
                if a.shared_gap_edges {
                    t.gap_edges
                } else {
                    a.gap_edges
                },
                gap,
            ) < 256
        }),
    ensures
        ({
            let t = j.tables@[slot as int]@;
            let a = j.certifier.atlas->Some_0.checkpoints@[slot as int]@;
            let gap = m(SingleOp::Difference(j.tau, score));
            let cell = a.decision_grid[(j.atlas_tau_bin * a.cluster_count + k) * 256 + bin_of(
                if a.shared_gap_edges {
                    t.gap_edges
                } else {
                    a.gap_edges
                },
                gap,
            )];
            let v = judged(
                m,
                j,
                slot,
                checkpoint,
                score,
                evals,
                early,
                delta_prev,
                delta_from_64,
            );
            &&& cell == 1 ==> lies_beside(m, v, j.tau, false)
            &&& cell == 2 ==> lies_beside(m, v, j.tau, true)
            &&& cell != 1 && cell != 2 ==> v is None
        }),
{
    let t = j.tables@[slot as int]@;
    law_atlases_decide_by_their_cells(
        m,
        j.certifier,
        t,
        RowAt {
            slot,
            fold_slot: fold_slot(t, j.fold),
            tau: j.tau,
            atlas_tau_bin: j.atlas_tau_bin as int,
            calibration_tau_bin: j.calibration_tau_bin as int,
            score,
            delta_prev,
            delta_from_64,
        },
        RowWork {
            checkpoint,
            fold: j.fold,
            work_evals: evals as u64,
            trees_used: checkpoint,
            resolved_early: early as u64,
        },
    );
}

/// A packet decides a row by the band of its step alone, where the packets to come stay within it:
/// the verdict is the side that the row ends on, and there is none where the band lies across the
/// threshold.
pub proof fn law_packets_are_decided_by_their_bands(
    m: spec_fn(SingleOp) -> u32,
    rt: LoadedPrefixRuntime,
    tau: u32,
    fold: i32,
    step: int,
    st: PacketState,
    tau_bin: int,
    rest: int,
)
    requires
        rt.calibration.tables@.len() > 0,
        !nan(tau),
        rising(rt.calibration.tables@[0]@.tau_edges),
        in_bin(rt.calibration.tables@[0]@.tau_edges, tau, tau_bin),
        ({
            let t = rt.calibration.tables@[step]@;
            let gap = m(SingleOp::Difference(tau, st.score));
            let (hi, lo) = band_for(m, t, fold_slot(t, fold), tau_bin, gap);
            &&& !nan(gap) && worth(gap) == worth(tau) - worth(st.score)
            &&& !nan(hi) && !nan(lo)
            &&& worth(lo) <= rest <= worth(hi)
        }),
    ensures
        ({
            let t = rt.calibration.tables@[step]@;
            let gap = m(SingleOp::Difference(tau, st.score));
            let (hi, lo) = band_for(m, t, fold_slot(t, fold), tau_bin, gap);
            let refers = worth(st.score) + worth(hi) < worth(tau);
            let rejects = worth(st.score) + worth(lo) >= worth(tau);
            let v = packet_verdict(m, rt, tau, fold, step, st);
            &&& v is Some <==> refers || rejects
            &&& v matches Some(d) ==> d.0 == (worth(st.score) + rest >= worth(tau))
            &&& refers ==> v == Some((false, m(SingleOp::Sum(st.score, hi))))
            &&& !refers && rejects ==> v == Some((true, m(SingleOp::Sum(st.score, lo))))
        }),
{
    let t = rt.calibration.tables@[step]@;
    law_bins_are_found(rt.calibration.tables@[0]@.tau_edges, tau, tau_bin);
    law_bands_decide_as_the_rest_does(
        m,
        Certifier { kind: PrefixCertifierKind::TableV1, atlas: None, mlp: None },
        t,
        RowAt {
            slot: step as usize,
            fold_slot: fold_slot(t, fold),
            tau,
            atlas_tau_bin: 0,
            calibration_tau_bin: tau_bin,
            score: st.score,
            delta_prev: st.prev_delta,
            delta_from_64: 0,
        },
        RowWork {
            checkpoint: rt.calibration.checkpoints@[step],
            fold,
            work_evals: st.work_evals,
            trees_used: st.trees_used,
            resolved_early: st.resolved_early,
        },
        rest,
    );
}

/// The network is told the bin that holds the threshold: that one is marked, and no other.
pub proof fn law_network_is_told_the_bin_of_the_threshold(
    m: spec_fn(SingleOp) -> u32,
    n: LoadedMlpCertifier,
    row: NetworkRow,
    b: int,
    i: int,
)
    requires
        !nan(row.tau),
        rising(n.tau_edges@),
        in_bin(n.tau_edges@, row.tau, b),
        0 <= i,
        i == 0 || i + 2 <= n.tau_edges@.len(),
    ensures
        ({
            let at = n.checkpoint_values@.len() + n.fold_values@.len() + i;
            let told: u32 = if i == b {
                0x3f80_0000
            } else {
                0
            };
            network_input(m, n, row)[at] == m(
                SingleOp::Product(
                    m(SingleOp::Difference(told, n.mean@[at])),
                    n.inv_std@[at],
                ),
            )
        }),
{
    law_bins_are_found(n.tau_edges@, row.tau, b);
}

/// What a run came to is handed on: its score and its work; of a run that ended with a verdict the
/// side, the score that goes with it and the checkpoint, and of one without that it falls back, from
/// which checkpoint, and on no side yet.
pub proof fn law_verdicts_are_handed_on(e: Ended, fallback: usize)
    ensures
        outcome(Ok(e), fallback) matches Ok(v) && {
            &&& v.prefix_score == e.st.score
            &&& v.trees_used == e.st.trees_used
            &&& v.work_evals == e.st.evals
            &&& v.resolved_early_trees == e.st.early
            &&& v.checkpoint_scores == e.st.scores
            &&& v.checkpoint_work_evals == e.st.works
            &&& v.checkpoint_deltas == e.st.deltas
            &&& v.checkpoint_resolved_early == e.st.resolved
            &&& match e.verdict {
                Some((reject, score, checkpoint)) => {
                    &&& !v.fallback_used
                    &&& v.shadow_reject == reject
                    &&& v.shadow_route_score == score
                    &&& v.direct_checkpoint == checkpoint
                    &&& v.fallback_entry_checkpoint == 0
                },
                None => {
                    &&& v.fallback_used
                    &&& !v.shadow_reject
                    &&& v.shadow_route_score == e.st.score
                    &&& v.direct_checkpoint == 0
                    &&& v.fallback_entry_checkpoint == fallback
                },
            }
            &&& v.selected_packets.len() == 0
            &&& v.anchor_trees_used == 0 && v.rescue_trees_used == 0 && v.rescue_route == 0
        },
{
}

/// A row that its first trees decide stays as they decide it. The second stage gives that side, the
/// score that goes with it, and the trees used, without falling back.
pub proof fn law_decided_rows_keep_their_verdict(
    m: spec_fn(SingleOp) -> u32,
    l2: &OnlineL2Runtime,
    row: Seq<u32>,
    tau: u32,
    fold: i32,
    nan_free: bool,
    s: ScratchView,
)
    requires
        l2_prefix(m, l2, row, tau, fold, nan_free, s) matches Ok(v) && !v.fallback_used && 0
            <= v.trees_used <= 0x7fff_ffff,
    ensures
        ({
            let v = l2_prefix(m, l2, row, tau, fold, nan_free, s)->Ok_0;
            l2_row(m, l2, row, tau, fold, nan_free, s) matches Ok(o) && {
                &&& o.reject == v.shadow_reject
                &&& o.score == v.shadow_route_score
                &&& o.trees_used == v.trees_used
                &&& !o.used_fallback
            }
        }),
{
}

} // verus!
