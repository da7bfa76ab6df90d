//! Laws on what is loaded: tables and policies hold what their files say, and batches send each row
//! to its model.

use crate::arith::SingleOp;
use crate::bands::place_of;
use crate::calibration::{
    fold_fault, fold_numbers, last_in_slot, table_fault, table_made, tau_bins, tau_entry_fault,
    tau_fault, PrefixCalFoldFile, PrefixCalTableFile, PrefixCalTauFoldFile,
};
use crate::certain::calibrated;
use crate::dispatch::{
    bucket, place_of_row, place_of_slot, row_outcome, row_threshold, takes_part,
    LoadedDispatchSlot,
};
use crate::exact::{law_opposite_worth, sum_worth, worth};
use crate::features::BatchModel;
use crate::kernel::exact_course;
use crate::kinds::{DispatchThresholdMode, InferMode};
use crate::policy::{completed, greatest_of, policy_fault, positive, says_used, PolicyView};
use crate::row_meta::DispatchMeta;
use crate::sums::{
    law_scores_are_sums_of_visited_trees, law_stopping_early_keeps_the_side, leaves_are,
    lemma_stops_at_checkpoints, settles, unrounded, within_bounds,
};
use crate::tail::{model_leaves, plan_ready};
use crate::verdicts::lemma_place;
use vstd::prelude::*;

verus! {

proof fn lemma_no_tau_fault(
    cp: usize,
    ids: Seq<i32>,
    bins: nat,
    es: Seq<PrefixCalTauFoldFile>,
    k: int,
    i: int,
)
    requires
        0 <= k <= i < es.len(),
        tau_fault(cp, ids, bins, es, k) is None,
    ensures
        tau_entry_fault(cp, ids, bins, es[i]) is None,
    decreases i - k,
{
    if k < i {
        lemma_no_tau_fault(cp, ids, bins, es, k + 1, i);
    }
}

proof fn lemma_no_fold_fault(cp: usize, folds: Seq<PrefixCalFoldFile>, k: int, i: int)
    requires
        0 <= k <= i < folds.len(),
        fold_fault(cp, folds, k) is None,
    ensures
        folds[i].ref_hi@.len() == 256,
        folds[i].rej_lo@.len() == 256,
    decreases i - k,
{
    if k < i {
        lemma_no_fold_fault(cp, folds, k + 1, i);
    }
}

proof fn lemma_place_holds(ids: Seq<i32>, fold: i32, k: int)
    requires
        0 <= k,
    ensures
        place_of(ids, fold, k) matches Some(p) ==> k <= p < ids.len() && ids[p] == fold,
    decreases ids.len() - k,
{
    if k < ids.len() && ids[k] != fold {
        lemma_place_holds(ids, fold, k + 1);
    }
}

/// Two places that come to one slot are the same.
proof fn lemma_same_slot(p: int, x: int, s: int, b: int, bins: int)
    requires
        0 <= x < bins,
        0 <= b < bins,
    ensures
        p * bins + x == s * bins + b <==> p == s && x == b,
{
    if p * bins + x == s * bins + b {
        vstd::arithmetic::div_mod::lemma_fundamental_div_mod_converse(
            p * bins + x,
            bins,
            p,
            x,
        );
        vstd::arithmetic::div_mod::lemma_fundamental_div_mod_converse(
            s * bins + b,
            bins,
            s,
            b,
        );
    }
}

proof fn lemma_last_for(
    cp: usize,
    ids: Seq<i32>,
    bins: nat,
    es: Seq<PrefixCalTauFoldFile>,
    s: int,
    b: int,
    n: int,
    i: int,
)
    requires
        tau_fault(cp, ids, bins, es, 0) is None,
        0 <= s < ids.len(),
        forall|j: int| 0 <= j < s ==> #[trigger] ids[j] != ids[s],
        0 <= b < bins,
        0 <= n <= es.len(),
        -1 <= i < n,
        0 <= i ==> es[i].fold_id == ids[s] && es[i].tau_bin == b,
        forall|k: int|
            0 <= k && i < k < n ==> !((#[trigger] es[k]).fold_id == ids[s] && es[k].tau_bin == b),
    ensures
        last_in_slot(ids, bins, es, s * bins + b, n) == if 0 <= i {
            Some(i)
        } else {
            None
        },
    decreases n,
{
    if n > 0 {
        let e = es[n - 1];
        lemma_no_tau_fault(cp, ids, bins, es, 0, n - 1);
        lemma_place_holds(ids, e.fold_id, 0);
        let p = place_of(ids, e.fold_id, 0)->Some_0;
        lemma_same_slot(p, e.tau_bin as int, s, b, bins as int);
        if e.fold_id == ids[s] {
            lemma_place(ids, e.fold_id, 0, s);
        }
        if n - 1 != i {
            assert(!(es[n - 1].fold_id == ids[s] && es[n - 1].tau_bin == b));
            lemma_last_for(cp, ids, bins, es, s, b, n - 1, i);
        }
    }
}

/// A table holds what its file calibrates: for a fold and a bin of the threshold the bands of the
/// last entry for both, without one those of the fold, and without a fold the common ones.
pub proof fn law_tables_hold_what_was_calibrated(
    t: PrefixCalTableFile,
    s: int,
    b: int,
    k: int,
    i: int,
)
    requires
        table_fault(t) is None,
        0 <= k < 256,
        0 <= s < t.fold_tables@.len(),
        forall|j: int|
            0 <= j < s ==> (#[trigger] t.fold_tables@[j]).fold_id != t.fold_tables@[s].fold_id,
        0 <= b < t.tau_edges@.len() - 1,
        t.tau_edges@.len() <= usize::MAX,
    ensures
        ({
            let v = table_made(t);
            let fold = t.fold_tables@[s];
            let es = t.tau_fold_tables@;
            let fits = |e: PrefixCalTauFoldFile| e.fold_id == fold.fold_id && e.tau_bin == b;
            &&& v.fold_ids[s] == fold.fold_id
            &&& v.checkpoint == t.checkpoint
            &&& v.gap_edges == t.gap_edges@
            &&& v.tau_edges == t.tau_edges@
            &&& calibrated(v, None, b, k) == (t.global_ref_hi@[k], t.global_rej_lo@[k])
            &&& 0 <= i < es.len() && fits(es[i]) && (forall|j: int|
                i < j < es.len() ==> !fits(#[trigger] es[j])) ==> calibrated(v, Some(s), b, k) == (
                es[i].ref_hi@[k],
                es[i].rej_lo@[k],
            )
            &&& (forall|j: int| 0 <= j < es.len() ==> !fits(#[trigger] es[j])) ==> calibrated(
                v,
                Some(s),
                b,
                k,
            ) == (fold.ref_hi@[k], fold.rej_lo@[k])
        }),
{
    let v = table_made(t);
    let folds = t.fold_tables@;
    let ids = fold_numbers(folds);
    let bins = tau_bins(t.tau_edges@.len());
    let es = t.tau_fold_tables@;
    let n = es.len() as int;
    let row = s * bins + b;
    lemma_no_fold_fault(t.checkpoint, folds, 0, s);
    assert forall|j: int| 0 <= j < s implies #[trigger] ids[j] != ids[s] by {
        assert(folds[j].fold_id != folds[s].fold_id);
    }
    assert(v.tau_bin_count == bins);
    assert(0 <= row < ids.len() * bins) by (nonlinear_arith)
        requires
            row == s * bins + b,
            0 <= s < ids.len(),
            0 <= b < bins,
    ;
    vstd::arithmetic::div_mod::lemma_fundamental_div_mod_converse(row * 256 + k, 256, row, k);
    vstd::arithmetic::div_mod::lemma_fundamental_div_mod_converse(s * 256 + k, 256, s, k);
    assert(v.tau_ref_hi.len() == ids.len() * bins * 256);
    assert(0 <= row * 256 + k < v.tau_ref_hi.len());
    assert(0 <= s * 256 + k < v.fold_ref_hi.len());
    assert(v.fold_ref_hi[s * 256 + k] == folds[s].ref_hi@[k]);
    assert(v.fold_rej_lo[s * 256 + k] == folds[s].rej_lo@[k]);
    if 0 <= i < n && es[i].fold_id == folds[s].fold_id && es[i].tau_bin == b && (forall|j: int|
        i < j < n ==> !((#[trigger] es[j]).fold_id == folds[s].fold_id && es[j].tau_bin == b)) {
        lemma_last_for(t.checkpoint, ids, bins, es, s, b, n, i);
    }
    if forall|j: int|
        0 <= j < n ==> !((#[trigger] es[j]).fold_id == folds[s].fold_id && es[j].tau_bin == b) {
        lemma_last_for(t.checkpoint, ids, bins, es, s, b, n, -1);
    }
}

proof fn lemma_greatest(s: Seq<usize>, n: nat, i: int)
    requires
        0 <= i < n <= s.len(),
    ensures
        greatest_of(s, n) >= s[i],
        exists|k: int| 0 <= k < n && #[trigger] s[k] == greatest_of(s, n),
    decreases n,
{
    if n > 1 {
        if i < n - 1 {
            lemma_greatest(s, (n - 1) as nat, i);
        } else {
            lemma_greatest(s, (n - 1) as nat, 0);
        }
        let k = choose|k: int| 0 <= k < n - 1 && #[trigger] s[k] == greatest_of(s, (n - 1) as nat);
        if s[n - 1] > greatest_of(s, (n - 1) as nat) {
            assert(s[n - 1] == greatest_of(s, n));
        } else {
            assert(s[k] == greatest_of(s, n));
        }
    } else {
        assert(greatest_of(s, 0) == 0);
        assert(s[0] == greatest_of(s, n));
    }
}

/// A policy that lists checkpoints with their levels, and nothing else, uses all of them with these
/// levels, also where the levels are looked up without gaps: a missing level is no number there. The
/// levels for rejections go before those for passing. Its trees are hot up to the greatest
/// checkpoint unless it says how many are.
pub proof fn law_listed_checkpoints_are_used(p: PolicyView, q: int)
    requires
        policy_fault(p) is None,
        !says_used(p),
        p.used_tau_ref_dense.len() == 0,
        p.used_tau_positive_dense.len() > 0 || p.checkpoints.len() == 0,
        0 <= q < p.checkpoints.len(),
    ensures
        ({
            let r = completed(p);
            let levels = if p.tau_reject.len() > 0 {
                p.tau_reject
            } else {
                p.tau_pass
            };
            &&& r.used_checkpoints == p.checkpoints
            &&& r.used_tau_ref == p.tau_ref
            &&& positive(r.used_tau_reject, r.used_tau_pass) == levels
            &&& match p.tau_ref[q] {
                Some(x) => r.used_tau_ref_dense[q] == x,
                None => r.used_tau_ref_dense[q] == 0x7fc0_0000,
            }
            &&& match levels[q] {
                Some(x) => r.used_tau_positive_dense[q] == x,
                None => r.used_tau_positive_dense[q] == 0x7fc0_0000,
            }
            &&& p.k_hot > 0 ==> r.k_hot == p.k_hot
            &&& p.k_hot == 0 ==> r.k_hot >= p.checkpoints[q] && p.checkpoints.contains(r.k_hot)
        }),
{
    let n = p.checkpoints.len();
    lemma_greatest(p.checkpoints, n, q);
    let k = choose|k: int|
        0 <= k < n && #[trigger] p.checkpoints[k] == greatest_of(p.checkpoints, n);
    assert(p.checkpoints.contains(p.checkpoints[k]));
}

proof fn lemma_last_slot(slots: Seq<LoadedDispatchSlot>, slot: i32, n: int, p: int)
    requires
        0 <= n <= slots.len(),
        -1 <= p < n,
        0 <= p ==> slots[p].slot == slot,
        forall|k: int| 0 <= k && p < k < n ==> (#[trigger] slots[k]).slot != slot,
    ensures
        place_of_slot(slots, slot, n) == if 0 <= p {
            Some(p)
        } else {
            None
        },
    decreases n,
{
    if n > 0 && n - 1 != p {
        assert(slots[n - 1].slot != slot);
        lemma_last_slot(slots, slot, n - 1, p);
    }
}

proof fn lemma_bucket(
    slots: Seq<LoadedDispatchSlot>,
    meta: DispatchMeta,
    p: int,
    n: int,
    row: int,
)
    requires
        0 <= n <= usize::MAX,
    ensures
        bucket(slots, meta, p, n).contains(row as usize) && 0 <= row <= usize::MAX <==> 0 <= row < n
            && takes_part(meta, row) && place_of_row(slots, meta, row) == Some(p),
        forall|i: int|
            0 <= i < bucket(slots, meta, p, n).len() ==> #[trigger] bucket(slots, meta, p, n)[i] < n,
        forall|i: int, j: int|
            0 <= i < j < bucket(slots, meta, p, n).len() ==> #[trigger] bucket(slots, meta, p, n)[i]
                < #[trigger] bucket(slots, meta, p, n)[j],
    decreases n,
{
    if n > 0 {
        lemma_bucket(slots, meta, p, n - 1, row);
        let before = bucket(slots, meta, p, n - 1);
        let now = bucket(slots, meta, p, n);
        if takes_part(meta, n - 1) && place_of_row(slots, meta, n - 1) == Some(p) {
            assert(now == before.push((n - 1) as usize));
            assert(now[now.len() - 1] == n - 1);
            if before.contains(row as usize) {
                let i = choose|i: int| 0 <= i < before.len() && before[i] == row as usize;
                assert(now[i] == row as usize);
            }
            if now.contains(row as usize) && row != n - 1 && 0 <= row <= usize::MAX {
                let i = choose|i: int| 0 <= i < now.len() && now[i] == row as usize;
                assert(before[i] == row as usize);
            }
        }
    }
}

/// A row of a batch is scored by the last model with its number, and by no other; a row that takes no
/// part is scored by none. Each model scores its rows in turn, no row twice.
pub proof fn law_rows_go_to_their_model(
    slots: Seq<LoadedDispatchSlot>,
    meta: DispatchMeta,
    n: int,
    row: int,
    p: int,
    other: int,
)
    requires
        0 <= row < n <= usize::MAX,
        0 <= p < slots.len(),
        slots[p].slot == meta.slot_id@[row],
        forall|k: int|
            p < k < slots.len() ==> (#[trigger] slots[k]).slot != meta.slot_id@[row],
        0 <= other < slots.len(),
    ensures
        bucket(slots, meta, other, n).contains(row as usize) <==> meta.active@[row] != 0 && other
            == p,
        forall|i: int, j: int|
            0 <= i < j < bucket(slots, meta, p, n).len() ==> #[trigger] bucket(slots, meta, p, n)[i]
                < #[trigger] bucket(slots, meta, p, n)[j],
{
    lemma_last_slot(slots, meta.slot_id@[row], slots.len() as int, p);
    lemma_bucket(slots, meta, other, n, row);
    lemma_bucket(slots, meta, p, n, row);
}

/// A row of a batch passes exactly if the base score and all trees of its model together reach its
/// threshold: the one that goes with the row, or zero where the model says so. It may stop before
/// the last tree only where the rest cannot lead it back. A row that takes no part does not pass.
pub proof fn law_dispatched_rows_are_on_their_side(
    m: spec_fn(SingleOp) -> u32,
    slots: Seq<LoadedDispatchSlot>,
    b: BatchModel,
    meta: DispatchMeta,
    row: int,
    p: int,
    leaves: Seq<u32>,
)
    requires
        0 <= p < slots.len(),
        slots[p].slot == meta.slot_id@[row],
        forall|k: int|
            p < k < slots.len() ==> (#[trigger] slots[k]).slot != meta.slot_id@[row],
        ({
            let s = slots[p];
            let threshold = if s.threshold_mode == DispatchThresholdMode::Tau {
                meta.tau_used@[row]
            } else {
                0
            };
            &&& plan_ready(s.plan)
            &&& leaves.len() == s.plan.n_trees
            &&& leaves_are(model_leaves(s.model, s.plan.order@, b.row(row), false), leaves)
            &&& unrounded(m, leaves, s.plan, threshold, 0, 0, false, s.base_score, 0)
            &&& within_bounds(leaves, s.plan, 0)
        }),
    ensures
        ({
            let s = slots[p];
            let threshold = if s.threshold_mode == DispatchThresholdMode::Tau {
                meta.tau_used@[row]
            } else {
                0
            };
            let (score, pass, visited) = row_outcome(
                m,
                slots,
                b,
                meta,
                slots.len() as int,
                row,
            );
            &&& meta.active@[row] == 0 ==> !pass && visited == 0
            &&& meta.active@[row] != 0 ==> {
                &&& 0 <= visited <= leaves.len()
                &&& worth(score) == worth(s.base_score) + sum_worth(leaves.take(visited as int))
                &&& pass <==> worth(s.base_score) + sum_worth(leaves) >= worth(threshold)
                &&& visited < leaves.len() ==> settles(
                    leaves,
                    s.plan,
                    threshold,
                    0,
                    s.base_score,
                    0,
                    visited as int,
                    pass,
                )
            }
        }),
{
    let s = slots[p];
    let threshold = row_threshold(s, meta, row);
    lemma_last_slot(slots, meta.slot_id@[row], slots.len() as int, p);
    let c = exact_course(&s.plan, None, InferMode::L2RouteExactReordered, threshold, 0, 0, 1);
    let leaf = model_leaves(s.model, s.plan.order@, b.row(row), false);
    law_opposite_worth(0);
    law_scores_are_sums_of_visited_trees(m, leaf, leaves, c, s.base_score, 0);
    law_stopping_early_keeps_the_side(m, leaf, leaves, c, s.base_score, 0);
    lemma_stops_at_checkpoints(m, leaf, leaves, c, s.base_score, 0);
    assert(leaves.skip(0) =~= leaves);
    let (score, pass, visited) = row_outcome(m, slots, b, meta, slots.len() as int, row);
    assert(leaves.subrange(0, visited as int) =~= leaves.take(visited as int));
}

} // verus!
