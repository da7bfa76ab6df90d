//! Laws on deciding a row before all trees have run: what bands, atlas and network may claim.

use crate::arith::SingleOp;
use crate::bands::{
    band_for, bin_of, bins_of, greatest, guarded, law_guards_only_widen, lemma_bin_range, lesser,
    smallest, table_sound, tolerance, BandView, MILLIONTH,
};
use crate::certify::{
    affinity, certified, cluster_of, fused_affinity, fused_fits, law_fused_leader_fits_best,
    law_leader_fits_best, leader, AtlasView, Certifier, PrefixCertifierKind, RowAt, RowState,
    RowWork,
};
use crate::exact::{law_worth_orders, worth};
use crate::network::{forward, last_entry, network_input, LoadedMlpCheckpoint, NetworkRow};
use crate::rank::{bisect_above, first_above, law_rank_counts_cuts, lemma_first_above_range};
use crate::single::{all_numbers, at_most, below, nan, rising, unsigned, NEG_INFINITY};
use vstd::prelude::*;

verus! {

/// A value that lies between the outer edges lies in its bin: at or above the lower edge of it and
/// below the upper.
pub proof fn law_bins_hold_their_values(edges: Seq<u32>, x: u32)
    requires
        edges.len() >= 2,
        rising(edges),
        !nan(x),
        worth(edges[0]) <= worth(x) < worth(edges.last()),
    ensures
        0 <= bin_of(edges, x) < edges.len() - 1,
        worth(edges[bin_of(edges, x)]) <= worth(x) < worth(edges[bin_of(edges, x) + 1]),
{
    law_rank_counts_cuts(edges, x);
    let n = edges.len() as int;
    let r = bisect_above(edges, x, 0, n);
    assert(r == first_above(edges, x, 0));
    lemma_first_above_range(edges, x, 0);
    assert(!nan(edges[0]) && !nan(edges[n - 1]));
    law_worth_orders(x, edges[n - 1]);
    law_worth_orders(x, edges[0]);
    law_worth_orders(edges[0], x);
    if r == 0 {
        assert(below(x, edges[0]));
    }
    if r == n {
        assert(!below(x, edges[n - 1]));
    }
    assert(!nan(edges[r - 1]) && !nan(edges[r]));
    law_worth_orders(x, edges[r - 1]);
    law_worth_orders(x, edges[r]);
}

/// What a table has been calibrated to for a fold, a bin of the threshold and a bin of the gap: the
/// most and the least that the trees to come were seen to add. The table of fold and bin counts
/// where it is filled, else that of the fold, else the common one.
pub open spec fn calibrated(
    t: BandView,
    slot: Option<int>,
    tau_bin: int,
    k: int,
) -> (u32, u32) {
    match slot {
        None => (t.global_ref_hi[k], t.global_rej_lo[k]),
        Some(s) => {
            let b = if tau_bin < t.tau_bin_count {
                tau_bin
            } else {
                t.tau_bin_count - 1
            };
            let row = s * t.tau_bin_count + b;
            if t.tau_bin_count > 0 && t.tau_ref_hi.len() > 0 && t.tau_fold_mask[row] != 0 {
                (t.tau_ref_hi[row * 256 + k], t.tau_rej_lo[row * 256 + k])
            } else if t.fold_ref_hi.len() > 0 {
                (t.fold_ref_hi[s * 256 + k], t.fold_rej_lo[s * 256 + k])
            } else {
                (t.global_ref_hi[k], t.global_rej_lo[k])
            }
        },
    }
}

/// Whether a gap is so near the edge above its bin that rounding may have moved it across.
pub open spec fn near_above(m: spec_fn(SingleOp) -> u32, edges: Seq<u32>, gap: u32, k: int) -> bool {
    k + 1 < edges.len() - 1 && at_most(
        unsigned(m(SingleOp::Difference(edges[k + 1], gap))),
        0x3586_37bd,
    )
}

/// Whether a gap is so near the edge below its bin that rounding may have moved it across.
pub open spec fn near_below(m: spec_fn(SingleOp) -> u32, edges: Seq<u32>, gap: u32, k: int) -> bool {
    k > 0 && at_most(unsigned(m(SingleOp::Difference(gap, edges[k]))), 0x3586_37bd)
}

/// Whether all entries of a table are numbers.
pub open spec fn entries_are_numbers(t: BandView) -> bool {
    &&& all_numbers(t.global_ref_hi)
    &&& all_numbers(t.global_rej_lo)
    &&& all_numbers(t.fold_ref_hi)
    &&& all_numbers(t.fold_rej_lo)
    &&& all_numbers(t.tau_ref_hi)
    &&& all_numbers(t.tau_rej_lo)
}

proof fn lemma_within_rows(s: int, folds: int, count: int, b: int, k: int)
    requires
        0 <= s < folds,
        0 <= b < count,
        0 <= k < 256,
    ensures
        0 <= s * count + b < folds * count,
        0 <= (s * count + b) * 256 + k < folds * count * 256,
        0 <= s * 256 + k < folds * 256,
{
    assert(s * count + b < folds * count && s * count >= 0) by (nonlinear_arith)
        requires
            0 <= s < folds,
            0 <= b < count,
    ;
    let row = s * count + b;
    assert(row * 256 + k < folds * count * 256) by (nonlinear_arith)
        requires
            0 <= row < folds * count,
            0 <= k < 256,
    ;
}

/// The band that a row is judged by takes in what was calibrated for its fold, its bin of the
/// threshold and its bin of the gap, and for a neighbouring bin that the gap might belong to.
pub proof fn law_bands_cover_what_was_calibrated(
    m: spec_fn(SingleOp) -> u32,
    t: BandView,
    slot: Option<int>,
    tau_bin: int,
    gap: u32,
    k: int,
)
    requires
        table_sound(t),
        entries_are_numbers(t),
        slot matches Some(s) ==> 0 <= s < t.fold_ids.len(),
        0 <= tau_bin,
        ({
            let own = bin_of(t.gap_edges, gap);
            ||| k == own
            ||| k == own + 1 && near_above(m, t.gap_edges, gap, own)
            ||| k == own - 1 && near_below(m, t.gap_edges, gap, own)
        }),
    ensures
        ({
            let (most, least) = calibrated(t, slot, tau_bin, k);
            let (hi, lo) = band_for(m, t, slot, tau_bin, gap);
            &&& !nan(hi) && !nan(lo)
            &&& worth(most) <= worth(hi)
            &&& worth(lo) <= worth(least)
        }),
{
    lemma_bin_range(t.gap_edges, gap);
    let own = bin_of(t.gap_edges, gap);
    let (lo, hi) = guarded(m, t.gap_edges, gap, own);
    let slack = tolerance(m, gap);
    assert(!nan(MILLIONTH));
    assert(at_most(MILLIONTH, slack));
    assert(lo <= own <= hi);
    assert(0 <= lo && hi < bins_of(t.gap_edges));
    assert(lo <= k <= hi);
    let (ref_hi, rej_lo, off) = match slot {
        None => (t.global_ref_hi, t.global_rej_lo, 0int),
        Some(s) => {
            let b = lesser(tau_bin, t.tau_bin_count - 1);
            let row = s * t.tau_bin_count + b;
            if t.tau_bin_count > 0 && t.tau_ref_hi.len() > 0 && t.tau_fold_mask[row] != 0 {
                (t.tau_ref_hi, t.tau_rej_lo, row * 256)
            } else if t.fold_ref_hi.len() > 0 {
                (t.fold_ref_hi, t.fold_rej_lo, s * 256)
            } else {
                (t.global_ref_hi, t.global_rej_lo, 0int)
            }
        },
    };
    if let Some(s) = slot {
        let b = lesser(tau_bin, t.tau_bin_count - 1);
        if t.tau_bin_count > 0 && t.tau_ref_hi.len() > 0 {
            lemma_within_rows(s, t.fold_ids.len() as int, t.tau_bin_count as int, b, lo);
            lemma_within_rows(s, t.fold_ids.len() as int, t.tau_bin_count as int, b, hi);
        }
    }
    assert(0 <= off + lo && off + hi < ref_hi.len() && off + hi < rej_lo.len());
    law_guards_only_widen(ref_hi, rej_lo, off + lo, off + hi, off + k);
    let (x, y) = band_for(m, t, slot, tau_bin, gap);
    assert(x == greatest(ref_hi, off + lo, off + hi));
    assert(y == smallest(rej_lo, off + lo, off + hi));
    law_worth_orders(ref_hi[off + k], x);
    law_worth_orders(y, rej_lo[off + k]);
}

/// A band decides a row exactly where the trees to come cannot lead it across the threshold as long
/// as they stay within the band: the verdict, whatever the certifier, is the side that the row
/// ends on for every such sum, and the score that goes with it is the end of the band.
pub proof fn law_bands_decide_as_the_rest_does(
    m: spec_fn(SingleOp) -> u32,
    c: Certifier,
    t: BandView,
    row: RowAt,
    work: RowWork,
    rest: int,
)
    requires
        ({
            let gap = m(SingleOp::Difference(row.tau, row.score));
            let (hi, lo) = band_for(m, t, row.fold_slot, row.calibration_tau_bin, gap);
            &&& !nan(gap) && worth(gap) == worth(row.tau) - worth(row.score)
            &&& !nan(hi) && !nan(lo)
            &&& worth(lo) <= rest <= worth(hi)
        }),
    ensures
        ({
            let gap = m(SingleOp::Difference(row.tau, row.score));
            let (hi, lo) = band_for(m, t, row.fold_slot, row.calibration_tau_bin, gap);
            let refers = worth(row.score) + worth(hi) < worth(row.tau);
            let rejects = worth(row.score) + worth(lo) >= worth(row.tau);
            &&& refers ==> certified(m, c, t, row, work) == Some(
                (false, m(SingleOp::Sum(row.score, hi))),
            )
            &&& !refers && rejects ==> certified(m, c, t, row, work) == Some(
                (true, m(SingleOp::Sum(row.score, lo))),
            )
            &&& refers || rejects ==> certified(m, c, t, row, work)->Some_0.0 == (worth(row.score)
                + rest >= worth(row.tau))
            &&& !refers && !rejects && c.kind == PrefixCertifierKind::TableV1 ==> certified(
                m,
                c,
                t,
                row,
                work,
            ) is None
        }),
{
    let gap = m(SingleOp::Difference(row.tau, row.score));
    let (hi, lo) = band_for(m, t, row.fold_slot, row.calibration_tau_bin, gap);
    law_worth_orders(hi, gap);
    law_worth_orders(gap, lo);
}

/// Whether the bands leave a row undecided.
pub open spec fn bands_undecided(m: spec_fn(SingleOp) -> u32, t: BandView, row: RowAt) -> bool {
    let gap = m(SingleOp::Difference(row.tau, row.score));
    let (hi, lo) = band_for(m, t, row.fold_slot, row.calibration_tau_bin, gap);
    !below(hi, gap) && !at_most(gap, lo)
}

/// Whether a verdict comes with a score a millionth beside the threshold, on its own side.
pub open spec fn lies_beside(
    m: spec_fn(SingleOp) -> u32,
    v: Option<(bool, u32)>,
    tau: u32,
    reject: bool,
) -> bool {
    v == Some(
        (
            reject,
            if reject {
                m(SingleOp::Sum(tau, 0x3586_37bdu32))
            } else {
                m(SingleOp::Difference(tau, 0x3586_37bdu32))
            },
        ),
    )
}

/// A row that the bands leave undecided is referred where the network's chance at this checkpoint
/// is at most its lower threshold, else rejected where it is at least its upper, else left
/// undecided. The last entry for the checkpoint counts, up to the limit of the network; the network
/// is told of the row what there is to tell.
pub proof fn law_networks_decide_by_their_thresholds(
    m: spec_fn(SingleOp) -> u32,
    c: Certifier,
    t: BandView,
    row: RowAt,
    work: RowWork,
    i: int,
)
    requires
        c.kind == PrefixCertifierKind::MlpV1,
        c.mlp is Some,
        bands_undecided(m, t, row),
        work.checkpoint <= c.mlp->Some_0.checkpoint_limit,
        0 <= i < c.mlp->Some_0.thresholds@.len(),
        c.mlp->Some_0.thresholds@[i].checkpoint == work.checkpoint,
        forall|k: int|
            i < k < c.mlp->Some_0.thresholds@.len()
                ==> (#[trigger] c.mlp->Some_0.thresholds@[k]).checkpoint != work.checkpoint,
    ensures
        ({
            let n = *c.mlp->Some_0;
            let e = n.thresholds@[i];
            let v = certified(m, c, t, row, work);
            let per_tree = |count: u64|
                if work.trees_used == 0 {
                    0u32
                } else {
                    m(
                        SingleOp::Quotient(
                            m(SingleOp::Nearest(count)),
                            m(SingleOp::Nearest(work.trees_used as u64)),
                        ),
                    )
                };
            let p = forward(
                m,
                n,
                network_input(
                    m,
                    n,
                    NetworkRow {
                        checkpoint: work.checkpoint,
                        fold: work.fold,
                        tau: row.tau,
                        score: row.score,
                        gap: m(SingleOp::Difference(row.tau, row.score)),
                        delta_prev: row.delta_prev,
                        delta_from_64: row.delta_from_64,
                        evals_per_tree: per_tree(work.work_evals),
                        trees_used: work.trees_used,
                        early_rate: per_tree(work.resolved_early),
                    },
                ),
            );
            &&& at_most(p, e.tau_ref) ==> lies_beside(m, v, row.tau, false)
            &&& !at_most(p, e.tau_ref) && at_most(e.tau_rej, p) ==> lies_beside(
                m,
                v,
                row.tau,
                true,
            )
            &&& !at_most(p, e.tau_ref) && !at_most(e.tau_rej, p) ==> v is None
        }),
{
    let n = *c.mlp->Some_0;
    lemma_last_entry(n.thresholds@, work.checkpoint, n.thresholds@.len() as int, i);
}

proof fn lemma_last_entry(
    s: Seq<LoadedMlpCheckpoint>,
    checkpoint: usize,
    n: int,
    i: int,
)
    requires
        0 <= i < n <= s.len(),
        s[i].checkpoint == checkpoint,
        forall|k: int| i < k < s.len() ==> (#[trigger] s[k]).checkpoint != checkpoint,
    ensures
        last_entry(s, checkpoint, n) == Some(s[i]),
    decreases n,
{
    if n - 1 > i {
        assert(s[n - 1].checkpoint != checkpoint);
        lemma_last_entry(s, checkpoint, n - 1, i);
    }
}

/// How well cluster `k` of an atlas fits a state, taken exactly: its bias and the weighted features,
/// which are the gap, its size, and the changes of the score since the checkpoint before and since
/// the landmark, each less its mean and scaled.
pub open spec fn fit(m: spec_fn(SingleOp) -> u32, a: AtlasView, s: RowState, k: int) -> int {
    let f = |x: u32, i: int|
        m(SingleOp::Product(m(SingleOp::Difference(x, a.feature_mean[i])), a.feature_inv_std[i]));
    worth(a.centroid_bias[k]) + worth(m(SingleOp::Product(f(s.gap, 0), a.centroid_w0[k]))) + worth(
        m(SingleOp::Product(f(unsigned(s.gap), 1), a.centroid_w1[k])),
    ) + worth(m(SingleOp::Product(f(s.delta_prev, 2), a.centroid_w2[k]))) + worth(
        m(SingleOp::Product(f(s.delta_from_64, 3), a.centroid_w3[k])),
    )
}

/// Whether the caller adds two numbers without rounding.
pub open spec fn sums_exactly(m: spec_fn(SingleOp) -> u32, a: u32, b: u32) -> bool {
    !nan(m(SingleOp::Sum(a, b))) && worth(m(SingleOp::Sum(a, b))) == worth(a) + worth(b)
}

/// Whether the caller adds a product to a number without rounding more than the product itself.
pub open spec fn fuses_exactly(m: spec_fn(SingleOp) -> u32, a: u32, b: u32, c: u32) -> bool {
    let r = m(SingleOp::Fused(a, b, c));
    !nan(r) && worth(r) == worth(m(SingleOp::Product(a, b))) + worth(c)
}

/// Whether what a cluster is compared by is not rounded, however the weighted features are added.
pub open spec fn fit_exactly(m: spec_fn(SingleOp) -> u32, a: AtlasView, s: RowState, k: int) -> bool {
    let f = |x: u32, i: int|
        m(SingleOp::Product(m(SingleOp::Difference(x, a.feature_mean[i])), a.feature_inv_std[i]));
    let f0 = f(s.gap, 0);
    let f1 = f(unsigned(s.gap), 1);
    let f2 = f(s.delta_prev, 2);
    let f3 = f(s.delta_from_64, 3);
    let p0 = m(SingleOp::Product(f0, a.centroid_w0[k]));
    let p1 = m(SingleOp::Product(f1, a.centroid_w1[k]));
    let p2 = m(SingleOp::Product(f2, a.centroid_w2[k]));
    let p3 = m(SingleOp::Product(f3, a.centroid_w3[k]));
    let s1 = m(SingleOp::Sum(p0, p1));
    let s2 = m(SingleOp::Sum(s1, p2));
    let s3 = m(SingleOp::Sum(s2, p3));
    let g0 = m(SingleOp::Fused(f0, a.centroid_w0[k], a.centroid_bias[k]));
    let g1 = m(SingleOp::Fused(f1, a.centroid_w1[k], g0));
    let g2 = m(SingleOp::Fused(f2, a.centroid_w2[k], g1));
    if a.cluster_count == 16 && m(SingleOp::ComparesFused) != 0 {
        &&& fuses_exactly(m, f0, a.centroid_w0[k], a.centroid_bias[k])
        &&& fuses_exactly(m, f1, a.centroid_w1[k], g0)
        &&& fuses_exactly(m, f2, a.centroid_w2[k], g1)
        &&& fuses_exactly(m, f3, a.centroid_w3[k], g2)
    } else {
        &&& sums_exactly(m, p0, p1)
        &&& sums_exactly(m, s1, p2)
        &&& sums_exactly(m, s2, p3)
        &&& sums_exactly(m, s3, a.centroid_bias[k])
    }
}

/// The cluster that an atlas finds for a state is one of its clusters, and no other fits better.
pub proof fn law_clusters_fit_best(
    m: spec_fn(SingleOp) -> u32,
    a: AtlasView,
    s: RowState,
    j: int,
)
    requires
        a.cluster_count > 0,
        a.cluster_count == 16 ==> a.centroids16,
        0 <= j < a.cluster_count,
        forall|k: int| 0 <= k < a.cluster_count ==> #[trigger] fit_exactly(m, a, s, k),
    ensures
        cluster_of(m, a, s) matches Some(k) && 0 <= k < a.cluster_count && fit(m, a, s, j) <= fit(
            m,
            a,
            s,
            k,
        ),
{
    let k = cluster_of(m, a, s)->Some_0;
    assert(fit_exactly(m, a, s, j));
    if a.cluster_count == 16 && m(SingleOp::ComparesFused) != 0 {
        assert forall|i: int| 0 <= i < fused_fits(m, a, s).len() implies !nan(
            #[trigger] fused_fits(m, a, s)[i],
        ) by {
            assert(fit_exactly(m, a, s, i));
        }
        law_fused_leader_fits_best(m, a, s, j);
        assert(fit_exactly(m, a, s, k));
        law_worth_orders(fused_affinity(m, a, s, k), fused_affinity(m, a, s, j));
    } else {
        law_leader_fits_best(m, a, s, a.cluster_count as nat, j);
        lemma_leader_is_affinity(m, a, s, a.cluster_count as nat);
        assert(fit_exactly(m, a, s, k));
        law_worth_orders(affinity(m, a, s, k), affinity(m, a, s, j));
    }
}

proof fn lemma_leader_is_affinity(m: spec_fn(SingleOp) -> u32, a: AtlasView, s: RowState, n: nat)
    requires
        0 < n <= a.cluster_count,
        !(a.cluster_count == 16 && m(SingleOp::ComparesFused) != 0),
        forall|k: int| 0 <= k < a.cluster_count ==> #[trigger] fit_exactly(m, a, s, k),
    ensures
        0 <= leader(m, a, s, n).0 < n,
        below(NEG_INFINITY, leader(m, a, s, n).1) ==> leader(m, a, s, n).1
            == affinity(m, a, s, leader(m, a, s, n).0),
        !below(NEG_INFINITY, leader(m, a, s, n).1) ==> leader(m, a, s, n) == (
            0int,
            NEG_INFINITY,
        ),
    decreases n,
{
    assert(fit_exactly(m, a, s, n - 1));
    if n > 1 {
        lemma_leader_is_affinity(m, a, s, (n - 1) as nat);
    }
}

/// A row that the bands leave undecided is decided by the atlas as the cell says that belongs to its
/// bin of the threshold, its cluster and its bin of the gap: one refers, two rejects, anything else
/// leaves it undecided. There are 256 cells to a cluster.
pub proof fn law_atlases_decide_by_their_cells(
    m: spec_fn(SingleOp) -> u32,
    c: Certifier,
    t: BandView,
    row: RowAt,
    work: RowWork,
)
    requires
        c.kind == PrefixCertifierKind::AtlasV1,
        c.atlas is Some,
        row.slot < c.atlas->Some_0.checkpoints@.len(),
        bands_undecided(m, t, row),
    ensures
        ({
            let a = c.atlas->Some_0.checkpoints@[row.slot as int]@;
            let gap = m(SingleOp::Difference(row.tau, row.score));
            let s = RowState { gap, delta_prev: row.delta_prev, delta_from_64: row.delta_from_64 };
            let v = certified(m, c, t, row, work);
            let bin = bin_of(
                if a.shared_gap_edges {
                    t.gap_edges
                } else {
                    a.gap_edges
                },
                gap,
            );
            let g = if bin < 255 {
                bin
            } else {
                255
            };
            let b = if row.atlas_tau_bin < a.tau_bin_count {
                row.atlas_tau_bin
            } else if a.tau_bin_count > 0 {
                a.tau_bin_count - 1
            } else {
                0
            };
            match cluster_of(m, a, s) {
                None => v is None,
                Some(k) => {
                    let cell = a.decision_grid[(b * a.cluster_count + k) * 256 + g];
                    &&& k >= a.cluster_count ==> v is None
                    &&& k < a.cluster_count && cell == 1 ==> lies_beside(m, v, row.tau, false)
                    &&& k < a.cluster_count && cell == 2 ==> lies_beside(m, v, row.tau, true)
                    &&& k < a.cluster_count && cell != 1 && cell != 2 ==> v is None
                },
            }
        }),
{
}

} // verus!
