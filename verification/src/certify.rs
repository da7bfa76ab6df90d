//! Deciding a row at a checkpoint: by the calibrated bands, by an atlas of states, or by a network.

use crate::arith::{answers, follows, SingleOp};
use crate::bands::{
    as_place, band_for, bin_of, fold_slot, lemma_slot_range, lesser, less_to_zero,
    lookup_prefix_bands_dense, lookup_prefix_bands_with_tau_bin_slot, prefix_fold_slot,
    prefix_gap_bin, prefix_gap_bin_guard, table_sound, tau_bin_of, BandView, LoadedPrefixCheckpoint,
    MILLIONTH,
};
use crate::network::{
    build_mlp_input, chance, mlp_forward, network_fits, LoadedMlpCertifier, NetworkRow,
};
use crate::single::{absolute, all_numbers, at_most, below, le, lt, nan, unsigned, NEG_INFINITY};
use vstd::prelude::*;

verus! {

/// How rows are decided at a checkpoint beyond the calibrated bands.
#[derive(Clone, Copy, Debug, PartialEq, Eq, Structural)]
pub enum PrefixCertifierKind {
    TableV1,
    AtlasV1,
    MlpV1,
}

/// The atlas of one checkpoint: clusters of states, and for each bin of the threshold and cluster
/// a row of decisions by gap.
#[derive(Debug)]
pub struct LoadedPrefixAtlasCheckpoint {
    pub checkpoint: usize,
    pub gap_edges: Vec<u32>,
    pub shared_gap_edges: bool,
    pub feature_mean: [u32; 4],
    pub feature_inv_std: [u32; 4],
    pub cluster_count: usize,
    pub tau_bin_count: usize,
    pub centroid_w0: Vec<u32>,
    pub centroid_w1: Vec<u32>,
    pub centroid_w2: Vec<u32>,
    pub centroid_w3: Vec<u32>,
    pub centroid_bias: Vec<u32>,
    /// Whether there are sixteen clusters and sixteen of every weight.
    pub centroids16: bool,
    pub decision_grid: Vec<u8>,
}

/// What the atlas of one checkpoint holds.
#[verifier::ext_equal]
pub struct AtlasView {
    pub checkpoint: usize,
    pub gap_edges: Seq<u32>,
    pub shared_gap_edges: bool,
    pub feature_mean: Seq<u32>,
    pub feature_inv_std: Seq<u32>,
    pub cluster_count: usize,
    pub tau_bin_count: usize,
    pub centroid_w0: Seq<u32>,
    pub centroid_w1: Seq<u32>,
    pub centroid_w2: Seq<u32>,
    pub centroid_w3: Seq<u32>,
    pub centroid_bias: Seq<u32>,
    pub centroids16: bool,
    pub decision_grid: Seq<u8>,
}

impl View for LoadedPrefixAtlasCheckpoint {
    type V = AtlasView;

    open spec fn view(&self) -> AtlasView {
        AtlasView {
            checkpoint: self.checkpoint,
            gap_edges: self.gap_edges@,
            shared_gap_edges: self.shared_gap_edges,
            feature_mean: self.feature_mean@,
            feature_inv_std: self.feature_inv_std@,
            cluster_count: self.cluster_count,
            tau_bin_count: self.tau_bin_count,
            centroid_w0: self.centroid_w0@,
            centroid_w1: self.centroid_w1@,
            centroid_w2: self.centroid_w2@,
            centroid_w3: self.centroid_w3@,
            centroid_bias: self.centroid_bias@,
            centroids16: self.centroids16,
            decision_grid: self.decision_grid@,
        }
    }
}

/// Whether every cluster that is looked at has its weights.
pub open spec fn weights_fit(a: AtlasView) -> bool {
    (a.cluster_count == 16 && !a.centroids16) || {
        &&& a.cluster_count <= a.centroid_w0.len()
        &&& a.cluster_count <= a.centroid_w1.len()
        &&& a.cluster_count <= a.centroid_w2.len()
        &&& a.cluster_count <= a.centroid_w3.len()
        &&& a.cluster_count <= a.centroid_bias.len()
    }
}

/// Whether clusters and decisions hold everything that can be looked up in them.
pub open spec fn atlas_sound(a: AtlasView) -> bool {
    &&& weights_fit(a)
    &&& (if a.tau_bin_count == 0 {
        1
    } else {
        a.tau_bin_count as int
    }) * a.cluster_count * 256 <= a.decision_grid.len()
}

impl LoadedPrefixAtlasCheckpoint {
    /// Finds out whether clusters and decisions hold everything that can be looked up in them.
    pub fn sound(&self) -> (r: bool)
        ensures
            r == atlas_sound(self@),
    {
        let taus: usize = if self.tau_bin_count == 0 {
            1
        } else {
            self.tau_bin_count
        };
        let n: usize = self.decision_grid.len();
        let count: usize = self.cluster_count;
        if (count != 16 || self.centroids16) && (count > self.centroid_w0.len() || count
            > self.centroid_w1.len() || count > self.centroid_w2.len() || count
            > self.centroid_w3.len() || count > self.centroid_bias.len()) {
            return false;
        }
        if self.cluster_count == 0 {
            assert(taus * self.cluster_count == 0) by (nonlinear_arith)
                requires
                    self.cluster_count == 0,
            ;
            return true;
        }
        match taus.checked_mul(self.cluster_count) {
            None => {
                assert(taus * self.cluster_count * 256 > n);
                false
            },
            Some(rows) => match rows.checked_mul(256) {
                None => false,
                Some(cells) => cells <= n,
            },
        }
    }
}

/// A state of a row at a checkpoint.
pub struct RowState {
    pub gap: u32,
    pub delta_prev: u32,
    pub delta_from_64: u32,
}

/// A value brought to the scale of feature `i`.
pub open spec fn scaled(m: spec_fn(SingleOp) -> u32, a: AtlasView, x: u32, i: int) -> u32 {
    m(SingleOp::Product(m(SingleOp::Difference(x, a.feature_mean[i])), a.feature_inv_std[i]))
}

/// The four features of a state: the gap, its size, and the two changes of the score.
pub open spec fn features_of(m: spec_fn(SingleOp) -> u32, a: AtlasView, s: RowState) -> (
    u32,
    u32,
    u32,
    u32,
) {
    (
        scaled(m, a, s.gap, 0),
        scaled(m, a, unsigned(s.gap), 1),
        scaled(m, a, s.delta_prev, 2),
        scaled(m, a, s.delta_from_64, 3),
    )
}

/// How well cluster `k` fits a state: the weighted features, added up in order, and the bias.
pub open spec fn affinity(m: spec_fn(SingleOp) -> u32, a: AtlasView, s: RowState, k: int) -> u32 {
    let f = features_of(m, a, s);
    let p0 = m(SingleOp::Product(f.0, a.centroid_w0[k]));
    let p1 = m(SingleOp::Product(f.1, a.centroid_w1[k]));
    let p2 = m(SingleOp::Product(f.2, a.centroid_w2[k]));
    let p3 = m(SingleOp::Product(f.3, a.centroid_w3[k]));
    let s1 = m(SingleOp::Sum(p0, p1));
    let s2 = m(SingleOp::Sum(s1, p2));
    let s3 = m(SingleOp::Sum(s2, p3));
    m(SingleOp::Sum(s3, a.centroid_bias[k]))
}

/// The first of the first `n` clusters that fits best, and how well it does.
pub open spec fn leader(m: spec_fn(SingleOp) -> u32, a: AtlasView, s: RowState, n: nat) -> (int, u32)
    decreases n,
{
    if n == 0 {
        (0, NEG_INFINITY)
    } else {
        let (k, best) = leader(m, a, s, (n - 1) as nat);
        let next = affinity(m, a, s, n - 1);
        if below(best, next) {
            (n - 1, next)
        } else {
            (k, best)
        }
    }
}

/// No cluster fits better than the leader.
pub proof fn law_leader_fits_best(
    m: spec_fn(SingleOp) -> u32,
    a: AtlasView,
    s: RowState,
    n: nat,
    j: int,
)
    requires
        0 <= j < n,
    ensures
        !below(leader(m, a, s, n).1, affinity(m, a, s, j)),
        0 <= leader(m, a, s, n).0 < n,
    decreases n,
{
    if j < n - 1 {
        law_leader_fits_best(m, a, s, (n - 1) as nat, j);
    } else if n > 1 {
        law_leader_fits_best(m, a, s, (n - 1) as nat, 0);
    }
}

/// How well cluster `k` fits a state by fused operations: the bias, and the weighted features added
/// to it in order.
pub open spec fn fused_affinity(
    m: spec_fn(SingleOp) -> u32,
    a: AtlasView,
    s: RowState,
    k: int,
) -> u32 {
    let f = features_of(m, a, s);
    let s0 = m(SingleOp::Fused(f.0, a.centroid_w0[k], a.centroid_bias[k]));
    let s1 = m(SingleOp::Fused(f.1, a.centroid_w1[k], s0));
    let s2 = m(SingleOp::Fused(f.2, a.centroid_w2[k], s1));
    m(SingleOp::Fused(f.3, a.centroid_w3[k], s2))
}

/// How well sixteen clusters fit a state by fused operations.
pub open spec fn fused_fits(m: spec_fn(SingleOp) -> u32, a: AtlasView, s: RowState) -> Seq<u32> {
    Seq::new(16, |k: int| fused_affinity(m, a, s, k))
}

/// The greater of two values: the second where they are alike or one is no number.
pub open spec fn greater(a: u32, b: u32) -> u32 {
    if below(b, a) {
        a
    } else {
        b
    }
}

/// The greatest of the first `n` pairs, each of a value and the one eight places on.
pub open spec fn greatest_of_pairs(fits: Seq<u32>, n: nat) -> u32
    decreases n,
{
    if n == 0 {
        NEG_INFINITY
    } else {
        let best = greatest_of_pairs(fits, (n - 1) as nat);
        let next = greater(fits[n - 1], fits[n - 1 + 8]);
        if below(best, next) {
            next
        } else {
            best
        }
    }
}

/// The first place from `k` on at which a value stands. There is none for what is no number.
pub open spec fn place_of(fits: Seq<u32>, x: u32, k: int) -> Option<int>
    decreases fits.len() - k,
{
    if k < 0 || k >= fits.len() {
        None
    } else if at_most(fits[k], x) && at_most(x, fits[k]) {
        Some(k)
    } else {
        place_of(fits, x, k + 1)
    }
}

/// What stands for the place of a cluster where none of sixteen fits best.
pub const NO_CLUSTER: usize = 40;

/// The one of sixteen clusters that fits best by fused operations.
pub open spec fn fused_leader(m: spec_fn(SingleOp) -> u32, a: AtlasView, s: RowState) -> int {
    let fits = fused_fits(m, a, s);
    match place_of(fits, greatest_of_pairs(fits, 8), 0) {
        Some(k) => k,
        None => NO_CLUSTER as int,
    }
}

/// Where all of them are numbers, the greatest of the pairs stands among them and none is greater.
proof fn lemma_greatest_of_pairs(fits: Seq<u32>, n: nat)
    requires
        fits.len() == 16,
        all_numbers(fits),
        n <= 8,
    ensures
        !nan(greatest_of_pairs(fits, n)),
        forall|j: int|
            0 <= j < n ==> !below(greatest_of_pairs(fits, n), #[trigger] fits[j]) && !below(
                greatest_of_pairs(fits, n),
                fits[j + 8],
            ),
        greatest_of_pairs(fits, n) == NEG_INFINITY || exists|j: int|
            0 <= j < 16 && #[trigger] fits[j] == greatest_of_pairs(fits, n),
    decreases n,
{
    if n > 0 {
        lemma_greatest_of_pairs(fits, (n - 1) as nat);
        assert(!nan(fits[n - 1]) && !nan(fits[n - 1 + 8]));
        let best = greatest_of_pairs(fits, (n - 1) as nat);
        let now = greatest_of_pairs(fits, n);
        assert forall|j: int| 0 <= j < n implies !below(now, #[trigger] fits[j]) && !below(
            now,
            fits[j + 8],
        ) by {
            assert(!nan(fits[j]) && !nan(fits[j + 8]));
            if j < n - 1 {
                assert(!below(best, fits[j]));
            }
        }
    }
}

proof fn lemma_place_of(fits: Seq<u32>, x: u32, k: int, j: int)
    requires
        0 <= k <= j < fits.len(),
        at_most(fits[j], x) && at_most(x, fits[j]),
    ensures
        place_of(fits, x, k) matches Some(i) && k <= i <= j && at_most(fits[i], x) && at_most(
            x,
            fits[i],
        ),
    decreases j - k,
{
    if !(at_most(fits[k], x) && at_most(x, fits[k])) {
        lemma_place_of(fits, x, k + 1, j);
    }
}

/// Where it is a number how well each of sixteen clusters fits, none fits better than the leader
/// by fused operations.
pub proof fn law_fused_leader_fits_best(
    m: spec_fn(SingleOp) -> u32,
    a: AtlasView,
    s: RowState,
    j: int,
)
    requires
        0 <= j < 16,
        all_numbers(fused_fits(m, a, s)),
    ensures
        0 <= fused_leader(m, a, s) < 16,
        !below(fused_affinity(m, a, s, fused_leader(m, a, s)), fused_affinity(m, a, s, j)),
{
    let fits = fused_fits(m, a, s);
    let best = greatest_of_pairs(fits, 8);
    lemma_greatest_of_pairs(fits, 8);
    if best == NEG_INFINITY {
        assert(!below(best, fits[0]));
        assert(!nan(fits[0]));
        lemma_place_of(fits, best, 0, 0);
    } else {
        let i = choose|i: int| 0 <= i < 16 && #[trigger] fits[i] == best;
        assert(!nan(fits[i]));
        lemma_place_of(fits, best, 0, i);
    }
    assert(!nan(fits[j]));
    if j < 8 {
        assert(!below(best, fits[j]));
    } else {
        assert(!below(best, fits[j - 8]));
        assert(!below(best, fits[(j - 8) + 8]));
    }
}

/// The cluster of a state. Sixteen clusters are looked at only where the weights are sixteen too,
/// and are compared by fused operations where the caller says so.
pub open spec fn cluster_of(m: spec_fn(SingleOp) -> u32, a: AtlasView, s: RowState) -> Option<int> {
    if a.cluster_count == 0 || (a.cluster_count == 16 && !a.centroids16) {
        None
    } else if a.cluster_count == 16 && m(SingleOp::ComparesFused) != 0 {
        Some(fused_leader(m, a, s))
    } else {
        Some(leader(m, a, s, a.cluster_count as nat).0)
    }
}

fn scale<A: Fn(SingleOp) -> u32>(
    arith: &A,
    table: &LoadedPrefixAtlasCheckpoint,
    x: u32,
    i: usize,
) -> (r: u32)
    requires
        answers(*arith),
        i < 4,
    ensures
        forall|m: spec_fn(SingleOp) -> u32| #[trigger]
            follows(*arith, m) ==> r == scaled(m, table@, x, i as int),
{
    let d: u32 = arith(SingleOp::Difference(x, table.feature_mean[i]));
    let p: u32 = arith(SingleOp::Product(d, table.feature_inv_std[i]));
    p
}

/// Computes [`fused_leader`].
fn lead_fused<A: Fn(SingleOp) -> u32>(
    arith: &A,
    table: &LoadedPrefixAtlasCheckpoint,
    f: (u32, u32, u32, u32),
    Ghost(s): Ghost<RowState>,
) -> (r: usize)
    requires
        answers(*arith),
        weights_fit(table@),
        table.cluster_count == 16,
        table.centroids16,
        forall|m: spec_fn(SingleOp) -> u32| #[trigger]
            follows(*arith, m) ==> f == features_of(m, table@, s),
    ensures
        forall|m: spec_fn(SingleOp) -> u32| #[trigger]
            follows(*arith, m) ==> r == fused_leader(m, table@, s),
{
    let mut fits: Vec<u32> = Vec::new();
    let mut k: usize = 0;
    while k < 16
        invariant
            answers(*arith),
            weights_fit(table@),
            table.cluster_count == 16,
            table.centroids16,
            k <= 16,
            fits@.len() == k,
            forall|m: spec_fn(SingleOp) -> u32| #[trigger]
                follows(*arith, m) ==> f == features_of(m, table@, s),
            forall|m: spec_fn(SingleOp) -> u32| #[trigger]
                follows(*arith, m) ==> fits@ == fused_fits(m, table@, s).take(k as int),
        decreases 16 - k,
    {
        let ghost before = fits@;
        let s0: u32 = arith(SingleOp::Fused(f.0, table.centroid_w0[k], table.centroid_bias[k]));
        let s1: u32 = arith(SingleOp::Fused(f.1, table.centroid_w1[k], s0));
        let s2: u32 = arith(SingleOp::Fused(f.2, table.centroid_w2[k], s1));
        let fit: u32 = arith(SingleOp::Fused(f.3, table.centroid_w3[k], s2));
        fits.push(fit);
        k += 1;
        assert forall|m: spec_fn(SingleOp) -> u32| #[trigger] follows(*arith, m) implies fits@
            == fused_fits(m, table@, s).take(k as int) by {
            assert(fit == fused_affinity(m, table@, s, k - 1));
            assert(fits@ =~= fused_fits(m, table@, s).take(k as int));
        }
    }
    let ghost all = fits@;
    let mut best: u32 = NEG_INFINITY;
    let mut n: usize = 0;
    while n < 8
        invariant
            n <= 8,
            all == fits@,
            all.len() == 16,
            best == greatest_of_pairs(all, n as nat),
        decreases 8 - n,
    {
        let next: u32 = if lt(fits[n + 8], fits[n]) {
            fits[n]
        } else {
            fits[n + 8]
        };
        if lt(best, next) {
            best = next;
        }
        n += 1;
    }
    assert forall|m: spec_fn(SingleOp) -> u32| #[trigger] follows(*arith, m) implies all
        == fused_fits(m, table@, s) by {
        assert(fused_fits(m, table@, s).take(16) =~= fused_fits(m, table@, s));
    }
    let mut at: usize = 0;
    while at < 16
        invariant
            at <= 16,
            all == fits@,
            all.len() == 16,
            place_of(all, best, 0) == place_of(all, best, at as int),
            best == greatest_of_pairs(all, 8),
            forall|m: spec_fn(SingleOp) -> u32| #[trigger]
                follows(*arith, m) ==> all == fused_fits(m, table@, s),
        decreases 16 - at,
    {
        if le(fits[at], best) && le(best, fits[at]) {
            return at;
        }
        at += 1;
    }
    NO_CLUSTER
}

/// Computes [`cluster_of`].
pub fn atlas_cluster_id<A: Fn(SingleOp) -> u32>(
    arith: &A,
    table: &LoadedPrefixAtlasCheckpoint,
    gap: u32,
    delta_prev: u32,
    delta_from_64: u32,
) -> (r: Option<usize>)
    requires
        answers(*arith),
        weights_fit(table@),
    ensures
        forall|m: spec_fn(SingleOp) -> u32| #[trigger]
            follows(*arith, m) ==> as_place(r) == cluster_of(
                m,
                table@,
                RowState { gap, delta_prev, delta_from_64 },
            ),
{
    let count: usize = table.cluster_count;
    if count == 0 || (count == 16 && !table.centroids16) {
        return None;
    }
    let ghost s = RowState { gap, delta_prev, delta_from_64 };
    let f: (u32, u32, u32, u32) = (
        scale(arith, table, gap, 0),
        scale(arith, table, absolute(gap), 1),
        scale(arith, table, delta_prev, 2),
        scale(arith, table, delta_from_64, 3),
    );
    if count == 16 {
        let fused: u32 = arith(SingleOp::ComparesFused);
        if fused != 0 {
            return Some(lead_fused(arith, table, f, Ghost(s)));
        }
    }
    let mut best: usize = 0;
    let mut best_fit: u32 = NEG_INFINITY;
    let mut k: usize = 0;
    while k < count
        invariant
            answers(*arith),
            weights_fit(table@),
            count == table.cluster_count,
            count != 16 || table.centroids16,
            count > 0,
            k <= count,
            best < count,
            s == (RowState { gap, delta_prev, delta_from_64 }),
            forall|m: spec_fn(SingleOp) -> u32| #[trigger]
                follows(*arith, m) ==> f == features_of(m, table@, s),
            forall|m: spec_fn(SingleOp) -> u32| #[trigger]
                follows(*arith, m) ==> (best as int, best_fit) == leader(m, table@, s, k as nat),
        decreases count - k,
    {
        let p0: u32 = arith(SingleOp::Product(f.0, table.centroid_w0[k]));
        let p1: u32 = arith(SingleOp::Product(f.1, table.centroid_w1[k]));
        let p2: u32 = arith(SingleOp::Product(f.2, table.centroid_w2[k]));
        let p3: u32 = arith(SingleOp::Product(f.3, table.centroid_w3[k]));
        let s1: u32 = arith(SingleOp::Sum(p0, p1));
        let s2: u32 = arith(SingleOp::Sum(s1, p2));
        let s3: u32 = arith(SingleOp::Sum(s2, p3));
        let fit: u32 = arith(SingleOp::Sum(s3, table.centroid_bias[k]));
        assert forall|m: spec_fn(SingleOp) -> u32| #[trigger] follows(*arith, m) implies fit
            == affinity(m, table@, s, k as int) by {}
        if lt(best_fit, fit) {
            best_fit = fit;
            best = k;
        }
        k += 1;
    }
    Some(best)
}

/// The decision of the atlas: whether to reject, where it has one.
pub open spec fn atlas_verdict(
    m: spec_fn(SingleOp) -> u32,
    a: AtlasView,
    tau_bin: int,
    gap_bin: int,
    s: RowState,
) -> Option<bool> {
    match cluster_of(m, a, s) {
        None => None,
        Some(k) => if k >= a.cluster_count {
            None
        } else {
            let tb = lesser(tau_bin, less_to_zero(a.tau_bin_count as int, 1));
            let cell = a.decision_grid[(tb * a.cluster_count + k) * 256 + lesser(gap_bin, 255)];
            if cell == 1 {
                Some(false)
            } else if cell == 2 {
                Some(true)
            } else {
                None
            }
        },
    }
}

/// Computes [`atlas_verdict`].
pub fn lookup_prefix_atlas<A: Fn(SingleOp) -> u32>(
    arith: &A,
    table: &LoadedPrefixAtlasCheckpoint,
    tau_bin: usize,
    gap_bin: usize,
    gap: u32,
    delta_prev: u32,
    delta_from_64: u32,
) -> (r: Option<bool>)
    requires
        answers(*arith),
        atlas_sound(table@),
    ensures
        forall|m: spec_fn(SingleOp) -> u32| #[trigger]
            follows(*arith, m) ==> r == atlas_verdict(
                m,
                table@,
                tau_bin as int,
                gap_bin as int,
                RowState { gap, delta_prev, delta_from_64 },
            ),
{
    let k: usize = match atlas_cluster_id(arith, table, gap, delta_prev, delta_from_64) {
        None => {
            return None;
        },
        Some(k) => k,
    };
    if k >= table.cluster_count {
        return None;
    }
    let last: usize = if table.tau_bin_count >= 1 {
        table.tau_bin_count - 1
    } else {
        0
    };
    let tb: usize = if tau_bin <= last {
        tau_bin
    } else {
        last
    };
    let gb: usize = if gap_bin <= 255 {
        gap_bin
    } else {
        255
    };
    let n: usize = table.decision_grid.len();
    proof {
        let c = table.cluster_count as int;
        let taus = if table.tau_bin_count == 0 {
            1
        } else {
            table.tau_bin_count as int
        };
        assert(tb * c + k < taus * c) by (nonlinear_arith)
            requires
                0 <= tb < taus,
                0 <= k < c,
        ;
        assert(0 <= tb * c) by (nonlinear_arith)
            requires
                0 <= tb,
                0 <= c,
        ;
        assert((tb * c + k) * 256 + gb < n);
    }
    let row: usize = tb * table.cluster_count + k;
    let cell: u8 = table.decision_grid[row * 256 + gb];
    if cell == 1 {
        Some(false)
    } else if cell == 2 {
        Some(true)
    } else {
        None
    }
}

/// The verdict of a band: referred when the gap lies above the one bound, rejected when it does
/// not lie above the other.
pub open spec fn band_verdict(
    m: spec_fn(SingleOp) -> u32,
    bounds: (u32, u32),
    gap: u32,
    score: u32,
) -> Option<(bool, u32)> {
    if below(bounds.0, gap) {
        Some((false, m(SingleOp::Sum(score, bounds.0))))
    } else if at_most(gap, bounds.1) {
        Some((true, m(SingleOp::Sum(score, bounds.1))))
    } else {
        None
    }
}

fn judge_band<A: Fn(SingleOp) -> u32>(arith: &A, bounds: (u32, u32), gap: u32, score: u32) -> (r:
    Option<(bool, u32)>)
    requires
        answers(*arith),
    ensures
        forall|m: spec_fn(SingleOp) -> u32| #[trigger]
            follows(*arith, m) ==> r == band_verdict(m, bounds, gap, score),
{
    if lt(bounds.0, gap) {
        let route: u32 = arith(SingleOp::Sum(score, bounds.0));
        return Some((false, route));
    }
    if le(gap, bounds.1) {
        let route: u32 = arith(SingleOp::Sum(score, bounds.1));
        return Some((true, route));
    }
    None
}

/// A verdict with a route score just on its side of the threshold.
pub open spec fn beside(m: spec_fn(SingleOp) -> u32, reject: bool, tau: u32) -> (bool, u32) {
    (
        reject,
        if reject {
            m(SingleOp::Sum(tau, MILLIONTH))
        } else {
            m(SingleOp::Difference(tau, MILLIONTH))
        },
    )
}

fn put_beside<A: Fn(SingleOp) -> u32>(arith: &A, reject: bool, tau: u32) -> (r: (bool, u32))
    requires
        answers(*arith),
    ensures
        forall|m: spec_fn(SingleOp) -> u32| #[trigger]
            follows(*arith, m) ==> r == beside(m, reject, tau),
{
    let route: u32 = if reject {
        arith(SingleOp::Sum(tau, MILLIONTH))
    } else {
        arith(SingleOp::Difference(tau, MILLIONTH))
    };
    (reject, route)
}

/// The bin of the gap in the atlas.
pub open spec fn atlas_gap_bin(t: BandView, a: AtlasView, gap: u32) -> int {
    lesser(
        if a.shared_gap_edges {
            bin_of(t.gap_edges, gap)
        } else {
            bin_of(a.gap_edges, gap)
        },
        255,
    )
}

/// A row at a checkpoint: what its verdict depends on besides the tables.
pub struct RowAt {
    pub slot: usize,
    pub fold_slot: Option<int>,
    pub tau: u32,
    pub atlas_tau_bin: int,
    pub calibration_tau_bin: int,
    pub score: u32,
    pub delta_prev: u32,
    pub delta_from_64: u32,
}

/// The verdict of the bands and, failing that, of the atlas.
pub open spec fn atlas_certified(
    m: spec_fn(SingleOp) -> u32,
    t: BandView,
    a: AtlasView,
    row: RowAt,
) -> Option<(bool, u32)> {
    let gap = m(SingleOp::Difference(row.tau, row.score));
    match band_verdict(
        m,
        band_for(m, t, row.fold_slot, row.calibration_tau_bin, gap),
        gap,
        row.score,
    ) {
        Some(v) => Some(v),
        None => match atlas_verdict(
            m,
            a,
            row.atlas_tau_bin,
            atlas_gap_bin(t, a, gap),
            RowState { gap, delta_prev: row.delta_prev, delta_from_64: row.delta_from_64 },
        ) {
            Some(reject) => Some(beside(m, reject, row.tau)),
            None => None,
        },
    }
}

/// Computes [`atlas_certified`].
pub fn maybe_prefix_certify_atlas_fast<A: Fn(SingleOp) -> u32>(
    arith: &A,
    table: &LoadedPrefixCheckpoint,
    atlas_table: &LoadedPrefixAtlasCheckpoint,
    slot: usize,
    row_fold_slot: Option<usize>,
    row_tau: u32,
    row_tau_bin: usize,
    row_calibration_tau_bin: usize,
    prefix_score: u32,
    delta_prev: u32,
    delta_from_64: u32,
) -> (r: Option<(bool, u32)>)
    requires
        answers(*arith),
        table_sound(table@),
        atlas_sound(atlas_table@),
        row_fold_slot matches Some(s) ==> s < table@.fold_ids.len(),
    ensures
        forall|m: spec_fn(SingleOp) -> u32| #[trigger]
            follows(*arith, m) ==> r == atlas_certified(
                m,
                table@,
                atlas_table@,
                (RowAt {
                    slot,
                    fold_slot: as_place(row_fold_slot),
                    tau: row_tau,
                    atlas_tau_bin: row_tau_bin as int,
                    calibration_tau_bin: row_calibration_tau_bin as int,
                    score: prefix_score,
                    delta_prev,
                    delta_from_64,
                }),
            ),
{
    let gap: u32 = arith(SingleOp::Difference(row_tau, prefix_score));
    let band_bin: usize = prefix_gap_bin(table.gap_edges.as_slice(), gap);
    let (guard_lo, guard_hi) = prefix_gap_bin_guard(
        arith,
        table.gap_edges.as_slice(),
        gap,
        band_bin,
    );
    let bounds: (u32, u32) = lookup_prefix_bands_dense(
        table,
        row_fold_slot,
        if table.tau_bin_count == 0 {
            None
        } else {
            Some(row_calibration_tau_bin)
        },
        guard_lo,
        guard_hi,
    );
    match judge_band(arith, bounds, gap, prefix_score) {
        Some(v) => {
            return Some(v);
        },
        None => {},
    }
    let bin: usize = if atlas_table.shared_gap_edges {
        band_bin
    } else {
        prefix_gap_bin(atlas_table.gap_edges.as_slice(), gap)
    };
    let capped: usize = if bin <= 255 {
        bin
    } else {
        255
    };
    match lookup_prefix_atlas(
        arith,
        atlas_table,
        row_tau_bin,
        capped,
        gap,
        delta_prev,
        delta_from_64,
    ) {
        Some(reject) => Some(put_beside(arith, reject, row_tau)),
        None => None,
    }
}

/// Bands and atlas of one checkpoint.
#[derive(Debug)]
pub struct LoadedPrefixCertifyCheckpoint {
    pub table: LoadedPrefixCheckpoint,
    pub atlas: LoadedPrefixAtlasCheckpoint,
}

/// Bands and atlas of every checkpoint slot.
#[derive(Debug)]
pub struct LoadedPrefixCertifyPlan {
    pub tau_edges: Vec<u32>,
    pub checkpoints: Vec<LoadedPrefixCertifyCheckpoint>,
}

/// Whether bands and atlas hold everything that can be looked up in them.
pub open spec fn pair_sound(c: LoadedPrefixCertifyCheckpoint) -> bool {
    table_sound(c.table@) && atlas_sound(c.atlas@)
}

/// The verdict at a checkpoint of a plan: the bins come from the checkpoint's own edges.
pub open spec fn plan_certified(
    m: spec_fn(SingleOp) -> u32,
    t: BandView,
    a: AtlasView,
    slot: usize,
    fold: i32,
    tau: u32,
    atlas_tau_bin: int,
    score: u32,
    delta_prev: u32,
    delta_from_64: u32,
) -> Option<(bool, u32)> {
    atlas_certified(
        m,
        t,
        a,
        RowAt {
            slot,
            fold_slot: fold_slot(t, fold),
            tau,
            atlas_tau_bin: lesser(atlas_tau_bin, less_to_zero(a.tau_bin_count as int, 1)),
            calibration_tau_bin: tau_bin_of(t.tau_edges, tau),
            score,
            delta_prev,
            delta_from_64,
        },
    )
}

/// Computes [`plan_certified`].
pub fn maybe_prefix_certify_plan_fast<A: Fn(SingleOp) -> u32>(
    arith: &A,
    checkpoint: &LoadedPrefixCertifyCheckpoint,
    slot: usize,
    row_fold: i32,
    row_tau: u32,
    atlas_tau_bin: usize,
    prefix_score: u32,
    delta_prev: u32,
    delta_from_64: u32,
) -> (r: Option<(bool, u32)>)
    requires
        answers(*arith),
        pair_sound(*checkpoint),
    ensures
        forall|m: spec_fn(SingleOp) -> u32| #[trigger]
            follows(*arith, m) ==> r == plan_certified(
                m,
                checkpoint.table@,
                checkpoint.atlas@,
                slot,
                row_fold,
                row_tau,
                atlas_tau_bin as int,
                prefix_score,
                delta_prev,
                delta_from_64,
            ),
{
    let last: usize = if checkpoint.atlas.tau_bin_count >= 1 {
        checkpoint.atlas.tau_bin_count - 1
    } else {
        0
    };
    let row_tau_bin: usize = if atlas_tau_bin <= last {
        atlas_tau_bin
    } else {
        last
    };
    let calibration_bin: usize = crate::bands::atlas_tau_bin(
        checkpoint.table.tau_edges.as_slice(),
        row_tau,
    );
    proof {
        lemma_slot_range(checkpoint.table@, row_fold);
    }
    maybe_prefix_certify_atlas_fast(
        arith,
        &checkpoint.table,
        &checkpoint.atlas,
        slot,
        prefix_fold_slot(&checkpoint.table, row_fold),
        row_tau,
        row_tau_bin,
        calibration_bin,
        prefix_score,
        delta_prev,
        delta_from_64,
    )
}

/// An atlas: one table for each checkpoint slot.
#[derive(Debug)]
pub struct LoadedPrefixAtlas {
    pub feature_schema_version: u32,
    pub variant_key: String,
    pub tau_edges: Vec<u32>,
    pub cluster_count: usize,
    pub min_cell_count: u32,
    pub safe_ref_max_reject_rate: u32,
    pub safe_rej_min_reject_rate: u32,
    pub checkpoints: Vec<LoadedPrefixAtlasCheckpoint>,
}

/// What rows are decided by.
pub struct Certifier<'a> {
    pub kind: PrefixCertifierKind,
    pub atlas: Option<&'a LoadedPrefixAtlas>,
    pub mlp: Option<&'a LoadedMlpCertifier>,
}

/// How far a row has come, as the network is told.
pub struct RowWork {
    pub checkpoint: usize,
    pub fold: i32,
    pub work_evals: u64,
    pub trees_used: usize,
    pub resolved_early: u64,
}

/// A count for each tree used; nothing where no tree was.
pub open spec fn rate_of(m: spec_fn(SingleOp) -> u32, count: u64, trees: usize) -> u32 {
    if trees == 0 {
        0
    } else {
        m(
            SingleOp::Quotient(
                m(SingleOp::Nearest(count)),
                m(SingleOp::Nearest(trees as u64)),
            ),
        )
    }
}

fn rate<A: Fn(SingleOp) -> u32>(arith: &A, count: u64, trees: usize) -> (r: u32)
    requires
        answers(*arith),
    ensures
        forall|m: spec_fn(SingleOp) -> u32| #[trigger]
            follows(*arith, m) ==> r == rate_of(m, count, trees),
{
    if trees == 0 {
        return 0;
    }
    let a: u32 = arith(SingleOp::Nearest(count));
    let b: u32 = arith(SingleOp::Nearest(trees as u64));
    let q: u32 = arith(SingleOp::Quotient(a, b));
    q
}

/// What the network is told of a row.
pub open spec fn network_row(
    m: spec_fn(SingleOp) -> u32,
    work: RowWork,
    tau: u32,
    score: u32,
    gap: u32,
    delta_prev: u32,
    delta_from_64: u32,
) -> NetworkRow {
    NetworkRow {
        checkpoint: work.checkpoint,
        fold: work.fold,
        tau,
        score,
        gap,
        delta_prev,
        delta_from_64,
        evals_per_tree: rate_of(m, work.work_evals, work.trees_used),
        trees_used: work.trees_used,
        early_rate: rate_of(m, work.resolved_early, work.trees_used),
    }
}

/// The verdict at a checkpoint: of the bands; failing that of the atlas or the network, whichever
/// the kind names. A kind without its means decides nothing more, nor does an atlas that has no
/// table for the slot.
pub open spec fn certified(
    m: spec_fn(SingleOp) -> u32,
    c: Certifier,
    t: BandView,
    row: RowAt,
    work: RowWork,
) -> Option<(bool, u32)> {
    let gap = m(SingleOp::Difference(row.tau, row.score));
    match band_verdict(
        m,
        band_for(m, t, row.fold_slot, row.calibration_tau_bin, gap),
        gap,
        row.score,
    ) {
        Some(v) => Some(v),
        None => match c.kind {
            PrefixCertifierKind::TableV1 => None,
            PrefixCertifierKind::AtlasV1 => if c.atlas is Some && row.slot
                < c.atlas->Some_0.checkpoints@.len() {
                atlas_certified(m, t, c.atlas->Some_0.checkpoints@[row.slot as int]@, row)
            } else {
                None
            },
            PrefixCertifierKind::MlpV1 => match (if c.mlp is Some {
                c.mlp->Some_0.entry(work.checkpoint)
            } else {
                None
            }) {
                None => None,
                Some(e) => {
                    let p = chance(
                        m,
                        *c.mlp->Some_0,
                        network_row(
                            m,
                            work,
                            row.tau,
                            row.score,
                            gap,
                            row.delta_prev,
                            row.delta_from_64,
                        ),
                    );
                    if at_most(p, e.tau_ref) {
                        Some(beside(m, false, row.tau))
                    } else if at_most(e.tau_rej, p) {
                        Some(beside(m, true, row.tau))
                    } else {
                        None
                    }
                },
            },
        },
    }
}

/// Whether the atlas holds everything that can be looked up in it.
pub open spec fn atlases_sound(a: Option<&LoadedPrefixAtlas>) -> bool {
    a matches Some(atlas) ==> forall|i: int|
        0 <= i < atlas.checkpoints@.len() ==> atlas_sound(#[trigger] atlas.checkpoints@[i]@)
}

/// Whether the network takes what it is told.
pub open spec fn network_sound(n: Option<&LoadedMlpCertifier>) -> bool {
    n matches Some(cert) ==> network_fits(*cert)
}

/// Computes [`certified`].
pub fn maybe_prefix_certify<'a, A: Fn(SingleOp) -> u32>(
    arith: &A,
    certifier: &Certifier<'a>,
    table: &LoadedPrefixCheckpoint,
    checkpoint_slot: usize,
    checkpoint: usize,
    row_fold: i32,
    row_fold_slot: Option<usize>,
    row_tau: u32,
    row_tau_bin: usize,
    row_calibration_tau_bin: usize,
    prefix_score: u32,
    work_evals: u64,
    trees_used: usize,
    resolved_early: u64,
    delta_prev: u32,
    delta_from_64: u32,
) -> (r: Option<(bool, u32)>)
    requires
        answers(*arith),
        table_sound(table@),
        atlases_sound(certifier.atlas),
        network_sound(certifier.mlp),
        row_fold_slot matches Some(s) ==> s < table@.fold_ids.len(),
    ensures
        forall|m: spec_fn(SingleOp) -> u32| #[trigger]
            follows(*arith, m) ==> r == certified(
                m,
                *certifier,
                table@,
                (RowAt {
                    slot: checkpoint_slot,
                    fold_slot: as_place(row_fold_slot),
                    tau: row_tau,
                    atlas_tau_bin: row_tau_bin as int,
                    calibration_tau_bin: row_calibration_tau_bin as int,
                    score: prefix_score,
                    delta_prev,
                    delta_from_64,
                }),
                (RowWork { checkpoint, fold: row_fold, work_evals, trees_used, resolved_early }),
            ),
{
    let gap: u32 = arith(SingleOp::Difference(row_tau, prefix_score));
    let bounds: (u32, u32) = lookup_prefix_bands_with_tau_bin_slot(
        arith,
        table,
        row_fold_slot,
        row_calibration_tau_bin,
        gap,
    );
    match judge_band(arith, bounds, gap, prefix_score) {
        Some(v) => {
            return Some(v);
        },
        None => {},
    }
    match certifier.kind {
        PrefixCertifierKind::TableV1 => None,
        PrefixCertifierKind::AtlasV1 => match certifier.atlas {
            None => None,
            Some(atlas) => {
                if checkpoint_slot >= atlas.checkpoints.len() {
                    return None;
                }
                assert(atlas_sound(atlas.checkpoints@[checkpoint_slot as int]@));
                maybe_prefix_certify_atlas_fast(
                    arith,
                    table,
                    &atlas.checkpoints[checkpoint_slot],
                    checkpoint_slot,
                    row_fold_slot,
                    row_tau,
                    row_tau_bin,
                    row_calibration_tau_bin,
                    prefix_score,
                    delta_prev,
                    delta_from_64,
                )
            },
        },
        PrefixCertifierKind::MlpV1 => match certifier.mlp {
            None => None,
            Some(cert) => match cert.threshold(checkpoint) {
                None => None,
                Some(e) => {
                    let per_tree: u32 = rate(arith, work_evals, trees_used);
                    let early: u32 = rate(arith, resolved_early, trees_used);
                    let input: Vec<u32> = build_mlp_input(
                        arith,
                        cert,
                        checkpoint,
                        row_fold,
                        row_tau,
                        prefix_score,
                        gap,
                        delta_prev,
                        delta_from_64,
                        per_tree,
                        trees_used,
                        early,
                    );
                    let p: u32 = mlp_forward(arith, cert, &input);
                    if le(p, e.tau_ref) {
                        return Some(put_beside(arith, false, row_tau));
                    }
                    if le(e.tau_rej, p) {
                        return Some(put_beside(arith, true, row_tau));
                    }
                    None
                },
            },
        },
    }
}

/// Under the atlas kind, deciding by kind and deciding by the atlas table of the slot are the same.
pub proof fn law_atlas_kind_is_atlas_lookup(
    m: spec_fn(SingleOp) -> u32,
    c: Certifier,
    t: BandView,
    row: RowAt,
    work: RowWork,
)
    requires
        c.kind == PrefixCertifierKind::AtlasV1,
        c.atlas is Some,
        row.slot < c.atlas->Some_0.checkpoints@.len(),
    ensures
        certified(m, c, t, row, work) == atlas_certified(
            m,
            t,
            c.atlas->Some_0.checkpoints@[row.slot as int]@,
            row,
        ),
{
}

} // verus!
