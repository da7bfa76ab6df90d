//! Making an atlas out of what its file lists, and reading one from its binary form.

use crate::arith::{answers, follows, SingleOp};
use crate::certify::{atlas_sound, AtlasView, LoadedPrefixAtlas, LoadedPrefixAtlasCheckpoint};
use crate::certify_file::{four_at, get_bytes};
use crate::forest::LoadError;
use crate::le::{
    begins_with, get_u32, get_u32s, le_string, le_u32, u32_at, u32s_at, ReadError,
};
use crate::single::{at_most, le, negated, opposite};
use crate::text::same_text;
use vstd::prelude::*;
use vstd::utf8::{encode_utf8, valid_utf8};

verus! {

/// Bit pattern of two.
pub const TWO: u32 = 0x4000_0000;

/// How often rows of one bin of the threshold and one cluster were rejected, by gap.
#[derive(Debug)]
pub struct PrefixAtlasCellFile {
    pub tau_bin: usize,
    pub cluster_id: usize,
    pub reject_rate: Vec<u32>,
    pub counts: Vec<u32>,
}

/// The atlas of one checkpoint as its file lists it.
#[derive(Debug)]
pub struct PrefixAtlasCheckpointFile {
    pub checkpoint: usize,
    pub gap_edges: Vec<u32>,
    pub feature_mean: Vec<u32>,
    pub feature_inv_std: Vec<u32>,
    pub centroids: Vec<Vec<u32>>,
    pub cells: Vec<PrefixAtlasCellFile>,
}

/// An atlas as its file lists it.
#[derive(Debug)]
pub struct PrefixAtlasFile {
    pub format: String,
    pub feature_schema_version: u32,
    pub variant_key: String,
    pub tau_edges: Vec<u32>,
    pub cluster_count: usize,
    pub min_cell_count: u32,
    pub safe_ref_max_reject_rate: u32,
    pub safe_rej_min_reject_rate: u32,
    pub checkpoints: Vec<PrefixAtlasCheckpointFile>,
}

/// Why an atlas is not accepted.
#[derive(Clone, Copy, Debug, PartialEq, Eq, Structural)]
pub enum AtlasError {
    Format,
    TauEdges,
    Normalization { checkpoint: usize, mean: usize, inv_std: usize },
    Centroid { checkpoint: usize, got: usize },
    /// The decisions are more than memory can number.
    TooLarge { checkpoint: usize },
    CellLength { checkpoint: usize, tau_bin: usize, cluster: usize, rates: usize, counts: usize },
    TauBin { checkpoint: usize, tau_bin: usize, bins: usize },
    Cluster { checkpoint: usize, cluster: usize, clusters: usize },
}

/// What counts as enough rows, and from which rates on a decision is safe.
#[derive(Clone, Copy, Debug, PartialEq, Eq, Structural)]
pub struct Safety {
    pub min_count: u32,
    pub ref_max: u32,
    pub rej_min: u32,
}

/// The decision for one gap: none where the rows are few, refer where few of them were rejected,
/// reject where many were.
pub open spec fn decision(s: Safety, count: u32, rate: u32) -> u8 {
    if count < s.min_count {
        0
    } else if at_most(rate, s.ref_max) {
        1
    } else if at_most(s.rej_min, rate) {
        2
    } else {
        0
    }
}

fn decide(s: Safety, count: u32, rate: u32) -> (r: u8)
    ensures
        r == decision(s, count, rate),
{
    if count < s.min_count {
        0
    } else if le(rate, s.ref_max) {
        1
    } else if le(s.rej_min, rate) {
        2
    } else {
        0
    }
}

/// What is wrong with a cell.
pub open spec fn cell_fault(
    checkpoint: usize,
    c: PrefixAtlasCellFile,
    taus: int,
    clusters: int,
) -> Option<AtlasError> {
    if c.reject_rate@.len() != 256 || c.counts@.len() != 256 {
        Some(
            AtlasError::CellLength {
                checkpoint,
                tau_bin: c.tau_bin,
                cluster: c.cluster_id,
                rates: c.reject_rate@.len() as usize,
                counts: c.counts@.len() as usize,
            },
        )
    } else if c.tau_bin >= taus {
        Some(AtlasError::TauBin { checkpoint, tau_bin: c.tau_bin, bins: taus as usize })
    } else if c.cluster_id >= clusters {
        Some(
            AtlasError::Cluster {
                checkpoint,
                cluster: c.cluster_id,
                clusters: clusters as usize,
            },
        )
    } else {
        None
    }
}

/// What is wrong with the first faulty cell among the first `n`.
pub open spec fn cells_fault(t: PrefixAtlasCheckpointFile, taus: int, n: int) -> Option<AtlasError>
    decreases n,
{
    if n <= 0 {
        None
    } else {
        match cells_fault(t, taus, n - 1) {
            Some(e) => Some(e),
            None => cell_fault(t.checkpoint, t.cells@[n - 1], taus, t.centroids@.len() as int),
        }
    }
}

/// What is wrong with the first centroid among the first `n` that is not of four.
pub open spec fn centroids_fault(t: PrefixAtlasCheckpointFile, n: int) -> Option<AtlasError>
    decreases n,
{
    if n <= 0 {
        None
    } else {
        match centroids_fault(t, n - 1) {
            Some(e) => Some(e),
            None => if t.centroids@[n - 1]@.len() != 4 {
                Some(
                    AtlasError::Centroid {
                        checkpoint: t.checkpoint,
                        got: t.centroids@[n - 1]@.len() as usize,
                    },
                )
            } else {
                None
            },
        }
    }
}

/// What is wrong with the atlas of a checkpoint.
pub open spec fn table_fault(t: PrefixAtlasCheckpointFile, taus: int) -> Option<AtlasError> {
    if t.feature_mean@.len() != 4 || t.feature_inv_std@.len() != 4 {
        Some(
            AtlasError::Normalization {
                checkpoint: t.checkpoint,
                mean: t.feature_mean@.len() as usize,
                inv_std: t.feature_inv_std@.len() as usize,
            },
        )
    } else if centroids_fault(t, t.centroids@.len() as int) is Some {
        centroids_fault(t, t.centroids@.len() as int)
    } else if taus * t.centroids@.len() * 256 > usize::MAX {
        Some(AtlasError::TooLarge { checkpoint: t.checkpoint })
    } else {
        cells_fault(t, taus, t.cells@.len() as int)
    }
}

/// What is wrong with the first faulty checkpoint among the first `n`.
pub open spec fn tables_fault(s: Seq<PrefixAtlasCheckpointFile>, taus: int, n: int) -> Option<
    AtlasError,
>
    decreases n,
{
    if n <= 0 {
        None
    } else {
        match tables_fault(s, taus, n - 1) {
            Some(e) => Some(e),
            None => table_fault(s[n - 1], taus),
        }
    }
}

/// What is wrong with an atlas.
pub open spec fn atlas_fault(f: PrefixAtlasFile) -> Option<AtlasError> {
    if f.format@ != "L2PrefixAtlasV1"@ {
        Some(AtlasError::Format)
    } else if f.tau_edges@.len() < 2 {
        Some(AtlasError::TauEdges)
    } else {
        tables_fault(f.checkpoints@, f.tau_edges@.len() - 1, f.checkpoints@.len() as int)
    }
}

/// Where the decisions of a cell begin.
pub open spec fn cell_base(c: PrefixAtlasCellFile, clusters: int) -> int {
    (c.tau_bin * clusters + c.cluster_id) * 256
}

/// The decisions after the first `n` cells; of two cells for one place the later counts.
pub open spec fn grid_of(s: Safety, t: PrefixAtlasCheckpointFile, taus: int, n: int) -> Seq<u8>
    decreases n,
{
    let clusters = t.centroids@.len() as int;
    let size = (taus * clusters * 256) as nat;
    if n <= 0 {
        Seq::new(size, |i: int| 0u8)
    } else {
        let base = cell_base(t.cells@[n - 1], clusters);
        let before = grid_of(s, t, taus, n - 1);
        Seq::new(
            size,
            |i: int|
                if base <= i < base + 256 {
                    decision(
                        s,
                        t.cells@[n - 1].counts@[i - base],
                        t.cells@[n - 1].reject_rate@[i - base],
                    )
                } else {
                    before[i]
                },
        )
    }
}

/// The weights of centroids: twice coordinate `i` of each.
pub open spec fn doubled(m: spec_fn(SingleOp) -> u32, cs: Seq<Seq<u32>>, i: int) -> Seq<u32> {
    Seq::new(cs.len(), |k: int| m(SingleOp::Product(TWO, cs[k][i])))
}

/// The square of a centroid's length.
pub open spec fn square_length(m: spec_fn(SingleOp) -> u32, c: Seq<u32>) -> u32 {
    let q0 = m(SingleOp::Product(c[0], c[0]));
    let q1 = m(SingleOp::Product(c[1], c[1]));
    let q2 = m(SingleOp::Product(c[2], c[2]));
    let q3 = m(SingleOp::Product(c[3], c[3]));
    m(SingleOp::Sum(m(SingleOp::Sum(m(SingleOp::Sum(q0, q1)), q2)), q3))
}

/// The biases of centroids: the square of each one's length, negative.
pub open spec fn biases(m: spec_fn(SingleOp) -> u32, cs: Seq<Seq<u32>>) -> Seq<u32> {
    Seq::new(cs.len(), |k: int| opposite(square_length(m, cs[k])))
}

/// The atlas of a checkpoint made of its parts. The nearest centroid is the one whose doubled
/// product with a state, less the square of its length, is greatest.
pub open spec fn drawn(
    m: spec_fn(SingleOp) -> u32,
    checkpoint: usize,
    gap_edges: Seq<u32>,
    mean: Seq<u32>,
    inv_std: Seq<u32>,
    cs: Seq<Seq<u32>>,
    taus: usize,
    grid: Seq<u8>,
) -> AtlasView {
    AtlasView {
        checkpoint,
        gap_edges,
        shared_gap_edges: false,
        feature_mean: mean,
        feature_inv_std: inv_std,
        cluster_count: cs.len() as usize,
        tau_bin_count: taus,
        centroid_w0: doubled(m, cs, 0),
        centroid_w1: doubled(m, cs, 1),
        centroid_w2: doubled(m, cs, 2),
        centroid_w3: doubled(m, cs, 3),
        centroid_bias: biases(m, cs),
        centroids16: cs.len() == 16,
        decision_grid: grid,
    }
}

/// Centroids as sequences.
pub open spec fn points(cs: Seq<Vec<u32>>) -> Seq<Seq<u32>> {
    Seq::new(cs.len(), |k: int| cs[k]@)
}

/// Whether the weights are those of centroids.
spec fn weighs(
    m: spec_fn(SingleOp) -> u32,
    cs: Seq<Seq<u32>>,
    k: int,
    w0: Seq<u32>,
    w1: Seq<u32>,
    w2: Seq<u32>,
    w3: Seq<u32>,
    bias: Seq<u32>,
) -> bool {
    &&& w0 == doubled(m, cs, 0).take(k)
    &&& w1 == doubled(m, cs, 1).take(k)
    &&& w2 == doubled(m, cs, 2).take(k)
    &&& w3 == doubled(m, cs, 3).take(k)
    &&& bias == biases(m, cs).take(k)
}

/// Makes the atlas of a checkpoint of its parts.
pub fn build_loaded_atlas_checkpoint<A: Fn(SingleOp) -> u32>(
    arith: &A,
    checkpoint: usize,
    gap_edges: Vec<u32>,
    feature_mean: [u32; 4],
    feature_inv_std: [u32; 4],
    centroids: &Vec<Vec<u32>>,
    tau_bin_count: usize,
    decision_grid: Vec<u8>,
) -> (r: LoadedPrefixAtlasCheckpoint)
    requires
        answers(*arith),
        forall|k: int| 0 <= k < centroids@.len() ==> (#[trigger] centroids@[k])@.len() == 4,
    ensures
        r.decision_grid@ == decision_grid@,
        r.cluster_count == centroids@.len(),
        r.tau_bin_count == tau_bin_count,
        r.centroid_w0@.len() == centroids@.len(),
        r.centroid_w1@.len() == centroids@.len(),
        r.centroid_w2@.len() == centroids@.len(),
        r.centroid_w3@.len() == centroids@.len(),
        r.centroid_bias@.len() == centroids@.len(),
        forall|m: spec_fn(SingleOp) -> u32| #[trigger]
            follows(*arith, m) ==> r@ == drawn(
                m,
                checkpoint,
                gap_edges@,
                feature_mean@,
                feature_inv_std@,
                points(centroids@),
                tau_bin_count,
                decision_grid@,
            ),
{
    let n: usize = centroids.len();
    let ghost cs = points(centroids@);
    let mut w0: Vec<u32> = Vec::new();
    let mut w1: Vec<u32> = Vec::new();
    let mut w2: Vec<u32> = Vec::new();
    let mut w3: Vec<u32> = Vec::new();
    let mut bias: Vec<u32> = Vec::new();
    let mut k: usize = 0;
    assert forall|m: spec_fn(SingleOp) -> u32| #[trigger] follows(*arith, m) implies weighs(
        m,
        cs,
        0,
        w0@,
        w1@,
        w2@,
        w3@,
        bias@,
    ) by {
        assert(doubled(m, cs, 0).take(0) =~= w0@);
        assert(doubled(m, cs, 1).take(0) =~= w1@);
        assert(doubled(m, cs, 2).take(0) =~= w2@);
        assert(doubled(m, cs, 3).take(0) =~= w3@);
        assert(biases(m, cs).take(0) =~= bias@);
    }
    while k < n
        invariant
            answers(*arith),
            k <= n,
            n == centroids@.len(),
            cs == points(centroids@),
            w0@.len() == k,
            w1@.len() == k,
            w2@.len() == k,
            w3@.len() == k,
            bias@.len() == k,
            forall|j: int| 0 <= j < centroids@.len() ==> (#[trigger] centroids@[j])@.len() == 4,
            forall|m: spec_fn(SingleOp) -> u32| #[trigger]
                follows(*arith, m) ==> weighs(m, cs, k as int, w0@, w1@, w2@, w3@, bias@),
        decreases n - k,
    {
        let c: &Vec<u32> = &centroids[k];
        assert(centroids@[k as int]@.len() == 4);
        let c0: u32 = c[0];
        let c1: u32 = c[1];
        let c2: u32 = c[2];
        let c3: u32 = c[3];
        let ghost (b0, b1, b2, b3, bb) = (w0@, w1@, w2@, w3@, bias@);
        let d0: u32 = arith(SingleOp::Product(TWO, c0));
        let d1: u32 = arith(SingleOp::Product(TWO, c1));
        let d2: u32 = arith(SingleOp::Product(TWO, c2));
        let d3: u32 = arith(SingleOp::Product(TWO, c3));
        let q0: u32 = arith(SingleOp::Product(c0, c0));
        let q1: u32 = arith(SingleOp::Product(c1, c1));
        let q2: u32 = arith(SingleOp::Product(c2, c2));
        let q3: u32 = arith(SingleOp::Product(c3, c3));
        let s1: u32 = arith(SingleOp::Sum(q0, q1));
        let s2: u32 = arith(SingleOp::Sum(s1, q2));
        let s3: u32 = arith(SingleOp::Sum(s2, q3));
        w0.push(d0);
        w1.push(d1);
        w2.push(d2);
        w3.push(d3);
        bias.push(negated(s3));
        assert forall|m: spec_fn(SingleOp) -> u32| #[trigger] follows(*arith, m) implies weighs(
            m,
            cs,
            k + 1,
            w0@,
            w1@,
            w2@,
            w3@,
            bias@,
        ) by {
            assert(weighs(m, cs, k as int, b0, b1, b2, b3, bb));
            assert(cs[k as int] == c@);
            assert(doubled(m, cs, 0).take(k + 1) =~= w0@);
            assert(doubled(m, cs, 1).take(k + 1) =~= w1@);
            assert(doubled(m, cs, 2).take(k + 1) =~= w2@);
            assert(doubled(m, cs, 3).take(k + 1) =~= w3@);
            assert(biases(m, cs).take(k + 1) =~= bias@);
        }
        k += 1;
    }
    let r: LoadedPrefixAtlasCheckpoint = LoadedPrefixAtlasCheckpoint {
        checkpoint,
        gap_edges,
        shared_gap_edges: false,
        feature_mean,
        feature_inv_std,
        cluster_count: n,
        tau_bin_count,
        centroid_w0: w0,
        centroid_w1: w1,
        centroid_w2: w2,
        centroid_w3: w3,
        centroid_bias: bias,
        centroids16: n == 16,
        decision_grid,
    };
    assert forall|m: spec_fn(SingleOp) -> u32| #[trigger] follows(*arith, m) implies r@ == drawn(
        m,
        checkpoint,
        gap_edges@,
        feature_mean@,
        feature_inv_std@,
        cs,
        tau_bin_count,
        decision_grid@,
    ) by {
        assert(weighs(m, cs, n as int, w0@, w1@, w2@, w3@, bias@));
        assert(r@ =~= drawn(
            m,
            checkpoint,
            gap_edges@,
            feature_mean@,
            feature_inv_std@,
            cs,
            tau_bin_count,
            decision_grid@,
        ));
    }
    r
}

/// What is wrong with the first cells is wrong with more of them.
proof fn lemma_cells_fault_lasts(t: PrefixAtlasCheckpointFile, taus: int, n: int, k: int)
    requires
        n <= k,
        cells_fault(t, taus, n) is Some,
    ensures
        cells_fault(t, taus, k) == cells_fault(t, taus, n),
    decreases k - n,
{
    if n < k {
        lemma_cells_fault_lasts(t, taus, n, k - 1);
    }
}

proof fn lemma_centroids_fault_lasts(t: PrefixAtlasCheckpointFile, n: int, k: int)
    requires
        n <= k,
        centroids_fault(t, n) is Some,
    ensures
        centroids_fault(t, k) == centroids_fault(t, n),
    decreases k - n,
{
    if n < k {
        lemma_centroids_fault_lasts(t, n, k - 1);
    }
}

proof fn lemma_tables_fault_lasts(s: Seq<PrefixAtlasCheckpointFile>, taus: int, n: int, k: int)
    requires
        n <= k,
        tables_fault(s, taus, n) is Some,
    ensures
        tables_fault(s, taus, k) == tables_fault(s, taus, n),
    decreases k - n,
{
    if n < k {
        lemma_tables_fault_lasts(s, taus, n, k - 1);
    }
}

/// Fills in the decisions of the cells.
fn fill_grid(s: Safety, t: &PrefixAtlasCheckpointFile, taus: usize, size: usize) -> (r: Result<
    Vec<u8>,
    AtlasError,
>)
    requires
        size == taus * t.centroids@.len() * 256,
    ensures
        match cells_fault(*t, taus as int, t.cells@.len() as int) {
            Some(e) => r == Err::<Vec<u8>, AtlasError>(e),
            None => r matches Ok(g) && g@ == grid_of(s, *t, taus as int, t.cells@.len() as int),
        },
{
    let clusters: usize = t.centroids.len();
    let mut grid: Vec<u8> = vec![0u8; size];
    assert(grid@ =~= grid_of(s, *t, taus as int, 0));
    let mut i: usize = 0;
    while i < t.cells.len()
        invariant
            i <= t.cells@.len(),
            clusters == t.centroids@.len(),
            size == taus * clusters * 256,
            grid@.len() == size,
            cells_fault(*t, taus as int, i as int) is None,
            grid@ == grid_of(s, *t, taus as int, i as int),
        decreases t.cells@.len() - i,
    {
        let c: &PrefixAtlasCellFile = &t.cells[i];
        if c.reject_rate.len() != 256 || c.counts.len() != 256 {
            proof {
                lemma_cells_fault_lasts(*t, taus as int, i + 1, t.cells@.len() as int);
            }
            return Err(
                AtlasError::CellLength {
                    checkpoint: t.checkpoint,
                    tau_bin: c.tau_bin,
                    cluster: c.cluster_id,
                    rates: c.reject_rate.len(),
                    counts: c.counts.len(),
                },
            );
        }
        if c.tau_bin >= taus {
            proof {
                lemma_cells_fault_lasts(*t, taus as int, i + 1, t.cells@.len() as int);
            }
            return Err(
                AtlasError::TauBin { checkpoint: t.checkpoint, tau_bin: c.tau_bin, bins: taus },
            );
        }
        if c.cluster_id >= clusters {
            proof {
                lemma_cells_fault_lasts(*t, taus as int, i + 1, t.cells@.len() as int);
            }
            return Err(
                AtlasError::Cluster { checkpoint: t.checkpoint, cluster: c.cluster_id, clusters },
            );
        }
        proof {
            let (a, b, n, x) = (c.tau_bin as int, c.cluster_id as int, clusters as int, taus as int);
            assert(0 <= a * n && a * n + b + 1 <= x * n) by (nonlinear_arith)
                requires
                    0 <= a < x,
                    0 <= b < n,
            ;
            assert((a * n + b) * 256 + 256 <= x * n * 256);
        }
        let base: usize = (c.tau_bin * clusters + c.cluster_id) * 256;
        let ghost before = grid@;
        let mut g: usize = 0;
        while g < 256
            invariant
                g <= 256,
                base + 256 <= size,
                grid@.len() == size,
                before.len() == size,
                c.reject_rate@.len() == 256,
                c.counts@.len() == 256,
                forall|j: int|
                    0 <= j < size ==> #[trigger] grid@[j] == (if base <= j < base + g {
                        decision(s, c.counts@[j - base], c.reject_rate@[j - base])
                    } else {
                        before[j]
                    }),
            decreases 256 - g,
        {
            let d: u8 = decide(s, c.counts[g], c.reject_rate[g]);
            grid.set(base + g, d);
            g += 1;
        }
        assert(base == cell_base(*c, clusters as int));
        assert(grid@ =~= grid_of(s, *t, taus as int, i + 1));
        i += 1;
    }
    Ok(grid)
}

/// The atlas of a checkpoint as its file lists it.
pub open spec fn listed_table(
    m: spec_fn(SingleOp) -> u32,
    s: Safety,
    t: PrefixAtlasCheckpointFile,
    taus: usize,
) -> AtlasView {
    drawn(
        m,
        t.checkpoint,
        t.gap_edges@,
        t.feature_mean@,
        t.feature_inv_std@,
        points(t.centroids@),
        taus,
        grid_of(s, t, taus as int, t.cells@.len() as int),
    )
}

fn load_table<A: Fn(SingleOp) -> u32>(
    arith: &A,
    s: Safety,
    t: &PrefixAtlasCheckpointFile,
    taus: usize,
) -> (r: Result<LoadedPrefixAtlasCheckpoint, AtlasError>)
    requires
        answers(*arith),
        taus >= 1,
    ensures
        match table_fault(*t, taus as int) {
            Some(e) => r == Err::<LoadedPrefixAtlasCheckpoint, AtlasError>(e),
            None => {
                &&& r is Ok
                &&& atlas_sound(r->Ok_0@)
                &&& forall|m: spec_fn(SingleOp) -> u32| #[trigger]
                    follows(*arith, m) ==> r->Ok_0@ == listed_table(m, s, *t, taus)
            },
        },
{
    if t.feature_mean.len() != 4 || t.feature_inv_std.len() != 4 {
        return Err(
            AtlasError::Normalization {
                checkpoint: t.checkpoint,
                mean: t.feature_mean.len(),
                inv_std: t.feature_inv_std.len(),
            },
        );
    }
    let mut k: usize = 0;
    while k < t.centroids.len()
        invariant
            k <= t.centroids@.len(),
            t.feature_mean@.len() == 4,
            t.feature_inv_std@.len() == 4,
            centroids_fault(*t, k as int) is None,
            forall|j: int| 0 <= j < k ==> (#[trigger] t.centroids@[j])@.len() == 4,
        decreases t.centroids@.len() - k,
    {
        if t.centroids[k].len() != 4 {
            proof {
                lemma_centroids_fault_lasts(*t, k + 1, t.centroids@.len() as int);
            }
            return Err(
                AtlasError::Centroid { checkpoint: t.checkpoint, got: t.centroids[k].len() },
            );
        }
        k += 1;
    }
    let clusters: usize = t.centroids.len();
    let size: usize = match taus.checked_mul(clusters) {
        None => {
            return Err(AtlasError::TooLarge { checkpoint: t.checkpoint });
        },
        Some(rows) => match rows.checked_mul(256) {
            None => {
                return Err(AtlasError::TooLarge { checkpoint: t.checkpoint });
            },
            Some(v) => v,
        },
    };
    let grid: Vec<u8> = match fill_grid(s, t, taus, size) {
        Ok(g) => g,
        Err(e) => {
            return Err(e);
        },
    };
    let mean: [u32; 4] = [
        t.feature_mean[0],
        t.feature_mean[1],
        t.feature_mean[2],
        t.feature_mean[3],
    ];
    let inv_std: [u32; 4] = [
        t.feature_inv_std[0],
        t.feature_inv_std[1],
        t.feature_inv_std[2],
        t.feature_inv_std[3],
    ];
    assert(mean@ =~= t.feature_mean@);
    assert(inv_std@ =~= t.feature_inv_std@);
    proof {
        lemma_grid_len(s, *t, taus as int, t.cells@.len() as int);
    }
    Ok(
        build_loaded_atlas_checkpoint(
            arith,
            t.checkpoint,
            vstd::slice::slice_to_vec(t.gap_edges.as_slice()),
            mean,
            inv_std,
            &t.centroids,
            taus,
            grid,
        ),
    )
}

proof fn lemma_grid_len(s: Safety, t: PrefixAtlasCheckpointFile, taus: int, n: int)
    requires
        taus * t.centroids@.len() * 256 >= 0,
    ensures
        grid_of(s, t, taus, n).len() == taus * t.centroids@.len() * 256,
{
}

/// What the file calls safe.
pub open spec fn safety_of(f: PrefixAtlasFile) -> Safety {
    Safety {
        min_count: f.min_cell_count,
        ref_max: f.safe_ref_max_reject_rate,
        rej_min: f.safe_rej_min_reject_rate,
    }
}

/// Makes an atlas of what its file lists.
pub fn load_prefix_atlas_json<A: Fn(SingleOp) -> u32>(arith: &A, raw: &PrefixAtlasFile) -> (r:
    Result<LoadedPrefixAtlas, AtlasError>)
    requires
        answers(*arith),
    ensures
        match atlas_fault(*raw) {
            Some(e) => r == Err::<LoadedPrefixAtlas, AtlasError>(e),
            None => {
                &&& r is Ok
                &&& r->Ok_0.feature_schema_version == raw.feature_schema_version
                &&& r->Ok_0.variant_key@ == raw.variant_key@
                &&& r->Ok_0.tau_edges@ == raw.tau_edges@
                &&& r->Ok_0.cluster_count == raw.cluster_count
                &&& r->Ok_0.min_cell_count == raw.min_cell_count
                &&& r->Ok_0.safe_ref_max_reject_rate == raw.safe_ref_max_reject_rate
                &&& r->Ok_0.safe_rej_min_reject_rate == raw.safe_rej_min_reject_rate
                &&& r->Ok_0.checkpoints@.len() == raw.checkpoints@.len()
                &&& forall|i: int|
                    0 <= i < raw.checkpoints@.len() ==> atlas_sound(
                        (#[trigger] r->Ok_0.checkpoints@[i])@,
                    )
                &&& forall|m: spec_fn(SingleOp) -> u32, i: int| #[trigger]
                    follows(*arith, m) && 0 <= i < raw.checkpoints@.len() ==> (
                    #[trigger] r->Ok_0.checkpoints@[i])@ == listed_table(
                        m,
                        safety_of(*raw),
                        raw.checkpoints@[i],
                        (raw.tau_edges@.len() - 1) as usize,
                    )
            },
        },
{
    if !same_text(raw.format.as_str(), "L2PrefixAtlasV1") {
        return Err(AtlasError::Format);
    }
    if raw.tau_edges.len() < 2 {
        return Err(AtlasError::TauEdges);
    }
    let taus: usize = raw.tau_edges.len() - 1;
    let s: Safety = Safety {
        min_count: raw.min_cell_count,
        ref_max: raw.safe_ref_max_reject_rate,
        rej_min: raw.safe_rej_min_reject_rate,
    };
    let mut checkpoints: Vec<LoadedPrefixAtlasCheckpoint> = Vec::new();
    let mut i: usize = 0;
    while i < raw.checkpoints.len()
        invariant
            answers(*arith),
            i <= raw.checkpoints@.len(),
            i == checkpoints@.len(),
            s == safety_of(*raw),
            taus == raw.tau_edges@.len() - 1,
            taus >= 1,
            raw.format@ == "L2PrefixAtlasV1"@,
            tables_fault(raw.checkpoints@, taus as int, i as int) is None,
            forall|j: int| 0 <= j < i ==> atlas_sound((#[trigger] checkpoints@[j])@),
            forall|m: spec_fn(SingleOp) -> u32, j: int| #[trigger]
                follows(*arith, m) && 0 <= j < i ==> (#[trigger] checkpoints@[j])@ == listed_table(
                    m,
                    s,
                    raw.checkpoints@[j],
                    taus,
                ),
        decreases raw.checkpoints@.len() - i,
    {
        match load_table(arith, s, &raw.checkpoints[i], taus) {
            Ok(t) => {
                checkpoints.push(t);
            },
            Err(e) => {
                proof {
                    lemma_tables_fault_lasts(
                        raw.checkpoints@,
                        taus as int,
                        i + 1,
                        raw.checkpoints@.len() as int,
                    );
                }
                return Err(e);
            },
        }
        i += 1;
    }
    Ok(
        LoadedPrefixAtlas {
            feature_schema_version: raw.feature_schema_version,
            variant_key: raw.variant_key.as_str().to_owned(),
            tau_edges: vstd::slice::slice_to_vec(raw.tau_edges.as_slice()),
            cluster_count: raw.cluster_count,
            min_cell_count: raw.min_cell_count,
            safe_ref_max_reject_rate: raw.safe_ref_max_reject_rate,
            safe_rej_min_reject_rate: raw.safe_rej_min_reject_rate,
            checkpoints,
        },
    )
}

/// Why the binary form of an atlas is not accepted.
#[derive(Clone, Copy, Debug, PartialEq, Eq, Structural)]
pub enum AtlasBinError {
    Load(LoadError),
    Version(u32),
    TauEdges,
    /// The decisions are not one for each bin of the threshold, cluster and gap.
    Grid { checkpoint: usize, got: usize },
    Trailing { off: usize, len: usize },
}

/// What the binary form of an atlas holds.
#[verifier::ext_equal]
pub struct AtlasFileView {
    pub feature_schema_version: u32,
    pub variant_key: Seq<u8>,
    pub tau_edges: Seq<u32>,
    pub cluster_count: usize,
    pub min_cell_count: u32,
    pub safe_ref_max_reject_rate: u32,
    pub safe_rej_min_reject_rate: u32,
    pub checkpoints: Seq<AtlasView>,
}

/// What atlases of checkpoints hold.
pub open spec fn tables_of(s: Seq<LoadedPrefixAtlasCheckpoint>) -> Seq<AtlasView> {
    Seq::new(s.len(), |i: int| s[i]@)
}

/// What an atlas holds, its key in bytes.
pub open spec fn file_view(a: LoadedPrefixAtlas) -> AtlasFileView {
    AtlasFileView {
        feature_schema_version: a.feature_schema_version,
        variant_key: encode_utf8(a.variant_key@),
        tau_edges: a.tau_edges@,
        cluster_count: a.cluster_count,
        min_cell_count: a.min_cell_count,
        safe_ref_max_reject_rate: a.safe_ref_max_reject_rate,
        safe_rej_min_reject_rate: a.safe_rej_min_reject_rate,
        checkpoints: tables_of(a.checkpoints@),
    }
}

/// The error of a number that breaks off.
pub open spec fn broken(e: ReadError) -> AtlasBinError {
    AtlasBinError::Load(LoadError::Read(e))
}

/// The atlas of a checkpoint that stands at `o`, and where it ends.
pub open spec fn record_at(b: Seq<u8>, o: int, taus: int) -> Result<
    (AtlasView, int),
    AtlasBinError,
> {
    let clusters = u32_at(b, o + 4) as int;
    let gaps = u32_at(b, o + 8) as int;
    let e0 = o + 44 + 4 * gaps;
    let e1 = e0 + 20 * clusters;
    let cells = u32_at(b, e1) as int;
    if o + 12 > b.len() {
        Err(broken(ReadError::U32))
    } else if e1 > b.len() {
        Err(broken(ReadError::Single))
    } else if e1 + 4 > b.len() {
        Err(broken(ReadError::U32))
    } else if cells != taus * clusters * 256 {
        Err(AtlasBinError::Grid { checkpoint: u32_at(b, o) as usize, got: cells as usize })
    } else if e1 + 4 + cells > b.len() {
        Err(broken(ReadError::Bytes))
    } else {
        Ok(
            (
                AtlasView {
                    checkpoint: u32_at(b, o) as usize,
                    gap_edges: u32s_at(b, o + 44, gaps as nat),
                    shared_gap_edges: false,
                    feature_mean: u32s_at(b, o + 12, 4),
                    feature_inv_std: u32s_at(b, o + 28, 4),
                    cluster_count: clusters as usize,
                    tau_bin_count: taus as usize,
                    centroid_w0: u32s_at(b, e0, clusters as nat),
                    centroid_w1: u32s_at(b, e0 + 4 * clusters, clusters as nat),
                    centroid_w2: u32s_at(b, e0 + 8 * clusters, clusters as nat),
                    centroid_w3: u32s_at(b, e0 + 12 * clusters, clusters as nat),
                    centroid_bias: u32s_at(b, e0 + 16 * clusters, clusters as nat),
                    centroids16: clusters == 16,
                    decision_grid: b.subrange(e1 + 4, e1 + 4 + cells),
                },
                e1 + 4 + cells,
            ),
        )
    }
}

/// The `n` checkpoints that stand from `o` on, and where they end.
pub open spec fn records_at(b: Seq<u8>, o: int, taus: int, n: nat) -> Result<
    (Seq<AtlasView>, int),
    AtlasBinError,
>
    decreases n,
{
    if n == 0 {
        Ok((Seq::empty(), o))
    } else {
        match records_at(b, o, taus, (n - 1) as nat) {
            Err(e) => Err(e),
            Ok((s, at)) => match record_at(b, at, taus) {
                Err(e) => Err(e),
                Ok((a, end)) => Ok((s.push(a), end)),
            },
        }
    }
}

proof fn lemma_records_err(b: Seq<u8>, o: int, taus: int, n: nat, k: nat)
    requires
        n <= k,
        records_at(b, o, taus, n) is Err,
    ensures
        records_at(b, o, taus, k) == records_at(b, o, taus, n),
    decreases k,
{
    if n < k {
        lemma_records_err(b, o, taus, n, (k - 1) as nat);
    }
}

/// The first bytes of the binary form.
pub open spec fn magic_atlas() -> Seq<u8> {
    seq![76, 50, 65, 84, 76, 83, 86, 50]
}

/// What the part from the bins of the threshold on holds.
pub open spec fn parse_body(b: Seq<u8>, schema: u32, key: Seq<u8>, t0: int) -> Result<
    AtlasFileView,
    AtlasBinError,
> {
    let n = u32_at(b, t0) as int;
    let t1 = t0 + 4 + 4 * n;
    if t0 + 4 > b.len() {
        Err(broken(ReadError::U32))
    } else if n < 2 {
        Err(AtlasBinError::TauEdges)
    } else if t1 > b.len() {
        Err(broken(ReadError::Single))
    } else if t1 + 8 > b.len() {
        Err(broken(ReadError::U32))
    } else if t1 + 16 > b.len() {
        Err(broken(ReadError::Single))
    } else if t1 + 20 > b.len() {
        Err(broken(ReadError::U32))
    } else {
        match records_at(b, t1 + 20, n - 1, u32_at(b, t1 + 16) as nat) {
            Err(e) => Err(e),
            Ok((checkpoints, end)) => if end != b.len() {
                Err(AtlasBinError::Trailing { off: end as usize, len: b.len() as usize })
            } else {
                Ok(
                    AtlasFileView {
                        feature_schema_version: schema,
                        variant_key: key,
                        tau_edges: u32s_at(b, t0 + 4, n as nat),
                        cluster_count: u32_at(b, t1) as usize,
                        min_cell_count: u32_at(b, t1 + 4),
                        safe_ref_max_reject_rate: u32_at(b, t1 + 8),
                        safe_rej_min_reject_rate: u32_at(b, t1 + 12),
                        checkpoints,
                    },
                )
            },
        }
    }
}

/// What the file `b` holds as an atlas.
pub open spec fn parse_atlas(b: Seq<u8>) -> Result<AtlasFileView, AtlasBinError> {
    let len = u32_at(b, 16) as int;
    let key = b.subrange(20, 20 + len);
    if b.len() < 12 {
        Err(AtlasBinError::Load(LoadError::TooShort))
    } else if b.subrange(0, 8) != magic_atlas() {
        Err(AtlasBinError::Load(LoadError::BadMagic))
    } else if u32_at(b, 8) != 2 {
        Err(AtlasBinError::Version(u32_at(b, 8)))
    } else if b.len() < 16 {
        Err(broken(ReadError::U32))
    } else if b.len() < 20 {
        Err(broken(ReadError::U32))
    } else if 20 + len > b.len() {
        Err(broken(ReadError::Bytes))
    } else if !valid_utf8(key) {
        Err(broken(ReadError::Utf8))
    } else {
        parse_body(b, u32_at(b, 12), key, 20 + len)
    }
}

fn read_record(buf: &[u8], off: &mut usize, taus: usize) -> (r: Result<
    LoadedPrefixAtlasCheckpoint,
    AtlasBinError,
>)
    requires
        *old(off) <= buf@.len(),
        1 <= taus <= u32::MAX,
    ensures
        match record_at(buf@, *old(off) as int, taus as int) {
            Ok((a, o)) => r matches Ok(x) && x@ == a && atlas_sound(x@) && *final(off) == o && o
                <= buf@.len(),
            Err(e) => r == Err::<LoadedPrefixAtlasCheckpoint, AtlasBinError>(e),
        },
{
    let start: usize = *off;
    let len: usize = buf.len();
    let left: u64 = (len - start) as u64;
    if left < 12 {
        return Err(AtlasBinError::Load(LoadError::Read(ReadError::U32)));
    }
    let checkpoint: u32 = get_u32(buf, start);
    let clusters: u32 = get_u32(buf, start + 4);
    let gaps: u32 = get_u32(buf, start + 8);
    let f0: u64 = 44 + 4 * (gaps as u64);
    let f1: u64 = f0 + 20 * (clusters as u64);
    if f1 > left {
        return Err(AtlasBinError::Load(LoadError::Read(ReadError::Single)));
    }
    if f1 + 4 > left {
        return Err(AtlasBinError::Load(LoadError::Read(ReadError::U32)));
    }
    let cells: u32 = get_u32(buf, start + f1 as usize);
    assert(taus * clusters <= 0xffff_ffff * 0xffff_ffff) by (nonlinear_arith)
        requires
            0 <= taus <= 0xffff_ffff,
            0 <= clusters <= 0xffff_ffff,
    ;
    let want: u128 = (taus as u128) * (clusters as u128) * 256;
    if cells as u128 != want {
        return Err(AtlasBinError::Grid { checkpoint: checkpoint as usize, got: cells as usize });
    }
    if f1 + 4 + cells as u64 > left {
        return Err(AtlasBinError::Load(LoadError::Read(ReadError::Bytes)));
    }
    let at: usize = start + f0 as usize;
    let n: usize = clusters as usize;
    let a: LoadedPrefixAtlasCheckpoint = LoadedPrefixAtlasCheckpoint {
        checkpoint: checkpoint as usize,
        gap_edges: get_u32s(buf, start + 44, gaps as usize),
        shared_gap_edges: false,
        feature_mean: four_at(buf, start + 12),
        feature_inv_std: four_at(buf, start + 28),
        cluster_count: n,
        tau_bin_count: taus,
        centroid_w0: get_u32s(buf, at, n),
        centroid_w1: get_u32s(buf, at + 4 * n, n),
        centroid_w2: get_u32s(buf, at + 8 * n, n),
        centroid_w3: get_u32s(buf, at + 12 * n, n),
        centroid_bias: get_u32s(buf, at + 16 * n, n),
        centroids16: n == 16,
        decision_grid: get_bytes(buf, start + f1 as usize + 4, cells as usize),
    };
    *off = start + f1 as usize + 4 + cells as usize;
    assert(a@ =~= record_at(buf@, start as int, taus as int)->Ok_0.0);
    Ok(a)
}

/// Reads an atlas from its binary form.
pub fn load_prefix_atlas_bin(buf: &[u8]) -> (r: Result<LoadedPrefixAtlas, AtlasBinError>)
    ensures
        match parse_atlas(buf@) {
            Ok(v) => {
                &&& r is Ok
                &&& file_view(r->Ok_0) == v
                &&& forall|i: int|
                    0 <= i < r->Ok_0.checkpoints@.len() ==> atlas_sound(
                        (#[trigger] r->Ok_0.checkpoints@[i])@,
                    )
            },
            Err(e) => r == Err::<LoadedPrefixAtlas, AtlasBinError>(e),
        },
{
    let len: usize = buf.len();
    if len < 12 {
        return Err(AtlasBinError::Load(LoadError::TooShort));
    }
    let magic: [u8; 8] = [76, 50, 65, 84, 76, 83, 86, 50];
    assert(magic@ =~= magic_atlas());
    if !begins_with(buf, magic.as_slice()) {
        return Err(AtlasBinError::Load(LoadError::BadMagic));
    }
    let version: u32 = get_u32(buf, 8);
    if version != 2 {
        return Err(AtlasBinError::Version(version));
    }
    let mut off: usize = 12;
    let schema: u32 = match le_u32(buf, &mut off) {
        Ok(v) => v,
        Err(e) => {
            return Err(AtlasBinError::Load(LoadError::Read(e)));
        },
    };
    let key: String = match le_string(buf, &mut off) {
        Ok(v) => v,
        Err(e) => {
            return Err(AtlasBinError::Load(LoadError::Read(e)));
        },
    };
    let t0: usize = off;
    let ghost key_bytes = encode_utf8(key@);
    assert(parse_atlas(buf@) == parse_body(buf@, schema, key_bytes, t0 as int));
    let left: u64 = (len - t0) as u64;
    if left < 4 {
        return Err(AtlasBinError::Load(LoadError::Read(ReadError::U32)));
    }
    let n: u32 = get_u32(buf, t0);
    if n < 2 {
        return Err(AtlasBinError::TauEdges);
    }
    let f1: u64 = 4 + 4 * (n as u64);
    if f1 > left {
        return Err(AtlasBinError::Load(LoadError::Read(ReadError::Single)));
    }
    if f1 + 8 > left {
        return Err(AtlasBinError::Load(LoadError::Read(ReadError::U32)));
    }
    if f1 + 16 > left {
        return Err(AtlasBinError::Load(LoadError::Read(ReadError::Single)));
    }
    if f1 + 20 > left {
        return Err(AtlasBinError::Load(LoadError::Read(ReadError::U32)));
    }
    let t1: usize = t0 + f1 as usize;
    let tau_edges: Vec<u32> = get_u32s(buf, t0 + 4, n as usize);
    let taus: usize = n as usize - 1;
    let count: u32 = get_u32(buf, t1 + 16);
    let from: usize = t1 + 20;
    off = from;
    let mut checkpoints: Vec<LoadedPrefixAtlasCheckpoint> = Vec::new();
    let mut i: u32 = 0;
    assert(tables_of(checkpoints@) =~= Seq::empty());
    while i < count
        invariant
            i <= count,
            i == checkpoints@.len(),
            off <= buf@.len(),
            1 <= taus <= u32::MAX,
            forall|j: int| 0 <= j < i ==> atlas_sound((#[trigger] checkpoints@[j])@),
            records_at(buf@, from as int, taus as int, i as nat) == Ok::<
                (Seq<AtlasView>, int),
                AtlasBinError,
            >((tables_of(checkpoints@), off as int)),
            parse_atlas(buf@) == parse_body(buf@, schema, key_bytes, t0 as int),
            parse_body(buf@, schema, key_bytes, t0 as int) == match records_at(
                buf@,
                from as int,
                taus as int,
                count as nat,
            ) {
                Err(e) => Err::<AtlasFileView, AtlasBinError>(e),
                Ok(_) => parse_body(buf@, schema, key_bytes, t0 as int),
            },
        decreases count - i,
    {
        match read_record(buf, &mut off, taus) {
            Ok(a) => {
                let ghost before = tables_of(checkpoints@);
                checkpoints.push(a);
                assert(tables_of(checkpoints@) =~= before.push(a@));
            },
            Err(e) => {
                proof {
                    lemma_records_err(
                        buf@,
                        from as int,
                        taus as int,
                        (i + 1) as nat,
                        count as nat,
                    );
                }
                return Err(e);
            },
        }
        i += 1;
    }
    if off != len {
        return Err(AtlasBinError::Trailing { off, len });
    }
    let a: LoadedPrefixAtlas = LoadedPrefixAtlas {
        feature_schema_version: schema,
        variant_key: key,
        tau_edges,
        cluster_count: get_u32(buf, t1) as usize,
        min_cell_count: get_u32(buf, t1 + 4),
        safe_ref_max_reject_rate: get_u32(buf, t1 + 8),
        safe_rej_min_reject_rate: get_u32(buf, t1 + 12),
        checkpoints,
    };
    assert(file_view(a) =~= parse_body(buf@, schema, key_bytes, t0 as int)->Ok_0);
    Ok(a)
}

} // verus!
