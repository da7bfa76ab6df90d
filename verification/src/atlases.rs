//! Laws on atlases: what their files make of them, and which centroid a state belongs to.

use crate::arith::SingleOp;
use crate::atlas_file::{
    cell_fault, magic_atlas, parse_atlas, record_at, records_at, AtlasBinError, AtlasFileView,
    cells_fault, decision, drawn, grid_of, listed_table, square_length, table_fault,
    PrefixAtlasCellFile, PrefixAtlasCheckpointFile, Safety,
};
use crate::certain::{fit, fit_exactly, law_clusters_fit_best, sums_exactly};
use crate::certify::{cluster_of, AtlasView, RowState};
use crate::exact::{law_opposite_worth, law_worth_orders, worth};
use crate::le::{
    group_number_lens, holds_at, lemma_holds_is_subrange, lemma_holds_part, lemma_holds_whole,
    lemma_u32_back, lemma_u32s_back, u32_bytes, u32s_bytes,
};
use crate::single::{nan, unsigned};
use vstd::utf8::valid_utf8;
use vstd::prelude::*;

verus! {

proof fn lemma_no_cell_fault(t: PrefixAtlasCheckpointFile, taus: int, n: int, i: int)
    requires
        0 <= i < n <= t.cells@.len(),
        cells_fault(t, taus, n) is None,
    ensures
        cell_fault(t.checkpoint, t.cells@[i], taus, t.centroids@.len() as int) is None,
    decreases n,
{
    if i < n - 1 {
        lemma_no_cell_fault(t, taus, n - 1, i);
    }
}

/// Cells of different places lie apart.
proof fn lemma_apart(b: int, k: int, x: int, y: int, clusters: int, g: int)
    requires
        0 <= k < clusters,
        0 <= y < clusters,
        0 <= g < 256,
    ensures
        (x * clusters + y) * 256 <= (b * clusters + k) * 256 + g < (x * clusters + y) * 256 + 256
            <==> x == b && y == k,
{
    let p = b * clusters + k;
    let r = x * clusters + y;
    if r * 256 <= p * 256 + g < r * 256 + 256 {
        assert(p == r);
        vstd::arithmetic::div_mod::lemma_fundamental_div_mod_converse(p, clusters, b, k);
        vstd::arithmetic::div_mod::lemma_fundamental_div_mod_converse(r, clusters, x, y);
    }
}

proof fn lemma_grid(
    s: Safety,
    t: PrefixAtlasCheckpointFile,
    taus: int,
    b: int,
    k: int,
    g: int,
    n: int,
    i: int,
)
    requires
        cells_fault(t, taus, t.cells@.len() as int) is None,
        0 <= b < taus,
        0 <= k < t.centroids@.len(),
        0 <= g < 256,
        0 <= n <= t.cells@.len(),
        -1 <= i < n,
        0 <= i ==> t.cells@[i].tau_bin == b && t.cells@[i].cluster_id == k,
        forall|j: int|
            0 <= j && i < j < n ==> !((#[trigger] t.cells@[j]).tau_bin == b
                && t.cells@[j].cluster_id == k),
    ensures
        ({
            let clusters = t.centroids@.len() as int;
            let at = (b * clusters + k) * 256 + g;
            &&& 0 <= at < grid_of(s, t, taus, n).len()
            &&& grid_of(s, t, taus, n)[at] == if 0 <= i {
                decision(s, t.cells@[i].counts@[g], t.cells@[i].reject_rate@[g])
            } else {
                0
            }
        }),
    decreases n,
{
    let clusters = t.centroids@.len() as int;
    let at = (b * clusters + k) * 256 + g;
    assert(0 <= at < taus * clusters * 256) by (nonlinear_arith)
        requires
            at == (b * clusters + k) * 256 + g,
            0 <= b < taus,
            0 <= k < clusters,
            0 <= g < 256,
    ;
    if n > 0 {
        let c = t.cells@[n - 1];
        lemma_no_cell_fault(t, taus, t.cells@.len() as int, n - 1);
        lemma_apart(b, k, c.tau_bin as int, c.cluster_id as int, clusters, g);
        if n - 1 != i {
            assert(!(t.cells@[n - 1].tau_bin == b && t.cells@[n - 1].cluster_id == k));
            lemma_grid(s, t, taus, b, k, g, n - 1, i);
        }
    }
}

/// An atlas decides at a place as the last cell of its file for that place says: not at all where too
/// few rows were seen, to refer where at most the safe share of them was rejected, else to reject
/// where at least the safe share was. Without a cell it does not decide.
pub proof fn law_cells_decide_as_their_rates_say(
    m: spec_fn(SingleOp) -> u32,
    s: Safety,
    t: PrefixAtlasCheckpointFile,
    taus: usize,
    b: int,
    k: int,
    g: int,
    i: int,
)
    requires
        table_fault(t, taus as int) is None,
        0 <= b < taus,
        0 <= k < t.centroids@.len(),
        0 <= g < 256,
        !nan(s.ref_max),
        !nan(s.rej_min),
    ensures
        ({
            let a = listed_table(m, s, t, taus);
            let got = a.decision_grid[(b * t.centroids@.len() + k) * 256 + g];
            let fits = |c: PrefixAtlasCellFile| c.tau_bin == b && c.cluster_id == k;
            &&& 0 <= i < t.cells@.len() && fits(t.cells@[i]) && (forall|j: int|
                i < j < t.cells@.len() ==> !fits(#[trigger] t.cells@[j])) ==> {
                let count = t.cells@[i].counts@[g];
                let rate = t.cells@[i].reject_rate@[g];
                &&& count < s.min_count || nan(rate) ==> got == 0
                &&& count >= s.min_count && !nan(rate) ==> got == if worth(rate) <= worth(s.ref_max) {
                    1
                } else if worth(rate) >= worth(s.rej_min) {
                    2
                } else {
                    0int
                }
            }
            &&& (forall|j: int| 0 <= j < t.cells@.len() ==> !fits(#[trigger] t.cells@[j])) ==> got
                == 0
        }),
{
    let n = t.cells@.len() as int;
    if 0 <= i < n && t.cells@[i].tau_bin == b && t.cells@[i].cluster_id == k && (forall|j: int|
        i < j < n ==> !((#[trigger] t.cells@[j]).tau_bin == b && t.cells@[j].cluster_id == k)) {
        lemma_grid(s, t, taus as int, b, k, g, n, i);
        let rate = t.cells@[i].reject_rate@[g];
        if !nan(rate) {
            law_worth_orders(rate, s.ref_max);
            law_worth_orders(s.rej_min, rate);
        }
    }
    if forall|j: int|
        0 <= j < n ==> !((#[trigger] t.cells@[j]).tau_bin == b && t.cells@[j].cluster_id == k) {
        lemma_grid(s, t, taus as int, b, k, g, n, -1);
    }
}

/// The features of a state that centroids are compared by: the gap, its size, and the changes of
/// the score since the checkpoint before and since the landmark, each less its mean and scaled.
pub open spec fn feature(
    m: spec_fn(SingleOp) -> u32,
    mean: Seq<u32>,
    inv_std: Seq<u32>,
    s: RowState,
    i: int,
) -> u32 {
    let x = if i == 0 {
        s.gap
    } else if i == 1 {
        unsigned(s.gap)
    } else if i == 2 {
        s.delta_prev
    } else {
        s.delta_from_64
    };
    m(SingleOp::Product(m(SingleOp::Difference(x, mean[i])), inv_std[i]))
}

/// The square of the distance between two points, taken exactly.
pub open spec fn square_distance(x: spec_fn(int) -> u32, c: Seq<u32>) -> int {
    let d = |i: int| worth(x(i)) - worth(c[i]);
    d(0) * d(0) + d(1) * d(1) + d(2) * d(2) + d(3) * d(3)
}

/// Whether the caller multiplies two numbers without rounding, at a scale.
pub open spec fn multiplies_exactly(
    m: spec_fn(SingleOp) -> u32,
    scale: int,
    a: u32,
    b: u32,
) -> bool {
    worth(m(SingleOp::Product(a, b))) * scale == worth(a) * worth(b)
}

/// Whether nothing is rounded where a centroid is made ready and compared with a point.
pub open spec fn centroid_exact(
    m: spec_fn(SingleOp) -> u32,
    scale: int,
    x: spec_fn(int) -> u32,
    c: Seq<u32>,
) -> bool {
    let q = |i: int| m(SingleOp::Product(c[i], c[i]));
    let s1 = m(SingleOp::Sum(q(0), q(1)));
    let s2 = m(SingleOp::Sum(s1, q(2)));
    &&& forall|i: int|
        #![trigger c[i]]
        0 <= i < 4 ==> {
            let w = m(SingleOp::Product(0x4000_0000u32, c[i]));
            &&& worth(w) == 2 * worth(c[i])
            &&& multiplies_exactly(m, scale, x(i), w)
            &&& multiplies_exactly(m, scale, c[i], c[i])
        }
    &&& sums_exactly(m, q(0), q(1))
    &&& sums_exactly(m, s1, q(2))
    &&& sums_exactly(m, s2, q(3))
}

proof fn lemma_square(x: int, c: int)
    ensures
        (x - c) * (x - c) == x * x - x * (2 * c) + c * c,
{
    assert((x - c) * (x - c) == x * x - x * (2 * c) + c * c) by (nonlinear_arith);
}

/// How well a centroid fits a point is, at the scale, the square of the point's length less the
/// square of its distance.
proof fn lemma_fit(
    m: spec_fn(SingleOp) -> u32,
    scale: int,
    checkpoint: usize,
    gap_edges: Seq<u32>,
    mean: Seq<u32>,
    inv_std: Seq<u32>,
    cs: Seq<Seq<u32>>,
    taus: usize,
    grid: Seq<u8>,
    s: RowState,
    k: int,
)
    requires
        0 <= k < cs.len(),
        centroid_exact(m, scale, |i: int| feature(m, mean, inv_std, s, i), cs[k]),
    ensures
        ({
            let a = drawn(m, checkpoint, gap_edges, mean, inv_std, cs, taus, grid);
            let x = |i: int| feature(m, mean, inv_std, s, i);
            let l = |i: int| worth(x(i)) * worth(x(i));
            fit(m, a, s, k) * scale == l(0) + l(1) + l(2) + l(3) - square_distance(x, cs[k])
        }),
{
    let a = drawn(m, checkpoint, gap_edges, mean, inv_std, cs, taus, grid);
    let x = |i: int| feature(m, mean, inv_std, s, i);
    let c = cs[k];
    assert(centroid_exact(m, scale, x, c));
    law_opposite_worth(square_length(m, c));
    assert(a.centroid_bias[k] == crate::single::opposite(square_length(m, c)));
    let q = |i: int| worth(m(SingleOp::Product(c[i], c[i])));
    let p = |i: int| worth(m(SingleOp::Product(x(i), m(SingleOp::Product(0x4000_0000u32, c[i])))));
    assert(worth(a.centroid_bias[k]) == -(q(0) + q(1) + q(2) + q(3)));
    assert forall|i: int| 0 <= i < 4 implies {
        let d = worth(x(i)) - worth(c[i]);
        d * d == worth(x(i)) * worth(x(i)) - #[trigger] p(i) * scale + q(i) * scale
    } by {
        assert(c[i] == c[i]);
        lemma_square(worth(x(i)), worth(c[i]));
    }
    assert(p(0) == p(0) && p(1) == p(1) && p(2) == p(2) && p(3) == p(3));
    let f = fit(m, a, s, k);
    assert(f == -(q(0) + q(1) + q(2) + q(3)) + p(0) + p(1) + p(2) + p(3));
    assert(f * scale == -(q(0) * scale + q(1) * scale + q(2) * scale + q(3) * scale) + p(0) * scale
        + p(1) * scale + p(2) * scale + p(3) * scale) by (nonlinear_arith)
        requires
            f == -(q(0) + q(1) + q(2) + q(3)) + p(0) + p(1) + p(2) + p(3),
    ;
}

/// A state belongs to the centroid that its features are nearest to.
pub proof fn law_states_belong_to_their_nearest_centroid(
    m: spec_fn(SingleOp) -> u32,
    scale: int,
    checkpoint: usize,
    gap_edges: Seq<u32>,
    mean: Seq<u32>,
    inv_std: Seq<u32>,
    cs: Seq<Seq<u32>>,
    taus: usize,
    grid: Seq<u8>,
    s: RowState,
    j: int,
)
    requires
        scale > 0,
        0 <= j < cs.len() <= usize::MAX,
        forall|k: int|
            0 <= k < cs.len() ==> centroid_exact(
                m,
                scale,
                |i: int| feature(m, mean, inv_std, s, i),
                #[trigger] cs[k],
            ),
        forall|k: int|
            0 <= k < cs.len() ==> #[trigger] fit_exactly(
                m,
                drawn(m, checkpoint, gap_edges, mean, inv_std, cs, taus, grid),
                s,
                k,
            ),
    ensures
        ({
            let a = drawn(m, checkpoint, gap_edges, mean, inv_std, cs, taus, grid);
            let x = |i: int| feature(m, mean, inv_std, s, i);
            cluster_of(m, a, s) matches Some(k) && 0 <= k < cs.len() && square_distance(x, cs[k])
                <= square_distance(x, cs[j])
        }),
{
    let a = drawn(m, checkpoint, gap_edges, mean, inv_std, cs, taus, grid);
    let x = |i: int| feature(m, mean, inv_std, s, i);
    law_clusters_fit_best(m, a, s, j);
    let k = cluster_of(m, a, s)->Some_0;
    assert(centroid_exact(m, scale, x, cs[k]));
    assert(centroid_exact(m, scale, x, cs[j]));
    lemma_fit(m, scale, checkpoint, gap_edges, mean, inv_std, cs, taus, grid, s, k);
    lemma_fit(m, scale, checkpoint, gap_edges, mean, inv_std, cs, taus, grid, s, j);
    assert(fit(m, a, s, j) * scale <= fit(m, a, s, k) * scale) by (nonlinear_arith)
        requires
            fit(m, a, s, j) <= fit(m, a, s, k),
            scale > 0,
    ;
}

/// The bytes of the atlas of a checkpoint.
pub open spec fn record_bytes(a: AtlasView) -> Seq<u8> {
    u32_bytes(a.checkpoint as u32) + u32_bytes(a.cluster_count as u32) + u32_bytes(
        a.gap_edges.len() as u32,
    ) + u32s_bytes(a.feature_mean) + u32s_bytes(a.feature_inv_std) + u32s_bytes(a.gap_edges)
        + u32s_bytes(a.centroid_w0) + u32s_bytes(a.centroid_w1) + u32s_bytes(a.centroid_w2)
        + u32s_bytes(a.centroid_w3) + u32s_bytes(a.centroid_bias) + u32_bytes(
        a.decision_grid.len() as u32,
    ) + a.decision_grid
}

/// Whether the atlas of a checkpoint can be written in the binary form.
pub open spec fn record_writable(a: AtlasView, taus: int) -> bool {
    &&& a.checkpoint <= u32::MAX
    &&& a.cluster_count <= u32::MAX
    &&& a.gap_edges.len() <= u32::MAX
    &&& !a.shared_gap_edges
    &&& a.feature_mean.len() == 4
    &&& a.feature_inv_std.len() == 4
    &&& a.centroid_w0.len() == a.cluster_count
    &&& a.centroid_w1.len() == a.cluster_count
    &&& a.centroid_w2.len() == a.cluster_count
    &&& a.centroid_w3.len() == a.cluster_count
    &&& a.centroid_bias.len() == a.cluster_count
    &&& a.centroids16 == (a.cluster_count == 16)
    &&& a.tau_bin_count == taus
    &&& a.decision_grid.len() == taus * a.cluster_count * 256 <= u32::MAX
}

/// The bytes of atlases one behind the other.
pub open spec fn records_bytes(s: Seq<AtlasView>) -> Seq<u8>
    decreases s.len(),
{
    if s.len() == 0 {
        Seq::empty()
    } else {
        records_bytes(s.drop_last()) + record_bytes(s.last())
    }
}

/// The bytes of an atlas: the mark, the version, the schema, the key and its length, the edges of the
/// threshold and their number, what counts as safe, and the checkpoints and their number.
pub open spec fn atlas_bytes(a: AtlasFileView) -> Seq<u8> {
    seq![0x4cu8, 0x32, 0x41, 0x54, 0x4c, 0x53, 0x56, 0x32] + u32_bytes(2) + u32_bytes(
        a.feature_schema_version,
    ) + u32_bytes(a.variant_key.len() as u32) + a.variant_key + u32_bytes(
        a.tau_edges.len() as u32,
    ) + u32s_bytes(a.tau_edges) + u32_bytes(a.cluster_count as u32) + u32_bytes(a.min_cell_count)
        + u32_bytes(a.safe_ref_max_reject_rate) + u32_bytes(a.safe_rej_min_reject_rate) + u32_bytes(
        a.checkpoints.len() as u32,
    ) + records_bytes(a.checkpoints)
}

proof fn lemma_record_back(b: Seq<u8>, o: int, a: AtlasView, taus: int)
    requires
        holds_at(b, o, record_bytes(a)),
        record_writable(a, taus),
    ensures
        record_at(b, o, taus) == Ok::<(AtlasView, int), AtlasBinError>(
            (a, o + record_bytes(a).len()),
        ),
{
    broadcast use group_number_lens;

    let h1 = u32_bytes(a.checkpoint as u32);
    let h2 = h1 + u32_bytes(a.cluster_count as u32);
    let h3 = h2 + u32_bytes(a.gap_edges.len() as u32);
    let h4 = h3 + u32s_bytes(a.feature_mean);
    let h5 = h4 + u32s_bytes(a.feature_inv_std);
    let h6 = h5 + u32s_bytes(a.gap_edges);
    let h7 = h6 + u32s_bytes(a.centroid_w0);
    let h8 = h7 + u32s_bytes(a.centroid_w1);
    let h9 = h8 + u32s_bytes(a.centroid_w2);
    let h10 = h9 + u32s_bytes(a.centroid_w3);
    let h11 = h10 + u32s_bytes(a.centroid_bias);
    let h12 = h11 + u32_bytes(a.decision_grid.len() as u32);
    assert(record_bytes(a) == h12 + a.decision_grid);
    lemma_holds_is_subrange(b, o, record_bytes(a));
    lemma_holds_part(b, o, h12, a.decision_grid);
    lemma_holds_part(b, o, h11, u32_bytes(a.decision_grid.len() as u32));
    lemma_holds_part(b, o, h10, u32s_bytes(a.centroid_bias));
    lemma_holds_part(b, o, h9, u32s_bytes(a.centroid_w3));
    lemma_holds_part(b, o, h8, u32s_bytes(a.centroid_w2));
    lemma_holds_part(b, o, h7, u32s_bytes(a.centroid_w1));
    lemma_holds_part(b, o, h6, u32s_bytes(a.centroid_w0));
    lemma_holds_part(b, o, h5, u32s_bytes(a.gap_edges));
    lemma_holds_part(b, o, h4, u32s_bytes(a.feature_inv_std));
    lemma_holds_part(b, o, h3, u32s_bytes(a.feature_mean));
    lemma_holds_part(b, o, h2, u32_bytes(a.gap_edges.len() as u32));
    lemma_holds_part(b, o, h1, u32_bytes(a.cluster_count as u32));
    lemma_u32_back(b, o, a.checkpoint as u32);
    lemma_u32_back(b, o + 4, a.cluster_count as u32);
    lemma_u32_back(b, o + 8, a.gap_edges.len() as u32);
    lemma_u32s_back(b, o + h3.len(), a.feature_mean);
    lemma_u32s_back(b, o + h4.len(), a.feature_inv_std);
    lemma_u32s_back(b, o + h5.len(), a.gap_edges);
    lemma_u32s_back(b, o + h6.len(), a.centroid_w0);
    lemma_u32s_back(b, o + h7.len(), a.centroid_w1);
    lemma_u32s_back(b, o + h8.len(), a.centroid_w2);
    lemma_u32s_back(b, o + h9.len(), a.centroid_w3);
    lemma_u32s_back(b, o + h10.len(), a.centroid_bias);
    lemma_u32_back(b, o + h11.len(), a.decision_grid.len() as u32);
    lemma_holds_is_subrange(b, o + h12.len(), a.decision_grid);
}

proof fn lemma_records_back(b: Seq<u8>, o: int, s: Seq<AtlasView>, taus: int)
    requires
        holds_at(b, o, records_bytes(s)),
        forall|i: int| 0 <= i < s.len() ==> record_writable(#[trigger] s[i], taus),
    ensures
        records_at(b, o, taus, s.len()) == Ok::<(Seq<AtlasView>, int), AtlasBinError>(
            (s, o + records_bytes(s).len()),
        ),
    decreases s.len(),
{
    if s.len() > 0 {
        let rest = s.drop_last();
        lemma_holds_part(b, o, records_bytes(rest), record_bytes(s.last()));
        assert forall|i: int| 0 <= i < rest.len() implies record_writable(
            #[trigger] rest[i],
            taus,
        ) by {
            assert(rest[i] == s[i]);
        }
        lemma_records_back(b, o, rest, taus);
        assert(record_writable(s[s.len() - 1], taus));
        lemma_record_back(b, o + records_bytes(rest).len(), s.last(), taus);
        assert(rest.push(s.last()) =~= s);
    } else {
        assert(s =~= Seq::empty());
    }
}

/// An atlas is read back as it was written.
pub proof fn law_atlas_round_trip(a: AtlasFileView)
    requires
        2 <= a.tau_edges.len() <= u32::MAX,
        a.variant_key.len() <= u32::MAX,
        valid_utf8(a.variant_key),
        a.cluster_count <= u32::MAX,
        a.checkpoints.len() <= u32::MAX,
        forall|i: int|
            0 <= i < a.checkpoints.len() ==> record_writable(
                #[trigger] a.checkpoints[i],
                a.tau_edges.len() - 1,
            ),
    ensures
        parse_atlas(atlas_bytes(a)) == Ok::<AtlasFileView, AtlasBinError>(a),
{
    broadcast use group_number_lens;

    let b = atlas_bytes(a);
    let h0 = seq![0x4cu8, 0x32, 0x41, 0x54, 0x4c, 0x53, 0x56, 0x32];
    let h1 = h0 + u32_bytes(2);
    let h2 = h1 + u32_bytes(a.feature_schema_version);
    let h3 = h2 + u32_bytes(a.variant_key.len() as u32);
    let h4 = h3 + a.variant_key;
    let h5 = h4 + u32_bytes(a.tau_edges.len() as u32);
    let h6 = h5 + u32s_bytes(a.tau_edges);
    let h7 = h6 + u32_bytes(a.cluster_count as u32);
    let h8 = h7 + u32_bytes(a.min_cell_count);
    let h9 = h8 + u32_bytes(a.safe_ref_max_reject_rate);
    let h10 = h9 + u32_bytes(a.safe_rej_min_reject_rate);
    let h11 = h10 + u32_bytes(a.checkpoints.len() as u32);
    assert(b == h11 + records_bytes(a.checkpoints));
    assert(h0 =~= magic_atlas());
    lemma_holds_whole(b);
    lemma_holds_part(b, 0, h11, records_bytes(a.checkpoints));
    lemma_holds_part(b, 0, h10, u32_bytes(a.checkpoints.len() as u32));
    lemma_holds_part(b, 0, h9, u32_bytes(a.safe_rej_min_reject_rate));
    lemma_holds_part(b, 0, h8, u32_bytes(a.safe_ref_max_reject_rate));
    lemma_holds_part(b, 0, h7, u32_bytes(a.min_cell_count));
    lemma_holds_part(b, 0, h6, u32_bytes(a.cluster_count as u32));
    lemma_holds_part(b, 0, h5, u32s_bytes(a.tau_edges));
    lemma_holds_part(b, 0, h4, u32_bytes(a.tau_edges.len() as u32));
    lemma_holds_part(b, 0, h3, a.variant_key);
    lemma_holds_part(b, 0, h2, u32_bytes(a.variant_key.len() as u32));
    lemma_holds_part(b, 0, h1, u32_bytes(a.feature_schema_version));
    lemma_holds_part(b, 0, h0, u32_bytes(2));
    lemma_holds_is_subrange(b, 0, h0);
    lemma_u32_back(b, 8, 2);
    lemma_u32_back(b, 12, a.feature_schema_version);
    lemma_u32_back(b, 16, a.variant_key.len() as u32);
    lemma_holds_is_subrange(b, 20, a.variant_key);
    let t0 = h4.len() as int;
    lemma_u32_back(b, t0, a.tau_edges.len() as u32);
    lemma_u32s_back(b, t0 + 4, a.tau_edges);
    let t1 = h6.len() as int;
    lemma_u32_back(b, t1, a.cluster_count as u32);
    lemma_u32_back(b, t1 + 4, a.min_cell_count);
    lemma_u32_back(b, t1 + 8, a.safe_ref_max_reject_rate);
    lemma_u32_back(b, t1 + 12, a.safe_rej_min_reject_rate);
    lemma_u32_back(b, t1 + 16, a.checkpoints.len() as u32);
    lemma_records_back(b, t1 + 20, a.checkpoints, a.tau_edges.len() - 1);
}

} // verus!
