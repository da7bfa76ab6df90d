//! Laws on binary files: models, packs, bounds, orders, ranks and rows are read back as written.

use crate::features::{parse_features, signed};
use crate::forest::{
    magic_bounds, magic_order, magic_prefix, magic_rank, magic_soa, node_at, nodes_at, parse_bounds,
    parse_order, parse_prefix_pack, parse_rank_pack, parse_soa, signed32, BoundsView, LoadError,
    OrderView, PrefixView, RankView, SoaView, TreeNode,
};
use crate::le::{
    group_number_lens, holds_at, lemma_holds_is_subrange, lemma_holds_part, lemma_holds_whole,
    lemma_u32_back, lemma_u32s_back, lemma_u64_back, u32_bytes, u32s_bytes, u64_bytes, u64s_at,
};
use crate::row_meta::{parse_meta, MetaView};
use vstd::prelude::*;

verus! {

/// Signed numbers as they are written.
pub open spec fn unsigned32(s: Seq<i32>) -> Seq<u32> {
    Seq::new(s.len(), |i: int| s[i] as u32)
}

proof fn lemma_signed32(s: Seq<i32>)
    ensures
        signed32(unsigned32(s)) == s,
{
    assert forall|i: int| 0 <= i < s.len() implies #[trigger] signed32(unsigned32(s))[i] == s[i] by {
        let v = s[i];
        assert((v as u32) as i32 == v) by (bit_vector);
    }
    assert(signed32(unsigned32(s)) =~= s);
}

/// The bytes of long signed numbers, in order.
pub open spec fn longs_bytes(s: Seq<i64>) -> Seq<u8>
    decreases s.len(),
{
    if s.len() == 0 {
        Seq::empty()
    } else {
        longs_bytes(s.drop_last()) + u64_bytes(s.last() as u64)
    }
}

proof fn lemma_longs_back(b: Seq<u8>, i: int, s: Seq<i64>)
    requires
        holds_at(b, i, longs_bytes(s)),
    ensures
        longs_bytes(s).len() == 8 * s.len(),
        signed(u64s_at(b, i, s.len())) == s,
    decreases s.len(),
{
    broadcast use group_number_lens;

    if s.len() > 0 {
        let rest = s.drop_last();
        let v = s.last();
        lemma_holds_part(b, i, longs_bytes(rest), u64_bytes(v as u64));
        lemma_longs_back(b, i, rest);
        lemma_u64_back(b, i + 8 * rest.len(), v as u64);
        assert((v as u64) as i64 == v) by (bit_vector);
        let got = signed(u64s_at(b, i, s.len()));
        assert forall|k: int| 0 <= k < s.len() implies #[trigger] got[k] == s[k] by {
            if k < rest.len() {
                assert(signed(u64s_at(b, i, rest.len()))[k] == rest[k]);
            }
        }
        assert(got =~= s);
    } else {
        assert(signed(u64s_at(b, i, s.len())) =~= s);
    }
}

/// The bytes of a node, with three bytes behind it that hold nothing.
pub open spec fn node_bytes(n: TreeNode) -> Seq<u8> {
    u32_bytes(n.fidx as u32) + u32_bytes(n.left) + u32_bytes(n.right) + u32_bytes(n.missing)
        + u32_bytes(n.thr) + u32_bytes(n.leaf) + seq![n.is_leaf, 0, 0, 0]
}

/// The bytes of nodes, in order.
pub open spec fn nodes_bytes(s: Seq<TreeNode>) -> Seq<u8>
    decreases s.len(),
{
    if s.len() == 0 {
        Seq::empty()
    } else {
        nodes_bytes(s.drop_last()) + node_bytes(s.last())
    }
}

proof fn lemma_node_back(b: Seq<u8>, i: int, n: TreeNode)
    requires
        holds_at(b, i, node_bytes(n)),
    ensures
        node_bytes(n).len() == 28,
        node_at(b, i) == n,
{
    broadcast use group_number_lens;

    let h1 = u32_bytes(n.fidx as u32);
    let h2 = h1 + u32_bytes(n.left);
    let h3 = h2 + u32_bytes(n.right);
    let h4 = h3 + u32_bytes(n.missing);
    let h5 = h4 + u32_bytes(n.thr);
    let h6 = h5 + u32_bytes(n.leaf);
    let end = seq![n.is_leaf, 0, 0, 0];
    assert(node_bytes(n) == h6 + end);
    lemma_holds_part(b, i, h6, end);
    lemma_holds_part(b, i, h5, u32_bytes(n.leaf));
    lemma_holds_part(b, i, h4, u32_bytes(n.thr));
    lemma_holds_part(b, i, h3, u32_bytes(n.missing));
    lemma_holds_part(b, i, h2, u32_bytes(n.right));
    lemma_holds_part(b, i, h1, u32_bytes(n.left));
    lemma_u32_back(b, i, n.fidx as u32);
    lemma_u32_back(b, i + 4, n.left);
    lemma_u32_back(b, i + 8, n.right);
    lemma_u32_back(b, i + 12, n.missing);
    lemma_u32_back(b, i + 16, n.thr);
    lemma_u32_back(b, i + 20, n.leaf);
    lemma_holds_is_subrange(b, i + 24, end);
    assert(b.subrange(i + 24, i + 28)[0] == b[i + 24]);
    let v = n.fidx;
    assert((v as u32) as i32 == v) by (bit_vector);
}

proof fn lemma_nodes_back(b: Seq<u8>, i: int, s: Seq<TreeNode>)
    requires
        holds_at(b, i, nodes_bytes(s)),
    ensures
        nodes_bytes(s).len() == 28 * s.len(),
        nodes_at(b, i, s.len()) == s,
    decreases s.len(),
{
    if s.len() > 0 {
        let rest = s.drop_last();
        lemma_holds_part(b, i, nodes_bytes(rest), node_bytes(s.last()));
        lemma_nodes_back(b, i, rest);
        lemma_node_back(b, i + 28 * rest.len(), s.last());
        let got = nodes_at(b, i, s.len());
        assert forall|k: int| 0 <= k < s.len() implies #[trigger] got[k] == s[k] by {
            if k < rest.len() {
                assert(nodes_at(b, i, rest.len())[k] == rest[k]);
            }
        }
        assert(got =~= s);
    } else {
        assert(nodes_at(b, i, s.len()) =~= s);
    }
}

/// The bytes of a model: its mark, the numbers of features, trees and nodes, where each tree begins
/// and, once more, where the last one ends, and the nodes.
pub open spec fn soa_bytes(v: SoaView, end: u32) -> Seq<u8> {
    magic_soa() + u32_bytes(v.n_features as u32) + u32_bytes(v.n_trees as u32) + u32_bytes(
        v.node_count as u32,
    ) + u32s_bytes(v.tree_roots.push(end)) + nodes_bytes(v.nodes)
}

/// A model is read back as it was written.
pub proof fn law_model_round_trip(v: SoaView, end: u32)
    requires
        0 <= v.n_features <= u32::MAX,
        0 <= v.n_trees <= u32::MAX,
        0 <= v.node_count <= u32::MAX,
        v.tree_roots.len() == v.n_trees,
        v.nodes.len() == v.node_count,
    ensures
        parse_soa(soa_bytes(v, end)) == Ok::<SoaView, LoadError>(v),
{
    broadcast use group_number_lens;

    let b = soa_bytes(v, end);
    let roots = v.tree_roots.push(end);
    let h0 = magic_soa();
    let h1 = h0 + u32_bytes(v.n_features as u32);
    let h2 = h1 + u32_bytes(v.n_trees as u32);
    let h3 = h2 + u32_bytes(v.node_count as u32);
    let h4 = h3 + u32s_bytes(roots);
    lemma_holds_whole(b);
    assert(b == h4 + nodes_bytes(v.nodes));
    lemma_holds_part(b, 0, h4, nodes_bytes(v.nodes));
    lemma_holds_part(b, 0, h3, u32s_bytes(roots));
    lemma_holds_part(b, 0, h2, u32_bytes(v.node_count as u32));
    lemma_holds_part(b, 0, h1, u32_bytes(v.n_trees as u32));
    lemma_holds_part(b, 0, h0, u32_bytes(v.n_features as u32));
    lemma_holds_is_subrange(b, 0, h0);
    lemma_u32_back(b, 8, v.n_features as u32);
    lemma_u32_back(b, 12, v.n_trees as u32);
    lemma_u32_back(b, 16, v.node_count as u32);
    lemma_u32s_back(b, 20, roots);
    lemma_nodes_back(b, h4.len() as int, v.nodes);
    let got = crate::le::u32s_at(b, 20, v.n_trees as nat);
    assert forall|k: int| 0 <= k < v.n_trees implies #[trigger] got[k] == v.tree_roots[k] by {
        assert(crate::le::u32s_at(b, 20, roots.len())[k] == roots[k]);
    }
    assert(got =~= v.tree_roots);
}

/// The bytes of a prefix pack: its mark, the numbers of features, trees and nodes, the features by
/// their numbers in a row, where each tree begins, and the nodes.
pub open spec fn prefix_bytes(v: PrefixView) -> Seq<u8> {
    magic_prefix() + u32_bytes(v.n_hot_features as u32) + u32_bytes(v.n_trees as u32) + u32_bytes(
        v.node_count as u32,
    ) + u32s_bytes(v.hot_global_fidx) + u32s_bytes(v.tree_roots) + nodes_bytes(v.nodes)
}

/// A prefix pack is read back as it was written.
pub proof fn law_prefix_pack_round_trip(v: PrefixView)
    requires
        0 <= v.n_hot_features <= u32::MAX,
        0 <= v.n_trees <= u32::MAX,
        0 <= v.node_count <= u32::MAX,
        v.hot_global_fidx.len() == v.n_hot_features,
        v.tree_roots.len() == v.n_trees,
        v.nodes.len() == v.node_count,
    ensures
        parse_prefix_pack(prefix_bytes(v)) == Ok::<PrefixView, LoadError>(v),
{
    broadcast use group_number_lens;

    let b = prefix_bytes(v);
    let h0 = magic_prefix();
    let h1 = h0 + u32_bytes(v.n_hot_features as u32);
    let h2 = h1 + u32_bytes(v.n_trees as u32);
    let h3 = h2 + u32_bytes(v.node_count as u32);
    let h4 = h3 + u32s_bytes(v.hot_global_fidx);
    let h5 = h4 + u32s_bytes(v.tree_roots);
    lemma_holds_whole(b);
    assert(b == h5 + nodes_bytes(v.nodes));
    lemma_holds_part(b, 0, h5, nodes_bytes(v.nodes));
    lemma_holds_part(b, 0, h4, u32s_bytes(v.tree_roots));
    lemma_holds_part(b, 0, h3, u32s_bytes(v.hot_global_fidx));
    lemma_holds_part(b, 0, h2, u32_bytes(v.node_count as u32));
    lemma_holds_part(b, 0, h1, u32_bytes(v.n_trees as u32));
    lemma_holds_part(b, 0, h0, u32_bytes(v.n_hot_features as u32));
    lemma_holds_is_subrange(b, 0, h0);
    lemma_u32_back(b, 8, v.n_hot_features as u32);
    lemma_u32_back(b, 12, v.n_trees as u32);
    lemma_u32_back(b, 16, v.node_count as u32);
    lemma_u32s_back(b, 20, v.hot_global_fidx);
    lemma_u32s_back(b, h4.len() as int, v.tree_roots);
    lemma_nodes_back(b, h5.len() as int, v.nodes);
}

/// The bytes of bounds: the mark, the number of trees, two bounds for each tree, and the bounds on
/// what the trees past each place come to.
pub open spec fn bounds_bytes(v: BoundsView, own: Seq<u32>) -> Seq<u8> {
    magic_bounds() + u32_bytes(v.n_trees as u32) + u32s_bytes(own) + u32s_bytes(v.suffix_min)
        + u32s_bytes(v.suffix_max)
}

/// Bounds are read back as they were written, whatever the bounds of single trees are.
pub proof fn law_bounds_round_trip(v: BoundsView, own: Seq<u32>)
    requires
        0 <= v.n_trees <= u32::MAX,
        own.len() == 2 * v.n_trees,
        v.suffix_min.len() == v.n_trees + 1,
        v.suffix_max.len() == v.n_trees + 1,
    ensures
        parse_bounds(bounds_bytes(v, own)) == Ok::<BoundsView, LoadError>(v),
{
    broadcast use group_number_lens;

    let b = bounds_bytes(v, own);
    let h0 = magic_bounds();
    let h1 = h0 + u32_bytes(v.n_trees as u32);
    let h2 = h1 + u32s_bytes(own);
    let h3 = h2 + u32s_bytes(v.suffix_min);
    lemma_holds_whole(b);
    lemma_holds_part(b, 0, h3, u32s_bytes(v.suffix_max));
    lemma_holds_part(b, 0, h2, u32s_bytes(v.suffix_min));
    lemma_holds_part(b, 0, h1, u32s_bytes(own));
    lemma_holds_part(b, 0, h0, u32_bytes(v.n_trees as u32));
    lemma_holds_is_subrange(b, 0, h0);
    lemma_u32_back(b, 8, v.n_trees as u32);
    lemma_u32s_back(b, h2.len() as int, v.suffix_min);
    lemma_u32s_back(b, h3.len() as int, v.suffix_max);
}

/// The bytes of an order: the mark, the number of trees, the trees in order, two bounds for each,
/// and the bounds on what the trees past each place come to.
pub open spec fn order_bytes(v: OrderView, own: Seq<u32>) -> Seq<u8> {
    magic_order() + u32_bytes(v.n_trees as u32) + u32s_bytes(v.order) + u32s_bytes(own)
        + u32s_bytes(v.suffix_min) + u32s_bytes(v.suffix_max)
}

/// An order is read back as it was written, whatever the bounds of single trees are.
pub proof fn law_order_round_trip(v: OrderView, own: Seq<u32>)
    requires
        0 <= v.n_trees <= u32::MAX,
        v.order.len() == v.n_trees,
        own.len() == 2 * v.n_trees,
        v.suffix_min.len() == v.n_trees + 1,
        v.suffix_max.len() == v.n_trees + 1,
    ensures
        parse_order(order_bytes(v, own)) == Ok::<OrderView, LoadError>(v),
{
    broadcast use group_number_lens;

    let b = order_bytes(v, own);
    let h0 = magic_order();
    let h1 = h0 + u32_bytes(v.n_trees as u32);
    let h2 = h1 + u32s_bytes(v.order);
    let h3 = h2 + u32s_bytes(own);
    let h4 = h3 + u32s_bytes(v.suffix_min);
    lemma_holds_whole(b);
    lemma_holds_part(b, 0, h4, u32s_bytes(v.suffix_max));
    lemma_holds_part(b, 0, h3, u32s_bytes(v.suffix_min));
    lemma_holds_part(b, 0, h2, u32s_bytes(own));
    lemma_holds_part(b, 0, h1, u32s_bytes(v.order));
    lemma_holds_part(b, 0, h0, u32_bytes(v.n_trees as u32));
    lemma_holds_is_subrange(b, 0, h0);
    lemma_u32_back(b, 8, v.n_trees as u32);
    lemma_u32s_back(b, 12, v.order);
    lemma_u32s_back(b, h3.len() as int, v.suffix_min);
    lemma_u32s_back(b, h4.len() as int, v.suffix_max);
}

/// The bytes of a rank pack: the mark, the numbers of features, nodes and thresholds, for each
/// feature where its thresholds begin and how many there are, the rank of each node, and the
/// thresholds.
pub open spec fn rank_bytes(v: RankView) -> Seq<u8> {
    magic_rank() + u32_bytes(v.n_features as u32) + u32_bytes(v.node_thr_rank.len() as u32)
        + u32_bytes(v.threshold_values.len() as u32) + u32s_bytes(v.feat_offset) + u32s_bytes(
        v.feat_count,
    ) + u32s_bytes(unsigned32(v.node_thr_rank)) + u32s_bytes(v.threshold_values)
}

/// A rank pack is read back as it was written.
pub proof fn law_rank_pack_round_trip(v: RankView)
    requires
        0 <= v.n_features <= u32::MAX,
        v.feat_offset.len() == v.n_features,
        v.feat_count.len() == v.n_features,
        v.node_thr_rank.len() <= u32::MAX,
        v.threshold_values.len() <= u32::MAX,
    ensures
        parse_rank_pack(rank_bytes(v)) == Ok::<RankView, LoadError>(v),
{
    broadcast use group_number_lens;

    let b = rank_bytes(v);
    let words = unsigned32(v.node_thr_rank);
    let h0 = magic_rank();
    let h1 = h0 + u32_bytes(v.n_features as u32);
    let h2 = h1 + u32_bytes(v.node_thr_rank.len() as u32);
    let h3 = h2 + u32_bytes(v.threshold_values.len() as u32);
    let h4 = h3 + u32s_bytes(v.feat_offset);
    let h5 = h4 + u32s_bytes(v.feat_count);
    let h6 = h5 + u32s_bytes(words);
    lemma_holds_whole(b);
    lemma_holds_part(b, 0, h6, u32s_bytes(v.threshold_values));
    lemma_holds_part(b, 0, h5, u32s_bytes(words));
    lemma_holds_part(b, 0, h4, u32s_bytes(v.feat_count));
    lemma_holds_part(b, 0, h3, u32s_bytes(v.feat_offset));
    lemma_holds_part(b, 0, h2, u32_bytes(v.threshold_values.len() as u32));
    lemma_holds_part(b, 0, h1, u32_bytes(v.node_thr_rank.len() as u32));
    lemma_holds_part(b, 0, h0, u32_bytes(v.n_features as u32));
    lemma_holds_is_subrange(b, 0, h0);
    lemma_u32_back(b, 9, v.n_features as u32);
    lemma_u32_back(b, 13, v.node_thr_rank.len() as u32);
    lemma_u32_back(b, 17, v.threshold_values.len() as u32);
    lemma_u32s_back(b, 21, v.feat_offset);
    lemma_u32s_back(b, h4.len() as int, v.feat_count);
    lemma_u32s_back(b, h5.len() as int, words);
    lemma_u32s_back(b, h6.len() as int, v.threshold_values);
    lemma_signed32(v.node_thr_rank);
}

/// The bytes of what is known of rows: the mark, their number, and in turn all numbers, all keys, all
/// thresholds, which rows are active, and which are known to be positive.
pub open spec fn meta_bytes(v: MetaView, magic: Seq<u8>) -> Seq<u8> {
    magic + u32_bytes(v.n_rows as u32) + longs_bytes(v.ids) + u32s_bytes(unsigned32(v.keys))
        + u32s_bytes(v.taus) + v.active + v.exact_positive
}

/// What is known of rows is read back as it was written.
pub proof fn law_meta_round_trip(v: MetaView, magic: Seq<u8>)
    requires
        magic.len() == 8,
        0 <= v.n_rows <= u32::MAX,
        v.ids.len() == v.n_rows,
        v.keys.len() == v.n_rows,
        v.taus.len() == v.n_rows,
        v.active.len() == v.n_rows,
        v.exact_positive.len() == v.n_rows,
    ensures
        parse_meta(meta_bytes(v, magic), magic) == Ok::<MetaView, LoadError>(v),
{
    broadcast use group_number_lens;

    let b = meta_bytes(v, magic);
    let words = unsigned32(v.keys);
    let h1 = magic + u32_bytes(v.n_rows as u32);
    let h2 = h1 + longs_bytes(v.ids);
    let h3 = h2 + u32s_bytes(words);
    let h4 = h3 + u32s_bytes(v.taus);
    let h5 = h4 + v.active;
    lemma_holds_whole(b);
    lemma_holds_part(b, 0, h5, v.exact_positive);
    lemma_holds_part(b, 0, h4, v.active);
    lemma_holds_part(b, 0, h3, u32s_bytes(v.taus));
    lemma_holds_part(b, 0, h2, u32s_bytes(words));
    lemma_holds_part(b, 0, h1, longs_bytes(v.ids));
    lemma_holds_part(b, 0, magic, u32_bytes(v.n_rows as u32));
    lemma_holds_is_subrange(b, 0, magic);
    lemma_u32_back(b, 8, v.n_rows as u32);
    lemma_longs_back(b, 12, v.ids);
    lemma_u32s_back(b, h2.len() as int, words);
    lemma_u32s_back(b, h3.len() as int, v.taus);
    lemma_holds_is_subrange(b, h4.len() as int, v.active);
    lemma_holds_is_subrange(b, h5.len() as int, v.exact_positive);
    lemma_signed32(v.keys);
}

/// The bytes of a batch: the mark, the numbers of rows and columns, the features row by row, the
/// numbers of the rows, and their labels.
pub open spec fn batch_bytes(
    rows: u32,
    cols: u32,
    x: Seq<u32>,
    ids: Seq<i64>,
    y: Seq<u8>,
) -> Seq<u8> {
    seq![0x4cu8, 0x31, 0x46, 0x45, 0x41, 0x54, 0x76, 0x31, 0] + u32_bytes(rows) + u32_bytes(cols)
        + u32s_bytes(x) + longs_bytes(ids) + y
}

/// A batch is read back as it was written: each row has its own features, number and label, and the
/// rows may be scored as if nothing were missing.
pub proof fn law_batch_round_trip(
    rows: u32,
    cols: u32,
    x: Seq<u32>,
    ids: Seq<i64>,
    y: Seq<u8>,
    i: int,
)
    requires
        x.len() == rows * cols <= usize::MAX,
        ids.len() == rows,
        y.len() == rows,
        0 <= i < rows,
    ensures
        parse_features(batch_bytes(rows, cols, x, ids, y)) matches Ok(m) && {
            &&& m.n_rows == rows
            &&& m.n_cols == cols
            &&& m.nan_free
            &&& m.row(i) == x.subrange(i * cols, (i + 1) * cols)
            &&& m.id(i) == ids[i]
            &&& m.label(i) == y[i]
        },
{
    broadcast use group_number_lens;

    let b = batch_bytes(rows, cols, x, ids, y);
    let h0 = seq![0x4cu8, 0x31, 0x46, 0x45, 0x41, 0x54, 0x76, 0x31, 0];
    let h1 = h0 + u32_bytes(rows);
    let h2 = h1 + u32_bytes(cols);
    let h3 = h2 + u32s_bytes(x);
    let h4 = h3 + longs_bytes(ids);
    assert(h0 =~= crate::features::magic_features_v1());
    lemma_holds_whole(b);
    lemma_holds_part(b, 0, h4, y);
    lemma_holds_part(b, 0, h3, longs_bytes(ids));
    lemma_holds_part(b, 0, h2, u32s_bytes(x));
    lemma_holds_part(b, 0, h1, u32_bytes(cols));
    lemma_holds_part(b, 0, h0, u32_bytes(rows));
    lemma_holds_is_subrange(b, 0, h0);
    lemma_u32_back(b, 9, rows);
    lemma_u32_back(b, 13, cols);
    lemma_u32s_back(b, 17, x);
    lemma_longs_back(b, h3.len() as int, ids);
    lemma_holds_is_subrange(b, h4.len() as int, y);
}

} // verus!
