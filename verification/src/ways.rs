//! Laws on single trees: the way that a row takes and the leaf where it ends.

use crate::descend::{descend, next_node, NodeModel, RowModel, Rule, TraverseError};
use crate::exact::{law_worth_orders, worth};
use crate::leaf_set::{has_leaf, law_meet_members, law_sole_leaf_is_the_one_member, sole_leaf};
use crate::qs_pack::{Mask128, PackModel};
use crate::qs_score::{block_mask, blocks_read, candidates, tree_outcome};
use crate::quantize::{feature_cuts, marked, ranked};
use crate::rank::{first_above, law_rank_counts_cuts, lemma_first_above_range, rank_of};
use crate::single::{below, nan, rising};
use vstd::prelude::*;

verus! {

/// From a split a row goes left exactly if its value is less than the threshold. A value that is
/// missing takes its own way where the walk minds that, and goes right where it does not.
pub proof fn law_rows_go_left_below_the_threshold(
    n: NodeModel,
    idx: int,
    row: RowModel,
    miss_aware: bool,
    x: u32,
)
    requires
        0 <= n.fidx < row.len(),
        row[n.fidx] == Some(x),
        !nan(n.thr),
    ensures
        next_node(n, idx, row, Rule { miss_aware, ranks: None }) == Ok::<int, TraverseError>(
            if nan(x) {
                if miss_aware {
                    n.missing
                } else {
                    n.right
                }
            } else if worth(x) < worth(n.thr) {
                n.left
            } else {
                n.right
            },
        ),
{
    if !nan(x) {
        law_worth_orders(x, n.thr);
    }
}

/// Whether nodes are a way of a row from a node on: each the one that the split before leads to, and
/// the last a leaf.
pub open spec fn is_way(
    nodes: Seq<NodeModel>,
    base: int,
    row: RowModel,
    rule: Rule,
    way: Seq<int>,
) -> bool {
    &&& way.len() > 0
    &&& forall|i: int| 0 <= i < way.len() ==> 0 <= #[trigger] way[i] < nodes.len()
    &&& nodes[way.last()].leaf
    &&& forall|i: int|
        0 <= i < way.len() - 1 ==> !nodes[#[trigger] way[i]].leaf && (next_node(
            nodes[way[i]],
            way[i],
            row,
            rule,
        ) matches Ok(next) && way[i + 1] == base + next)
}

/// A row ends with the value of the leaf that its way leads to, and moves once for each split.
pub proof fn law_ways_end_at_their_leaf(
    nodes: Seq<NodeModel>,
    base: int,
    row: RowModel,
    rule: Rule,
    way: Seq<int>,
    fuel: nat,
)
    requires
        is_way(nodes, base, row, rule, way),
        way.len() - 1 <= fuel,
    ensures
        descend(nodes, base, row, rule, way[0], fuel) matches Ok(l) && l.value
            == nodes[way.last()].value && l.moves == way.len() - 1,
    decreases way.len(),
{
    assert(0 <= way[0] < nodes.len());
    if way.len() > 1 {
        let rest = way.skip(1);
        assert(!nodes[way[0]].leaf);
        assert forall|i: int| 0 <= i < rest.len() implies 0 <= #[trigger] rest[i] < nodes.len() by {
            assert(rest[i] == way[i + 1]);
        }
        assert(rest.last() == way.last());
        assert forall|i: int| 0 <= i < rest.len() - 1 implies !nodes[#[trigger] rest[i]].leaf && (
        next_node(nodes[rest[i]], rest[i], row, rule) matches Ok(next) && rest[i + 1] == base
            + next) by {
            assert(rest[i] == way[i + 1]);
            assert(rest[i + 1] == way[i + 2]);
        }
        law_ways_end_at_their_leaf(nodes, base, row, rule, rest, (fuel - 1) as nat);
        assert(rest[0] == way[1]);
    }
}

/// Whether the tests of a tree that were read all keep a leaf. The test on a feature keeps the
/// leaves of the bucket that the feature's rank falls into, or of the bucket for missing values.
pub open spec fn kept_by_all(
    p: PackModel,
    t: int,
    ranks: Seq<u8>,
    miss: Seq<u8>,
    read: int,
    leaf: int,
) -> bool {
    let h = p.tree_hdrs[t];
    &&& has_leaf(Mask128 { lo: h.init_lo, hi: h.init_hi }, leaf)
    &&& forall|b: int|
        h.block_off <= b < h.block_off + read ==> {
            let k = #[trigger] p.block_hdrs[b];
            let bucket = if miss[k.fid as int] != 0 {
                k.miss_bucket as int
            } else {
                p.luts[k.lut_off + ranks[k.fid as int]] as int
            };
            has_leaf(p.masks[k.mask_off + bucket], leaf)
        }
}

proof fn lemma_kept(
    p: PackModel,
    t: int,
    ranks: Seq<u8>,
    miss: Seq<u8>,
    k: nat,
    leaf: int,
)
    ensures
        has_leaf(candidates(p, t, ranks, miss, k), leaf) <==> kept_by_all(
            p,
            t,
            ranks,
            miss,
            k as int,
            leaf,
        ),
    decreases k,
{
    if k > 0 {
        let h = p.tree_hdrs[t];
        let n = (k - 1) as nat;
        let last = h.block_off + k - 1;
        lemma_kept(p, t, ranks, miss, n, leaf);
        law_meet_members(
            candidates(p, t, ranks, miss, n),
            block_mask(p, last, ranks, miss),
            leaf,
        );
        let x = p.block_hdrs[last];
        if kept_by_all(p, t, ranks, miss, k as int, leaf) {
            assert(kept_by_all(p, t, ranks, miss, n as int, leaf));
        }
    }
}

proof fn lemma_read(p: PackModel, t: int, ranks: Seq<u8>, miss: Seq<u8>, k: nat)
    requires
        k <= p.tree_hdrs[t].block_cnt,
    ensures
        ({
            let r = blocks_read(p, t, ranks, miss, k);
            &&& k <= r <= p.tree_hdrs[t].block_cnt
            &&& r < p.tree_hdrs[t].block_cnt ==> sole_leaf(candidates(p, t, ranks, miss, r)) is Some
            &&& forall|j: nat|
                k < j < r ==> sole_leaf(#[trigger] candidates(p, t, ranks, miss, j)) is None
        }),
    decreases p.tree_hdrs[t].block_cnt - k,
{
    if k < p.tree_hdrs[t].block_cnt && sole_leaf(candidates(p, t, ranks, miss, k + 1)) is None {
        lemma_read(p, t, ranks, miss, k + 1);
        let r = blocks_read(p, t, ranks, miss, k + 1);
        assert forall|j: nat| k < j < r implies sole_leaf(
            #[trigger] candidates(p, t, ranks, miss, j),
        ) is None by {
            if j == k + 1 {
            }
        }
    }
}

/// A tree of tests ends at the one leaf that all tests read so far keep: it gives the value of that
/// leaf, and every other leaf was ruled out. It reads all tests, or stops at the first after which a
/// single leaf is left.
pub proof fn law_trees_end_at_the_leaf_that_is_left(
    p: PackModel,
    t: int,
    ranks: Seq<u8>,
    miss: Seq<u8>,
    other: int,
    fewer: nat,
)
    requires
        0 <= other < 128,
    ensures
        tree_outcome(p, t, ranks, miss) matches Ok(o) ==> {
            let h = p.tree_hdrs[t];
            &&& 0 <= o.evals <= h.block_cnt
            &&& exists|leaf: int| #[trigger]
                kept_by_all(p, t, ranks, miss, o.evals, leaf) && 0 <= leaf < h.leaf_cnt && o.leaf
                    == p.leaf_values[h.leaf_val_off + leaf] && (other != leaf ==> !kept_by_all(
                    p,
                    t,
                    ranks,
                    miss,
                    o.evals,
                    other,
                ))
            &&& 0 < fewer < o.evals ==> !(exists|leaf: int| #[trigger]
                left_alone(p, t, ranks, miss, fewer as int, leaf))
            &&& o.early == if o.evals > 0 {
                1int
            } else {
                0
            }
        },
{
    if let Ok(o) = tree_outcome(p, t, ranks, miss) {
        lemma_read(p, t, ranks, miss, 0);
        let k = blocks_read(p, t, ranks, miss, 0);
        let c = candidates(p, t, ranks, miss, k);
        let leaf = sole_leaf(c)->Some_0;
        law_sole_leaf_is_the_one_member(c, leaf);
        assert(has_leaf(c, leaf));
        lemma_kept(p, t, ranks, miss, k, leaf);
        lemma_kept(p, t, ranks, miss, k, other);
        assert(has_leaf(c, other) <==> other == leaf);
        assert(kept_by_all(p, t, ranks, miss, o.evals, leaf));
        if 0 < fewer < o.evals {
            let d = candidates(p, t, ranks, miss, fewer);
            assert(sole_leaf(d) is None);
            assert forall|x: int| !#[trigger] left_alone(p, t, ranks, miss, fewer as int, x) by {
                if left_alone(p, t, ranks, miss, fewer as int, x) {
                    assert forall|y: int| 0 <= y < 128 implies (#[trigger] has_leaf(d, y) <==> y
                        == x) by {
                        lemma_kept(p, t, ranks, miss, fewer, y);
                        assert(kept_by_all(p, t, ranks, miss, fewer as int, y) <==> y == x);
                    }
                    law_sole_leaf_is_the_one_member(d, x);
                }
            }
        }
    }
}

/// Whether the tests read leave one leaf alone.
pub open spec fn left_alone(
    p: PackModel,
    t: int,
    ranks: Seq<u8>,
    miss: Seq<u8>,
    read: int,
    leaf: int,
) -> bool {
    &&& 0 <= leaf < 128
    &&& forall|y: int|
        0 <= y < 128 ==> (#[trigger] kept_by_all(p, t, ranks, miss, read, y) <==> y == leaf)
}

/// The rank of a feature is how many of its cuts its value has reached; a missing value has rank zero
/// and is marked, and no other value is. Places past the features of the pack keep what they held.
pub proof fn law_ranks_tell_the_cuts_reached(
    p: PackModel,
    feat: Seq<u32>,
    ranks: Seq<u8>,
    miss: Seq<u8>,
    f: int,
    k: int,
)
    requires
        0 <= f < ranks.len(),
        f < miss.len(),
        f < p.n_features ==> rising(feature_cuts(p, f)) && feature_cuts(p, f).len() < 256,
        f < p.n_features && !nan(feat[f]) ==> {
            let cuts = feature_cuts(p, f);
            &&& 0 <= k <= cuts.len()
            &&& k > 0 ==> worth(cuts[k - 1]) <= worth(feat[f])
            &&& k < cuts.len() ==> worth(feat[f]) < worth(cuts[k])
        },
    ensures
        f >= p.n_features ==> ranked(p, feat, ranks)[f] == ranks[f] && marked(p, feat, miss)[f]
            == miss[f],
        f < p.n_features && nan(feat[f]) ==> ranked(p, feat, ranks)[f] == 0 && marked(
            p,
            feat,
            miss,
        )[f] == 1,
        f < p.n_features && !nan(feat[f]) ==> ranked(p, feat, ranks)[f] == k && marked(
            p,
            feat,
            miss,
        )[f] == 0,
{
    if f < p.n_features && !nan(feat[f]) {
        let cuts = feature_cuts(p, f);
        let x = feat[f];
        law_rank_counts_cuts(cuts, x);
        lemma_first_above_range(cuts, x, 0);
        let r = first_above(cuts, x, 0);
        assert(rank_of(cuts, x) == r);
        assert forall|i: int| 0 <= i < cuts.len() implies (below(x, #[trigger] cuts[i]) <==> worth(
            x,
        ) < worth(cuts[i])) by {
            assert(!nan(cuts[i]));
            law_worth_orders(x, cuts[i]);
        }
        if r < k {
            assert(below(x, cuts[r]));
            assert(!nan(cuts[r]) && !nan(cuts[k - 1]));
            law_worth_orders(cuts[r], cuts[k - 1]);
        }
        if k < r {
            assert(!below(x, cuts[k]));
        }
    }
}

} // verus!
