//! Cutting some trees out of a packed ensemble into a pack of their own, whose features are
//! renumbered in the order in which the trees first name them.

use crate::qs_features::{
    clamped, fids_readable, fresh, law_fresh_lists_each_new_feature_once, lemma_list_fids_in_range,
    list_feature_ids, list_fids, narrow, unseen,
};
use crate::qs_pack::{
    law_pack_round_trip, leaf_end, lut_end, mask_end, qs_bytes, qs_parse, Mask128, PackError,
    PackModel, QsBlockHdr, QsPack, QsTreeHdr,
};
use crate::qs_score::{block_mask, blocks_read, bucket_of, candidates, indices, tree_outcome};
use crate::quantize::{cuts_readable, feature_cuts};
use vstd::prelude::*;
use vstd::slice::slice_subrange;

verus! {

/// The place of feature `f` in the list.
pub open spec fn local_of(map: Seq<int>, f: int) -> int {
    choose|i: int| 0 <= i < map.len() && #[trigger] map[i] == f
}

/// The features that the listed trees name.
pub open spec fn local_features(p: PackModel, trees: Seq<int>) -> Seq<int> {
    fresh(list_fids(p, trees), unseen(p.n_features))
}

/// The cuts of the listed features, one feature after the other.
pub open spec fn gathered_cuts(p: PackModel, map: Seq<int>) -> Seq<u32>
    decreases map.len(),
{
    if map.len() == 0 {
        Seq::empty()
    } else {
        gathered_cuts(p, map.drop_last()) + feature_cuts(p, map.last())
    }
}

/// Where the cuts of each listed feature start, and where the last ones end.
pub open spec fn gathered_offsets(p: PackModel, map: Seq<int>) -> Seq<u32> {
    Seq::new(map.len() + 1, |i: int| gathered_cuts(p, map.take(i)).len() as u32)
}

/// The pack so far, with a copy of block `b`.
pub open spec fn add_block(acc: PackModel, p: PackModel, map: Seq<int>, b: int) -> PackModel {
    let h = p.block_hdrs[b];
    PackModel {
        block_hdrs: acc.block_hdrs.push(
            QsBlockHdr {
                fid: local_of(map, h.fid as int) as u8,
                bucket_cnt: h.bucket_cnt,
                miss_bucket: h.miss_bucket,
                lut_off: acc.luts.len() as u32,
                mask_off: acc.masks.len() as u32,
            },
        ),
        luts: acc.luts + p.luts.subrange(h.lut_off as int, h.lut_off + 129),
        masks: acc.masks + p.masks.subrange(h.mask_off as int, h.mask_off + h.bucket_cnt),
        ..acc
    }
}

/// The pack so far, with copies of `k` blocks from `off` on.
pub open spec fn add_blocks(
    acc: PackModel,
    p: PackModel,
    map: Seq<int>,
    off: int,
    k: nat,
) -> PackModel
    decreases k,
{
    if k == 0 {
        acc
    } else {
        add_block(add_blocks(acc, p, map, off, (k - 1) as nat), p, map, off + k - 1)
    }
}

/// The pack so far, with the header of a tree that takes over the header `h`.
pub open spec fn add_header(acc: PackModel, h: QsTreeHdr) -> PackModel {
    PackModel {
        tree_hdrs: acc.tree_hdrs.push(
            QsTreeHdr {
                block_off: acc.block_hdrs.len() as u32,
                block_cnt: h.block_cnt,
                leaf_cnt: h.leaf_cnt,
                leaf_val_off: acc.leaf_values.len() as u32,
                init_lo: h.init_lo,
                init_hi: h.init_hi,
            },
        ),
        ..acc
    }
}

/// The pack so far, with a copy of tree `t`.
pub open spec fn add_tree(acc: PackModel, p: PackModel, map: Seq<int>, t: int) -> PackModel {
    let h = p.tree_hdrs[t];
    let with_blocks = add_blocks(
        add_header(acc, h),
        p,
        map,
        h.block_off as int,
        h.block_cnt as nat,
    );
    PackModel {
        leaf_values: with_blocks.leaf_values + p.leaf_values.subrange(
            h.leaf_val_off as int,
            h.leaf_val_off + h.leaf_cnt,
        ),
        ..with_blocks
    }
}

/// The pack so far, with copies of the listed trees.
pub open spec fn add_trees(
    acc: PackModel,
    p: PackModel,
    map: Seq<int>,
    trees: Seq<int>,
) -> PackModel
    decreases trees.len(),
{
    if trees.len() == 0 {
        acc
    } else {
        add_tree(add_trees(acc, p, map, trees.drop_last()), p, map, trees.last())
    }
}

/// A pack with the features of `map` and no trees yet.
pub open spec fn bare_pack(p: PackModel, map: Seq<int>, n_trees: int) -> PackModel {
    PackModel {
        n_features: map.len() as int,
        n_trees,
        n_blocks: 0,
        base_score: p.base_score,
        cut_offsets: gathered_offsets(p, map),
        cuts: gathered_cuts(p, map),
        tree_hdrs: Seq::empty(),
        block_hdrs: Seq::empty(),
        luts: Seq::empty(),
        masks: Seq::empty(),
        leaf_values: Seq::empty(),
        row_headers: false,
    }
}

/// The pack of the listed trees.
pub open spec fn extracted(p: PackModel, trees: Seq<int>) -> PackModel {
    let map = local_features(p, trees);
    let q = add_trees(bare_pack(p, map, trees.len() as int), p, map, trees);
    PackModel { n_blocks: q.block_hdrs.len() as int, ..q }
}

/// Whether everything that tree `t` points at can be copied.
pub open spec fn tree_copyable(p: PackModel, t: int) -> bool {
    let h = p.tree_hdrs[t];
    &&& fids_readable(p, t, p.n_features)
    &&& h.leaf_val_off + h.leaf_cnt <= p.leaf_values.len()
    &&& forall|b: int|
        h.block_off <= b < h.block_off + h.block_cnt ==> (#[trigger] p.block_hdrs[b]).lut_off + 129
            <= p.luts.len() && p.block_hdrs[b].mask_off + p.block_hdrs[b].bucket_cnt
            <= p.masks.len() && cuts_readable(p, p.block_hdrs[b].fid as int)
}

/// Why no pack could be cut out.
#[derive(Clone, Copy, Debug, PartialEq, Eq, Structural)]
pub enum ExtractError {
    EmptyRange,
    EmptyList,
    TreeOutside { tree: usize },
}

/// The place of every feature in the list, or the greatest number where it is not listed.
fn local_table(map: &Vec<u16>, n: usize) -> (r: Vec<u16>)
    requires
        map@.len() <= 256,
        forall|i: int| 0 <= i < map@.len() ==> #[trigger] map@[i] < n,
        map@.no_duplicates(),
    ensures
        r@.len() == n,
        forall|i: int| 0 <= i < map@.len() ==> r@[#[trigger] map@[i] as int] == i,
{
    let mut r: Vec<u16> = vec![u16::MAX; n];
    let mut i: usize = 0;
    while i < map.len()
        invariant
            i <= map@.len() <= 256,
            r@.len() == n,
            forall|k: int| 0 <= k < map@.len() ==> #[trigger] map@[k] < n,
            map@.no_duplicates(),
            forall|k: int| 0 <= k < i ==> r@[#[trigger] map@[k] as int] == k,
        decreases map@.len() - i,
    {
        r[map[i] as usize] = i as u16;
        i += 1;
    }
    r
}

/// Gathers the cuts of the listed features.
fn gather_cuts(pack: &QsPack, map: &Vec<u16>, Ghost(wide): Ghost<Seq<int>>) -> (r: (
    Vec<u32>,
    Vec<u32>,
))
    requires
        map@ == narrow(wide),
        forall|i: int| 0 <= i < wide.len() ==> 0 <= #[trigger] wide[i] < 256,
        forall|i: int| 0 <= i < wide.len() ==> cuts_readable(pack@, #[trigger] wide[i]),
    ensures
        r.0@ == gathered_offsets(pack@, wide),
        r.1@ == gathered_cuts(pack@, wide),
{
    let ghost p = pack@;
    let mut offsets: Vec<u32> = Vec::new();
    let mut cuts: Vec<u32> = Vec::new();
    offsets.push(0);
    assert(wide.take(0) =~= Seq::empty());
    let mut i: usize = 0;
    while i < map.len()
        invariant
            i <= map@.len(),
            p == pack@,
            map@ == narrow(wide),
            forall|k: int| 0 <= k < wide.len() ==> 0 <= #[trigger] wide[k] < 256,
            forall|k: int| 0 <= k < wide.len() ==> cuts_readable(p, #[trigger] wide[k]),
            cuts@ == gathered_cuts(p, wide.take(i as int)),
            offsets@.len() == i + 1,
            forall|k: int|
                0 <= k <= i ==> #[trigger] offsets@[k] == gathered_cuts(p, wide.take(k)).len() as u32,
        decreases map@.len() - i,
    {
        let f: usize = map[i] as usize;
        assert(f == wide[i as int]);
        assert(pack.cut_offsets@.len() == pack.cut_offsets.len());
        let part: &[u32] = slice_subrange(
            pack.cuts.as_slice(),
            pack.cut_offsets[f] as usize,
            pack.cut_offsets[f + 1] as usize,
        );
        append_words(&mut cuts, part);
        proof {
            assert(wide.take(i + 1).drop_last() =~= wide.take(i as int));
            assert(cuts@ == gathered_cuts(p, wide.take(i + 1)));
        }
        offsets.push(cuts.len() as u32);
        i += 1;
    }
    assert(wide.take(i as int) =~= wide);
    assert(offsets@ =~= gathered_offsets(p, wide));
    (offsets, cuts)
}

/// Appends numbers.
fn append_words(out: &mut Vec<u32>, part: &[u32])
    ensures
        final(out)@ == old(out)@ + part@,
{
    let ghost before = out@;
    let mut k: usize = 0;
    while k < part.len()
        invariant
            k <= part@.len(),
            out@ == before + part@.subrange(0, k as int),
        decreases part@.len() - k,
    {
        out.push(part[k]);
        k += 1;
        assert(out@ =~= before + part@.subrange(0, k as int));
    }
    assert(part@.subrange(0, k as int) =~= part@);
}

/// Appends masks.
fn append_masks(out: &mut Vec<Mask128>, part: &[Mask128])
    ensures
        final(out)@ == old(out)@ + part@,
{
    let ghost before = out@;
    let mut k: usize = 0;
    while k < part.len()
        invariant
            k <= part@.len(),
            out@ == before + part@.subrange(0, k as int),
        decreases part@.len() - k,
    {
        out.push(part[k]);
        k += 1;
        assert(out@ =~= before + part@.subrange(0, k as int));
    }
    assert(part@.subrange(0, k as int) =~= part@);
}

/// Copies one tree.
fn copy_tree(
    pack: &QsPack,
    t: usize,
    table: &Vec<u16>,
    out: &mut QsPack,
    Ghost(map): Ghost<Seq<int>>,
)
    requires
        tree_copyable(pack@, t as int),
        table@.len() == pack@.n_features,
        map.len() <= 256,
        map.no_duplicates(),
        forall|i: int|
            0 <= i < map.len() ==> 0 <= #[trigger] map[i] < pack@.n_features && table@[map[i]] == i,
        forall|b: int|
            pack@.tree_hdrs[t as int].block_off <= b < pack@.tree_hdrs[t as int].block_off
                + pack@.tree_hdrs[t as int].block_cnt ==> map.contains(
                (#[trigger] pack@.block_hdrs[b]).fid as int,
            ),
    ensures
        final(out)@ == add_tree(old(out)@, pack@, map, t as int),
{
    let ghost p = pack@;
    let ghost acc = out@;
    let h: QsTreeHdr = pack.tree_hdrs[t];
    out.tree_hdrs.push(
        QsTreeHdr {
            block_off: out.block_hdrs.len() as u32,
            block_cnt: h.block_cnt,
            leaf_cnt: h.leaf_cnt,
            leaf_val_off: out.leaf_values.len() as u32,
            init_lo: h.init_lo,
            init_hi: h.init_hi,
        },
    );
    let ghost headed = add_header(acc, h);
    assert(out@ =~= headed);
    let cnt: usize = h.block_cnt as usize;
    assert(pack.block_hdrs@.len() == pack.block_hdrs.len());
    let mut k: usize = 0;
    while k < cnt
        invariant
            k <= cnt,
            p == pack@,
            h == p.tree_hdrs[t as int],
            cnt == h.block_cnt,
            tree_copyable(p, t as int),
            pack.block_hdrs@.len() <= usize::MAX,
            table@.len() == p.n_features,
            map.len() <= 256,
            map.no_duplicates(),
            forall|i: int|
                0 <= i < map.len() ==> 0 <= #[trigger] map[i] < p.n_features && table@[map[i]] == i,
            forall|b: int|
                h.block_off <= b < h.block_off + h.block_cnt ==> map.contains(
                    (#[trigger] p.block_hdrs[b]).fid as int,
                ),
            out@ == add_blocks(headed, p, map, h.block_off as int, k as nat),
        decreases cnt - k,
    {
        let b: usize = h.block_off as usize + k;
        let bh: QsBlockHdr = pack.block_hdrs[b];
        assert(p.block_hdrs[b as int] == bh);
        assert(pack.luts@.len() == pack.luts.len());
        assert(pack.masks@.len() == pack.masks.len());
        let local: u16 = table[bh.fid as usize];
        proof {
            let i = choose|i: int| 0 <= i < map.len() && #[trigger] map[i] == bh.fid;
            assert(map.contains(bh.fid as int));
            assert(local_of(map, bh.fid as int) == i);
            assert(local == i);
        }
        let ghost before = out@;
        out.block_hdrs.push(
            QsBlockHdr {
                fid: local as u8,
                bucket_cnt: bh.bucket_cnt,
                miss_bucket: bh.miss_bucket,
                lut_off: out.luts.len() as u32,
                mask_off: out.masks.len() as u32,
            },
        );
        let lut_at: usize = bh.lut_off as usize;
        crate::le::put_bytes(&mut out.luts, slice_subrange(pack.luts.as_slice(), lut_at, lut_at + 129));
        let mask_at: usize = bh.mask_off as usize;
        append_masks(
            &mut out.masks,
            slice_subrange(pack.masks.as_slice(), mask_at, mask_at + bh.bucket_cnt as usize),
        );
        assert(out@ =~= add_block(before, p, map, b as int));
        k += 1;
    }
    assert(pack.leaf_values@.len() == pack.leaf_values.len());
    let leaf_at: usize = h.leaf_val_off as usize;
    append_words(
        &mut out.leaf_values,
        slice_subrange(pack.leaf_values.as_slice(), leaf_at, leaf_at + h.leaf_cnt as usize),
    );
    assert(out@ =~= add_tree(acc, p, map, t as int));
}

/// Copies the listed trees.
fn extract(pack: &QsPack, trees: &Vec<usize>, map: Vec<u16>, Ghost(ts): Ghost<Seq<int>>) -> (r: (
    QsPack,
    Vec<u16>,
))
    requires
        ts == Seq::new(trees@.len(), |i: int| trees@[i] as int),
        forall|i: int| 0 <= i < ts.len() ==> tree_copyable(pack@, #[trigger] ts[i]),
        map@ == narrow(local_features(pack@, ts)),
    ensures
        r.0@ == extracted(pack@, ts),
        r.1@ == narrow(local_features(pack@, ts)),
{
    let ghost p = pack@;
    let ghost wide = local_features(p, ts);
    proof {
        lemma_local_features(p, ts);
        assert forall|i: int| 0 <= i < map@.len() implies #[trigger] map@[i] < p.n_features by {
            assert(0 <= wide[i] < p.n_features);
        }
        assert forall|i: int, j: int| 0 <= i < map@.len() && 0 <= j < map@.len() && i != j implies
            map@[i] != map@[j] by {
            assert(wide[i] != wide[j]);
        }
    }
    let table: Vec<u16> = local_table(&map, pack.n_features);
    let (cut_offsets, cuts) = gather_cuts(pack, &map, Ghost(wide));
    let mut out: QsPack = QsPack {
        n_features: map.len(),
        n_trees: trees.len(),
        n_blocks: 0,
        base_score: pack.base_score,
        cut_offsets,
        cuts,
        tree_hdrs: Vec::new(),
        block_hdrs: Vec::new(),
        luts: Vec::new(),
        masks: Vec::new(),
        leaf_values: Vec::new(),
        row_headers: false,
    };
    let ghost bare = bare_pack(p, wide, ts.len() as int);
    assert(out@ =~= bare);
    let mut i: usize = 0;
    assert(ts.take(0) =~= Seq::empty());
    while i < trees.len()
        invariant
            i <= trees@.len(),
            p == pack@,
            wide == local_features(p, ts),
            ts == Seq::new(trees@.len(), |k: int| trees@[k] as int),
            forall|k: int| 0 <= k < ts.len() ==> tree_copyable(p, #[trigger] ts[k]),
            table@.len() == p.n_features,
            wide.len() <= 256,
            wide.no_duplicates(),
            map@ == narrow(wide),
            forall|k: int|
                0 <= k < wide.len() ==> 0 <= #[trigger] wide[k] < p.n_features && wide[k] < 256,
            forall|k: int| 0 <= k < map@.len() ==> table@[#[trigger] map@[k] as int] == k,
            out@ == add_trees(bare, p, wide, ts.take(i as int)),
        decreases trees@.len() - i,
    {
        proof {
            let t = ts[i as int];
            assert(tree_copyable(p, t));
            assert(ts.take(i + 1).drop_last() =~= ts.take(i as int));
            assert forall|b: int|
                p.tree_hdrs[t].block_off <= b < p.tree_hdrs[t].block_off
                    + p.tree_hdrs[t].block_cnt implies wide.contains(
                (#[trigger] p.block_hdrs[b]).fid as int,
            ) by {
                lemma_local_has(p, ts, i as int, b);
            }
            assert forall|k: int| 0 <= k < wide.len() implies 0 <= #[trigger] wide[k]
                < p.n_features && table@[wide[k]] == k by {
                assert(map@[k] == wide[k]);
            }
        }
        copy_tree(pack, trees[i], &table, &mut out, Ghost(wide));
        i += 1;
    }
    assert(ts.take(i as int) =~= ts);
    out.n_blocks = out.block_hdrs.len();
    assert(out@ =~= extracted(p, ts));
    (out, map)
}

/// The features of some trees are listed once, and are features of the pack.
pub proof fn lemma_local_features(p: PackModel, trees: Seq<int>)
    requires
        forall|i: int| 0 <= i < trees.len() ==> tree_copyable(p, #[trigger] trees[i]),
    ensures
        local_features(p, trees).no_duplicates(),
        local_features(p, trees).len() <= 256,
        forall|i: int|
            0 <= i < local_features(p, trees).len() ==> 0 <= #[trigger] local_features(p, trees)[i]
                < p.n_features && local_features(p, trees)[i] < 256 && cuts_readable(
                p,
                local_features(p, trees)[i],
            ),
{
    let fids = list_fids(p, trees);
    let map = local_features(p, trees);
    assert forall|i: int| 0 <= i < trees.len() implies fids_readable(
        p,
        #[trigger] trees[i],
        p.n_features,
    ) by {
        assert(tree_copyable(p, trees[i]));
    }
    lemma_list_fids_in_range(p, trees, p.n_features);
    law_fresh_lists_each_new_feature_once(fids, unseen(p.n_features));
    lemma_list_cuts(p, trees);
    assert forall|i: int| 0 <= i < map.len() implies 0 <= #[trigger] map[i] < p.n_features
        && map[i] < 256 && cuts_readable(p, map[i]) by {
        assert(map.contains(map[i]));
        let k = choose|k: int| 0 <= k < fids.len() && fids[k] == map[i];
        assert(0 <= fids[k] < p.n_features);
    }
    vstd::seq_lib::seq_to_set_is_finite(map);
    map.unique_seq_to_set();
    let all = vstd::set_lib::set_int_range(0, 256);
    vstd::set_lib::lemma_int_range(0, 256);
    assert(map.to_set().subset_of(all)) by {
        assert forall|f: int| map.to_set().contains(f) implies all.contains(f) by {
            let i = choose|i: int| 0 <= i < map.len() && map[i] == f;
            assert(0 <= map[i] < 256);
        }
    }
    vstd::set_lib::lemma_len_subset(map.to_set(), all);
}

proof fn lemma_list_cuts(p: PackModel, trees: Seq<int>)
    requires
        forall|i: int| 0 <= i < trees.len() ==> tree_copyable(p, #[trigger] trees[i]),
    ensures
        forall|i: int|
            0 <= i < list_fids(p, trees).len() ==> cuts_readable(p, #[trigger] list_fids(p, trees)[i]),
    decreases trees.len(),
{
    if trees.len() > 0 {
        let head = trees.drop_last();
        assert forall|i: int| 0 <= i < head.len() implies tree_copyable(p, #[trigger] head[i]) by {
            assert(head[i] == trees[i]);
        }
        lemma_list_cuts(p, head);
        let t = trees[trees.len() - 1];
        assert(tree_copyable(p, t));
        let a = list_fids(p, head);
        let b = crate::qs_features::tree_fids(p, t);
        assert forall|i: int| 0 <= i < (a + b).len() implies cuts_readable(p, #[trigger] (a + b)[i]) by {
            if i >= a.len() {
                let k = p.tree_hdrs[t].block_off + (i - a.len());
                assert(cuts_readable(p, p.block_hdrs[k].fid as int));
            } else {
                assert((a + b)[i] == a[i]);
            }
        }
    }
}

/// Every feature that a block of a listed tree names is in the list.
proof fn lemma_local_has(p: PackModel, trees: Seq<int>, i: int, b: int)
    requires
        forall|k: int| 0 <= k < trees.len() ==> tree_copyable(p, #[trigger] trees[k]),
        0 <= i < trees.len(),
        p.tree_hdrs[trees[i]].block_off <= b < p.tree_hdrs[trees[i]].block_off
            + p.tree_hdrs[trees[i]].block_cnt,
    ensures
        local_features(p, trees).contains(p.block_hdrs[b].fid as int),
{
    lemma_listed(p, trees, i, b);
    let fids = list_fids(p, trees);
    let f = p.block_hdrs[b].fid as int;
    assert(tree_copyable(p, trees[i]));
    assert(fids.contains(f));
    law_fresh_lists_each_new_feature_once(fids, unseen(p.n_features));
    assert(f < p.n_features);
    assert(!unseen(p.n_features)[f]);
}

/// What a block of a listed tree names is in the list of features.
pub proof fn lemma_listed(p: PackModel, trees: Seq<int>, i: int, b: int)
    requires
        0 <= i < trees.len(),
        p.tree_hdrs[trees[i]].block_off <= b < p.tree_hdrs[trees[i]].block_off
            + p.tree_hdrs[trees[i]].block_cnt,
    ensures
        list_fids(p, trees).contains(p.block_hdrs[b].fid as int),
    decreases trees.len(),
{
    let f = p.block_hdrs[b].fid as int;
    let head = trees.drop_last();
    let a = list_fids(p, head);
    let own = crate::qs_features::tree_fids(p, trees.last());
    if i < head.len() {
        assert(head[i] == trees[i]);
        lemma_listed(p, head, i, b);
        let k = choose|k: int| 0 <= k < a.len() && a[k] == f;
        assert((a + own)[k] == f);
    } else {
        let k = b - p.tree_hdrs[trees[i]].block_off;
        assert(own[k] == f);
        assert((a + own)[a.len() + k] == f);
    }
}

/// Cuts the trees from `start_tree_idx` up to `end_tree_idx` out of the pack. The second result
/// says which feature of the whole each feature of the part is.
pub fn extract_tree_range_remapped(
    pack: &QsPack,
    start_tree_idx: usize,
    end_tree_idx: usize,
) -> (r: Result<(QsPack, Vec<u16>), ExtractError>)
    requires
        forall|i: int|
            0 <= i < clamped(pack@, start_tree_idx as int, end_tree_idx as int).len()
                ==> tree_copyable(
                pack@,
                #[trigger] clamped(pack@, start_tree_idx as int, end_tree_idx as int)[i],
            ),
    ensures
        ({
            let trees = clamped(pack@, start_tree_idx as int, end_tree_idx as int);
            match r {
                Ok((part, map)) => trees.len() > 0 && part@ == extracted(pack@, trees) && map@
                    == narrow(local_features(pack@, trees)),
                Err(e) => trees.len() == 0 && e == ExtractError::EmptyRange,
            }
        }),
{
    let ghost ts = clamped(pack@, start_tree_idx as int, end_tree_idx as int);
    let end: usize = if end_tree_idx < pack.n_trees {
        end_tree_idx
    } else {
        pack.n_trees
    };
    if start_tree_idx >= end {
        return Err(ExtractError::EmptyRange);
    }
    let mut trees: Vec<usize> = Vec::new();
    let mut t: usize = start_tree_idx;
    while t < end
        invariant
            start_tree_idx <= t <= end,
            trees@.len() == t - start_tree_idx,
            forall|i: int| 0 <= i < trees@.len() ==> #[trigger] trees@[i] == start_tree_idx + i,
        decreases end - t,
    {
        trees.push(t);
        t += 1;
    }
    proof {
        assert(ts =~= Seq::new(trees@.len(), |i: int| trees@[i] as int));
        assert forall|i: int| 0 <= i < ts.len() implies fids_readable(
            pack@,
            #[trigger] ts[i],
            pack@.n_features,
        ) by {
            assert(tree_copyable(pack@, ts[i]));
        }
    }
    let map: Vec<u16> = list_feature_ids(pack, &trees, Ghost(ts));
    Ok(extract(pack, &trees, map, Ghost(ts)))
}

/// The first listed index, from `i` on, that lies past the trees of the pack.
pub open spec fn first_outside(p: PackModel, trees: Seq<u32>, i: int) -> Option<int>
    decreases trees.len() - i,
{
    if i >= trees.len() {
        None
    } else if trees[i] >= p.n_trees {
        Some(trees[i] as int)
    } else {
        first_outside(p, trees, i + 1)
    }
}

/// Cuts the listed trees out of the pack, in the order of the list. The second result says which
/// feature of the whole each feature of the part is.
pub fn extract_tree_indices_remapped(pack: &QsPack, tree_indices: &[u32]) -> (r: Result<
    (QsPack, Vec<u16>),
    ExtractError,
>)
    requires
        forall|i: int|
            0 <= i < tree_indices@.len() && #[trigger] tree_indices@[i] < pack@.n_trees
                ==> tree_copyable(pack@, tree_indices@[i] as int),
    ensures
        if tree_indices@.len() == 0 {
            r == Err::<(QsPack, Vec<u16>), ExtractError>(ExtractError::EmptyList)
        } else {
            match first_outside(pack@, tree_indices@, 0) {
                Some(t) => r == Err::<(QsPack, Vec<u16>), ExtractError>(
                    ExtractError::TreeOutside { tree: t as usize },
                ),
                None => r matches Ok((part, map)) && part@ == extracted(
                    pack@,
                    indices(tree_indices@),
                ) && map@ == narrow(local_features(pack@, indices(tree_indices@))),
            }
        },
{
    let ghost ts = indices(tree_indices@);
    if tree_indices.len() == 0 {
        return Err(ExtractError::EmptyList);
    }
    let mut trees: Vec<usize> = Vec::new();
    let mut i: usize = 0;
    while i < tree_indices.len()
        invariant
            i <= tree_indices@.len(),
            first_outside(pack@, tree_indices@, 0) == first_outside(pack@, tree_indices@, i as int),
            trees@.len() == i,
            forall|k: int| 0 <= k < i ==> #[trigger] trees@[k] == tree_indices@[k],
            forall|k: int| 0 <= k < i ==> #[trigger] tree_indices@[k] < pack@.n_trees,
            tree_indices@.len() > 0,
        decreases tree_indices@.len() - i,
    {
        let t: usize = tree_indices[i] as usize;
        if t >= pack.n_trees {
            return Err(ExtractError::TreeOutside { tree: t });
        }
        trees.push(t);
        i += 1;
    }
    proof {
        assert(ts =~= Seq::new(trees@.len(), |k: int| trees@[k] as int));
        assert forall|k: int| 0 <= k < ts.len() implies tree_copyable(pack@, #[trigger] ts[k])
            && fids_readable(pack@, ts[k], pack@.n_features) by {
            assert(tree_indices@[k] < pack@.n_trees);
        }
    }
    let map: Vec<u16> = list_feature_ids(pack, &trees, Ghost(ts));
    Ok(extract(pack, &trees, map, Ghost(ts)))
}

/// Whether block `bq` of `q` is a copy of block `bp` of `p`.
pub open spec fn block_copied(q: PackModel, bq: int, p: PackModel, bp: int, map: Seq<int>) -> bool {
    let hq = q.block_hdrs[bq];
    let hp = p.block_hdrs[bp];
    &&& 0 <= bq < q.block_hdrs.len()
    &&& hq.fid == local_of(map, hp.fid as int) as u8
    &&& hq.bucket_cnt == hp.bucket_cnt
    &&& hq.miss_bucket == hp.miss_bucket
    &&& hq.lut_off + 129 <= q.luts.len()
    &&& hq.mask_off + hq.bucket_cnt <= q.masks.len()
    &&& forall|r: int| 0 <= r < 129 ==> #[trigger] q.luts[hq.lut_off + r] == p.luts[hp.lut_off + r]
    &&& forall|c: int|
        0 <= c < hp.bucket_cnt ==> #[trigger] q.masks[hq.mask_off + c] == p.masks[hp.mask_off + c]
}

/// Whether tree `tq` of `q` is a copy of tree `tp` of `p`.
pub open spec fn tree_copied(q: PackModel, tq: int, p: PackModel, tp: int, map: Seq<int>) -> bool {
    let hq = q.tree_hdrs[tq];
    let hp = p.tree_hdrs[tp];
    &&& 0 <= tq < q.tree_hdrs.len()
    &&& hq.block_cnt == hp.block_cnt
    &&& hq.leaf_cnt == hp.leaf_cnt
    &&& hq.init_lo == hp.init_lo
    &&& hq.init_hi == hp.init_hi
    &&& hq.leaf_val_off + hq.leaf_cnt <= q.leaf_values.len()
    &&& hq.block_off + hq.block_cnt <= q.block_hdrs.len()
    &&& forall|k: int|
        0 <= k < hp.block_cnt ==> #[trigger] block_copied(
            q,
            hq.block_off + k,
            p,
            hp.block_off + k,
            map,
        )
    &&& forall|i: int|
        0 <= i < hp.leaf_cnt ==> #[trigger] q.leaf_values[hq.leaf_val_off + i]
            == p.leaf_values[hp.leaf_val_off + i]
}

/// Whether `b` only has more at the end of its sections than `a`.
pub open spec fn grown(a: PackModel, b: PackModel) -> bool {
    &&& a.tree_hdrs.is_prefix_of(b.tree_hdrs)
    &&& a.block_hdrs.is_prefix_of(b.block_hdrs)
    &&& a.luts.is_prefix_of(b.luts)
    &&& a.masks.is_prefix_of(b.masks)
    &&& a.leaf_values.is_prefix_of(b.leaf_values)
}

/// Whether the sections are short enough for their offsets.
pub open spec fn offsets_fit(q: PackModel) -> bool {
    &&& q.block_hdrs.len() <= u32::MAX
    &&& q.luts.len() <= u32::MAX
    &&& q.masks.len() <= u32::MAX
    &&& q.leaf_values.len() <= u32::MAX
}

proof fn lemma_prefix_trans<T>(a: Seq<T>, b: Seq<T>, c: Seq<T>)
    requires
        a.is_prefix_of(b),
        b.is_prefix_of(c),
    ensures
        a.is_prefix_of(c),
{
    assert(c.subrange(0, a.len() as int) =~= b.subrange(0, a.len() as int)) by {
        assert(b =~= c.subrange(0, b.len() as int));
    }
}

proof fn lemma_grown_trans(a: PackModel, b: PackModel, c: PackModel)
    requires
        grown(a, b),
        grown(b, c),
    ensures
        grown(a, c),
{
    lemma_prefix_trans(a.tree_hdrs, b.tree_hdrs, c.tree_hdrs);
    lemma_prefix_trans(a.block_hdrs, b.block_hdrs, c.block_hdrs);
    lemma_prefix_trans(a.luts, b.luts, c.luts);
    lemma_prefix_trans(a.masks, b.masks, c.masks);
    lemma_prefix_trans(a.leaf_values, b.leaf_values, c.leaf_values);
}

proof fn lemma_prefix_at<T>(a: Seq<T>, b: Seq<T>, i: int)
    requires
        a.is_prefix_of(b),
        0 <= i < a.len(),
    ensures
        a.len() <= b.len(),
        b[i] == a[i],
{
    assert(a =~= b.subrange(0, a.len() as int));
    assert(b.subrange(0, a.len() as int)[i] == b[i]);
}

proof fn lemma_copied_stays(q: PackModel, q2: PackModel, bq: int, p: PackModel, bp: int, map: Seq<int>)
    requires
        block_copied(q, bq, p, bp, map),
        grown(q, q2),
    ensures
        block_copied(q2, bq, p, bp, map),
{
    lemma_prefix_at(q.block_hdrs, q2.block_hdrs, bq);
    let hq = q.block_hdrs[bq];
    let hp = p.block_hdrs[bp];
    assert forall|r: int| 0 <= r < 129 implies #[trigger] q2.luts[hq.lut_off + r] == p.luts[hp.lut_off
        + r] by {
        lemma_prefix_at(q.luts, q2.luts, hq.lut_off + r);
        assert(q.luts[hq.lut_off + r] == p.luts[hp.lut_off + r]);
    }
    lemma_prefix_at(q.luts, q2.luts, hq.lut_off as int);
    assert forall|c: int| 0 <= c < hp.bucket_cnt implies #[trigger] q2.masks[hq.mask_off + c]
        == p.masks[hp.mask_off + c] by {
        lemma_prefix_at(q.masks, q2.masks, hq.mask_off + c);
        assert(q.masks[hq.mask_off + c] == p.masks[hp.mask_off + c]);
    }
    assert(q.masks.len() <= q2.masks.len());
}

proof fn lemma_tree_copied_stays(
    q: PackModel,
    q2: PackModel,
    tq: int,
    p: PackModel,
    tp: int,
    map: Seq<int>,
)
    requires
        tree_copied(q, tq, p, tp, map),
        grown(q, q2),
    ensures
        tree_copied(q2, tq, p, tp, map),
{
    lemma_prefix_at(q.tree_hdrs, q2.tree_hdrs, tq);
    let hq = q.tree_hdrs[tq];
    let hp = p.tree_hdrs[tp];
    assert forall|k: int| 0 <= k < hp.block_cnt implies #[trigger] block_copied(
        q2,
        hq.block_off + k,
        p,
        hp.block_off + k,
        map,
    ) by {
        assert(block_copied(q, hq.block_off + k, p, hp.block_off + k, map));
        lemma_copied_stays(q, q2, hq.block_off + k, p, hp.block_off + k, map);
    }
    assert forall|i: int| 0 <= i < hp.leaf_cnt implies #[trigger] q2.leaf_values[hq.leaf_val_off + i]
        == p.leaf_values[hp.leaf_val_off + i] by {
        lemma_prefix_at(q.leaf_values, q2.leaf_values, hq.leaf_val_off + i);
        assert(q.leaf_values[hq.leaf_val_off + i] == p.leaf_values[hp.leaf_val_off + i]);
    }
}

proof fn lemma_add_block(acc: PackModel, p: PackModel, map: Seq<int>, b: int)
    requires
        p.block_hdrs[b].lut_off + 129 <= p.luts.len(),
        p.block_hdrs[b].mask_off + p.block_hdrs[b].bucket_cnt <= p.masks.len(),
        offsets_fit(add_block(acc, p, map, b)),
    ensures
        grown(acc, add_block(acc, p, map, b)),
        block_copied(add_block(acc, p, map, b), acc.block_hdrs.len() as int, p, b, map),
{
    let q = add_block(acc, p, map, b);
    assert(q.block_hdrs.subrange(0, acc.block_hdrs.len() as int) =~= acc.block_hdrs);
    assert(q.luts.subrange(0, acc.luts.len() as int) =~= acc.luts);
    assert(q.masks.subrange(0, acc.masks.len() as int) =~= acc.masks);
    assert(q.tree_hdrs.subrange(0, acc.tree_hdrs.len() as int) =~= acc.tree_hdrs);
    assert(q.leaf_values.subrange(0, acc.leaf_values.len() as int) =~= acc.leaf_values);
}

proof fn lemma_grown_refl(a: PackModel)
    ensures
        grown(a, a),
{
    assert(a.block_hdrs.subrange(0, a.block_hdrs.len() as int) =~= a.block_hdrs);
    assert(a.luts.subrange(0, a.luts.len() as int) =~= a.luts);
    assert(a.masks.subrange(0, a.masks.len() as int) =~= a.masks);
    assert(a.tree_hdrs.subrange(0, a.tree_hdrs.len() as int) =~= a.tree_hdrs);
    assert(a.leaf_values.subrange(0, a.leaf_values.len() as int) =~= a.leaf_values);
}

proof fn lemma_fit_before(a: PackModel, b: PackModel)
    requires
        grown(a, b),
        offsets_fit(b),
    ensures
        offsets_fit(a),
{
}

/// Adding blocks only ever grows the sections.
proof fn lemma_add_blocks_grows(acc: PackModel, p: PackModel, map: Seq<int>, off: int, k: nat)
    ensures
        grown(acc, add_blocks(acc, p, map, off, k)),
        add_blocks(acc, p, map, off, k).tree_hdrs == acc.tree_hdrs,
        add_blocks(acc, p, map, off, k).leaf_values == acc.leaf_values,
        add_blocks(acc, p, map, off, k).block_hdrs.len() == acc.block_hdrs.len() + k,
    decreases k,
{
    lemma_grown_refl(acc);
    if k > 0 {
        lemma_add_blocks_grows(acc, p, map, off, (k - 1) as nat);
        let mid = add_blocks(acc, p, map, off, (k - 1) as nat);
        let q = add_block(mid, p, map, off + k - 1);
        assert(q.block_hdrs.subrange(0, mid.block_hdrs.len() as int) =~= mid.block_hdrs);
        assert(q.luts.subrange(0, mid.luts.len() as int) =~= mid.luts);
        assert(q.masks.subrange(0, mid.masks.len() as int) =~= mid.masks);
        assert(q.tree_hdrs.subrange(0, mid.tree_hdrs.len() as int) =~= mid.tree_hdrs);
        assert(q.leaf_values.subrange(0, mid.leaf_values.len() as int) =~= mid.leaf_values);
        lemma_grown_trans(acc, mid, q);
    }
}

proof fn lemma_add_blocks(acc: PackModel, p: PackModel, map: Seq<int>, off: int, k: nat)
    requires
        offsets_fit(add_blocks(acc, p, map, off, k)),
        forall|b: int|
            off <= b < off + k ==> (#[trigger] p.block_hdrs[b]).lut_off + 129 <= p.luts.len()
                && p.block_hdrs[b].mask_off + p.block_hdrs[b].bucket_cnt <= p.masks.len(),
    ensures
        forall|i: int|
            0 <= i < k ==> block_copied(
                add_blocks(acc, p, map, off, k),
                acc.block_hdrs.len() + i,
                p,
                #[trigger] (off + i),
                map,
            ),
    decreases k,
{
    if k > 0 {
        let mid = add_blocks(acc, p, map, off, (k - 1) as nat);
        let q = add_blocks(acc, p, map, off, k);
        lemma_add_blocks_grows(acc, p, map, off, (k - 1) as nat);
        assert(p.block_hdrs[off + k - 1].lut_off + 129 <= p.luts.len());
        lemma_add_block(mid, p, map, off + k - 1);
        lemma_fit_before(mid, q);
        lemma_add_blocks(acc, p, map, off, (k - 1) as nat);
        assert forall|i: int| 0 <= i < k implies block_copied(
            q,
            acc.block_hdrs.len() + i,
            p,
            #[trigger] (off + i),
            map,
        ) by {
            if i < k - 1 {
                assert(block_copied(mid, acc.block_hdrs.len() + i, p, off + i, map));
                lemma_copied_stays(mid, q, acc.block_hdrs.len() + i, p, off + i, map);
            }
        }
    }
}

proof fn lemma_add_tree_grows(acc: PackModel, p: PackModel, map: Seq<int>, t: int)
    ensures
        grown(acc, add_tree(acc, p, map, t)),
        add_tree(acc, p, map, t).tree_hdrs.len() == acc.tree_hdrs.len() + 1,
{
    let h = p.tree_hdrs[t];
    let headed = add_header(acc, h);
    let mid = add_blocks(headed, p, map, h.block_off as int, h.block_cnt as nat);
    let q = add_tree(acc, p, map, t);
    lemma_add_blocks_grows(headed, p, map, h.block_off as int, h.block_cnt as nat);
    assert(headed.tree_hdrs.subrange(0, acc.tree_hdrs.len() as int) =~= acc.tree_hdrs);
    lemma_grown_refl(acc);
    lemma_grown_trans(acc, headed, mid);
    lemma_grown_refl(mid);
    assert(q.leaf_values.subrange(0, mid.leaf_values.len() as int) =~= mid.leaf_values);
    lemma_grown_trans(acc, mid, q);
}

proof fn lemma_add_tree(acc: PackModel, p: PackModel, map: Seq<int>, t: int)
    requires
        tree_copyable(p, t),
        offsets_fit(add_tree(acc, p, map, t)),
    ensures
        tree_copied(add_tree(acc, p, map, t), acc.tree_hdrs.len() as int, p, t, map),
{
    let h = p.tree_hdrs[t];
    let headed = add_header(acc, h);
    let mid = add_blocks(headed, p, map, h.block_off as int, h.block_cnt as nat);
    let q = add_tree(acc, p, map, t);
    lemma_add_blocks_grows(headed, p, map, h.block_off as int, h.block_cnt as nat);
    lemma_grown_refl(mid);
    assert(q.leaf_values.subrange(0, mid.leaf_values.len() as int) =~= mid.leaf_values);
    assert(grown(mid, q));
    lemma_fit_before(mid, q);
    lemma_fit_before(headed, mid);
    lemma_add_blocks(headed, p, map, h.block_off as int, h.block_cnt as nat);
    let tq = acc.tree_hdrs.len() as int;
    assert(headed.tree_hdrs[tq].block_off == acc.block_hdrs.len());
    assert(q.tree_hdrs[tq] == headed.tree_hdrs[tq]);
    let hq = q.tree_hdrs[tq];
    assert forall|k: int| 0 <= k < h.block_cnt implies #[trigger] block_copied(
        q,
        hq.block_off + k,
        p,
        h.block_off + k,
        map,
    ) by {
        assert(block_copied(mid, headed.block_hdrs.len() + k, p, h.block_off + k, map));
        lemma_copied_stays(mid, q, hq.block_off + k, p, h.block_off + k, map);
    }
}

proof fn lemma_add_trees(acc: PackModel, p: PackModel, map: Seq<int>, trees: Seq<int>)
    requires
        acc.tree_hdrs.len() == 0,
        forall|i: int| 0 <= i < trees.len() ==> tree_copyable(p, #[trigger] trees[i]),
        offsets_fit(add_trees(acc, p, map, trees)),
    ensures
        add_trees(acc, p, map, trees).tree_hdrs.len() == trees.len(),
        forall|i: int|
            0 <= i < trees.len() ==> tree_copied(
                add_trees(acc, p, map, trees),
                i,
                p,
                #[trigger] trees[i],
                map,
            ),
    decreases trees.len(),
{
    if trees.len() > 0 {
        let head = trees.drop_last();
        let t = trees.last();
        let mid = add_trees(acc, p, map, head);
        let q = add_trees(acc, p, map, trees);
        lemma_add_tree_grows(mid, p, map, t);
        lemma_fit_before(mid, q);
        assert forall|i: int| 0 <= i < head.len() implies tree_copyable(p, #[trigger] head[i]) by {
            assert(head[i] == trees[i]);
        }
        lemma_add_trees(acc, p, map, head);
        assert(tree_copyable(p, trees[trees.len() - 1]));
        lemma_add_tree(mid, p, map, t);
        assert forall|i: int| 0 <= i < trees.len() implies tree_copied(
            q,
            i,
            p,
            #[trigger] trees[i],
            map,
        ) by {
            if i < head.len() {
                assert(head[i] == trees[i]);
                lemma_tree_copied_stays(mid, q, i, p, head[i], map);
            }
        }
    }
}

/// Whether what the row reads of the tables of tree `t` stays within their windows: the bucket
/// read is below the bucket count, and the rank by which it is found below 129.
pub open spec fn tree_in_windows(p: PackModel, t: int, ranks: Seq<u8>, miss: Seq<u8>) -> bool {
    let h = p.tree_hdrs[t];
    forall|b: int|
        h.block_off <= b < h.block_off + h.block_cnt ==> {
            let bh = #[trigger] p.block_hdrs[b];
            &&& bucket_of(p, b, ranks, miss) < bh.bucket_cnt
            &&& miss[bh.fid as int] == 0 ==> ranks[bh.fid as int] < 129
        }
}

/// A tree that was cut out scores as it did in the whole: on ranks and marks that agree with the
/// whole's on the renumbered features, it lands on the same leaf value after as many blocks, or
/// fails alike.
pub proof fn law_extracted_tree_scores_alike(
    p: PackModel,
    trees: Seq<int>,
    i: int,
    ranks: Seq<u8>,
    miss: Seq<u8>,
    local_ranks: Seq<u8>,
    local_miss: Seq<u8>,
)
    requires
        0 <= i < trees.len(),
        forall|k: int| 0 <= k < trees.len() ==> tree_copyable(p, #[trigger] trees[k]),
        offsets_fit(extracted(p, trees)),
        tree_in_windows(p, trees[i], ranks, miss),
        forall|l: int|
            0 <= l < local_features(p, trees).len() ==> local_ranks[l] == ranks[#[trigger] local_features(
                p,
                trees,
            )[l]] && local_miss[l] == miss[local_features(p, trees)[l]],
    ensures
        tree_outcome(extracted(p, trees), i, local_ranks, local_miss) == tree_outcome(
            p,
            trees[i],
            ranks,
            miss,
        ),
{
    let map = local_features(p, trees);
    let bare = bare_pack(p, map, trees.len() as int);
    let grown_pack = add_trees(bare, p, map, trees);
    let q = extracted(p, trees);
    assert(offsets_fit(grown_pack));
    lemma_add_trees(bare, p, map, trees);
    lemma_local_features(p, trees);
    let t = trees[i];
    assert(tree_copied(grown_pack, i, p, t, map));
    lemma_grown_refl(grown_pack);
    assert(grown(grown_pack, q));
    lemma_tree_copied_stays(grown_pack, q, i, p, t, map);
    let hp = p.tree_hdrs[t];
    let hq = q.tree_hdrs[i];
    assert forall|k: int| 0 <= k < hp.block_cnt implies #[trigger] block_mask(
        q,
        hq.block_off + k,
        local_ranks,
        local_miss,
    ) == block_mask(p, hp.block_off + k, ranks, miss) by {
        let b = hp.block_off + k;
        assert(block_copied(q, hq.block_off + k, p, b, map));
        lemma_local_has(p, trees, i, b);
        let bh = p.block_hdrs[b];
        let l = local_of(map, bh.fid as int);
        assert(map.contains(bh.fid as int));
        assert(0 <= l < map.len() && map[l] == bh.fid);
        assert(q.block_hdrs[hq.block_off + k].fid == l);
        let r = ranks[bh.fid as int] as int;
        if miss[bh.fid as int] == 0 {
            assert(q.luts[q.block_hdrs[hq.block_off + k].lut_off + r] == p.luts[bh.lut_off + r]);
        }
        let c = bucket_of(p, b, ranks, miss);
        assert(q.masks[q.block_hdrs[hq.block_off + k].mask_off + c] == p.masks[bh.mask_off + c]);
    }
    lemma_same_candidates(q, i, p, t, local_ranks, local_miss, ranks, miss, hp.block_cnt as nat);
    lemma_same_blocks_read(q, i, p, t, local_ranks, local_miss, ranks, miss, 0);
    crate::qs_score::lemma_blocks_read_range(p, t, ranks, miss, 0);
}

/// Trees whose blocks let the same candidates through are left with the same candidates.
pub proof fn lemma_same_candidates(
    q: PackModel,
    tq: int,
    p: PackModel,
    tp: int,
    lr: Seq<u8>,
    lm: Seq<u8>,
    ranks: Seq<u8>,
    miss: Seq<u8>,
    k: nat,
)
    requires
        k <= p.tree_hdrs[tp].block_cnt,
        q.tree_hdrs[tq].init_lo == p.tree_hdrs[tp].init_lo,
        q.tree_hdrs[tq].init_hi == p.tree_hdrs[tp].init_hi,
        forall|j: int|
            0 <= j < p.tree_hdrs[tp].block_cnt ==> #[trigger] block_mask(
                q,
                q.tree_hdrs[tq].block_off + j,
                lr,
                lm,
            ) == block_mask(p, p.tree_hdrs[tp].block_off + j, ranks, miss),
    ensures
        forall|j: nat|
            j <= k ==> #[trigger] candidates(q, tq, lr, lm, j) == candidates(p, tp, ranks, miss, j),
    decreases k,
{
    if k > 0 {
        lemma_same_candidates(q, tq, p, tp, lr, lm, ranks, miss, (k - 1) as nat);
        assert forall|j: nat| j <= k implies #[trigger] candidates(q, tq, lr, lm, j) == candidates(
            p,
            tp,
            ranks,
            miss,
            j,
        ) by {
            if j == k {
                assert(candidates(q, tq, lr, lm, (k - 1) as nat) == candidates(
                    p,
                    tp,
                    ranks,
                    miss,
                    (k - 1) as nat,
                ));
                assert(block_mask(q, q.tree_hdrs[tq].block_off + (k - 1), lr, lm) == block_mask(
                    p,
                    p.tree_hdrs[tp].block_off + (k - 1),
                    ranks,
                    miss,
                ));
            }
        }
    }
}

/// Trees that are left with the same candidates read as many blocks.
pub proof fn lemma_same_blocks_read(
    q: PackModel,
    tq: int,
    p: PackModel,
    tp: int,
    lr: Seq<u8>,
    lm: Seq<u8>,
    ranks: Seq<u8>,
    miss: Seq<u8>,
    k: nat,
)
    requires
        q.tree_hdrs[tq].block_cnt == p.tree_hdrs[tp].block_cnt,
        forall|j: nat|
            j <= p.tree_hdrs[tp].block_cnt ==> #[trigger] candidates(q, tq, lr, lm, j)
                == candidates(p, tp, ranks, miss, j),
    ensures
        blocks_read(q, tq, lr, lm, k) == blocks_read(p, tp, ranks, miss, k),
    decreases p.tree_hdrs[tp].block_cnt - k,
{
    if k < p.tree_hdrs[tp].block_cnt {
        assert(candidates(q, tq, lr, lm, k + 1) == candidates(p, tp, ranks, miss, k + 1));
        lemma_same_blocks_read(q, tq, p, tp, lr, lm, ranks, miss, k + 1);
    }
}

proof fn lemma_blocks_keep_cuts(acc: PackModel, p: PackModel, map: Seq<int>, off: int, k: nat)
    ensures
        ({
            let q = add_blocks(acc, p, map, off, k);
            &&& q.n_features == acc.n_features
            &&& q.n_trees == acc.n_trees
            &&& q.cut_offsets == acc.cut_offsets
            &&& q.cuts == acc.cuts
        }),
    decreases k,
{
    if k > 0 {
        lemma_blocks_keep_cuts(acc, p, map, off, (k - 1) as nat);
    }
}

proof fn lemma_trees_keep_cuts(acc: PackModel, p: PackModel, map: Seq<int>, trees: Seq<int>)
    ensures
        ({
            let q = add_trees(acc, p, map, trees);
            &&& q.n_features == acc.n_features
            &&& q.n_trees == acc.n_trees
            &&& q.cut_offsets == acc.cut_offsets
            &&& q.cuts == acc.cuts
        }),
    decreases trees.len(),
{
    if trees.len() > 0 {
        let mid = add_trees(acc, p, map, trees.drop_last());
        lemma_trees_keep_cuts(acc, p, map, trees.drop_last());
        let h = p.tree_hdrs[trees.last()];
        lemma_blocks_keep_cuts(
            add_header(mid, h),
            p,
            map,
            h.block_off as int,
            h.block_cnt as nat,
        );
    }
}

proof fn lemma_gathered_begins(p: PackModel, map: Seq<int>, k: int)
    requires
        0 <= k <= map.len(),
    ensures
        gathered_cuts(p, map.take(k)).is_prefix_of(gathered_cuts(p, map)),
    decreases map.len(),
{
    let all = gathered_cuts(p, map);
    if k == map.len() {
        assert(map.take(k) =~= map);
        assert(all =~= all.subrange(0, all.len() as int));
    } else {
        let head = map.drop_last();
        lemma_gathered_begins(p, head, k);
        assert(head.take(k) =~= map.take(k));
        let a = gathered_cuts(p, map.take(k));
        let b = gathered_cuts(p, head);
        assert(a =~= all.subrange(0, a.len() as int)) by {
            assert(a =~= b.subrange(0, a.len() as int));
        }
    }
}

/// The features of trees that were cut out keep their cuts.
pub proof fn law_extracted_features_keep_their_cuts(p: PackModel, trees: Seq<int>, x: int)
    requires
        0 <= x < local_features(p, trees).len(),
        gathered_cuts(p, local_features(p, trees)).len() <= u32::MAX,
    ensures
        feature_cuts(extracted(p, trees), x) == feature_cuts(p, local_features(p, trees)[x]),
{
    let map = local_features(p, trees);
    let bare = bare_pack(p, map, trees.len() as int);
    lemma_trees_keep_cuts(bare, p, map, trees);
    let all = gathered_cuts(p, map);
    lemma_gathered_begins(p, map, x);
    lemma_gathered_begins(p, map, x + 1);
    let a = gathered_cuts(p, map.take(x));
    let b = gathered_cuts(p, map.take(x + 1));
    assert(map.take(x + 1).drop_last() =~= map.take(x));
    let own = feature_cuts(p, map[x]);
    assert(b == a + own);
    assert(all.subrange(a.len() as int, b.len() as int) =~= own) by {
        assert(b =~= all.subrange(0, b.len() as int));
        assert forall|i: int| 0 <= i < own.len() implies all[a.len() + i] == #[trigger] own[i] by {
            assert(b[a.len() + i] == own[i]);
        }
    }
}

/// A pack that was cut out has the cuts of its features, one feature after the other.
pub proof fn lemma_extracted_cuts(p: PackModel, trees: Seq<int>)
    ensures
        extracted(p, trees).cuts == gathered_cuts(p, local_features(p, trees)),
{
    let map = local_features(p, trees);
    lemma_trees_keep_cuts(bare_pack(p, map, trees.len() as int), p, map, trees);
}

/// A pack that was cut out has as many trees as were asked for.
pub proof fn lemma_extracted_counts(p: PackModel, trees: Seq<int>)
    ensures
        extracted(p, trees).n_trees == trees.len(),
        extracted(p, trees).n_features == local_features(p, trees).len(),
{
    let map = local_features(p, trees);
    lemma_trees_keep_cuts(bare_pack(p, map, trees.len() as int), p, map, trees);
}

/// Whether the headers of a pack point into its tables, and its leaves end where the last tree's do.
spec fn ends_right(q: PackModel) -> bool {
    &&& lut_end(q.block_hdrs) <= q.luts.len()
    &&& mask_end(q.block_hdrs) <= q.masks.len()
    &&& leaf_end(q.tree_hdrs) == q.leaf_values.len()
}

proof fn lemma_blocks_grow(acc: PackModel, p: PackModel, map: Seq<int>, off: int, k: nat)
    ensures
        ({
            let q = add_blocks(acc, p, map, off, k);
            &&& acc.block_hdrs.len() <= q.block_hdrs.len()
            &&& acc.luts.len() <= q.luts.len()
            &&& acc.masks.len() <= q.masks.len()
            &&& q.leaf_values == acc.leaf_values
            &&& q.tree_hdrs == acc.tree_hdrs
            &&& q.row_headers == acc.row_headers
        }),
    decreases k,
{
    if k > 0 {
        lemma_blocks_grow(acc, p, map, off, (k - 1) as nat);
    }
}

/// Copies of blocks point at the copies of their tables.
proof fn lemma_blocks_end_right(acc: PackModel, p: PackModel, map: Seq<int>, off: int, k: nat)
    requires
        offsets_fit(add_blocks(acc, p, map, off, k)),
        lut_end(acc.block_hdrs) <= acc.luts.len(),
        mask_end(acc.block_hdrs) <= acc.masks.len(),
        forall|b: int|
            off <= b < off + k ==> (#[trigger] p.block_hdrs[b]).lut_off + 129 <= p.luts.len()
                && p.block_hdrs[b].mask_off + p.block_hdrs[b].bucket_cnt <= p.masks.len(),
    ensures
        ({
            let q = add_blocks(acc, p, map, off, k);
            &&& lut_end(q.block_hdrs) <= q.luts.len()
            &&& mask_end(q.block_hdrs) <= q.masks.len()
        }),
    decreases k,
{
    if k > 0 {
        let before = add_blocks(acc, p, map, off, (k - 1) as nat);
        let q = add_blocks(acc, p, map, off, k);
        assert(p.block_hdrs[off + k - 1].lut_off + 129 <= p.luts.len());
        assert(offsets_fit(before));
        lemma_blocks_end_right(acc, p, map, off, (k - 1) as nat);
        assert(q.block_hdrs.drop_last() =~= before.block_hdrs);
    }
}

/// Copies of trees point at the copies of their blocks and leaves.
proof fn lemma_trees_end_right(acc: PackModel, p: PackModel, map: Seq<int>, trees: Seq<int>)
    requires
        ends_right(acc),
        offsets_fit(add_trees(acc, p, map, trees)),
        forall|i: int| 0 <= i < trees.len() ==> tree_copyable(p, #[trigger] trees[i]),
    ensures
        ends_right(add_trees(acc, p, map, trees)),
        add_trees(acc, p, map, trees).tree_hdrs.len() == acc.tree_hdrs.len() + trees.len(),
    decreases trees.len(),
{
    if trees.len() > 0 {
        let t = trees.last();
        let h = p.tree_hdrs[t];
        let before = add_trees(acc, p, map, trees.drop_last());
        let headed = add_header(before, h);
        let off = h.block_off as int;
        let k = h.block_cnt as nat;
        let with_blocks = add_blocks(headed, p, map, off, k);
        let q = add_trees(acc, p, map, trees);
        assert(tree_copyable(p, trees[trees.len() - 1]));
        lemma_blocks_grow(headed, p, map, off, k);
        assert(offsets_fit(with_blocks));
        assert(offsets_fit(before));
        assert forall|i: int| 0 <= i < trees.drop_last().len() implies tree_copyable(
            p,
            #[trigger] trees.drop_last()[i],
        ) by {
            assert(trees.drop_last()[i] == trees[i]);
        }
        lemma_trees_end_right(acc, p, map, trees.drop_last());
        lemma_blocks_end_right(headed, p, map, off, k);
        assert(q.tree_hdrs.drop_last() =~= before.tree_hdrs);
    }
}

/// A pack that was cut out of trees that can be copied is consistent, as long as its sections are
/// short enough for their offsets.
pub proof fn law_extracted_pack_is_consistent(p: PackModel, trees: Seq<int>)
    requires
        forall|i: int| 0 <= i < trees.len() ==> tree_copyable(p, #[trigger] trees[i]),
        trees.len() <= u32::MAX,
        offsets_fit(extracted(p, trees)),
        extracted(p, trees).cuts.len() <= u32::MAX,
    ensures
        extracted(p, trees).consistent(),
{
    let map = local_features(p, trees);
    let bare = bare_pack(p, map, trees.len() as int);
    let grown_pack = add_trees(bare, p, map, trees);
    assert(offsets_fit(grown_pack));
    lemma_trees_end_right(bare, p, map, trees);
    lemma_local_features(p, trees);
    lemma_trees_keep_cuts(bare, p, map, trees);
    assert(map.take(map.len() as int) =~= map);
}

/// A pack that was cut out is written and read again as it was.
pub proof fn law_extracted_pack_round_trip(p: PackModel, trees: Seq<int>)
    requires
        forall|i: int| 0 <= i < trees.len() ==> tree_copyable(p, #[trigger] trees[i]),
        trees.len() <= u32::MAX,
        offsets_fit(extracted(p, trees)),
        extracted(p, trees).cuts.len() <= u32::MAX,
    ensures
        qs_parse(qs_bytes(extracted(p, trees))) == Ok::<PackModel, PackError>(
            extracted(p, trees),
        ),
{
    let map = local_features(p, trees);
    let bare = bare_pack(p, map, trees.len() as int);
    law_extracted_pack_is_consistent(p, trees);
    assert(extracted(p, trees).file_len() <= u64::MAX);
    law_pack_round_trip(extracted(p, trees));
    lemma_no_row_headers(bare, p, map, trees);
}

proof fn lemma_no_row_headers(acc: PackModel, p: PackModel, map: Seq<int>, trees: Seq<int>)
    ensures
        add_trees(acc, p, map, trees).row_headers == acc.row_headers,
    decreases trees.len(),
{
    if trees.len() > 0 {
        lemma_no_row_headers(acc, p, map, trees.drop_last());
        let h = p.tree_hdrs[trees.last()];
        let headed = add_header(add_trees(acc, p, map, trees.drop_last()), h);
        lemma_blocks_grow(headed, p, map, h.block_off as int, h.block_cnt as nat);
    }
}

} // verus!
