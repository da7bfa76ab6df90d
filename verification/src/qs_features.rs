//! Which features the blocks of some trees name, in the order in which they first occur.

use crate::qs_pack::{PackModel, QsPack, QsTreeHdr};
use crate::qs_score::span;
use vstd::prelude::*;

verus! {

/// The features that the blocks of tree `t` name, block by block.
pub open spec fn tree_fids(p: PackModel, t: int) -> Seq<int> {
    let h = p.tree_hdrs[t];
    Seq::new(h.block_cnt as nat, |i: int| p.block_hdrs[h.block_off + i].fid as int)
}

/// The features that the blocks of the trees of `trees` name, tree by tree.
pub open spec fn list_fids(p: PackModel, trees: Seq<int>) -> Seq<int>
    decreases trees.len(),
{
    if trees.len() == 0 {
        Seq::empty()
    } else {
        list_fids(p, trees.drop_last()) + tree_fids(p, trees.last())
    }
}

/// The features of `fids` that are not yet seen, each once, in the order of their first
/// occurrence.
pub open spec fn fresh(fids: Seq<int>, seen: Seq<bool>) -> Seq<int>
    decreases fids.len(),
{
    if fids.len() == 0 {
        Seq::empty()
    } else {
        let before = fresh(fids.drop_last(), seen);
        if seen[fids.last()] || before.contains(fids.last()) {
            before
        } else {
            before.push(fids.last())
        }
    }
}

/// The flags of `seen` after `fids` were met.
pub open spec fn seen_after(fids: Seq<int>, seen: Seq<bool>) -> Seq<bool> {
    Seq::new(seen.len(), |f: int| seen[f] || fids.contains(f))
}

/// No flag set.
pub open spec fn unseen(n: int) -> Seq<bool> {
    Seq::new(n as nat, |f: int| false)
}

/// Feature numbers in sixteen bits.
pub open spec fn narrow(s: Seq<int>) -> Seq<u16> {
    Seq::new(s.len(), |i: int| s[i] as u16)
}

/// Whether the blocks of tree `t` are there and name features below `n`.
pub open spec fn fids_readable(p: PackModel, t: int, n: int) -> bool {
    let h = p.tree_hdrs[t];
    &&& 0 <= t < p.tree_hdrs.len()
    &&& h.block_off + h.block_cnt <= p.block_hdrs.len()
    &&& forall|b: int|
        h.block_off <= b < h.block_off + h.block_cnt ==> (#[trigger] p.block_hdrs[b]).fid < n
}

/// A feature is fresh exactly when it occurs and was not seen; no feature is listed twice.
pub proof fn law_fresh_lists_each_new_feature_once(fids: Seq<int>, seen: Seq<bool>)
    ensures
        forall|f: int| #[trigger]
            fresh(fids, seen).contains(f) <==> fids.contains(f) && !seen[f],
        fresh(fids, seen).no_duplicates(),
    decreases fids.len(),
{
    let r = fresh(fids, seen);
    if fids.len() > 0 {
        let head = fids.drop_last();
        let x = fids.last();
        let before = fresh(head, seen);
        law_fresh_lists_each_new_feature_once(head, seen);
        assert forall|f: int| #[trigger] r.contains(f) <==> fids.contains(f) && !seen[f] by {
            if fids.contains(f) {
                let i = choose|i: int| 0 <= i < fids.len() && fids[i] == f;
                if i < head.len() {
                    assert(head[i] == f);
                    assert(head.contains(f));
                }
            }
            if head.contains(f) {
                let i = choose|i: int| 0 <= i < head.len() && head[i] == f;
                assert(fids[i] == f);
            }
            if before.contains(f) {
                let i = choose|i: int| 0 <= i < before.len() && before[i] == f;
                assert(r[i] == f);
            }
            if r.contains(f) {
                let i = choose|i: int| 0 <= i < r.len() && r[i] == f;
                if i < before.len() {
                    assert(before[i] == f);
                    assert(before.contains(f));
                }
            }
            assert(fids[fids.len() - 1] == x);
            if !seen[x] && !before.contains(x) {
                assert(r[before.len() as int] == x);
            }
        }
    }
}

/// Meeting more features later only adds to the list.
pub proof fn lemma_fresh_grows(x: Seq<int>, y: Seq<int>, seen: Seq<bool>)
    requires
        forall|i: int| 0 <= i < x.len() ==> 0 <= #[trigger] x[i] < seen.len(),
        forall|i: int| 0 <= i < y.len() ==> 0 <= #[trigger] y[i] < seen.len(),
    ensures
        fresh(x + y, seen) == fresh(x, seen) + fresh(y, seen_after(x, seen)),
    decreases y.len(),
{
    if y.len() == 0 {
        assert(x + y =~= x);
        assert(fresh(x, seen) + fresh(y, seen_after(x, seen)) =~= fresh(x, seen));
    } else {
        let z = y.drop_last();
        let last = y.last();
        let after = seen_after(x, seen);
        assert((x + y).drop_last() =~= x + z);
        lemma_fresh_grows(x, z, seen);
        law_fresh_lists_each_new_feature_once(x, seen);
        law_fresh_lists_each_new_feature_once(x + z, seen);
        law_fresh_lists_each_new_feature_once(z, after);
        let a = fresh(x, seen);
        let b = fresh(z, after);
        assert(0 <= y[y.len() - 1] < seen.len());
        assert((a + b).contains(last) <==> a.contains(last) || b.contains(last)) by {
            if a.contains(last) {
                let i = choose|i: int| 0 <= i < a.len() && a[i] == last;
                assert((a + b)[i] == last);
            }
            if b.contains(last) {
                let i = choose|i: int| 0 <= i < b.len() && b[i] == last;
                assert((a + b)[a.len() + i] == last);
            }
        }
        assert(after[last] == (seen[last] || x.contains(last)));
        assert(fresh(x + y, seen) =~= a + fresh(y, after));
    }
}

/// Flags add up.
pub proof fn lemma_seen_grows(x: Seq<int>, y: Seq<int>, seen: Seq<bool>)
    ensures
        seen_after(x + y, seen) == seen_after(y, seen_after(x, seen)),
{
    assert forall|f: int| (x + y).contains(f) <==> x.contains(f) || y.contains(f) by {
        if x.contains(f) {
            let i = choose|i: int| 0 <= i < x.len() && x[i] == f;
            assert((x + y)[i] == f);
        }
        if y.contains(f) {
            let i = choose|i: int| 0 <= i < y.len() && y[i] == f;
            assert((x + y)[x.len() + i] == f);
        }
    }
    assert(seen_after(x + y, seen) =~= seen_after(y, seen_after(x, seen)));
}

/// Adds the fresh features of one tree.
pub(crate) fn append_tree(pack: &QsPack, t: usize, seen: &mut [bool], out: &mut Vec<u16>)
    requires
        fids_readable(pack@, t as int, old(seen)@.len() as int),
    ensures
        final(seen)@ == seen_after(tree_fids(pack@, t as int), old(seen)@),
        final(out)@ == old(out)@ + narrow(fresh(tree_fids(pack@, t as int), old(seen)@)),
{
    let ghost p = pack@;
    let ghost all = tree_fids(p, t as int);
    let ghost s0 = seen@;
    let ghost o0 = out@;
    let h: QsTreeHdr = pack.tree_hdrs[t];
    let cnt: usize = h.block_cnt as usize;
    assert(pack.block_hdrs@.len() == pack.block_hdrs.len());
    let mut k: usize = 0;
    assert(seen@ =~= seen_after(all.take(0), s0));
    assert(out@ =~= o0 + narrow(fresh(all.take(0), s0)));
    while k < cnt
        invariant
            k <= cnt,
            p == pack@,
            h == p.tree_hdrs[t as int],
            cnt == h.block_cnt,
            all == tree_fids(p, t as int),
            fids_readable(p, t as int, s0.len() as int),
            pack.block_hdrs@.len() <= usize::MAX,
            seen@ == seen_after(all.take(k as int), s0),
            out@ == o0 + narrow(fresh(all.take(k as int), s0)),
        decreases cnt - k,
    {
        let b: usize = h.block_off as usize + k;
        let fid: usize = pack.block_hdrs[b].fid as usize;
        let ghost done = all.take(k as int);
        let ghost next = all.take(k + 1);
        let ghost found = fresh(done, s0);
        proof {
            assert(p.block_hdrs[b as int].fid < s0.len());
            assert(next.drop_last() =~= done);
            assert(next.last() == fid);
            law_fresh_lists_each_new_feature_once(done, s0);
            assert(next =~= done + seq![fid as int]);
            lemma_seen_grows(done, seq![fid as int], s0);
            let one = seq![fid as int];
            assert(forall|f: int| one.contains(f) <==> f == fid) by {
                assert(one[0] == fid);
            }
        }
        if !seen[fid] {
            seen[fid] = true;
            out.push(fid as u16);
            proof {
                assert(fresh(next, s0) == found.push(fid as int));
                assert(narrow(found.push(fid as int)) =~= narrow(found).push(fid as u16));
                assert(out@ =~= o0 + narrow(fresh(next, s0)));
            }
        } else {
            assert(fresh(next, s0) == found);
        }
        proof {
            assert(seen@ =~= seen_after(next, s0));
        }
        k += 1;
    }
    assert(all.take(cnt as int) =~= all);
}

/// The range of trees that a start and an end ask for.
pub open spec fn clamped(p: PackModel, start: int, end: int) -> Seq<int> {
    let e = if end < p.n_trees {
        end
    } else {
        p.n_trees
    };
    span(start, e)
}

/// Appends the features that the trees from `start_tree_idx` up to `end_tree_idx` name and that
/// were not seen before.
pub fn append_tree_range_new_feature_ids(
    pack: &QsPack,
    start_tree_idx: usize,
    end_tree_idx: usize,
    seen: &mut [bool],
    out: &mut Vec<u16>,
)
    requires
        forall|i: int|
            0 <= i < clamped(pack@, start_tree_idx as int, end_tree_idx as int).len()
                ==> fids_readable(
                pack@,
                #[trigger] clamped(pack@, start_tree_idx as int, end_tree_idx as int)[i],
                old(seen)@.len() as int,
            ),
    ensures
        ({
            let fids = list_fids(
                pack@,
                clamped(pack@, start_tree_idx as int, end_tree_idx as int),
            );
            &&& final(seen)@ == seen_after(fids, old(seen)@)
            &&& final(out)@ == old(out)@ + narrow(fresh(fids, old(seen)@))
        }),
{
    let ghost p = pack@;
    let ghost trees = clamped(p, start_tree_idx as int, end_tree_idx as int);
    let ghost s0 = seen@;
    let ghost o0 = out@;
    let end: usize = if end_tree_idx < pack.n_trees {
        end_tree_idx
    } else {
        pack.n_trees
    };
    let start: usize = if start_tree_idx < end {
        start_tree_idx
    } else {
        end
    };
    let mut t: usize = start;
    assert(trees.take(0) =~= Seq::empty());
    assert(seen@ =~= seen_after(Seq::empty(), s0));
    assert(out@ =~= o0 + narrow(fresh(Seq::empty(), s0)));
    while t < end
        invariant
            start <= t <= end,
            p == pack@,
            trees == clamped(p, start_tree_idx as int, end_tree_idx as int),
            trees.len() == end - start,
            start < end ==> start == start_tree_idx,
            forall|i: int|
                0 <= i < trees.len() ==> fids_readable(p, #[trigger] trees[i], s0.len() as int),
            seen@ == seen_after(list_fids(p, trees.take(t - start)), s0),
            out@ == o0 + narrow(fresh(list_fids(p, trees.take(t - start)), s0)),
        decreases end - t,
    {
        let ghost done = trees.take(t - start);
        let ghost next = trees.take(t - start + 1);
        let ghost x = list_fids(p, done);
        let ghost y = tree_fids(p, t as int);
        proof {
            assert(trees[t - start] == t);
            assert(fids_readable(p, t as int, s0.len() as int));
            assert(next.drop_last() =~= done);
            assert(next.last() == t);
            lemma_list_fids_in_range(p, done, s0.len() as int);
            assert forall|i: int| 0 <= i < y.len() implies 0 <= #[trigger] y[i] < s0.len() by {
                assert(p.block_hdrs[p.tree_hdrs[t as int].block_off + i].fid < s0.len());
            }
            lemma_fresh_grows(x, y, s0);
            lemma_seen_grows(x, y, s0);
        }
        append_tree(pack, t, seen, out);
        proof {
            let a = fresh(x, s0);
            let b = fresh(y, seen_after(x, s0));
            assert(narrow(a + b) =~= narrow(a) + narrow(b));
            assert(out@ =~= o0 + narrow(fresh(list_fids(p, next), s0)));
        }
        t += 1;
    }
    assert(trees.take(end - start) =~= trees);
}

/// Features of listed trees are in range.
pub proof fn lemma_list_fids_in_range(p: PackModel, trees: Seq<int>, n: int)
    requires
        forall|i: int| 0 <= i < trees.len() ==> fids_readable(p, #[trigger] trees[i], n),
    ensures
        forall|i: int|
            0 <= i < list_fids(p, trees).len() ==> 0 <= #[trigger] list_fids(p, trees)[i] < n
                && list_fids(p, trees)[i] < 256,
    decreases trees.len(),
{
    if trees.len() > 0 {
        let head = trees.drop_last();
        assert forall|i: int| 0 <= i < head.len() implies fids_readable(
            p,
            #[trigger] head[i],
            n,
        ) by {
            assert(head[i] == trees[i]);
        }
        lemma_list_fids_in_range(p, head, n);
        let t = trees.last();
        assert(fids_readable(p, trees[trees.len() - 1], n));
        let a = list_fids(p, head);
        let b = tree_fids(p, t);
        assert forall|i: int| 0 <= i < (a + b).len() implies 0 <= #[trigger] (a + b)[i] < n && (a
            + b)[i] < 256 by {
            if i >= a.len() {
                let k = p.tree_hdrs[t].block_off + (i - a.len());
                assert(p.block_hdrs[k].fid < n);
            }
        }
    }
}

/// The features that the trees from `start_tree_idx` up to `end_tree_idx` name.
pub fn tree_range_feature_ids(pack: &QsPack, start_tree_idx: usize, end_tree_idx: usize) -> (out:
    Vec<u16>)
    requires
        forall|i: int|
            0 <= i < clamped(pack@, start_tree_idx as int, end_tree_idx as int).len()
                ==> fids_readable(
                pack@,
                #[trigger] clamped(pack@, start_tree_idx as int, end_tree_idx as int)[i],
                pack@.n_features,
            ),
    ensures
        out@ == narrow(
            fresh(
                list_fids(pack@, clamped(pack@, start_tree_idx as int, end_tree_idx as int)),
                unseen(pack@.n_features),
            ),
        ),
{
    let mut seen: Vec<bool> = vec![false; pack.n_features];
    assert(seen@ =~= unseen(pack@.n_features));
    let mut out: Vec<u16> = Vec::new();
    append_tree_range_new_feature_ids(
        pack,
        start_tree_idx,
        end_tree_idx,
        seen.as_mut_slice(),
        &mut out,
    );
    assert(Seq::<u16>::empty() + out@ =~= out@);
    out
}

/// The features that the listed trees name.
pub(crate) fn list_feature_ids(pack: &QsPack, trees: &Vec<usize>, Ghost(ts): Ghost<Seq<int>>) -> (out:
    Vec<u16>)
    requires
        ts == Seq::new(trees@.len(), |i: int| trees@[i] as int),
        forall|i: int|
            0 <= i < ts.len() ==> fids_readable(pack@, #[trigger] ts[i], pack@.n_features),
    ensures
        out@ == narrow(fresh(list_fids(pack@, ts), unseen(pack@.n_features))),
{
    let ghost p = pack@;
    let mut seen: Vec<bool> = vec![false; pack.n_features];
    let ghost s0 = unseen(p.n_features);
    let mut out: Vec<u16> = Vec::new();
    let mut k: usize = 0;
    assert(ts.take(0) =~= Seq::empty());
    assert(seen@ =~= seen_after(Seq::empty(), s0));
    assert(out@ =~= narrow(fresh(Seq::empty(), s0)));
    while k < trees.len()
        invariant
            k <= trees@.len(),
            p == pack@,
            ts == Seq::new(trees@.len(), |i: int| trees@[i] as int),
            s0 == unseen(p.n_features),
            s0.len() == p.n_features,
            forall|i: int|
                0 <= i < ts.len() ==> fids_readable(p, #[trigger] ts[i], p.n_features),
            seen@ == seen_after(list_fids(p, ts.take(k as int)), s0),
            out@ == narrow(fresh(list_fids(p, ts.take(k as int)), s0)),
        decreases trees@.len() - k,
    {
        let ghost done = ts.take(k as int);
        let ghost next = ts.take(k + 1);
        let ghost x = list_fids(p, done);
        let ghost t = ts[k as int];
        let ghost y = tree_fids(p, t);
        proof {
            assert(fids_readable(p, t, p.n_features));
            assert(next.drop_last() =~= done);
            assert forall|i: int| 0 <= i < done.len() implies fids_readable(
                p,
                #[trigger] done[i],
                p.n_features,
            ) by {
                assert(done[i] == ts[i]);
            }
            lemma_list_fids_in_range(p, done, p.n_features);
            assert forall|i: int| 0 <= i < y.len() implies 0 <= #[trigger] y[i] < s0.len() by {
                assert(p.block_hdrs[p.tree_hdrs[t].block_off + i].fid < s0.len());
            }
            lemma_fresh_grows(x, y, s0);
            lemma_seen_grows(x, y, s0);
        }
        append_tree(pack, trees[k], seen.as_mut_slice(), &mut out);
        proof {
            let a = fresh(x, s0);
            let b = fresh(y, seen_after(x, s0));
            assert(narrow(a + b) =~= narrow(a) + narrow(b));
        }
        k += 1;
    }
    assert(ts.take(k as int) =~= ts);
    out
}

} // verus!
