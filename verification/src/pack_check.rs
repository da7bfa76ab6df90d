//! Whether a packed ensemble can be scored on every row.

use crate::qs_pack::{PackModel, QsBlockHdr, QsPack, QsTreeHdr};
use crate::qs_prefix::span_readable;
use crate::qs_score::{block_readable, none_missing, tree_readable};
use crate::quantize::{
    all_cuts_readable, cuts_readable, feature_cuts, marked, ranked, ranked_mapped, ranked_nomiss,
};
use crate::rank::{lemma_bisect_from_range, lemma_rank_range, lower_rank_byte, rank_byte};
use crate::single::{is_nan, nan};
use vstd::prelude::*;

verus! {

/// Whether block `b` has an entry for rank `r`, and a mask for the bucket that it names.
pub open spec fn takes(p: PackModel, b: int, r: int) -> bool {
    let h = p.block_hdrs[b];
    &&& h.lut_off + r < p.luts.len()
    &&& h.mask_off + p.luts[h.lut_off + r] < p.masks.len()
}

/// Whether block `b` takes every rank up to `top`.
pub open spec fn takes_up_to(p: PackModel, b: int, top: int) -> bool {
    forall|r: int| 0 <= r <= top ==> #[trigger] takes(p, b, r)
}

/// The highest rank among `n` cuts that a byte can hold.
pub open spec fn top_rank(n: int) -> int {
    if n <= 255 {
        n
    } else {
        255
    }
}

/// How many cuts feature `f` has.
pub open spec fn cut_count(p: PackModel, f: int) -> int {
    p.cut_offsets[f + 1] - p.cut_offsets[f]
}

/// Whether block `b` takes every rank of its feature.
pub open spec fn block_sound(p: PackModel, b: int) -> bool {
    let f = p.block_hdrs[b].fid as int;
    &&& f < p.n_features
    &&& takes_up_to(p, b, top_rank(cut_count(p, f)))
}

/// Whether the blocks and leaves of tree `t` are there, and the blocks take every rank.
pub open spec fn tree_sound(p: PackModel, t: int) -> bool {
    let h = p.tree_hdrs[t];
    &&& h.block_off + h.block_cnt <= p.block_hdrs.len()
    &&& h.leaf_val_off + h.leaf_cnt <= p.leaf_values.len()
    &&& forall|b: int| h.block_off <= b < h.block_off + h.block_cnt ==> #[trigger] block_sound(p, b)
}

/// Whether everything that the trees of a pack point at is in it, on rows that miss no value.
pub open spec fn pack_sound(p: PackModel) -> bool {
    &&& p.n_trees <= p.tree_hdrs.len()
    &&& all_cuts_readable(p)
    &&& forall|t: int| 0 <= t < p.n_trees ==> #[trigger] tree_sound(p, t)
}

/// Whether block `b` has a mask for missing values.
pub open spec fn has_miss_mask(p: PackModel, b: int) -> bool {
    p.block_hdrs[b].mask_off + p.block_hdrs[b].miss_bucket < p.masks.len()
}

/// Whether tree `t` has a mask for every value that a row misses.
pub open spec fn tree_marks_sound(p: PackModel, t: int, feat: Seq<u32>) -> bool {
    let h = p.tree_hdrs[t];
    forall|b: int|
        h.block_off <= b < h.block_off + h.block_cnt && nan(
            feat[p.block_hdrs[b].fid as int],
        ) ==> #[trigger] has_miss_mask(p, b)
}

/// Whether the trees of a pack have a mask for every value that a row misses.
pub open spec fn marks_sound(p: PackModel, feat: Seq<u32>) -> bool {
    forall|t: int| 0 <= t < p.n_trees ==> #[trigger] tree_marks_sound(p, t, feat)
}

/// Whether tree `t` has a mask for missing values in every block.
pub open spec fn tree_takes_gaps(p: PackModel, t: int) -> bool {
    let h = p.tree_hdrs[t];
    forall|b: int|
        h.block_off <= b < h.block_off + h.block_cnt ==> #[trigger] has_miss_mask(p, b)
}

/// Whether the trees of a pack have a mask for every value that any row can miss.
pub open spec fn takes_gaps(p: PackModel) -> bool {
    forall|t: int| 0 <= t < p.n_trees ==> #[trigger] tree_takes_gaps(p, t)
}

/// Whether the blocks of tree `t` that name feature `f` take every rank up to `top`.
pub open spec fn tree_takes(p: PackModel, t: int, f: int, top: int) -> bool {
    let h = p.tree_hdrs[t];
    forall|b: int|
        h.block_off <= b < h.block_off + h.block_cnt && (#[trigger] p.block_hdrs[b]).fid == f
            ==> takes_up_to(p, b, top)
}

/// Whether every block that names feature `f` takes every rank up to `top`.
pub open spec fn feature_takes(p: PackModel, f: int, top: int) -> bool {
    forall|t: int| 0 <= t < p.n_trees ==> #[trigger] tree_takes(p, t, f, top)
}

/// Whether the blocks of tree `t` name none but the first `n` features.
pub open spec fn tree_names_below(p: PackModel, t: int, n: int) -> bool {
    let h = p.tree_hdrs[t];
    forall|b: int|
        h.block_off <= b < h.block_off + h.block_cnt ==> (#[trigger] p.block_hdrs[b]).fid < n
}

/// Whether the trees of a pack name none but the first `n` features.
pub open spec fn names_below(p: PackModel, n: int) -> bool {
    forall|t: int| 0 <= t < p.n_trees ==> #[trigger] tree_names_below(p, t, n)
}

impl QsPack {
    /// Finds out whether block `b` takes every rank up to `top`.
    fn block_takes(&self, b: usize, top: usize) -> (r: bool)
        requires
            b < self@.block_hdrs.len(),
            top <= 255,
        ensures
            r == takes_up_to(self@, b as int, top as int),
    {
        let ghost p = self@;
        let h: QsBlockHdr = self.block_hdrs[b];
        assert(self.luts@.len() == self.luts.len());
        let mut k: usize = 0;
        while k <= top
            invariant
                k <= top + 1,
                top <= 255,
                p == self@,
                b < p.block_hdrs.len(),
                h == p.block_hdrs[b as int],
                self.luts@.len() <= usize::MAX,
                forall|r: int| 0 <= r < k ==> #[trigger] takes(p, b as int, r),
            decreases top + 1 - k,
        {
            if h.lut_off as u64 + k as u64 >= self.luts.len() as u64 {
                assert(!takes(p, b as int, k as int));
                return false;
            }
            let at: usize = h.lut_off as usize + k;
            if h.mask_off as u64 + self.luts[at] as u64 >= self.masks.len() as u64 {
                assert(!takes(p, b as int, k as int));
                return false;
            }
            k += 1;
        }
        true
    }

    fn tree_is_sound(&self, t: usize) -> (r: bool)
        requires
            t < self@.tree_hdrs.len(),
            all_cuts_readable(self@),
        ensures
            r == tree_sound(self@, t as int),
    {
        let ghost p = self@;
        let h: QsTreeHdr = self.tree_hdrs[t];
        if h.block_off as u64 + h.block_cnt as u64 > self.block_hdrs.len() as u64
            || h.leaf_val_off as u64 + h.leaf_cnt as u64 > self.leaf_values.len() as u64 {
            return false;
        }
        let start: usize = h.block_off as usize;
        let mut k: usize = 0;
        while k < h.block_cnt as usize
            invariant
                k <= h.block_cnt,
                p == self@,
                all_cuts_readable(p),
                t < p.tree_hdrs.len(),
                h == p.tree_hdrs[t as int],
                start == h.block_off,
                start + h.block_cnt <= self.block_hdrs@.len(),
                self.block_hdrs@.len() <= usize::MAX,
                forall|b: int| start <= b < start + k ==> #[trigger] block_sound(p, b),
            decreases h.block_cnt - k,
        {
            let b: usize = start + k;
            let f: usize = self.block_hdrs[b].fid as usize;
            if f >= self.n_features {
                assert(!block_sound(p, b as int));
                return false;
            }
            assert(cuts_readable(p, f as int));
            let n: u32 = self.cut_offsets[f + 1] - self.cut_offsets[f];
            let top: usize = if n <= 255 {
                n as usize
            } else {
                255
            };
            if !self.block_takes(b, top) {
                assert(!block_sound(p, b as int));
                return false;
            }
            k += 1;
        }
        true
    }

    /// Finds out whether everything that the trees of the pack point at is in it.
    pub fn sound(&self) -> (r: bool)
        ensures
            r == pack_sound(self@),
    {
        let ghost p = self@;
        if self.n_trees > self.tree_hdrs.len() {
            return false;
        }
        let mut f: usize = 0;
        while f < self.n_features
            invariant
                f <= self.n_features,
                p == self@,
                forall|k: int| 0 <= k < f ==> #[trigger] cuts_readable(p, k),
            decreases self.n_features - f,
        {
            if f >= self.cut_offsets.len() || f + 1 >= self.cut_offsets.len() || self.cut_offsets[f]
                > self.cut_offsets[f + 1] || self.cut_offsets[f + 1] as u64
                > self.cuts.len() as u64 {
                assert(!cuts_readable(p, f as int));
                return false;
            }
            f += 1;
        }
        let mut t: usize = 0;
        while t < self.n_trees
            invariant
                t <= self.n_trees <= self.tree_hdrs@.len(),
                p == self@,
                all_cuts_readable(p),
                forall|k: int| 0 <= k < t ==> #[trigger] tree_sound(p, k),
            decreases self.n_trees - t,
        {
            if !self.tree_is_sound(t) {
                return false;
            }
            t += 1;
        }
        true
    }

    /// Finds out whether the trees of a sound pack have a mask for every value that a row can
    /// miss.
    pub fn takes_gaps(&self) -> (r: bool)
        requires
            pack_sound(self@),
        ensures
            r == takes_gaps(self@),
    {
        let ghost p = self@;
        let mut t: usize = 0;
        while t < self.n_trees
            invariant
                t <= self.n_trees <= self.tree_hdrs@.len(),
                p == self@,
                pack_sound(p),
                forall|k: int| 0 <= k < t ==> #[trigger] tree_takes_gaps(p, k),
            decreases self.n_trees - t,
        {
            assert(tree_sound(p, t as int));
            let h: QsTreeHdr = self.tree_hdrs[t];
            assert(self.block_hdrs@.len() == self.block_hdrs.len());
            let start: usize = h.block_off as usize;
            let mut k: usize = 0;
            while k < h.block_cnt as usize
                invariant
                    k <= h.block_cnt,
                    p == self@,
                    t < self.n_trees,
                    h == p.tree_hdrs[t as int],
                    start == h.block_off,
                    start + h.block_cnt <= self.block_hdrs@.len(),
                    self.block_hdrs@.len() <= usize::MAX,
                    forall|b: int| start <= b < start + k ==> #[trigger] has_miss_mask(p, b),
                decreases h.block_cnt - k,
            {
                let bh: QsBlockHdr = self.block_hdrs[start + k];
                if bh.mask_off as u64 + bh.miss_bucket as u64 >= self.masks.len() as u64 {
                    assert(!has_miss_mask(p, start + k));
                    assert(!tree_takes_gaps(p, t as int));
                    return false;
                }
                k += 1;
            }
            t += 1;
        }
        true
    }

    /// Finds out whether the trees of a sound pack have a mask for every value that a row misses.
    pub fn takes_row(&self, feat: &[u32]) -> (r: bool)
        requires
            pack_sound(self@),
            self@.n_features <= feat@.len(),
        ensures
            r == marks_sound(self@, feat@),
    {
        let ghost p = self@;
        let mut t: usize = 0;
        while t < self.n_trees
            invariant
                t <= self.n_trees <= self.tree_hdrs@.len(),
                p == self@,
                pack_sound(p),
                p.n_features <= feat@.len(),
                forall|k: int| 0 <= k < t ==> #[trigger] tree_marks_sound(p, k, feat@),
            decreases self.n_trees - t,
        {
            assert(tree_sound(p, t as int));
            let h: QsTreeHdr = self.tree_hdrs[t];
            assert(self.block_hdrs@.len() == self.block_hdrs.len());
            let start: usize = h.block_off as usize;
            let mut k: usize = 0;
            while k < h.block_cnt as usize
                invariant
                    k <= h.block_cnt,
                    p == self@,
                    t < self.n_trees,
                    tree_sound(p, t as int),
                    p.n_features <= feat@.len(),
                    h == p.tree_hdrs[t as int],
                    start == h.block_off,
                    start + h.block_cnt <= self.block_hdrs@.len(),
                    self.block_hdrs@.len() <= usize::MAX,
                    forall|b: int|
                        start <= b < start + k && nan(feat@[p.block_hdrs[b].fid as int])
                            ==> #[trigger] has_miss_mask(p, b),
                decreases h.block_cnt - k,
            {
                let bh: QsBlockHdr = self.block_hdrs[start + k];
                assert(block_sound(p, start + k));
                if is_nan(feat[bh.fid as usize]) && bh.mask_off as u64 + bh.miss_bucket as u64
                    >= self.masks.len() as u64 {
                    assert(!has_miss_mask(p, start + k));
                    assert(!tree_marks_sound(p, t as int, feat@));
                    return false;
                }
                k += 1;
            }
            t += 1;
        }
        true
    }

    /// Finds out whether the trees of a sound pack name none but the first `n` features.
    pub fn names_below(&self, n: usize) -> (r: bool)
        requires
            pack_sound(self@),
        ensures
            r == names_below(self@, n as int),
    {
        let ghost p = self@;
        let mut t: usize = 0;
        while t < self.n_trees
            invariant
                t <= self.n_trees <= self.tree_hdrs@.len(),
                p == self@,
                pack_sound(p),
                forall|k: int| 0 <= k < t ==> #[trigger] tree_names_below(p, k, n as int),
            decreases self.n_trees - t,
        {
            assert(tree_sound(p, t as int));
            let h: QsTreeHdr = self.tree_hdrs[t];
            assert(self.block_hdrs@.len() == self.block_hdrs.len());
            let start: usize = h.block_off as usize;
            let mut k: usize = 0;
            while k < h.block_cnt as usize
                invariant
                    k <= h.block_cnt,
                    p == self@,
                    t < self.n_trees,
                    h == p.tree_hdrs[t as int],
                    start == h.block_off,
                    start + h.block_cnt <= self.block_hdrs@.len(),
                    self.block_hdrs@.len() <= usize::MAX,
                    forall|b: int| start <= b < start + k ==> (#[trigger] p.block_hdrs[b]).fid < n,
                decreases h.block_cnt - k,
            {
                if self.block_hdrs[start + k].fid as usize >= n {
                    assert(!(p.block_hdrs[start + k].fid < n));
                    assert(!tree_names_below(p, t as int, n as int));
                    return false;
                }
                k += 1;
            }
            t += 1;
        }
        true
    }

    /// Finds out whether every block of a sound pack that names feature `f` takes every rank up to
    /// `top`.
    pub fn feature_takes(&self, f: usize, top: usize) -> (r: bool)
        requires
            pack_sound(self@),
            top <= 255,
        ensures
            r == feature_takes(self@, f as int, top as int),
    {
        let ghost p = self@;
        let mut t: usize = 0;
        while t < self.n_trees
            invariant
                t <= self.n_trees <= self.tree_hdrs@.len(),
                p == self@,
                pack_sound(p),
                top <= 255,
                forall|k: int| 0 <= k < t ==> #[trigger] tree_takes(p, k, f as int, top as int),
            decreases self.n_trees - t,
        {
            assert(tree_sound(p, t as int));
            let h: QsTreeHdr = self.tree_hdrs[t];
            assert(self.block_hdrs@.len() == self.block_hdrs.len());
            let start: usize = h.block_off as usize;
            let mut k: usize = 0;
            while k < h.block_cnt as usize
                invariant
                    k <= h.block_cnt,
                    p == self@,
                    t < self.n_trees,
                    top <= 255,
                    h == p.tree_hdrs[t as int],
                    start == h.block_off,
                    start + h.block_cnt <= self.block_hdrs@.len(),
                    self.block_hdrs@.len() <= usize::MAX,
                    forall|b: int|
                        start <= b < start + k && (#[trigger] p.block_hdrs[b]).fid == f
                            ==> takes_up_to(p, b, top as int),
                decreases h.block_cnt - k,
            {
                if self.block_hdrs[start + k].fid as usize == f && !self.block_takes(
                    start + k,
                    top,
                ) {
                    assert(p.block_hdrs[start + k].fid == f);
                    assert(!tree_takes(p, t as int, f as int, top as int));
                    return false;
                }
                k += 1;
            }
            t += 1;
        }
        true
    }
}

/// A pack with a mask for every gap has one for the gaps of any row.
pub proof fn law_packs_that_take_gaps_take_every_row(p: PackModel, feat: Seq<u32>)
    requires
        takes_gaps(p),
    ensures
        marks_sound(p, feat),
{
    assert forall|t: int| 0 <= t < p.n_trees implies #[trigger] tree_marks_sound(p, t, feat) by {
        assert(tree_takes_gaps(p, t));
    }
}

/// A row that misses nothing needs no mask for gaps.
pub proof fn law_whole_rows_need_no_masks(p: PackModel, feat: Seq<u32>)
    requires
        pack_sound(p),
        forall|f: int| 0 <= f < p.n_features ==> !nan(#[trigger] feat[f]),
    ensures
        marks_sound(p, feat),
{
    assert forall|t: int| 0 <= t < p.n_trees implies #[trigger] tree_marks_sound(p, t, feat) by {
        assert(tree_sound(p, t));
        let h = p.tree_hdrs[t];
        assert forall|b: int|
            h.block_off <= b < h.block_off + h.block_cnt && nan(
                feat[p.block_hdrs[b].fid as int],
            ) implies #[trigger] has_miss_mask(p, b) by {
            assert(block_sound(p, b));
            assert(!nan(feat[p.block_hdrs[b].fid as int]));
        }
    }
}

/// Whether every tree can be read with ranks where no value is missing.
pub open spec fn ranks_fit(p: PackModel, ranks: Seq<u8>) -> bool {
    span_readable(p, 0, p.n_trees, ranks, none_missing())
}

/// Ranks that each are one of their feature, or zero, fit a sound pack.
proof fn lemma_own_ranks_fit(p: PackModel, ranks: Seq<u8>)
    requires
        pack_sound(p),
        p.n_features <= ranks.len(),
        forall|f: int|
            0 <= f < p.n_features ==> (#[trigger] ranks[f]) <= top_rank(cut_count(p, f)),
    ensures
        ranks_fit(p, ranks),
{
    assert forall|t: int| 0 <= t < p.n_trees implies #[trigger] tree_readable(
        p,
        t,
        ranks,
        none_missing(),
    ) by {
        let h = p.tree_hdrs[t];
        assert(tree_sound(p, t));
        assert forall|b: int| h.block_off <= b < h.block_off + h.block_cnt implies
            #[trigger] block_readable(p, b, ranks, none_missing()) by {
            assert(block_sound(p, b));
            let f = p.block_hdrs[b].fid as int;
            assert(takes(p, b, ranks[f] as int));
        }
    }
}

/// Zeros fit every sound pack.
pub proof fn lemma_zeros_fit(p: PackModel, ranks: Seq<u8>)
    requires
        pack_sound(p),
        p.n_features <= ranks.len(),
        forall|f: int| 0 <= f < p.n_features ==> #[trigger] ranks[f] == 0,
    ensures
        ranks_fit(p, ranks),
{
    assert forall|f: int| 0 <= f < p.n_features implies (#[trigger] ranks[f]) <= top_rank(
        cut_count(p, f),
    ) by {
        assert(cuts_readable(p, f));
    }
    lemma_own_ranks_fit(p, ranks);
}

proof fn lemma_ranked_fit(p: PackModel, feat: Seq<u32>, ranks: Seq<u8>)
    requires
        pack_sound(p),
        p.n_features <= ranks.len(),
    ensures
        ranks_fit(p, ranked(p, feat, ranks)),
{
    let r = ranked(p, feat, ranks);
    assert forall|f: int| 0 <= f < p.n_features implies (#[trigger] r[f]) <= top_rank(
        cut_count(p, f),
    ) by {
        assert(cuts_readable(p, f));
        lemma_rank_top(feature_cuts(p, f), feat[f]);
    }
    lemma_own_ranks_fit(p, r);
}

/// Every tree of a sound pack can be read once a row was ranked.
pub proof fn lemma_ranked_is_readable(
    p: PackModel,
    feat: Seq<u32>,
    ranks: Seq<u8>,
    miss: Seq<u8>,
)
    requires
        pack_sound(p),
        marks_sound(p, feat),
        p.n_features <= ranks.len(),
        p.n_features <= miss.len(),
    ensures
        span_readable(p, 0, p.n_trees, ranked(p, feat, ranks), marked(p, feat, miss)),
        ranks_fit(p, ranked(p, feat, ranks)),
{
    let r = ranked(p, feat, ranks);
    let q = marked(p, feat, miss);
    lemma_ranked_fit(p, feat, ranks);
    assert forall|t: int| 0 <= t < p.n_trees implies #[trigger] tree_readable(p, t, r, q) by {
        let h = p.tree_hdrs[t];
        assert(tree_sound(p, t));
        assert(tree_marks_sound(p, t, feat));
        assert forall|b: int| h.block_off <= b < h.block_off + h.block_cnt implies
            #[trigger] block_readable(p, b, r, q) by {
            assert(block_sound(p, b));
            let f = p.block_hdrs[b].fid as int;
            assert(cuts_readable(p, f));
            lemma_rank_top(feature_cuts(p, f), feat[f]);
            if nan(feat[f]) {
                assert(has_miss_mask(p, b));
            } else {
                assert(takes(p, b, r[f] as int));
            }
        }
    }
}

/// Every tree of a sound pack can be read once a row without missing values was ranked.
pub proof fn lemma_ranked_nomiss_is_readable(p: PackModel, feat: Seq<u32>, ranks: Seq<u8>)
    requires
        pack_sound(p),
        p.n_features <= ranks.len(),
    ensures
        ranks_fit(p, ranked_nomiss(p, feat, ranks)),
{
    let r = ranked_nomiss(p, feat, ranks);
    assert forall|f: int| 0 <= f < p.n_features implies (#[trigger] r[f]) <= top_rank(
        cut_count(p, f),
    ) by {
        assert(cuts_readable(p, f));
        lemma_rank_top(feature_cuts(p, f), feat[f]);
    }
    lemma_own_ranks_fit(p, r);
}

/// Every tree of a sound pack can be read once the features that its trees name were ranked.
pub proof fn lemma_mapped_is_readable(
    p: PackModel,
    feat: Seq<u32>,
    ranks: Seq<u8>,
    map: Seq<u16>,
)
    requires
        pack_sound(p),
        p.n_features <= ranks.len(),
        names_below(p, map.len() as int),
    ensures
        ranks_fit(p, ranked_mapped(p, feat, ranks, map)),
{
    let r = ranked_mapped(p, feat, ranks, map);
    assert forall|t: int| 0 <= t < p.n_trees implies #[trigger] tree_readable(
        p,
        t,
        r,
        none_missing(),
    ) by {
        let h = p.tree_hdrs[t];
        assert(tree_sound(p, t));
        assert(tree_names_below(p, t, map.len() as int));
        assert forall|b: int| h.block_off <= b < h.block_off + h.block_cnt implies
            #[trigger] block_readable(p, b, r, none_missing()) by {
            assert(block_sound(p, b));
            let f = p.block_hdrs[b].fid as int;
            assert(cuts_readable(p, f));
            lemma_rank_top(feature_cuts(p, f), feat[map[f] as int]);
            assert(takes(p, b, r[f] as int));
        }
    }
}

/// Where the blocks of a feature take all ranks of a span, ranking it there leaves trees that could
/// be read readable.
pub proof fn lemma_still_readable(p: PackModel, ranks: Seq<u8>, f: int, r: u8, top: int)
    requires
        ranks_fit(p, ranks),
        feature_takes(p, f, top),
        r <= top,
        0 <= f < ranks.len(),
    ensures
        ranks_fit(p, ranks.update(f, r)),
{
    let now = ranks.update(f, r);
    assert forall|t: int| 0 <= t < p.n_trees implies #[trigger] tree_readable(
        p,
        t,
        now,
        none_missing(),
    ) by {
        assert(tree_readable(p, t, ranks, none_missing()));
        assert(tree_takes(p, t, f, top));
        let h = p.tree_hdrs[t];
        assert forall|b: int| h.block_off <= b < h.block_off + h.block_cnt implies
            #[trigger] block_readable(p, b, now, none_missing()) by {
            assert(block_readable(p, b, ranks, none_missing()));
            if p.block_hdrs[b].fid == f {
                assert(takes(p, b, r as int));
            }
        }
    }
}

/// A rank is at most the number of cuts, and fits a byte.
pub proof fn lemma_rank_top(s: Seq<u32>, x: u32)
    ensures
        rank_byte(s, x) <= top_rank(s.len() as int),
        lower_rank_byte(s, x) <= top_rank(s.len() as int),
{
    lemma_rank_range(s, x);
    lemma_bisect_from_range(s, x, 0, s.len() as int);
}

} // verus!
