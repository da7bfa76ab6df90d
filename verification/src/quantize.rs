//! Turning the features of a row into ranks among their cuts.

use crate::qs_pack::{PackModel, QsPack};
use crate::rank::{lower_bound, lower_rank_byte, rank_byte, upper_bound};
use crate::single::{is_nan, nan};
use vstd::prelude::*;
use vstd::slice::slice_subrange;

verus! {

/// The cuts of feature `f`.
pub open spec fn feature_cuts(p: PackModel, f: int) -> Seq<u32> {
    p.cuts.subrange(p.cut_offsets[f] as int, p.cut_offsets[f + 1] as int)
}

/// Whether the run of cuts of feature `f` lies in the pack.
pub open spec fn cuts_readable(p: PackModel, f: int) -> bool {
    &&& 0 <= f
    &&& f + 1 < p.cut_offsets.len()
    &&& p.cut_offsets[f] <= p.cut_offsets[f + 1] <= p.cuts.len()
}

/// Whether the cuts of every feature of the pack lie in it.
pub open spec fn all_cuts_readable(p: PackModel) -> bool {
    forall|f: int| 0 <= f < p.n_features ==> #[trigger] cuts_readable(p, f)
}

/// The rank of a feature that may be missing: zero where it is.
pub open spec fn rank_or_zero(p: PackModel, f: int, x: u32) -> u8 {
    if nan(x) {
        0
    } else {
        rank_byte(feature_cuts(p, f), x)
    }
}

/// `old` with the ranks of all features of the pack written over it; missing ones get zero.
pub open spec fn ranked(p: PackModel, feat: Seq<u32>, old_ranks: Seq<u8>) -> Seq<u8> {
    Seq::new(
        old_ranks.len(),
        |f: int|
            if f < p.n_features {
                rank_or_zero(p, f, feat[f])
            } else {
                old_ranks[f]
            },
    )
}

/// `old` with a mark for every feature of the pack: one where it is missing.
pub open spec fn marked(p: PackModel, feat: Seq<u32>, old_marks: Seq<u8>) -> Seq<u8> {
    Seq::new(
        old_marks.len(),
        |f: int|
            if f < p.n_features {
                if nan(feat[f]) {
                    1u8
                } else {
                    0u8
                }
            } else {
                old_marks[f]
            },
    )
}

/// `old` with the ranks of all features of the pack written over it, none taken as missing.
pub open spec fn ranked_nomiss(p: PackModel, feat: Seq<u32>, old_ranks: Seq<u8>) -> Seq<u8> {
    Seq::new(
        old_ranks.len(),
        |f: int|
            if f < p.n_features {
                rank_byte(feature_cuts(p, f), feat[f])
            } else {
                old_ranks[f]
            },
    )
}

/// `old` with the ranks of the features of `ids` written over it.
pub open spec fn ranked_subset(
    p: PackModel,
    feat: Seq<u32>,
    old_ranks: Seq<u8>,
    ids: Seq<u16>,
) -> Seq<u8> {
    Seq::new(
        old_ranks.len(),
        |f: int|
            if exists|i: int| 0 <= i < ids.len() && #[trigger] ids[i] == f {
                rank_byte(feature_cuts(p, f), feat[f])
            } else {
                old_ranks[f]
            },
    )
}

/// `old` after the ranks of the first `n` features of `ids` were written over it in order, each
/// ranked among its own span of the cuts.
pub open spec fn ranked_spans(
    cuts: Seq<u32>,
    feat: Seq<u32>,
    old_ranks: Seq<u8>,
    ids: Seq<u16>,
    starts: Seq<u32>,
    ends: Seq<u32>,
    n: nat,
) -> Seq<u8>
    decreases n,
{
    if n == 0 {
        old_ranks
    } else {
        let i = n - 1;
        ranked_spans(cuts, feat, old_ranks, ids, starts, ends, (n - 1) as nat).update(
            ids[i] as int,
            rank_byte(cuts.subrange(starts[i] as int, ends[i] as int), feat[ids[i] as int]),
        )
    }
}

/// `old` with local feature `f` ranked by the row's feature `map[f]`.
pub open spec fn ranked_mapped(
    p: PackModel,
    feat: Seq<u32>,
    old_ranks: Seq<u8>,
    map: Seq<u16>,
) -> Seq<u8> {
    Seq::new(
        old_ranks.len(),
        |f: int|
            if f < map.len() {
                lower_rank_byte(feature_cuts(p, f), feat[map[f] as int])
            } else {
                old_ranks[f]
            },
    )
}

impl QsPack {
    /// Number of features.
    pub fn n_features(&self) -> (r: usize)
        ensures
            r == self@.n_features,
    {
        self.n_features
    }

    /// Number of trees.
    pub fn n_trees(&self) -> (r: usize)
        ensures
            r == self@.n_trees,
    {
        self.n_trees
    }

    /// Number of blocks.
    pub fn n_blocks(&self) -> (r: usize)
        ensures
            r == self@.n_blocks,
    {
        self.n_blocks
    }

    /// Where the cuts of feature `fid` start.
    pub fn cut_offset(&self, fid: usize) -> (r: usize)
        requires
            fid < self@.cut_offsets.len(),
        ensures
            r == self@.cut_offsets[fid as int],
    {
        self.cut_offsets[fid] as usize
    }

    /// The cuts of all features.
    pub fn cuts_slice(&self) -> (r: &[u32])
        ensures
            r@ == self@.cuts,
    {
        self.cuts.as_slice()
    }

    /// The cuts of one feature.
    fn cuts_of(&self, fid: usize) -> (r: &[u32])
        requires
            cuts_readable(self@, fid as int),
        ensures
            r@ == feature_cuts(self@, fid as int),
    {
        assert(self.cut_offsets@.len() == self.cut_offsets.len());
        slice_subrange(
            self.cuts.as_slice(),
            self.cut_offsets[fid] as usize,
            self.cut_offsets[fid + 1] as usize,
        )
    }
}

/// Ranks all features of a row and marks the missing ones.
pub fn quantize_into(pack: &QsPack, feat: &[u32], ranks: &mut [u8], missing: &mut [u8])
    requires
        all_cuts_readable(pack@),
        pack@.n_features <= feat@.len(),
        pack@.n_features <= old(ranks)@.len(),
        pack@.n_features <= old(missing)@.len(),
    ensures
        final(ranks)@ == ranked(pack@, feat@, old(ranks)@),
        final(missing)@ == marked(pack@, feat@, old(missing)@),
{
    let ghost r0 = ranks@;
    let ghost m0 = missing@;
    let mut fid: usize = 0;
    while fid < pack.n_features
        invariant
            fid <= pack.n_features,
            all_cuts_readable(pack@),
            pack@.n_features <= feat@.len(),
            pack@.n_features <= r0.len(),
            pack@.n_features <= m0.len(),
            ranks@.len() == r0.len(),
            missing@.len() == m0.len(),
            forall|f: int|
                0 <= f < r0.len() ==> #[trigger] ranks@[f] == (if f < fid {
                    ranked(pack@, feat@, r0)[f]
                } else {
                    r0[f]
                }),
            forall|f: int|
                0 <= f < m0.len() ==> #[trigger] missing@[f] == (if f < fid {
                    marked(pack@, feat@, m0)[f]
                } else {
                    m0[f]
                }),
        decreases pack.n_features - fid,
    {
        assert(cuts_readable(pack@, fid as int));
        let x: u32 = feat[fid];
        if is_nan(x) {
            ranks[fid] = 0;
            missing[fid] = 1;
        } else {
            let r: u8 = upper_bound(pack.cuts_of(fid), x);
            ranks[fid] = r;
            missing[fid] = 0;
        }
        fid += 1;
    }
    assert(ranks@ =~= ranked(pack@, feat@, r0));
    assert(missing@ =~= marked(pack@, feat@, m0));
}

/// Ranks all features of a row, taking none as missing.
pub fn quantize_into_nomiss(pack: &QsPack, feat: &[u32], ranks: &mut [u8])
    requires
        all_cuts_readable(pack@),
        pack@.n_features <= feat@.len(),
        pack@.n_features <= old(ranks)@.len(),
    ensures
        final(ranks)@ == ranked_nomiss(pack@, feat@, old(ranks)@),
{
    let ghost r0 = ranks@;
    let mut fid: usize = 0;
    while fid < pack.n_features
        invariant
            fid <= pack.n_features,
            all_cuts_readable(pack@),
            pack@.n_features <= feat@.len(),
            pack@.n_features <= r0.len(),
            ranks@.len() == r0.len(),
            forall|f: int|
                0 <= f < r0.len() ==> #[trigger] ranks@[f] == (if f < fid {
                    ranked_nomiss(pack@, feat@, r0)[f]
                } else {
                    r0[f]
                }),
        decreases pack.n_features - fid,
    {
        assert(cuts_readable(pack@, fid as int));
        let r: u8 = upper_bound(pack.cuts_of(fid), feat[fid]);
        ranks[fid] = r;
        fid += 1;
    }
    assert(ranks@ =~= ranked_nomiss(pack@, feat@, r0));
}

/// Ranks the features named by `feature_ids`.
pub fn quantize_feature_subset_nomiss(
    pack: &QsPack,
    feat: &[u32],
    ranks: &mut [u8],
    feature_ids: &[u16],
)
    requires
        forall|i: int|
            0 <= i < feature_ids@.len() ==> {
                &&& cuts_readable(pack@, #[trigger] feature_ids@[i] as int)
                &&& feature_ids@[i] < feat@.len()
                &&& feature_ids@[i] < old(ranks)@.len()
            },
    ensures
        final(ranks)@ == ranked_subset(pack@, feat@, old(ranks)@, feature_ids@),
{
    let ghost r0 = ranks@;
    let mut i: usize = 0;
    while i < feature_ids.len()
        invariant
            i <= feature_ids@.len(),
            forall|k: int|
                0 <= k < feature_ids@.len() ==> {
                    &&& cuts_readable(pack@, #[trigger] feature_ids@[k] as int)
                    &&& feature_ids@[k] < feat@.len()
                    &&& feature_ids@[k] < r0.len()
                },
            ranks@ == ranked_subset(pack@, feat@, r0, feature_ids@.take(i as int)),
        decreases feature_ids@.len() - i,
    {
        let fid: usize = feature_ids[i] as usize;
        let r: u8 = upper_bound(pack.cuts_of(fid), feat[fid]);
        let ghost before = ranks@;
        ranks[fid] = r;
        proof {
            let seen = feature_ids@.take(i as int);
            let next = feature_ids@.take(i + 1);
            assert forall|f: int| 0 <= f < r0.len() implies #[trigger] ranks@[f] == ranked_subset(
                pack@,
                feat@,
                r0,
                next,
            )[f] by {
                assert(before[f] == ranked_subset(pack@, feat@, r0, seen)[f]);
                if f == fid {
                    assert(next[i as int] == f);
                } else if exists|k: int| 0 <= k < seen.len() && #[trigger] seen[k] == f {
                    let k = choose|k: int| 0 <= k < seen.len() && #[trigger] seen[k] == f;
                    assert(next[k] == f);
                } else {
                    assert forall|k: int| 0 <= k < next.len() implies #[trigger] next[k] != f by {
                        if k < i {
                            assert(seen[k] == next[k]);
                        }
                    }
                }
            }
            assert(ranks@ =~= ranked_subset(pack@, feat@, r0, next));
        }
        i += 1;
    }
    assert(feature_ids@.take(i as int) =~= feature_ids@);
}

/// Ranks the features named by `feature_ids`, each among its own span of the cuts.
pub fn quantize_feature_subset_nomiss_precomputed(
    cuts: &[u32],
    feat: &[u32],
    ranks: &mut [u8],
    feature_ids: &[u16],
    cut_starts: &[u32],
    cut_ends: &[u32],
)
    requires
        feature_ids@.len() <= cut_starts@.len(),
        feature_ids@.len() <= cut_ends@.len(),
        forall|i: int|
            0 <= i < feature_ids@.len() ==> {
                &&& #[trigger] feature_ids@[i] < feat@.len()
                &&& feature_ids@[i] < old(ranks)@.len()
                &&& cut_starts@[i] <= cut_ends@[i] <= cuts@.len()
            },
    ensures
        final(ranks)@ == ranked_spans(
            cuts@,
            feat@,
            old(ranks)@,
            feature_ids@,
            cut_starts@,
            cut_ends@,
            feature_ids@.len(),
        ),
{
    let ghost r0 = ranks@;
    let mut i: usize = 0;
    while i < feature_ids.len()
        invariant
            i <= feature_ids@.len(),
            feature_ids@.len() <= cut_starts@.len(),
            feature_ids@.len() <= cut_ends@.len(),
            ranks@.len() == r0.len(),
            forall|k: int|
                0 <= k < feature_ids@.len() ==> {
                    &&& #[trigger] feature_ids@[k] < feat@.len()
                    &&& feature_ids@[k] < r0.len()
                    &&& cut_starts@[k] <= cut_ends@[k] <= cuts@.len()
                },
            ranks@ == ranked_spans(
                cuts@,
                feat@,
                r0,
                feature_ids@,
                cut_starts@,
                cut_ends@,
                i as nat,
            ),
        decreases feature_ids@.len() - i,
    {
        let fid: usize = feature_ids[i] as usize;
        let own: &[u32] = slice_subrange(cuts, cut_starts[i] as usize, cut_ends[i] as usize);
        let r: u8 = upper_bound(own, feat[fid]);
        ranks[fid] = r;
        i += 1;
    }
}

/// Ranks the features of a pack whose features are a choice of the row's: local feature `f` is
/// the row's feature `local_to_global_fid[f]`. A value equal to a cut does not pass it here.
pub fn quantize_feature_subset_nomiss_mapped(
    pack: &QsPack,
    feat: &[u32],
    ranks: &mut [u8],
    local_to_global_fid: &[u16],
)
    requires
        local_to_global_fid@.len() <= old(ranks)@.len(),
        forall|f: int| 0 <= f < local_to_global_fid@.len() ==> #[trigger] cuts_readable(pack@, f),
        forall|f: int|
            0 <= f < local_to_global_fid@.len() ==> #[trigger] local_to_global_fid@[f] < feat@.len(),
    ensures
        final(ranks)@ == ranked_mapped(pack@, feat@, old(ranks)@, local_to_global_fid@),
{
    let ghost r0 = ranks@;
    let n: usize = local_to_global_fid.len();
    let mut fid: usize = 0;
    while fid < n
        invariant
            fid <= n,
            n == local_to_global_fid@.len(),
            n <= r0.len(),
            ranks@.len() == r0.len(),
            forall|f: int| 0 <= f < n ==> #[trigger] cuts_readable(pack@, f),
            forall|f: int| 0 <= f < n ==> #[trigger] local_to_global_fid@[f] < feat@.len(),
            forall|f: int|
                0 <= f < r0.len() ==> #[trigger] ranks@[f] == (if f < fid {
                    ranked_mapped(pack@, feat@, r0, local_to_global_fid@)[f]
                } else {
                    r0[f]
                }),
        decreases n - fid,
    {
        assert(cuts_readable(pack@, fid as int));
        let x: u32 = feat[local_to_global_fid[fid] as usize];
        let r: u8 = lower_bound(pack.cuts_of(fid), x);
        ranks[fid] = r;
        fid += 1;
    }
    assert(ranks@ =~= ranked_mapped(pack@, feat@, r0, local_to_global_fid@));
}

/// On a row without missing values the two ways of ranking agree, and nothing is marked.
pub proof fn law_complete_row_ranks_alike(
    p: PackModel,
    feat: Seq<u32>,
    old_ranks: Seq<u8>,
    old_marks: Seq<u8>,
)
    requires
        forall|f: int| 0 <= f < p.n_features ==> !nan(#[trigger] feat[f]),
    ensures
        ranked(p, feat, old_ranks) == ranked_nomiss(p, feat, old_ranks),
        forall|f: int|
            0 <= f < p.n_features && f < old_marks.len() ==> #[trigger] marked(
                p,
                feat,
                old_marks,
            )[f] == 0,
{
    assert(ranked(p, feat, old_ranks) =~= ranked_nomiss(p, feat, old_ranks));
}

/// Ranking among spans taken from the pack's own offsets is ranking among the pack's cuts.
pub proof fn law_own_spans_rank_alike(
    p: PackModel,
    feat: Seq<u32>,
    old_ranks: Seq<u8>,
    ids: Seq<u16>,
    starts: Seq<u32>,
    ends: Seq<u32>,
)
    requires
        starts.len() == ids.len(),
        ends.len() == ids.len(),
        forall|i: int|
            0 <= i < ids.len() ==> {
                &&& #[trigger] ids[i] < old_ranks.len()
                &&& starts[i] == p.cut_offsets[ids[i] as int]
                &&& ends[i] == p.cut_offsets[ids[i] + 1]
            },
    ensures
        ranked_spans(p.cuts, feat, old_ranks, ids, starts, ends, ids.len()) == ranked_subset(
            p,
            feat,
            old_ranks,
            ids,
        ),
{
    lemma_own_spans(p, feat, old_ranks, ids, starts, ends, ids.len());
    assert(ids.take(ids.len() as int) =~= ids);
}

proof fn lemma_own_spans(
    p: PackModel,
    feat: Seq<u32>,
    old_ranks: Seq<u8>,
    ids: Seq<u16>,
    starts: Seq<u32>,
    ends: Seq<u32>,
    n: nat,
)
    requires
        n <= ids.len(),
        starts.len() == ids.len(),
        ends.len() == ids.len(),
        forall|i: int|
            0 <= i < ids.len() ==> {
                &&& #[trigger] ids[i] < old_ranks.len()
                &&& starts[i] == p.cut_offsets[ids[i] as int]
                &&& ends[i] == p.cut_offsets[ids[i] + 1]
            },
    ensures
        ranked_spans(p.cuts, feat, old_ranks, ids, starts, ends, n) == ranked_subset(
            p,
            feat,
            old_ranks,
            ids.take(n as int),
        ),
    decreases n,
{
    let next = ids.take(n as int);
    if n == 0 {
        assert(ranked_subset(p, feat, old_ranks, next) =~= old_ranks);
    } else {
        lemma_own_spans(p, feat, old_ranks, ids, starts, ends, (n - 1) as nat);
        let seen = ids.take(n - 1);
        let last = ids[n - 1] as int;
        let left = ranked_spans(p.cuts, feat, old_ranks, ids, starts, ends, n);
        let right = ranked_subset(p, feat, old_ranks, next);
        assert forall|f: int| 0 <= f < old_ranks.len() implies left[f] == right[f] by {
            if f == last {
                assert(next[n - 1] == f);
            } else if exists|k: int| 0 <= k < seen.len() && #[trigger] seen[k] == f {
                let k = choose|k: int| 0 <= k < seen.len() && #[trigger] seen[k] == f;
                assert(next[k] == f);
            } else {
                assert forall|k: int| 0 <= k < next.len() implies #[trigger] next[k] != f by {
                    if k < n - 1 {
                        assert(seen[k] == next[k]);
                    }
                }
            }
        }
        assert(left =~= right);
    }
}

} // verus!
