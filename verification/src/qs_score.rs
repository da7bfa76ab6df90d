//! Scoring a row against a packed ensemble.
//!
//! A score is the single-precision sum, in order, of a starting value and one leaf value per tree.
//! The functions here find the leaf values and say in which order they are to be added; the sum
//! itself is the caller's.

use crate::descend::TraverseError;
use crate::leaf_set::{decode_leaf, meet, resolved, sole_leaf};
use crate::qs_pack::{Mask128, PackModel, QsPack, QsTreeHdr};
use vstd::prelude::*;

verus! {

/// Most blocks that one tree can have.
pub const MAX_TREE_BLOCKS: u64 = 0xffff;

/// Why a row could not be scored.
#[derive(Clone, Copy, Debug, PartialEq, Eq, Structural)]
pub enum ScoreError {
    /// The blocks of the tree left no leaf or more than one.
    Unresolved,
    /// The sole leaf lies past the leaves of its tree.
    LeafOutside { leaf: usize, leaf_cnt: u16 },
    /// The tree index lies past the trees of the pack.
    TreeOutside { tree: usize },
    /// No candidate leaf is left to bound.
    EmptySet,
    NoCheckpoints,
    InvalidCheckpoint { checkpoint: usize },
    CheckpointsNotIncreasing,
    StartOutside { start: usize },
    CheckpointNotReached { reached: usize },
    FeatureCountMismatch,
    /// A walk from node to node went astray.
    Astray(TraverseError),
    /// The stages of the first trees have not one offset more than checkpoints.
    StageOffsets,
    /// What the chosen way to run needs is not there.
    NotLoaded,
    /// A step of the packet policy finds every packet used.
    PacketsExhausted,
    /// The calibration has not one table for each step.
    StepCount { tables: usize, max_steps: usize },
    /// A packet that was recorded as used does not exist.
    InvalidPacket { packet: usize },
}

/// Patterns that mark no feature as missing, whichever feature a block names.
pub open spec fn none_missing() -> Seq<u8> {
    Seq::new(256, |i: int| 0u8)
}

/// The bucket of block `b`: that of missing values, or the table's entry for the feature's rank.
pub open spec fn bucket_of(p: PackModel, b: int, ranks: Seq<u8>, miss: Seq<u8>) -> int {
    let h = p.block_hdrs[b];
    if miss[h.fid as int] != 0 {
        h.miss_bucket as int
    } else {
        p.luts[h.lut_off + ranks[h.fid as int]] as int
    }
}

/// The candidates that block `b` lets through.
pub open spec fn block_mask(p: PackModel, b: int, ranks: Seq<u8>, miss: Seq<u8>) -> Mask128 {
    p.masks[p.block_hdrs[b].mask_off + bucket_of(p, b, ranks, miss)]
}

/// Whether everything that block `b` points at is in the pack.
pub open spec fn block_readable(p: PackModel, b: int, ranks: Seq<u8>, miss: Seq<u8>) -> bool {
    let h = p.block_hdrs[b];
    &&& h.fid < ranks.len()
    &&& h.fid < miss.len()
    &&& miss[h.fid as int] == 0 ==> h.lut_off + ranks[h.fid as int] < p.luts.len()
    &&& h.mask_off + bucket_of(p, b, ranks, miss) < p.masks.len()
}

/// Whether everything that tree `t` points at is in the pack.
pub open spec fn tree_readable(p: PackModel, t: int, ranks: Seq<u8>, miss: Seq<u8>) -> bool {
    let h = p.tree_hdrs[t];
    &&& 0 <= t < p.tree_hdrs.len()
    &&& h.block_off + h.block_cnt <= p.block_hdrs.len()
    &&& h.leaf_val_off + h.leaf_cnt <= p.leaf_values.len()
    &&& forall|b: int|
        h.block_off <= b < h.block_off + h.block_cnt ==> #[trigger] block_readable(
            p,
            b,
            ranks,
            miss,
        )
}

/// The candidates of tree `t` after its first `k` blocks.
pub open spec fn candidates(
    p: PackModel,
    t: int,
    ranks: Seq<u8>,
    miss: Seq<u8>,
    k: nat,
) -> Mask128
    decreases k,
{
    let h = p.tree_hdrs[t];
    if k == 0 {
        Mask128 { lo: h.init_lo, hi: h.init_hi }
    } else {
        meet(
            candidates(p, t, ranks, miss, (k - 1) as nat),
            block_mask(p, h.block_off + k - 1, ranks, miss),
        )
    }
}

/// How many blocks of tree `t` are read when `k` have been: reading stops after the first block
/// that leaves a sole leaf.
pub open spec fn blocks_read(
    p: PackModel,
    t: int,
    ranks: Seq<u8>,
    miss: Seq<u8>,
    k: nat,
) -> nat
    decreases p.tree_hdrs[t].block_cnt - k,
{
    let cnt = p.tree_hdrs[t].block_cnt as nat;
    if k >= cnt {
        cnt
    } else if sole_leaf(candidates(p, t, ranks, miss, k + 1)) is Some {
        k + 1
    } else {
        blocks_read(p, t, ranks, miss, k + 1)
    }
}

/// One if a block of tree `t` left a sole leaf, else zero.
pub open spec fn settled(p: PackModel, t: int, ranks: Seq<u8>, miss: Seq<u8>) -> int {
    let k = blocks_read(p, t, ranks, miss, 0);
    if k > 0 && sole_leaf(candidates(p, t, ranks, miss, k)) is Some {
        1
    } else {
        0
    }
}

/// What one tree contributes: a leaf value, the blocks that were read, and whether a block settled
/// the leaf.
pub struct TreeOutcome {
    pub leaf: u32,
    pub evals: int,
    pub early: int,
}

/// What tree `t` contributes, or why it cannot.
pub open spec fn tree_outcome(
    p: PackModel,
    t: int,
    ranks: Seq<u8>,
    miss: Seq<u8>,
) -> Result<TreeOutcome, ScoreError> {
    let h = p.tree_hdrs[t];
    let k = blocks_read(p, t, ranks, miss, 0);
    match sole_leaf(candidates(p, t, ranks, miss, k)) {
        None => Err(ScoreError::Unresolved),
        Some(i) => if i >= h.leaf_cnt {
            Err(ScoreError::LeafOutside { leaf: i as usize, leaf_cnt: h.leaf_cnt })
        } else {
            Ok(
                TreeOutcome {
                    leaf: p.leaf_values[h.leaf_val_off + i],
                    evals: k as int,
                    early: settled(p, t, ranks, miss),
                },
            )
        },
    }
}

/// What a run over several trees gathered: the leaf values in order, and the two counts.
#[verifier::ext_equal]
pub struct Walk {
    pub leaves: Seq<u32>,
    pub evals: int,
    pub early: int,
}

impl Walk {
    /// Nothing gathered.
    pub open spec fn none() -> Walk {
        Walk { leaves: Seq::empty(), evals: 0, early: 0 }
    }

    /// This run, with one more tree.
    pub open spec fn push(self, o: TreeOutcome) -> Walk {
        Walk {
            leaves: self.leaves.push(o.leaf),
            evals: self.evals + o.evals,
            early: self.early + o.early,
        }
    }

    /// This run, then another.
    pub open spec fn join(self, next: Walk) -> Walk {
        Walk {
            leaves: self.leaves + next.leaves,
            evals: self.evals + next.evals,
            early: self.early + next.early,
        }
    }
}

/// What the trees of `trees` gather, in that order, or what the first tree that fails says.
pub open spec fn walk(
    p: PackModel,
    trees: Seq<int>,
    ranks: Seq<u8>,
    miss: Seq<u8>,
) -> Result<Walk, ScoreError>
    decreases trees.len(),
{
    if trees.len() == 0 {
        Ok(Walk::none())
    } else {
        match walk(p, trees.drop_last(), ranks, miss) {
            Err(e) => Err(e),
            Ok(w) => if trees.last() >= p.n_trees {
                Err(ScoreError::TreeOutside { tree: trees.last() as usize })
            } else {
                match tree_outcome(p, trees.last(), ranks, miss) {
                    Err(e) => Err(e),
                    Ok(o) => Ok(w.push(o)),
                }
            },
        }
    }
}

/// How many blocks trees have together.
pub open spec fn block_total(p: PackModel, trees: Seq<int>) -> int
    decreases trees.len(),
{
    if trees.len() == 0 {
        0
    } else {
        block_total(p, trees.drop_last()) + if 0 <= trees.last() < p.n_trees {
            p.tree_hdrs[trees.last()].block_cnt as int
        } else {
            0
        }
    }
}

/// More trees have no fewer blocks.
pub proof fn lemma_block_total_grows(p: PackModel, trees: Seq<int>, k: int)
    requires
        0 <= k <= trees.len(),
    ensures
        0 <= block_total(p, trees.take(k)) <= block_total(p, trees),
    decreases trees.len(),
{
    if k == trees.len() {
        assert(trees.take(k) =~= trees);
        if k > 0 {
            lemma_block_total_grows(p, trees.drop_last(), k - 1);
        }
    } else {
        lemma_block_total_grows(p, trees.drop_last(), k);
        assert(trees.drop_last().take(k) =~= trees.take(k));
    }
}

/// No more blocks are read than there are, and no more trees are settled than blocks are read.
pub proof fn lemma_walk_counts(p: PackModel, trees: Seq<int>, ranks: Seq<u8>, miss: Seq<u8>)
    requires
        forall|i: int| 0 <= i < trees.len() ==> 0 <= #[trigger] trees[i],
    ensures
        walk(p, trees, ranks, miss) matches Ok(w) ==> 0 <= w.early <= w.evals <= block_total(
            p,
            trees,
        ),
    decreases trees.len(),
{
    if trees.len() > 0 {
        lemma_walk_counts(p, trees.drop_last(), ranks, miss);
        assert(trees[trees.len() - 1] >= 0);
        lemma_blocks_read_range(p, trees.last(), ranks, miss, 0);
    }
}

/// The tree indices from `a` up to `b`.
pub open spec fn span(a: int, b: int) -> Seq<int> {
    Seq::new(
        if a < b {
            (b - a) as nat
        } else {
            0
        },
        |i: int| a + i,
    )
}

/// Running over one list of trees and then another is running over both in one go: scoring can be
/// suspended after any tree and taken up again there.
pub proof fn law_walk_continues(
    p: PackModel,
    x: Seq<int>,
    y: Seq<int>,
    ranks: Seq<u8>,
    miss: Seq<u8>,
)
    ensures
        walk(p, x + y, ranks, miss) == (match walk(p, x, ranks, miss) {
            Err(e) => Err::<Walk, ScoreError>(e),
            Ok(w) => match walk(p, y, ranks, miss) {
                Err(e) => Err(e),
                Ok(v) => Ok(w.join(v)),
            },
        }),
    decreases y.len(),
{
    if y.len() == 0 {
        assert(x + y =~= x);
        if let Ok(w) = walk(p, x, ranks, miss) {
            assert(w.join(Walk::none()) =~= w);
        }
    } else {
        assert((x + y).drop_last() =~= x + y.drop_last());
        law_walk_continues(p, x, y.drop_last(), ranks, miss);
        if let Ok(w) = walk(p, x, ranks, miss) {
            if let Ok(v) = walk(p, y.drop_last(), ranks, miss) {
                if y.last() < p.n_trees {
                    if let Ok(o) = tree_outcome(p, y.last(), ranks, miss) {
                        assert(w.join(v).push(o) =~= w.join(v.push(o)));
                    }
                }
            }
        }
    }
}

/// Reading further blocks after a sole leaf was found cannot change it: it stays, or no leaf is
/// left at all.
pub proof fn law_early_stop_is_safe(
    p: PackModel,
    t: int,
    ranks: Seq<u8>,
    miss: Seq<u8>,
    k: nat,
    more: nat,
)
    requires
        sole_leaf(candidates(p, t, ranks, miss, k)) is Some,
        k <= more,
    ensures
        candidates(p, t, ranks, miss, more) == candidates(p, t, ranks, miss, k) || candidates(
            p,
            t,
            ranks,
            miss,
            more,
        ) == (Mask128 { lo: 0, hi: 0 }),
    decreases more,
{
    if k < more {
        law_early_stop_is_safe(p, t, ranks, miss, k, (more - 1) as nat);
        let m = candidates(p, t, ranks, miss, (more - 1) as nat);
        let b = block_mask(p, p.tree_hdrs[t].block_off + more - 1, ranks, miss);
        if m == candidates(p, t, ranks, miss, k) {
            crate::leaf_set::law_meet_keeps_or_empties_singletons(m, b);
        } else {
            let x = b.lo;
            let y = b.hi;
            assert(0u64 & x == 0) by (bit_vector);
            assert(0u64 & y == 0) by (bit_vector);
        }
    }
}

/// Marks on features that no block of the tree names do not matter; in particular marking nothing
/// as missing is the same as having no marks.
pub proof fn law_unmarked_row_scores_like_a_row_without_marks(
    p: PackModel,
    t: int,
    ranks: Seq<u8>,
    miss: Seq<u8>,
)
    requires
        tree_readable(p, t, ranks, miss),
        forall|i: int| 0 <= i < miss.len() ==> #[trigger] miss[i] == 0,
    ensures
        tree_outcome(p, t, ranks, miss) == tree_outcome(p, t, ranks, none_missing()),
{
    lemma_unmarked_candidates(p, t, ranks, miss, p.tree_hdrs[t].block_cnt as nat);
    lemma_unmarked_blocks(p, t, ranks, miss, 0);
    lemma_blocks_read_range(p, t, ranks, miss, 0);
}

proof fn lemma_unmarked_candidates(
    p: PackModel,
    t: int,
    ranks: Seq<u8>,
    miss: Seq<u8>,
    k: nat,
)
    requires
        tree_readable(p, t, ranks, miss),
        forall|i: int| 0 <= i < miss.len() ==> #[trigger] miss[i] == 0,
        k <= p.tree_hdrs[t].block_cnt,
    ensures
        forall|j: nat|
            j <= k ==> candidates(p, t, ranks, miss, j) == #[trigger] candidates(
                p,
                t,
                ranks,
                none_missing(),
                j,
            ),
    decreases k,
{
    if k > 0 {
        lemma_unmarked_candidates(p, t, ranks, miss, (k - 1) as nat);
        let b = p.tree_hdrs[t].block_off + k - 1;
        assert(block_readable(p, b, ranks, miss));
        assert(candidates(p, t, ranks, miss, (k - 1) as nat) == candidates(
            p,
            t,
            ranks,
            none_missing(),
            (k - 1) as nat,
        ));
        assert forall|j: nat| j <= k implies candidates(p, t, ranks, miss, j)
            == #[trigger] candidates(p, t, ranks, none_missing(), j) by {
            if j == k {
                assert(block_mask(p, b, ranks, miss) == block_mask(p, b, ranks, none_missing()));
            }
        }
    }
}

proof fn lemma_unmarked_blocks(p: PackModel, t: int, ranks: Seq<u8>, miss: Seq<u8>, k: nat)
    requires
        tree_readable(p, t, ranks, miss),
        forall|i: int| 0 <= i < miss.len() ==> #[trigger] miss[i] == 0,
    ensures
        blocks_read(p, t, ranks, miss, k) == blocks_read(p, t, ranks, none_missing(), k),
    decreases p.tree_hdrs[t].block_cnt - k,
{
    if k < p.tree_hdrs[t].block_cnt {
        lemma_unmarked_candidates(p, t, ranks, miss, p.tree_hdrs[t].block_cnt as nat);
        assert(candidates(p, t, ranks, miss, k + 1) == candidates(
            p,
            t,
            ranks,
            none_missing(),
            k + 1,
        ));
        lemma_unmarked_blocks(p, t, ranks, miss, k + 1);
    }
}

/// No more blocks are read than the tree has.
pub proof fn lemma_blocks_read_range(
    p: PackModel,
    t: int,
    ranks: Seq<u8>,
    miss: Seq<u8>,
    k: nat,
)
    ensures
        blocks_read(p, t, ranks, miss, k) <= p.tree_hdrs[t].block_cnt,
        k < p.tree_hdrs[t].block_cnt ==> k < blocks_read(p, t, ranks, miss, k),
    decreases p.tree_hdrs[t].block_cnt - k,
{
    if k < p.tree_hdrs[t].block_cnt {
        lemma_blocks_read_range(p, t, ranks, miss, k + 1);
    }
}

/// The bucket of a block on the row at hand; without marks nothing is missing.
fn read_bucket(pack: &QsPack, b: usize, ranks: &[u8], missing: Option<&[u8]>) -> (r: usize)
    requires
        b < pack.block_hdrs@.len(),
        block_readable(pack@, b as int, ranks@, marks(missing)),
    ensures
        r == bucket_of(pack@, b as int, ranks@, marks(missing)),
{
    let fid: usize = pack.block_hdrs[b].fid as usize;
    if let Some(m) = missing {
        if m[fid] != 0 {
            return pack.block_hdrs[b].miss_bucket as usize;
        }
    }
    assert(pack.luts@.len() == pack.luts.len());
    pack.luts[pack.block_hdrs[b].lut_off as usize + ranks[fid] as usize] as usize
}

/// The marks of missing features; none where they are not kept.
pub open spec fn marks(missing: Option<&[u8]>) -> Seq<u8> {
    match missing {
        Some(m) => m@,
        None => none_missing(),
    }
}

/// Reads the blocks of a tree until one leaves a sole leaf: the candidates that are left, how many
/// blocks were read, and whether the last one settled the leaf.
pub(crate) fn run_blocks(pack: &QsPack, t: usize, ranks: &[u8], missing: Option<&[u8]>) -> (r: (
    Mask128,
    u64,
    u64,
))
    requires
        tree_readable(pack@, t as int, ranks@, marks(missing)),
    ensures
        ({
            let k = blocks_read(pack@, t as int, ranks@, marks(missing), 0);
            let m = candidates(pack@, t as int, ranks@, marks(missing), k);
            &&& r.0 == m
            &&& r.1 == k
            &&& r.1 <= MAX_TREE_BLOCKS
            &&& r.2 == settled(pack@, t as int, ranks@, marks(missing))
            &&& r.2 <= 1
        }),
{
    let ghost p = pack@;
    let ghost miss = marks(missing);
    let h: QsTreeHdr = pack.tree_hdrs[t];
    let cnt: usize = h.block_cnt as usize;
    let mut lo: u64 = h.init_lo;
    let mut hi: u64 = h.init_hi;
    let mut k: usize = 0;
    let mut early: u64 = 0;
    while k < cnt && early == 0
        invariant
            h == p.tree_hdrs[t as int],
            p == pack@,
            miss == marks(missing),
            cnt == h.block_cnt,
            tree_readable(p, t as int, ranks@, miss),
            k <= cnt,
            early <= 1,
            (Mask128 { lo, hi }) == candidates(p, t as int, ranks@, miss, k as nat),
            early == 1 ==> k > 0 && blocks_read(p, t as int, ranks@, miss, 0) == k && sole_leaf(
                candidates(p, t as int, ranks@, miss, k as nat),
            ) is Some,
            early == 0 ==> blocks_read(p, t as int, ranks@, miss, 0) == blocks_read(
                p,
                t as int,
                ranks@,
                miss,
                k as nat,
            ),
            early == 0 && k > 0 ==> sole_leaf(candidates(p, t as int, ranks@, miss, k as nat))
                is None,
        decreases cnt - k, 1 - early,
    {
        assert(pack.block_hdrs@.len() == pack.block_hdrs.len());
        assert(pack.masks@.len() == pack.masks.len());
        let b: usize = h.block_off as usize + k;
        assert(block_readable(p, b as int, ranks@, miss));
        let bucket: usize = read_bucket(pack, b, ranks, missing);
        let at: usize = pack.block_hdrs[b].mask_off as usize + bucket;
        lo = lo & pack.masks[at].lo;
        hi = hi & pack.masks[at].hi;
        k += 1;
        if resolved(lo, hi) {
            early = 1;
        }
    }
    (Mask128 { lo, hi }, k as u64, early)
}

/// What one tree contributes.
fn score_tree(pack: &QsPack, t: usize, ranks: &[u8], missing: Option<&[u8]>) -> (r: Result<
    (u32, u64, u64),
    ScoreError,
>)
    requires
        tree_readable(pack@, t as int, ranks@, marks(missing)),
    ensures
        match r {
            Ok((leaf, evals, early)) => tree_outcome(pack@, t as int, ranks@, marks(missing))
                == Ok::<TreeOutcome, ScoreError>(
                TreeOutcome { leaf, evals: evals as int, early: early as int },
            ) && evals <= MAX_TREE_BLOCKS && early <= 1,
            Err(e) => tree_outcome(pack@, t as int, ranks@, marks(missing)) == Err::<
                TreeOutcome,
                ScoreError,
            >(e),
        },
{
    let h: QsTreeHdr = pack.tree_hdrs[t];
    let (m, k, early) = run_blocks(pack, t, ranks, missing);
    match decode_leaf(m.lo, m.hi) {
        None => Err(ScoreError::Unresolved),
        Some(leaf) => {
            if leaf >= h.leaf_cnt as usize {
                return Err(ScoreError::LeafOutside { leaf, leaf_cnt: h.leaf_cnt });
            }
            assert(pack.leaf_values@.len() == pack.leaf_values.len());
            Ok((pack.leaf_values[h.leaf_val_off as usize + leaf], k, early))
        },
    }
}

/// What one tree contributes on a row whose missing features are marked.
pub fn score_tree_quantized(
    pack: &QsPack,
    tree_idx: usize,
    ranks: &[u8],
    missing: &[u8],
) -> (r: Result<(u32, u64, u64), ScoreError>)
    requires
        tree_readable(pack@, tree_idx as int, ranks@, missing@),
    ensures
        match r {
            Ok((leaf, evals, early)) => tree_outcome(pack@, tree_idx as int, ranks@, missing@)
                == Ok::<TreeOutcome, ScoreError>(
                TreeOutcome { leaf, evals: evals as int, early: early as int },
            ),
            Err(e) => tree_outcome(pack@, tree_idx as int, ranks@, missing@) == Err::<
                TreeOutcome,
                ScoreError,
            >(e),
        },
{
    score_tree(pack, tree_idx, ranks, Some(missing))
}

/// What one tree contributes on a row without missing features.
pub fn score_tree_quantized_nomiss(pack: &QsPack, tree_idx: usize, ranks: &[u8]) -> (r: Result<
    (u32, u64, u64),
    ScoreError,
>)
    requires
        tree_readable(pack@, tree_idx as int, ranks@, none_missing()),
    ensures
        match r {
            Ok((leaf, evals, early)) => tree_outcome(
                pack@,
                tree_idx as int,
                ranks@,
                none_missing(),
            ) == Ok::<TreeOutcome, ScoreError>(
                TreeOutcome { leaf, evals: evals as int, early: early as int },
            ),
            Err(e) => tree_outcome(pack@, tree_idx as int, ranks@, none_missing()) == Err::<
                TreeOutcome,
                ScoreError,
            >(e),
        },
{
    score_tree(pack, tree_idx, ranks, None)
}

/// What a run over several trees gathered.
#[derive(Debug)]
pub struct Walked {
    /// Leaf values, in the order in which they are to be added.
    pub leaves: Vec<u32>,
    pub block_evals: u64,
    pub resolved_early: u64,
}

impl View for Walked {
    type V = Walk;

    open spec fn view(&self) -> Walk {
        Walk {
            leaves: self.leaves@,
            evals: self.block_evals as int,
            early: self.resolved_early as int,
        }
    }
}

impl Walked {
    /// Nothing gathered yet, on top of given counts.
    pub fn start(block_evals: u64, resolved_early: u64) -> (w: Walked)
        ensures
            w@ == (Walk {
                leaves: Seq::empty(),
                evals: block_evals as int,
                early: resolved_early as int,
            }),
    {
        Walked { leaves: Vec::new(), block_evals, resolved_early }
    }

    /// Whether the counts have room for `n` more trees.
    pub open spec fn has_room(self, n: int) -> bool {
        &&& self.block_evals + MAX_TREE_BLOCKS * n <= u64::MAX
        &&& self.resolved_early + n <= u64::MAX
    }
}

/// The tree indices of a list, as numbers.
pub open spec fn indices(s: Seq<u32>) -> Seq<int> {
    Seq::new(s.len(), |i: int| s[i] as int)
}

/// Adds one tree to what was gathered.
fn walk_tree(
    pack: &QsPack,
    t: usize,
    ranks: &[u8],
    missing: Option<&[u8]>,
    w: &mut Walked,
) -> (r: Result<(), ScoreError>)
    requires
        t < pack@.n_trees,
        tree_readable(pack@, t as int, ranks@, marks(missing)),
        old(w).has_room(1),
    ensures
        match r {
            Ok(()) => tree_outcome(pack@, t as int, ranks@, marks(missing)) matches Ok(o)
                && final(w)@ == old(w)@.push(o) && o.evals <= MAX_TREE_BLOCKS && o.early <= 1,
            Err(e) => tree_outcome(pack@, t as int, ranks@, marks(missing)) == Err::<
                TreeOutcome,
                ScoreError,
            >(e) && final(w)@ == old(w)@,
        },
{
    match score_tree(pack, t, ranks, missing) {
        Ok((leaf, evals, early)) => {
            w.leaves.push(leaf);
            w.block_evals = w.block_evals + evals;
            w.resolved_early = w.resolved_early + early;
            Ok(())
        },
        Err(e) => Err(e),
    }
}

/// Adds the trees from `a` up to `b` to what was gathered.
pub(crate) fn walk_span(
    pack: &QsPack,
    a: usize,
    b: usize,
    ranks: &[u8],
    missing: Option<&[u8]>,
    w: &mut Walked,
) -> (r: Result<(), ScoreError>)
    requires
        b <= pack@.n_trees,
        forall|t: int|
            a <= t < b ==> #[trigger] tree_readable(pack@, t, ranks@, marks(missing)),
        a <= b ==> old(w).has_room(b - a),
    ensures
        match r {
            Ok(()) => walk(pack@, span(a as int, b as int), ranks@, marks(missing)) matches Ok(v)
                && final(w)@ == old(w)@.join(v) && (a <= b ==> v.evals <= MAX_TREE_BLOCKS * (b - a)
                && v.early <= b - a),
            Err(e) => walk(pack@, span(a as int, b as int), ranks@, marks(missing)) == Err::<
                Walk,
                ScoreError,
            >(e),
        },
{
    let ghost p = pack@;
    let ghost miss = marks(missing);
    let ghost before = w@;
    assert(before.join(Walk::none()) =~= before);
    assert(span(a as int, a as int) =~= Seq::empty());
    if a >= b {
        assert(span(a as int, b as int) =~= Seq::empty());
        return Ok(());
    }
    let mut t: usize = a;
    while t < b
        invariant
            a <= t <= b,
            b <= p.n_trees,
            p == pack@,
            miss == marks(missing),
            forall|k: int| a <= k < b ==> #[trigger] tree_readable(p, k, ranks@, miss),
            walk(p, span(a as int, t as int), ranks@, miss) matches Ok(v) && w@ == before.join(v)
                && v.evals <= MAX_TREE_BLOCKS * (t - a) && v.early <= t - a,
            before.evals + MAX_TREE_BLOCKS * (b - a) <= u64::MAX,
            before.early + (b - a) <= u64::MAX,
        decreases b - t,
    {
        let ghost done = span(a as int, t as int);
        let ghost next = span(a as int, t + 1);
        let ghost v = walk(p, done, ranks@, miss)->Ok_0;
        proof {
            assert(next.drop_last() =~= done);
            assert(next.last() == t);
            assert(tree_readable(p, t as int, ranks@, miss));
        }
        match walk_tree(pack, t, ranks, missing, w) {
            Ok(()) => {
                proof {
                    let o = tree_outcome(p, t as int, ranks@, miss)->Ok_0;
                    assert(before.join(v).push(o) =~= before.join(v.push(o)));
                }
            },
            Err(e) => {
                proof {
                    let rest = span(t + 1, b as int);
                    assert(span(a as int, b as int) =~= next + rest);
                    law_walk_continues(p, next, rest, ranks@, miss);
                }
                return Err(e);
            },
        }
        t += 1;
    }
    Ok(())
}

/// Adds the trees of a list to what was gathered; an index past the trees of the pack is an error.
fn walk_list(
    pack: &QsPack,
    trees: &[u32],
    ranks: &[u8],
    missing: Option<&[u8]>,
) -> (r: Result<Walked, ScoreError>)
    requires
        forall|i: int|
            0 <= i < trees@.len() && #[trigger] trees@[i] < pack@.n_trees ==> tree_readable(
                pack@,
                trees@[i] as int,
                ranks@,
                marks(missing),
            ),
        MAX_TREE_BLOCKS * trees@.len() <= u64::MAX,
    ensures
        match r {
            Ok(w) => walk(pack@, indices(trees@), ranks@, marks(missing)) == Ok::<Walk, ScoreError>(
                w@,
            ) && w.block_evals <= MAX_TREE_BLOCKS * trees@.len() && w.resolved_early
                <= trees@.len(),
            Err(e) => walk(pack@, indices(trees@), ranks@, marks(missing)) == Err::<
                Walk,
                ScoreError,
            >(e),
        },
{
    let ghost p = pack@;
    let ghost miss = marks(missing);
    let ghost all = indices(trees@);
    let n: usize = trees.len();
    let mut w: Walked = Walked::start(0, 0);
    assert(all.take(0) =~= Seq::empty());
    assert(w@ =~= Walk::none());
    let mut i: usize = 0;
    while i < n
        invariant
            i <= n,
            n == trees@.len(),
            all == indices(trees@),
            p == pack@,
            miss == marks(missing),
            forall|k: int|
                0 <= k < trees@.len() && #[trigger] trees@[k] < p.n_trees ==> tree_readable(
                    p,
                    trees@[k] as int,
                    ranks@,
                    miss,
                ),
            walk(p, all.take(i as int), ranks@, miss) == Ok::<Walk, ScoreError>(w@),
            w.block_evals <= MAX_TREE_BLOCKS * i,
            w.resolved_early <= i,
            MAX_TREE_BLOCKS * n <= u64::MAX,
        decreases n - i,
    {
        let ghost next = all.take(i + 1);
        let ghost rest = all.skip(i + 1);
        proof {
            assert(next.drop_last() =~= all.take(i as int));
            assert(next.last() == trees@[i as int]);
            assert(next + rest =~= all);
            law_walk_continues(p, next, rest, ranks@, miss);
        }
        let t: usize = trees[i] as usize;
        if t >= pack.n_trees {
            return Err(ScoreError::TreeOutside { tree: t });
        }
        match walk_tree(pack, t, ranks, missing, &mut w) {
            Ok(()) => {},
            Err(e) => {
                return Err(e);
            },
        }
        i += 1;
    }
    assert(all.take(n as int) =~= all);
    Ok(w)
}

/// The leaf values of the listed trees on a row whose missing features are marked.
pub fn score_tree_indices_from_quantized(
    pack: &QsPack,
    tree_indices: &[u32],
    ranks: &[u8],
    missing: &[u8],
) -> (r: Result<Walked, ScoreError>)
    requires
        forall|i: int|
            0 <= i < tree_indices@.len() && #[trigger] tree_indices@[i] < pack@.n_trees
                ==> tree_readable(pack@, tree_indices@[i] as int, ranks@, missing@),
        MAX_TREE_BLOCKS * tree_indices@.len() <= u64::MAX,
    ensures
        match r {
            Ok(w) => walk(pack@, indices(tree_indices@), ranks@, missing@) == Ok::<
                Walk,
                ScoreError,
            >(w@),
            Err(e) => walk(pack@, indices(tree_indices@), ranks@, missing@) == Err::<
                Walk,
                ScoreError,
            >(e),
        },
{
    walk_list(pack, tree_indices, ranks, Some(missing))
}

/// The leaf values of the listed trees on a row without missing features.
pub fn score_tree_indices_from_quantized_nomiss(
    pack: &QsPack,
    tree_indices: &[u32],
    ranks: &[u8],
) -> (r: Result<Walked, ScoreError>)
    requires
        forall|i: int|
            0 <= i < tree_indices@.len() && #[trigger] tree_indices@[i] < pack@.n_trees
                ==> tree_readable(pack@, tree_indices@[i] as int, ranks@, none_missing()),
        MAX_TREE_BLOCKS * tree_indices@.len() <= u64::MAX,
    ensures
        match r {
            Ok(w) => walk(pack@, indices(tree_indices@), ranks@, none_missing()) == Ok::<
                Walk,
                ScoreError,
            >(w@) && w.block_evals <= MAX_TREE_BLOCKS * tree_indices@.len() && w.resolved_early
                <= tree_indices@.len(),
            Err(e) => walk(pack@, indices(tree_indices@), ranks@, none_missing()) == Err::<
                Walk,
                ScoreError,
            >(e),
        },
{
    walk_list(pack, tree_indices, ranks, None)
}

} // verus!
