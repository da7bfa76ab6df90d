//! Scoring the first trees of an ensemble, with stops at checkpoints.
//!
//! At a checkpoint the caller is shown the leaf values gathered so far and says whether to stop.

use crate::qs_pack::{PackModel, QsPack};
use crate::qs_score::{
    law_walk_continues, marks, none_missing, span, tree_readable, walk, walk_span, ScoreError,
    Walk, Walked, MAX_TREE_BLOCKS,
};
use crate::quantize::{
    all_cuts_readable, marked, quantize_into, quantize_into_nomiss, ranked, ranked_nomiss,
};
use vstd::prelude::*;

verus! {

/// Counts and leaf values at every checkpoint of a row.
#[derive(Debug)]
pub struct QsPrefixRow {
    /// Leaf values of all trees up to the last checkpoint.
    pub leaves: Vec<u32>,
    pub checkpoint_block_evals: Vec<u64>,
    pub checkpoint_resolved_early_trees: Vec<u64>,
    pub resolved_early_trees: u64,
}

/// Where a row stopped.
#[derive(Debug)]
pub struct QsPrefixDecisionRow {
    /// Leaf values of the trees that were scored, in the order in which they are to be added.
    pub leaves: Vec<u32>,
    pub trees_used: usize,
    pub block_evals: u64,
    pub resolved_early_trees: u64,
}

/// What its trees gathered; contracts tell the number of trees apart.
impl View for QsPrefixDecisionRow {
    type V = Walk;

    open spec fn view(&self) -> Walk {
        Walk {
            leaves: self.leaves@,
            evals: self.block_evals as int,
            early: self.resolved_early_trees as int,
        }
    }
}

/// What is wrong with the checkpoints from `i` on, when the one before was `prev`.
pub open spec fn checkpoint_fault(cps: Seq<usize>, n: int, i: int, prev: int) -> Option<ScoreError>
    decreases cps.len() - i,
{
    if i >= cps.len() {
        None
    } else if cps[i] == 0 || cps[i] > n {
        Some(ScoreError::InvalidCheckpoint { checkpoint: cps[i] })
    } else if cps[i] <= prev {
        Some(ScoreError::CheckpointsNotIncreasing)
    } else {
        checkpoint_fault(cps, n, i + 1, cps[i] as int)
    }
}

/// What is wrong with a list of checkpoints over `n` trees: it has to hold at least one, each
/// between 1 and `n`, in rising order.
pub open spec fn checkpoints_error(cps: Seq<usize>, n: int) -> Option<ScoreError> {
    if cps.len() == 0 {
        Some(ScoreError::NoCheckpoints)
    } else {
        checkpoint_fault(cps, n, 0, 0)
    }
}

/// Whether checkpoints are in range and rising.
pub open spec fn checkpoints_rise(cps: Seq<usize>, n: int) -> bool {
    &&& forall|i: int| 0 <= i < cps.len() ==> 1 <= #[trigger] cps[i] <= n
    &&& forall|i: int, j: int| 0 <= i < j < cps.len() ==> #[trigger] cps[i] < #[trigger] cps[j]
}

proof fn lemma_no_fault(cps: Seq<usize>, n: int, i: int, prev: int)
    requires
        0 <= i <= cps.len(),
    ensures
        checkpoint_fault(cps, n, i, prev) is None <==> {
            &&& forall|k: int| i <= k < cps.len() ==> 1 <= #[trigger] cps[k] <= n && prev < cps[k]
            &&& forall|k: int, l: int|
                i <= k < l < cps.len() ==> #[trigger] cps[k] < #[trigger] cps[l]
        },
    decreases cps.len() - i,
{
    if i < cps.len() {
        lemma_no_fault(cps, n, i + 1, cps[i] as int);
    }
}

/// A list of checkpoints passes exactly when it is not empty and its members are in range and
/// rising.
pub proof fn law_checkpoints_pass_when_rising(cps: Seq<usize>, n: int)
    ensures
        checkpoints_error(cps, n) is None <==> cps.len() > 0 && checkpoints_rise(cps, n),
{
    lemma_no_fault(cps, n, 0, 0);
}

/// Finds what is wrong with a list of checkpoints.
pub fn check_checkpoints(checkpoints: &[usize], n_trees: usize) -> (r: Option<ScoreError>)
    ensures
        r == checkpoints_error(checkpoints@, n_trees as int),
{
    if checkpoints.len() == 0 {
        return Some(ScoreError::NoCheckpoints);
    }
    let mut prev: usize = 0;
    let mut i: usize = 0;
    while i < checkpoints.len()
        invariant
            i <= checkpoints@.len(),
            checkpoint_fault(checkpoints@, n_trees as int, 0, 0) == checkpoint_fault(
                checkpoints@,
                n_trees as int,
                i as int,
                prev as int,
            ),
        decreases checkpoints@.len() - i,
    {
        let cp: usize = checkpoints[i];
        if cp == 0 || cp > n_trees {
            return Some(ScoreError::InvalidCheckpoint { checkpoint: cp });
        }
        if cp <= prev {
            return Some(ScoreError::CheckpointsNotIncreasing);
        }
        prev = cp;
        i += 1;
    }
    None
}

/// The run over the trees from `start` up to checkpoint `i`.
pub open spec fn walk_to(
    p: PackModel,
    cps: Seq<usize>,
    start: int,
    ranks: Seq<u8>,
    miss: Seq<u8>,
    i: int,
) -> Result<Walk, ScoreError> {
    walk(p, span(start, cps[i] as int), ranks, miss)
}

/// Whether every tree from `start` up to `end` can be read.
pub open spec fn span_readable(
    p: PackModel,
    start: int,
    end: int,
    ranks: Seq<u8>,
    miss: Seq<u8>,
) -> bool {
    forall|t: int| start <= t < end ==> #[trigger] tree_readable(p, t, ranks, miss)
}

/// Whether counts that start at `evals` and `early` have room for `n` trees.
pub open spec fn counts_fit(evals: u64, early: u64, n: int) -> bool {
    &&& evals + MAX_TREE_BLOCKS * n <= u64::MAX
    &&& early + n <= u64::MAX
}

/// Counts that a run adds to.
pub open spec fn onto(evals: u64, early: u64, w: Walk) -> Walk {
    Walk { leaves: w.leaves, evals: evals + w.evals, early: early + w.early }
}

/// Whether `f`, shown checkpoint `cp` and what was gathered, gave this answer.
pub open spec fn asked<F: Fn(usize, &[u32], u64, u64) -> bool>(
    f: F,
    cp: usize,
    w: Walk,
    answer: bool,
) -> bool {
    exists|v: &[u32]| #[trigger]
        v@ == w.leaves && call_ensures(f, (cp, v, w.evals as u64, w.early as u64), answer)
}

/// Whether `f` can be asked about anything.
pub open spec fn can_be_asked<F: Fn(usize, &[u32], u64, u64) -> bool>(f: F) -> bool {
    forall|cp: usize, v: &[u32], a: u64, b: u64| #[trigger] call_requires(f, (cp, v, a, b))
}

/// Whether the run reached checkpoint `i` and `f` answered there with `answer`.
pub open spec fn answered<F: Fn(usize, &[u32], u64, u64) -> bool>(
    f: F,
    p: PackModel,
    cps: Seq<usize>,
    start: int,
    counts: (u64, u64),
    ranks: Seq<u8>,
    miss: Seq<u8>,
    i: int,
    answer: bool,
) -> bool {
    walk_to(p, cps, start, ranks, miss, i) matches Ok(w) && asked(
        f,
        cps[i],
        onto(counts.0, counts.1, w),
        answer,
    )
}

/// Whether `r` is what a run from `start` over the checkpoints gives: it stops at the first
/// checkpoint where `f` says so, or at the last one; a tree that fails before that ends it. A run
/// that starts at or past the first checkpoint never meets it.
pub open spec fn stops_right<F: Fn(usize, &[u32], u64, u64) -> bool>(
    f: F,
    p: PackModel,
    cps: Seq<usize>,
    start: int,
    counts: (u64, u64),
    ranks: Seq<u8>,
    miss: Seq<u8>,
    r: Result<QsPrefixDecisionRow, ScoreError>,
) -> bool {
    if start > p.n_trees {
        r == Err::<QsPrefixDecisionRow, ScoreError>(ScoreError::StartOutside { start: start as usize })
    } else if start >= cps[0] {
        match walk_to(p, cps, start, ranks, miss, cps.len() - 1) {
            Err(e) => r == Err::<QsPrefixDecisionRow, ScoreError>(e),
            Ok(_) => r == Err::<QsPrefixDecisionRow, ScoreError>(
                ScoreError::CheckpointNotReached { reached: 0 },
            ),
        }
    } else {
        exists|j: int|
            {
                &&& 0 <= j < cps.len()
                &&& forall|i: int|
                    0 <= i < j ==> #[trigger] answered(
                        f,
                        p,
                        cps,
                        start,
                        counts,
                        ranks,
                        miss,
                        i,
                        false,
                    )
                &&& match #[trigger] walk_to(p, cps, start, ranks, miss, j) {
                    Err(e) => r == Err::<QsPrefixDecisionRow, ScoreError>(e),
                    Ok(w) => r matches Ok(row) && row.trees_used == cps[j] && row@ == onto(
                        counts.0,
                        counts.1,
                        w,
                    ) && (answered(f, p, cps, start, counts, ranks, miss, j, true) || (j
                        == cps.len() - 1 && answered(
                        f,
                        p,
                        cps,
                        start,
                        counts,
                        ranks,
                        miss,
                        j,
                        false,
                    ))),
                }
            }
    }
}

/// Runs over ranked features from `start`, stopping at the checkpoints.
fn run_until<F: Fn(usize, &[u32], u64, u64) -> bool>(
    pack: &QsPack,
    ranks: &[u8],
    missing: Option<&[u8]>,
    checkpoints: &[usize],
    start: usize,
    init_block_evals: u64,
    init_resolved_early_trees: u64,
    on_checkpoint: &F,
) -> (r: Result<QsPrefixDecisionRow, ScoreError>)
    requires
        checkpoints@.len() > 0,
        checkpoints_rise(checkpoints@, pack@.n_trees),
        span_readable(pack@, start as int, checkpoints@.last() as int, ranks@, marks(missing)),
        counts_fit(init_block_evals, init_resolved_early_trees, pack@.n_trees),
        can_be_asked(*on_checkpoint),
    ensures
        stops_right(
            *on_checkpoint,
            pack@,
            checkpoints@,
            start as int,
            (init_block_evals, init_resolved_early_trees),
            ranks@,
            marks(missing),
            r,
        ),
{
    let ghost p = pack@;
    let ghost cps = checkpoints@;
    let ghost miss = marks(missing);
    let ghost counts = (init_block_evals, init_resolved_early_trees);
    let ghost f = *on_checkpoint;
    if start > pack.n_trees {
        return Err(ScoreError::StartOutside { start });
    }
    let n: usize = checkpoints.len();
    let mut w: Walked = Walked::start(init_block_evals, init_resolved_early_trees);
    let ghost base = w@;
    if start >= checkpoints[0] {
        let last: usize = checkpoints[n - 1];
        assert(start <= last ==> p.n_trees >= last - start);
        proof {
            if start <= last {
                lemma_room(init_block_evals, init_resolved_early_trees, p.n_trees, last - start);
            }
        }
        return match walk_span(pack, start, last, ranks, missing, &mut w) {
            Err(e) => Err(e),
            Ok(()) => Err(ScoreError::CheckpointNotReached { reached: 0 }),
        };
    }
    let mut cur: usize = start;
    let mut j: usize = 0;
    assert(span(start as int, start as int) =~= Seq::empty());
    assert(base.join(Walk::none()) =~= base);
    while j < n
        invariant
            j <= n,
            n == cps.len(),
            cps == checkpoints@,
            p == pack@,
            miss == marks(missing),
            f == *on_checkpoint,
            counts == (init_block_evals, init_resolved_early_trees),
            base == (Walk {
                leaves: Seq::empty(),
                evals: init_block_evals as int,
                early: init_resolved_early_trees as int,
            }),
            checkpoints_rise(cps, p.n_trees),
            span_readable(p, start as int, cps.last() as int, ranks@, miss),
            counts_fit(init_block_evals, init_resolved_early_trees, p.n_trees),
            can_be_asked(f),
            start < cps[0],
            cur == if j == 0 {
                start
            } else {
                cps[j - 1]
            },
            start <= cur,
            walk(p, span(start as int, cur as int), ranks@, miss) matches Ok(v) && w@ == base.join(
                v,
            ) && v.evals <= MAX_TREE_BLOCKS * (cur - start) && v.early <= cur - start,
            forall|i: int|
                0 <= i < j ==> #[trigger] answered(
                    f,
                    p,
                    cps,
                    start as int,
                    counts,
                    ranks@,
                    miss,
                    i,
                    false,
                ),
            j > 0 ==> j < n,
        decreases n - j,
    {
        let cp: usize = checkpoints[j];
        let ghost v = walk(p, span(start as int, cur as int), ranks@, miss)->Ok_0;
        proof {
            assert(cur <= cp);
            assert(cps[j as int] <= cps.last());
            assert(cp <= p.n_trees);
            lemma_room(init_block_evals, init_resolved_early_trees, p.n_trees, cp - start);
            assert(span(start as int, cur as int) + span(cur as int, cp as int) =~= span(
                start as int,
                cp as int,
            ));
            law_walk_continues(
                p,
                span(start as int, cur as int),
                span(cur as int, cp as int),
                ranks@,
                miss,
            );
            assert forall|t: int| cur <= t < cp implies #[trigger] tree_readable(
                p,
                t,
                ranks@,
                miss,
            ) by {}
            assert(MAX_TREE_BLOCKS * (cur - start) + MAX_TREE_BLOCKS * (cp - cur)
                == MAX_TREE_BLOCKS * (cp - start)) by (nonlinear_arith);
        }
        match walk_span(pack, cur, cp, ranks, missing, &mut w) {
            Err(e) => {
                assert(walk_to(p, cps, start as int, ranks@, miss, j as int) == Err::<
                    Walk,
                    ScoreError,
                >(e));
                return Err(e);
            },
            Ok(()) => {},
        }
        let ghost all = walk(p, span(start as int, cp as int), ranks@, miss)->Ok_0;
        assert(w@ =~= base.join(all));
        assert(w@ =~= onto(init_block_evals, init_resolved_early_trees, all));
        let shown: &[u32] = w.leaves.as_slice();
        let stop: bool = on_checkpoint(cp, shown, w.block_evals, w.resolved_early);
        proof {
            assert(shown@ == all.leaves);
            assert(walk_to(p, cps, start as int, ranks@, miss, j as int) == Ok::<Walk, ScoreError>(
                all,
            ));
            assert(asked(f, cp, onto(init_block_evals, init_resolved_early_trees, all), stop));
            assert(answered(f, p, cps, start as int, counts, ranks@, miss, j as int, stop));
        }
        if stop || j + 1 == n {
            return Ok(
                QsPrefixDecisionRow {
                    leaves: w.leaves,
                    trees_used: cp,
                    block_evals: w.block_evals,
                    resolved_early_trees: w.resolved_early,
                },
            );
        }
        cur = cp;
        j += 1;
    }
    Err(ScoreError::CheckpointNotReached { reached: 0 })
}

proof fn lemma_room(evals: u64, early: u64, n: int, k: int)
    requires
        counts_fit(evals, early, n),
        0 <= k <= n,
    ensures
        counts_fit(evals, early, k),
{
    assert(MAX_TREE_BLOCKS * k <= MAX_TREE_BLOCKS * n) by (nonlinear_arith)
        requires
            0 <= k <= n,
    ;
}

/// Ranks a row, marks its missing features, and runs from `start_tree_idx` with stops at the
/// checkpoints.
pub fn prefix_until_from<F: Fn(usize, &[u32], u64, u64) -> bool>(
    pack: &QsPack,
    feat: &[u32],
    ranks: &mut [u8],
    missing: &mut [u8],
    checkpoints: &[usize],
    start_tree_idx: usize,
    init_block_evals: u64,
    init_resolved_early_trees: u64,
    on_checkpoint: &F,
) -> (r: Result<QsPrefixDecisionRow, ScoreError>)
    requires
        all_cuts_readable(pack@),
        pack@.n_features <= feat@.len(),
        pack@.n_features <= old(ranks)@.len(),
        pack@.n_features <= old(missing)@.len(),
        checkpoints@.len() > 0 ==> span_readable(
            pack@,
            start_tree_idx as int,
            checkpoints@.last() as int,
            ranked(pack@, feat@, old(ranks)@),
            marked(pack@, feat@, old(missing)@),
        ),
        counts_fit(init_block_evals, init_resolved_early_trees, pack@.n_trees),
        can_be_asked(*on_checkpoint),
    ensures
        match checkpoints_error(checkpoints@, pack@.n_trees) {
            Some(e) => r == Err::<QsPrefixDecisionRow, ScoreError>(e) && final(ranks)@ == old(
                ranks,
            )@ && final(missing)@ == old(missing)@,
            None => {
                &&& final(ranks)@ == ranked(pack@, feat@, old(ranks)@)
                &&& final(missing)@ == marked(pack@, feat@, old(missing)@)
                &&& stops_right(
                    *on_checkpoint,
                    pack@,
                    checkpoints@,
                    start_tree_idx as int,
                    (init_block_evals, init_resolved_early_trees),
                    final(ranks)@,
                    final(missing)@,
                    r,
                )
            },
        },
{
    proof {
        law_checkpoints_pass_when_rising(checkpoints@, pack@.n_trees);
    }
    if let Some(e) = check_checkpoints(checkpoints, pack.n_trees) {
        return Err(e);
    }
    quantize_into(pack, feat, ranks, missing);
    run_until(
        pack,
        &*ranks,
        Some(&*missing),
        checkpoints,
        start_tree_idx,
        init_block_evals,
        init_resolved_early_trees,
        on_checkpoint,
    )
}

/// Ranks a row without missing features and runs from `start_tree_idx` with stops at the
/// checkpoints.
pub fn prefix_until_from_nomiss<F: Fn(usize, &[u32], u64, u64) -> bool>(
    pack: &QsPack,
    feat: &[u32],
    ranks: &mut [u8],
    checkpoints: &[usize],
    start_tree_idx: usize,
    init_block_evals: u64,
    init_resolved_early_trees: u64,
    on_checkpoint: &F,
) -> (r: Result<QsPrefixDecisionRow, ScoreError>)
    requires
        all_cuts_readable(pack@),
        pack@.n_features <= feat@.len(),
        pack@.n_features <= old(ranks)@.len(),
        checkpoints@.len() > 0 ==> span_readable(
            pack@,
            start_tree_idx as int,
            checkpoints@.last() as int,
            ranked_nomiss(pack@, feat@, old(ranks)@),
            none_missing(),
        ),
        counts_fit(init_block_evals, init_resolved_early_trees, pack@.n_trees),
        can_be_asked(*on_checkpoint),
    ensures
        match checkpoints_error(checkpoints@, pack@.n_trees) {
            Some(e) => r == Err::<QsPrefixDecisionRow, ScoreError>(e) && final(ranks)@ == old(
                ranks,
            )@,
            None => {
                &&& final(ranks)@ == ranked_nomiss(pack@, feat@, old(ranks)@)
                &&& stops_right(
                    *on_checkpoint,
                    pack@,
                    checkpoints@,
                    start_tree_idx as int,
                    (init_block_evals, init_resolved_early_trees),
                    final(ranks)@,
                    none_missing(),
                    r,
                )
            },
        },
{
    proof {
        law_checkpoints_pass_when_rising(checkpoints@, pack@.n_trees);
    }
    if let Some(e) = check_checkpoints(checkpoints, pack.n_trees) {
        return Err(e);
    }
    quantize_into_nomiss(pack, feat, ranks);
    run_until(
        pack,
        &*ranks,
        None,
        checkpoints,
        start_tree_idx,
        init_block_evals,
        init_resolved_early_trees,
        on_checkpoint,
    )
}

/// Runs over a row that is already ranked and has no missing features.
pub fn prefix_until_from_prequantized_nomiss<F: Fn(usize, &[u32], u64, u64) -> bool>(
    pack: &QsPack,
    ranks: &[u8],
    checkpoints: &[usize],
    start_tree_idx: usize,
    init_block_evals: u64,
    init_resolved_early_trees: u64,
    on_checkpoint: &F,
) -> (r: Result<QsPrefixDecisionRow, ScoreError>)
    requires
        checkpoints@.len() > 0 ==> span_readable(
            pack@,
            start_tree_idx as int,
            checkpoints@.last() as int,
            ranks@,
            none_missing(),
        ),
        counts_fit(init_block_evals, init_resolved_early_trees, pack@.n_trees),
        can_be_asked(*on_checkpoint),
    ensures
        match checkpoints_error(checkpoints@, pack@.n_trees) {
            Some(e) => r == Err::<QsPrefixDecisionRow, ScoreError>(e),
            None => stops_right(
                *on_checkpoint,
                pack@,
                checkpoints@,
                start_tree_idx as int,
                (init_block_evals, init_resolved_early_trees),
                ranks@,
                none_missing(),
                r,
            ),
        },
{
    proof {
        law_checkpoints_pass_when_rising(checkpoints@, pack@.n_trees);
    }
    if let Some(e) = check_checkpoints(checkpoints, pack.n_trees) {
        return Err(e);
    }
    run_until(
        pack,
        ranks,
        None,
        checkpoints,
        start_tree_idx,
        init_block_evals,
        init_resolved_early_trees,
        on_checkpoint,
    )
}

/// Runs over a row from its first tree, with stops at the checkpoints.
pub fn prefix_until<F: Fn(usize, &[u32], u64, u64) -> bool>(
    pack: &QsPack,
    feat: &[u32],
    ranks: &mut [u8],
    missing: &mut [u8],
    checkpoints: &[usize],
    on_checkpoint: &F,
) -> (r: Result<QsPrefixDecisionRow, ScoreError>)
    requires
        all_cuts_readable(pack@),
        pack@.n_features <= feat@.len(),
        pack@.n_features <= old(ranks)@.len(),
        pack@.n_features <= old(missing)@.len(),
        checkpoints@.len() > 0 ==> span_readable(
            pack@,
            0,
            checkpoints@.last() as int,
            ranked(pack@, feat@, old(ranks)@),
            marked(pack@, feat@, old(missing)@),
        ),
        counts_fit(0, 0, pack@.n_trees),
        can_be_asked(*on_checkpoint),
    ensures
        match checkpoints_error(checkpoints@, pack@.n_trees) {
            Some(e) => r == Err::<QsPrefixDecisionRow, ScoreError>(e) && final(ranks)@ == old(
                ranks,
            )@ && final(missing)@ == old(missing)@,
            None => {
                &&& final(ranks)@ == ranked(pack@, feat@, old(ranks)@)
                &&& final(missing)@ == marked(pack@, feat@, old(missing)@)
                &&& stops_right(
                    *on_checkpoint,
                    pack@,
                    checkpoints@,
                    0,
                    (0, 0),
                    final(ranks)@,
                    final(missing)@,
                    r,
                )
            },
        },
{
    prefix_until_from(pack, feat, ranks, missing, checkpoints, 0, 0, 0, on_checkpoint)
}

} // verus!
