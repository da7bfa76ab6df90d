//! Whole rows against a packed ensemble: all checkpoints, all trees, bounds on the score, batches.

use crate::leaf_set::{has_leaf, law_sole_leaf_is_the_one_member, sole_leaf};
use crate::qs_pack::{Mask128, PackModel, QsPack};
use crate::qs_prefix::{
    check_checkpoints, checkpoints_error, counts_fit, law_checkpoints_pass_when_rising, onto,
    span_readable, walk_to, QsPrefixDecisionRow, QsPrefixRow,
};
use crate::qs_score::{
    blocks_read, candidates, law_walk_continues, none_missing, run_blocks, settled, span,
    tree_outcome, tree_readable, walk, walk_span, ScoreError, Walk, Walked, MAX_TREE_BLOCKS,
};
use crate::quantize::{all_cuts_readable, marked, quantize_into, ranked};
use crate::single::{at_most, is_nan, lt, nan, INFINITY, NEG_INFINITY};
use vstd::prelude::*;

verus! {

/// Work done on a batch.
#[derive(Clone, Copy, Debug, PartialEq, Eq, Structural)]
pub struct QsAgg {
    pub total_block_evals: u64,
    pub resolved_early_trees: u64,
}

impl QsAgg {
    /// No work.
    pub fn zero() -> (r: QsAgg)
        ensures
            r.total_block_evals == 0,
            r.resolved_early_trees == 0,
    {
        QsAgg { total_block_evals: 0, resolved_early_trees: 0 }
    }

    /// The work of two parts of a batch.
    pub fn merge(a: QsAgg, b: QsAgg) -> (r: QsAgg)
        requires
            a.total_block_evals + b.total_block_evals <= u64::MAX,
            a.resolved_early_trees + b.resolved_early_trees <= u64::MAX,
        ensures
            r.total_block_evals == a.total_block_evals + b.total_block_evals,
            r.resolved_early_trees == a.resolved_early_trees + b.resolved_early_trees,
    {
        QsAgg {
            total_block_evals: a.total_block_evals + b.total_block_evals,
            resolved_early_trees: a.resolved_early_trees + b.resolved_early_trees,
        }
    }
}

/// Whether `row` holds what the run had gathered at every checkpoint.
pub open spec fn checkpoints_right(
    p: PackModel,
    cps: Seq<usize>,
    start: int,
    counts: (u64, u64),
    ranks: Seq<u8>,
    miss: Seq<u8>,
    row: QsPrefixRow,
) -> bool {
    let all = walk_to(p, cps, start, ranks, miss, cps.len() - 1);
    &&& all matches Ok(w) && row.leaves@ == w.leaves && row.resolved_early_trees == counts.1
        + w.early
    &&& row.checkpoint_block_evals@.len() == cps.len()
    &&& row.checkpoint_resolved_early_trees@.len() == cps.len()
    &&& forall|i: int|
        0 <= i < cps.len() ==> (#[trigger] walk_to(p, cps, start, ranks, miss, i) matches Ok(w)
            && row.checkpoint_block_evals@[i] == counts.0 + w.evals
            && row.checkpoint_resolved_early_trees@[i] == counts.1 + w.early)
}

/// Ranks a row, marks its missing features, and runs from `start_tree_idx` through all
/// checkpoints.
pub fn prefix_checkpoints_row_from(
    pack: &QsPack,
    feat: &[u32],
    ranks: &mut [u8],
    missing: &mut [u8],
    checkpoints: &[usize],
    start_tree_idx: usize,
    init_block_evals: u64,
    init_resolved_early_trees: u64,
) -> (r: Result<QsPrefixRow, ScoreError>)
    requires
        all_cuts_readable(pack@),
        pack@.n_features <= feat@.len(),
        pack@.n_features <= old(ranks)@.len(),
        pack@.n_features <= old(missing)@.len(),
        checkpoints@.len() > 0 ==> span_readable(
            pack@,
            start_tree_idx as int,
            checkpoints@.last() as int,
            ranked(pack@, feat@, old(ranks)@),
            marked(pack@, feat@, old(missing)@),
        ),
        counts_fit(init_block_evals, init_resolved_early_trees, pack@.n_trees),
    ensures
        match checkpoints_error(checkpoints@, pack@.n_trees) {
            Some(e) => r == Err::<QsPrefixRow, ScoreError>(e) && final(ranks)@ == old(ranks)@
                && final(missing)@ == old(missing)@,
            None => {
                let start = start_tree_idx as int;
                let last = checkpoints@.len() - 1;
                &&& final(ranks)@ == ranked(pack@, feat@, old(ranks)@)
                &&& final(missing)@ == marked(pack@, feat@, old(missing)@)
                &&& if start > pack@.n_trees {
                    r == Err::<QsPrefixRow, ScoreError>(
                        ScoreError::StartOutside { start: start_tree_idx },
                    )
                } else {
                    match walk_to(
                        pack@,
                        checkpoints@,
                        start,
                        final(ranks)@,
                        final(missing)@,
                        last,
                    ) {
                        Err(e) => r == Err::<QsPrefixRow, ScoreError>(e),
                        Ok(_) => if start >= checkpoints@[0] {
                            r == Err::<QsPrefixRow, ScoreError>(
                                ScoreError::CheckpointNotReached { reached: 0 },
                            )
                        } else {
                            r matches Ok(row) && checkpoints_right(
                                pack@,
                                checkpoints@,
                                start,
                                (init_block_evals, init_resolved_early_trees),
                                final(ranks)@,
                                final(missing)@,
                                row,
                            )
                        },
                    }
                }
            },
        },
{
    proof {
        law_checkpoints_pass_when_rising(checkpoints@, pack@.n_trees);
    }
    if let Some(e) = check_checkpoints(checkpoints, pack.n_trees) {
        return Err(e);
    }
    quantize_into(pack, feat, ranks, missing);
    let ghost p = pack@;
    let ghost cps = checkpoints@;
    let ghost rk = ranks@;
    let ghost ms = missing@;
    let start: usize = start_tree_idx;
    if start > pack.n_trees {
        return Err(ScoreError::StartOutside { start });
    }
    let n: usize = checkpoints.len();
    let mut w: Walked = Walked::start(init_block_evals, init_resolved_early_trees);
    let ghost base = w@;
    if start >= checkpoints[0] {
        let last: usize = checkpoints[n - 1];
        proof {
            if start <= last {
                lemma_room(init_block_evals, init_resolved_early_trees, p.n_trees, last - start);
            }
        }
        return match walk_span(pack, start, last, &*ranks, Some(&*missing), &mut w) {
            Err(e) => Err(e),
            Ok(()) => Err(ScoreError::CheckpointNotReached { reached: 0 }),
        };
    }
    let mut evals: Vec<u64> = Vec::new();
    let mut early: Vec<u64> = Vec::new();
    let mut cur: usize = start;
    let mut j: usize = 0;
    assert(span(start as int, start as int) =~= Seq::empty());
    assert(base.join(Walk::none()) =~= base);
    while j < n
        invariant
            j <= n,
            n == cps.len(),
            cps == checkpoints@,
            p == pack@,
            rk == ranks@,
            ms == missing@,
            rk == ranked(pack@, feat@, old(ranks)@),
            ms == marked(pack@, feat@, old(missing)@),
            checkpoints_error(cps, p.n_trees) is None,
            start == start_tree_idx,
            start <= p.n_trees,
            base == (Walk {
                leaves: Seq::empty(),
                evals: init_block_evals as int,
                early: init_resolved_early_trees as int,
            }),
            crate::qs_prefix::checkpoints_rise(cps, p.n_trees),
            span_readable(p, start as int, cps.last() as int, rk, ms),
            counts_fit(init_block_evals, init_resolved_early_trees, p.n_trees),
            start < cps[0],
            cur == if j == 0 {
                start
            } else {
                cps[j - 1]
            },
            start <= cur,
            walk(p, span(start as int, cur as int), rk, ms) matches Ok(v) && w@ == base.join(v)
                && v.evals <= MAX_TREE_BLOCKS * (cur - start) && v.early <= cur - start,
            evals@.len() == j,
            early@.len() == j,
            forall|i: int|
                0 <= i < j ==> (#[trigger] walk_to(p, cps, start as int, rk, ms, i) matches Ok(v)
                    && evals@[i] == init_block_evals + v.evals && early@[i]
                    == init_resolved_early_trees + v.early),
        decreases n - j,
    {
        let cp: usize = checkpoints[j];
        proof {
            assert(cur <= cp);
            assert(cps[j as int] <= cps.last());
            lemma_room(init_block_evals, init_resolved_early_trees, p.n_trees, cp - start);
            assert(span(start as int, cur as int) + span(cur as int, cp as int) =~= span(
                start as int,
                cp as int,
            ));
            law_walk_continues(
                p,
                span(start as int, cur as int),
                span(cur as int, cp as int),
                rk,
                ms,
            );
            assert(MAX_TREE_BLOCKS * (cur - start) + MAX_TREE_BLOCKS * (cp - cur)
                == MAX_TREE_BLOCKS * (cp - start)) by (nonlinear_arith);
        }
        match walk_span(pack, cur, cp, &*ranks, Some(&*missing), &mut w) {
            Err(e) => {
                proof {
                    let last = cps.last() as int;
                    assert(span(start as int, cp as int) + span(cp as int, last) =~= span(
                        start as int,
                        last,
                    ));
                    law_walk_continues(p, span(start as int, cp as int), span(cp as int, last), rk, ms);
                }
                return Err(e);
            },
            Ok(()) => {},
        }
        let ghost all = walk(p, span(start as int, cp as int), rk, ms)->Ok_0;
        assert(w@ =~= base.join(all));
        evals.push(w.block_evals);
        early.push(w.resolved_early);
        cur = cp;
        j += 1;
        assert(walk_to(p, cps, start as int, rk, ms, j - 1) == Ok::<Walk, ScoreError>(all));
    }
    let ghost whole = walk_to(p, cps, start as int, rk, ms, n - 1)->Ok_0;
    assert(base.join(whole).leaves =~= whole.leaves);
    Ok(
        QsPrefixRow {
            leaves: w.leaves,
            checkpoint_block_evals: evals,
            checkpoint_resolved_early_trees: early,
            resolved_early_trees: w.resolved_early,
        },
    )
}

proof fn lemma_room(evals: u64, early: u64, n: int, k: int)
    requires
        counts_fit(evals, early, n),
        0 <= k <= n,
    ensures
        counts_fit(evals, early, k),
{
    assert(MAX_TREE_BLOCKS * k <= MAX_TREE_BLOCKS * n) by (nonlinear_arith)
        requires
            0 <= k <= n,
    ;
}

/// Ranks a row, marks its missing features, and runs from its first tree through all checkpoints.
pub fn prefix_checkpoints_row(
    pack: &QsPack,
    feat: &[u32],
    ranks: &mut [u8],
    missing: &mut [u8],
    checkpoints: &[usize],
) -> (r: Result<QsPrefixRow, ScoreError>)
    requires
        all_cuts_readable(pack@),
        pack@.n_features <= feat@.len(),
        pack@.n_features <= old(ranks)@.len(),
        pack@.n_features <= old(missing)@.len(),
        checkpoints@.len() > 0 ==> span_readable(
            pack@,
            0,
            checkpoints@.last() as int,
            ranked(pack@, feat@, old(ranks)@),
            marked(pack@, feat@, old(missing)@),
        ),
        counts_fit(0, 0, pack@.n_trees),
    ensures
        match checkpoints_error(checkpoints@, pack@.n_trees) {
            Some(e) => r == Err::<QsPrefixRow, ScoreError>(e) && final(ranks)@ == old(ranks)@
                && final(missing)@ == old(missing)@,
            None => {
                &&& final(ranks)@ == ranked(pack@, feat@, old(ranks)@)
                &&& final(missing)@ == marked(pack@, feat@, old(missing)@)
                &&& match walk_to(
                    pack@,
                    checkpoints@,
                    0,
                    final(ranks)@,
                    final(missing)@,
                    checkpoints@.len() - 1,
                ) {
                    Err(e) => r == Err::<QsPrefixRow, ScoreError>(e),
                    Ok(_) => r matches Ok(row) && checkpoints_right(
                        pack@,
                        checkpoints@,
                        0,
                        (0, 0),
                        final(ranks)@,
                        final(missing)@,
                        row,
                    ),
                }
            },
        },
{
    proof {
        law_checkpoints_pass_when_rising(checkpoints@, pack@.n_trees);
    }
    prefix_checkpoints_row_from(pack, feat, ranks, missing, checkpoints, 0, 0, 0)
}

/// All trees of the pack on a row that is already ranked and has no missing features.
pub fn score_all_trees_prequantized_nomiss(
    pack: &QsPack,
    ranks: &[u8],
    init_block_evals: u64,
    init_resolved_early_trees: u64,
) -> (r: Result<QsPrefixDecisionRow, ScoreError>)
    requires
        span_readable(pack@, 0, pack@.n_trees, ranks@, none_missing()),
        counts_fit(init_block_evals, init_resolved_early_trees, pack@.n_trees),
    ensures
        match walk(pack@, span(0, pack@.n_trees), ranks@, none_missing()) {
            Err(e) => r == Err::<QsPrefixDecisionRow, ScoreError>(e),
            Ok(w) => r matches Ok(row) && row.trees_used == pack@.n_trees && row@ == onto(
                init_block_evals,
                init_resolved_early_trees,
                w,
            ),
        },
{
    let mut w: Walked = Walked::start(init_block_evals, init_resolved_early_trees);
    let ghost base = w@;
    match walk_span(pack, 0, pack.n_trees, ranks, None, &mut w) {
        Err(e) => Err(e),
        Ok(()) => {
            let ghost v = walk(pack@, span(0, pack@.n_trees), ranks@, none_missing())->Ok_0;
            assert(base.join(v) =~= onto(init_block_evals, init_resolved_early_trees, v));
            Ok(
                QsPrefixDecisionRow {
                    leaves: w.leaves,
                    trees_used: pack.n_trees,
                    block_evals: w.block_evals,
                    resolved_early_trees: w.resolved_early,
                },
            )
        },
    }
}

/// The trees that row scoring walks.
pub open spec fn row_trees(p: PackModel) -> Seq<int> {
    if p.row_headers {
        span(0, p.n_trees)
    } else {
        Seq::empty()
    }
}

/// The leaf values of a row, with its missing features taken into account.
pub fn score_row(pack: &QsPack, feat: &[u32], ranks: &mut [u8], missing: &mut [u8]) -> (r: Result<
    Walked,
    ScoreError,
>)
    requires
        row_scorable(pack@, feat@, old(ranks)@, old(missing)@),
    ensures
        final(ranks)@ == ranked(pack@, feat@, old(ranks)@),
        final(missing)@ == marked(pack@, feat@, old(missing)@),
        match walk(pack@, row_trees(pack@), final(ranks)@, final(missing)@) {
            Err(e) => r == Err::<Walked, ScoreError>(e),
            Ok(w) => r matches Ok(x) && x@ == w && x.block_evals <= MAX_TREE_BLOCKS * pack@.n_trees
                && x.resolved_early <= pack@.n_trees,
        },
{
    quantize_into(pack, feat, ranks, missing);
    let mut w: Walked = Walked::start(0, 0);
    assert(w@ =~= Walk::none());
    if pack.row_headers {
        match walk_span(pack, 0, pack.n_trees, &*ranks, Some(&*missing), &mut w) {
            Err(e) => {
                return Err(e);
            },
            Ok(()) => {
                let ghost v = walk(pack@, span(0, pack@.n_trees), ranks@, missing@)->Ok_0;
                assert(Walk::none().join(v) =~= v);
            },
        }
    }
    Ok(w)
}

/// Whether a row can be ranked and its trees be read.
pub open spec fn row_scorable(
    p: PackModel,
    feat: Seq<u32>,
    ranks: Seq<u8>,
    missing: Seq<u8>,
) -> bool {
    &&& all_cuts_readable(p)
    &&& 0 <= p.n_features <= feat.len()
    &&& p.n_features <= ranks.len()
    &&& p.n_features <= missing.len()
    &&& p.row_headers ==> span_readable(
        p,
        0,
        p.n_trees,
        ranked(p, feat, ranks),
        marked(p, feat, missing),
    )
    &&& counts_fit(0, 0, p.n_trees)
}

/// Whether `lower` and `upper` are the least and the greatest of the candidate values: infinite
/// with the wrong sign where no candidate is a number.
pub open spec fn bounds_right(m: Mask128, values: Seq<u32>, lower: u32, upper: u32) -> bool {
    &&& !nan(lower)
    &&& !nan(upper)
    &&& lower == INFINITY || exists|i: int|
        0 <= i < values.len() && has_leaf(m, i) && #[trigger] values[i] == lower
    &&& upper == NEG_INFINITY || exists|i: int|
        0 <= i < values.len() && has_leaf(m, i) && #[trigger] values[i] == upper
    &&& forall|i: int|
        0 <= i < values.len() && has_leaf(m, i) && !nan(#[trigger] values[i]) ==> at_most(
            lower,
            values[i],
        ) && at_most(values[i], upper)
}

/// The lowest candidate from `i` on that is not among the first `n` leaves.
pub open spec fn stray_leaf(m: Mask128, n: int, i: int) -> Option<int>
    decreases 128 - i,
{
    if i >= 128 {
        None
    } else if has_leaf(m, i) && i >= n {
        Some(i)
    } else {
        stray_leaf(m, n, i + 1)
    }
}

/// Whether the set has a member.
pub open spec fn has_any(m: Mask128) -> bool {
    exists|i: int| 0 <= i < 128 && #[trigger] has_leaf(m, i)
}

/// Whether leaf `i` is in the set.
fn member(m: Mask128, i: usize) -> (r: bool)
    requires
        i < 128,
    ensures
        r == has_leaf(m, i as int),
{
    if i < 64 {
        (m.lo >> (i as u64)) & 1 == 1
    } else {
        (m.hi >> ((i - 64) as u64)) & 1 == 1
    }
}

/// What bounding the candidates of tree `t` fails with: a candidate past the tree's leaves, or no
/// candidate.
pub open spec fn interval_fault(
    p: PackModel,
    t: int,
    ranks: Seq<u8>,
    miss: Seq<u8>,
) -> Option<ScoreError> {
    let h = p.tree_hdrs[t];
    let m = candidates(p, t, ranks, miss, blocks_read(p, t, ranks, miss, 0));
    match stray_leaf(m, h.leaf_cnt as int, 0) {
        Some(i) => Some(ScoreError::LeafOutside { leaf: i as usize, leaf_cnt: h.leaf_cnt }),
        None => if has_any(m) {
            None
        } else {
            Some(ScoreError::EmptySet)
        },
    }
}

/// The leaf values of tree `t`.
pub open spec fn tree_values(p: PackModel, t: int) -> Seq<u32> {
    let h = p.tree_hdrs[t];
    p.leaf_values.subrange(h.leaf_val_off as int, h.leaf_val_off + h.leaf_cnt)
}

/// The least and the greatest value among the candidate leaves.
pub fn mask_bounds(m: Mask128, values: &[u32], leaf_cnt: u16) -> (r: Result<
    (u32, u32),
    ScoreError,
>)
    requires
        values@.len() == leaf_cnt,
    ensures
        match stray_leaf(m, leaf_cnt as int, 0) {
            Some(i) => r == Err::<(u32, u32), ScoreError>(
                ScoreError::LeafOutside { leaf: i as usize, leaf_cnt },
            ),
            None => if has_any(m) {
                r matches Ok((lower, upper)) && bounds_right(m, values@, lower, upper)
            } else {
                r == Err::<(u32, u32), ScoreError>(ScoreError::EmptySet)
            },
        },
{
    let mut lower: u32 = INFINITY;
    let mut upper: u32 = NEG_INFINITY;
    let mut found: bool = false;
    let mut i: usize = 0;
    while i < 128
        invariant
            i <= 128,
            values@.len() == leaf_cnt,
            stray_leaf(m, leaf_cnt as int, 0) == stray_leaf(m, leaf_cnt as int, i as int),
            !nan(lower),
            !nan(upper),
            found == exists|k: int| 0 <= k < i && #[trigger] has_leaf(m, k),
            forall|k: int| 0 <= k < i && #[trigger] has_leaf(m, k) ==> k < values@.len(),
            lower == INFINITY || exists|k: int|
                0 <= k < values@.len() && has_leaf(m, k) && #[trigger] values@[k] == lower,
            upper == NEG_INFINITY || exists|k: int|
                0 <= k < values@.len() && has_leaf(m, k) && #[trigger] values@[k] == upper,
            forall|k: int|
                0 <= k < values@.len() && k < i && has_leaf(m, k) && !nan(#[trigger] values@[k])
                    ==> at_most(lower, values@[k]) && at_most(values@[k], upper),
        decreases 128 - i,
    {
        if member(m, i) {
            assert(has_leaf(m, i as int));
            if i >= leaf_cnt as usize {
                return Err(ScoreError::LeafOutside { leaf: i, leaf_cnt });
            }
            found = true;
            let v: u32 = values[i];
            if !is_nan(v) {
                if lt(v, lower) {
                    lower = v;
                }
                if lt(upper, v) {
                    upper = v;
                }
            }
        }
        i += 1;
    }
    if !found {
        return Err(ScoreError::EmptySet);
    }
    proof {
        let k = choose|k: int| 0 <= k < i && #[trigger] has_leaf(m, k);
        assert(has_leaf(m, k));
    }
    Ok((lower, upper))
}

/// Bounds on a row's score: the score lies between the base score plus all `lower` values and the
/// base score plus all `upper` values.
#[derive(Debug)]
pub struct QsIntervalRow {
    pub lower: Vec<u32>,
    pub upper: Vec<u32>,
    pub block_evals: u64,
    pub resolved_early_trees: u64,
}

/// How many blocks the first `n` trees read.
pub open spec fn total_blocks(p: PackModel, n: nat, ranks: Seq<u8>, miss: Seq<u8>) -> int
    decreases n,
{
    if n == 0 {
        0
    } else {
        total_blocks(p, (n - 1) as nat, ranks, miss) + blocks_read(p, n - 1, ranks, miss, 0)
    }
}

/// How many of the first `n` trees a block settles.
pub open spec fn total_settled(p: PackModel, n: nat, ranks: Seq<u8>, miss: Seq<u8>) -> int
    decreases n,
{
    if n == 0 {
        0
    } else {
        total_settled(p, (n - 1) as nat, ranks, miss) + settled(p, n - 1, ranks, miss)
    }
}

/// Bounds the score of a row by the candidates that the blocks of each tree leave.
pub fn interval_row(
    pack: &QsPack,
    feat: &[u32],
    ranks: &mut [u8],
    missing: &mut [u8],
) -> (r: Result<QsIntervalRow, ScoreError>)
    requires
        row_scorable(pack@, feat@, old(ranks)@, old(missing)@),
    ensures
        final(ranks)@ == ranked(pack@, feat@, old(ranks)@),
        final(missing)@ == marked(pack@, feat@, old(missing)@),
        ({
            let n = row_trees(pack@).len();
            match r {
                Ok(row) => {
                    &&& row.lower@.len() == n
                    &&& row.upper@.len() == n
                    &&& row.block_evals == total_blocks(pack@, n, final(ranks)@, final(missing)@)
                    &&& row.resolved_early_trees == total_settled(
                        pack@,
                        n,
                        final(ranks)@,
                        final(missing)@,
                    )
                    &&& forall|t: int|
                        0 <= t < n ==> #[trigger] interval_fault(
                            pack@,
                            t,
                            final(ranks)@,
                            final(missing)@,
                        ) is None && bounds_right(
                            candidates(
                                pack@,
                                t,
                                final(ranks)@,
                                final(missing)@,
                                blocks_read(pack@, t, final(ranks)@, final(missing)@, 0),
                            ),
                            tree_values(pack@, t),
                            row.lower@[t],
                            row.upper@[t],
                        )
                },
                Err(e) => exists|t: int|
                    {
                        &&& 0 <= t < n
                        &&& #[trigger] interval_fault(pack@, t, final(ranks)@, final(missing)@)
                            == Some(e)
                        &&& forall|u: int|
                            0 <= u < t ==> #[trigger] interval_fault(
                                pack@,
                                u,
                                final(ranks)@,
                                final(missing)@,
                            ) is None
                    },
            }
        }),
{
    quantize_into(pack, feat, ranks, missing);
    let ghost p = pack@;
    let ghost rk = ranks@;
    let ghost ms = missing@;
    let n: usize = if pack.row_headers {
        pack.n_trees
    } else {
        0
    };
    let mut lower: Vec<u32> = Vec::new();
    let mut upper: Vec<u32> = Vec::new();
    let mut evals: u64 = 0;
    let mut early: u64 = 0;
    let mut t: usize = 0;
    while t < n
        invariant
            t <= n,
            n == row_trees(p).len(),
            p == pack@,
            rk == ranks@,
            ms == missing@,
            rk == ranked(pack@, feat@, old(ranks)@),
            ms == marked(pack@, feat@, old(missing)@),
            n > 0 ==> span_readable(p, 0, p.n_trees, rk, ms),
            n <= p.n_trees,
            counts_fit(0, 0, p.n_trees),
            lower@.len() == t,
            upper@.len() == t,
            evals == total_blocks(p, t as nat, rk, ms),
            early == total_settled(p, t as nat, rk, ms),
            evals <= MAX_TREE_BLOCKS * t,
            early <= t,
            forall|u: int|
                0 <= u < t ==> #[trigger] interval_fault(p, u, rk, ms) is None && bounds_right(
                    candidates(p, u, rk, ms, blocks_read(p, u, rk, ms, 0)),
                    tree_values(p, u),
                    lower@[u],
                    upper@[u],
                ),
        decreases n - t,
    {
        proof {
            assert(tree_readable(p, t as int, rk, ms));
            lemma_room(0, 0, p.n_trees, t + 1);
        }
        let (m, k, s) = run_blocks(pack, t, &*ranks, Some(&*missing));
        let h: crate::qs_pack::QsTreeHdr = pack.tree_hdrs[t];
        assert(pack.leaf_values@.len() == pack.leaf_values.len());
        let at: usize = h.leaf_val_off as usize;
        let values: &[u32] = vstd::slice::slice_subrange(
            pack.leaf_values.as_slice(),
            at,
            at + h.leaf_cnt as usize,
        );
        evals = evals + k;
        early = early + s;
        match mask_bounds(m, values, h.leaf_cnt) {
            Err(e) => {
                assert(interval_fault(p, t as int, rk, ms) == Some(e));
                return Err(e);
            },
            Ok((a, b)) => {
                lower.push(a);
                upper.push(b);
            },
        }
        t += 1;
    }
    Ok(QsIntervalRow { lower, upper, block_evals: evals, resolved_early_trees: early })
}

/// The leaf that a tree lands on lies between the bounds of its candidates.
pub proof fn law_interval_holds_the_leaf(
    p: PackModel,
    t: int,
    ranks: Seq<u8>,
    miss: Seq<u8>,
    lower: u32,
    upper: u32,
)
    requires
        tree_readable(p, t, ranks, miss),
        tree_outcome(p, t, ranks, miss) is Ok,
        !nan(tree_outcome(p, t, ranks, miss)->Ok_0.leaf),
        bounds_right(
            candidates(p, t, ranks, miss, blocks_read(p, t, ranks, miss, 0)),
            tree_values(p, t),
            lower,
            upper,
        ),
    ensures
        at_most(lower, tree_outcome(p, t, ranks, miss)->Ok_0.leaf),
        at_most(tree_outcome(p, t, ranks, miss)->Ok_0.leaf, upper),
{
    let m = candidates(p, t, ranks, miss, blocks_read(p, t, ranks, miss, 0));
    let i = sole_leaf(m)->Some_0;
    law_sole_leaf_is_the_one_member(m, i);
    assert(has_leaf(m, i));
    assert(tree_values(p, t)[i] == tree_outcome(p, t, ranks, miss)->Ok_0.leaf);
}

} // verus!
