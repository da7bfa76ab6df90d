//! Scoring batches of rows, in one go or in parts.

use crate::features::{BatchModel, FeatureBatch};
use crate::qs_pack::{PackModel, QsPack};
use crate::qs_rows::{row_scorable, row_trees, score_row, QsAgg};
use crate::qs_score::{walk, ScoreError, Walk, MAX_TREE_BLOCKS};
use crate::quantize::{marked, ranked};
use vstd::prelude::*;

verus! {

/// A clean slate for the ranks or the marks of the pack's features.
pub open spec fn blank(p: PackModel) -> Seq<u8> {
    Seq::new(p.n_features as nat, |i: int| 0u8)
}

/// What a row gathers over the trees that row scoring walks.
pub open spec fn row_walk(p: PackModel, feat: Seq<u32>) -> Result<Walk, ScoreError> {
    walk(p, row_trees(p), ranked(p, feat, blank(p)), marked(p, feat, blank(p)))
}

/// What some rows of a batch gather: the leaf values of each row, and the work on all of them.
#[verifier::ext_equal]
pub struct BatchWalk {
    pub rows: Seq<Seq<u32>>,
    pub evals: int,
    pub early: int,
}

impl BatchWalk {
    /// No rows.
    pub open spec fn none() -> BatchWalk {
        BatchWalk { rows: Seq::empty(), evals: 0, early: 0 }
    }

    /// These rows, with one more.
    pub open spec fn push(self, w: Walk) -> BatchWalk {
        BatchWalk {
            rows: self.rows.push(w.leaves),
            evals: self.evals + w.evals,
            early: self.early + w.early,
        }
    }

    /// These rows, and after them others.
    pub open spec fn join(self, next: BatchWalk) -> BatchWalk {
        BatchWalk {
            rows: self.rows + next.rows,
            evals: self.evals + next.evals,
            early: self.early + next.early,
        }
    }
}

/// What the rows from `a` up to `b` gather, or what the first row that fails says.
pub open spec fn batch_walk(
    p: PackModel,
    batch: BatchModel,
    a: int,
    b: int,
) -> Result<BatchWalk, ScoreError>
    decreases b - a,
{
    if b <= a {
        Ok(BatchWalk::none())
    } else {
        match batch_walk(p, batch, a, b - 1) {
            Err(e) => Err(e),
            Ok(w) => match row_walk(p, batch.row(b - 1)) {
                Err(e) => Err(e),
                Ok(v) => Ok(w.push(v)),
            },
        }
    }
}

/// A batch can be cut anywhere: scoring the parts and putting the results one after the other is
/// scoring the whole.
pub proof fn law_batch_can_be_cut(p: PackModel, batch: BatchModel, a: int, b: int, c: int)
    requires
        a <= b <= c,
    ensures
        batch_walk(p, batch, a, c) == (match batch_walk(p, batch, a, b) {
            Err(e) => Err::<BatchWalk, ScoreError>(e),
            Ok(w) => match batch_walk(p, batch, b, c) {
                Err(e) => Err(e),
                Ok(v) => Ok(w.join(v)),
            },
        }),
    decreases c - b,
{
    if b == c {
        if let Ok(w) = batch_walk(p, batch, a, b) {
            assert(w.join(BatchWalk::none()) =~= w);
        }
    } else {
        law_batch_can_be_cut(p, batch, a, b, c - 1);
        if let Ok(w) = batch_walk(p, batch, a, b) {
            if let Ok(v) = batch_walk(p, batch, b, c - 1) {
                if let Ok(x) = row_walk(p, batch.row(c - 1)) {
                    assert(w.join(v).push(x) =~= w.join(v.push(x)));
                }
            }
        }
    }
}

/// Whether the rows from `a` up to `b` are there and can be scored.
pub open spec fn rows_scorable(p: PackModel, batch: BatchModel, a: int, b: int) -> bool {
    forall|i: int|
        a <= i < b ==> #[trigger] batch.has_features(i) && row_scorable(
            p,
            batch.row(i),
            blank(p),
            blank(p),
        )
}

/// The leaf values of rows, as sequences.
pub open spec fn row_views(rows: Seq<Vec<u32>>) -> Seq<Seq<u32>> {
    Seq::new(rows.len(), |i: int| rows[i]@)
}

/// Scores the rows from `start` up to `end`.
pub fn qs_exact_rows(pack: &QsPack, batch: &FeatureBatch, start: usize, end: usize) -> (r: Result<
    (Vec<Vec<u32>>, QsAgg),
    ScoreError,
>)
    requires
        start <= end,
        rows_scorable(pack@, batch@, start as int, end as int),
        MAX_TREE_BLOCKS * pack@.n_trees * (end - start) <= u64::MAX,
        pack@.n_trees * (end - start) <= u64::MAX,
    ensures
        match batch_walk(pack@, batch@, start as int, end as int) {
            Err(e) => r == Err::<(Vec<Vec<u32>>, QsAgg), ScoreError>(e),
            Ok(w) => r matches Ok((rows, agg)) && row_views(rows@) == w.rows
                && agg.total_block_evals == w.evals && agg.resolved_early_trees == w.early,
        },
{
    let ghost p = pack@;
    let ghost bm = batch@;
    let mut ranks: Vec<u8> = vec![0u8; pack.n_features];
    let mut missing: Vec<u8> = vec![0u8; pack.n_features];
    let mut rows: Vec<Vec<u32>> = Vec::new();
    let mut evals: u64 = 0;
    let mut early: u64 = 0;
    let mut i: usize = start;
    assert(row_views(rows@) =~= Seq::empty());
    while i < end
        invariant
            start <= i <= end,
            p == pack@,
            bm == batch@,
            rows_scorable(p, bm, start as int, end as int),
            ranks@.len() == p.n_features,
            missing@.len() == p.n_features,
            batch_walk(p, bm, start as int, i as int) matches Ok(w) && row_views(rows@) == w.rows
                && evals == w.evals && early == w.early,
            evals <= MAX_TREE_BLOCKS * p.n_trees * (i - start),
            early <= p.n_trees * (i - start),
            MAX_TREE_BLOCKS * p.n_trees * (end - start) <= u64::MAX,
            p.n_trees * (end - start) <= u64::MAX,
            0 <= p.n_trees,
        decreases end - i,
    {
        let ghost w = batch_walk(p, bm, start as int, i as int)->Ok_0;
        proof {
            assert(bm.has_features(i as int));
            let feat = bm.row(i as int);
            assert(ranked(p, feat, ranks@) =~= ranked(p, feat, blank(p)));
            assert(marked(p, feat, missing@) =~= marked(p, feat, blank(p)));
            law_failed_prefix(p, bm, start as int, i + 1, end as int);
        }
        let feat: Vec<u32> = batch.row(i);
        match score_row(pack, feat.as_slice(), ranks.as_mut_slice(), missing.as_mut_slice()) {
            Err(e) => {
                return Err(e);
            },
            Ok(x) => {
                proof {
                    let k = i - start;
                    let c = MAX_TREE_BLOCKS * p.n_trees;
                    assert(c * k + c == c * (k + 1)) by (nonlinear_arith);
                    assert(p.n_trees * k + p.n_trees == p.n_trees * (k + 1)) by (nonlinear_arith);
                    assert(c * (k + 1) <= c * (end - start)) by (nonlinear_arith)
                        requires
                            k + 1 <= end - start,
                            0 <= c,
                    ;
                    assert(p.n_trees * (k + 1) <= p.n_trees * (end - start)) by (nonlinear_arith)
                        requires
                            k + 1 <= end - start,
                            0 <= p.n_trees,
                    ;
                }
                evals = evals + x.block_evals;
                early = early + x.resolved_early;
                let ghost before = rows@;
                let ghost leaves = x.leaves@;
                rows.push(x.leaves);
                assert(row_views(rows@) =~= row_views(before).push(leaves));
            },
        }
        i += 1;
    }
    Ok((rows, QsAgg { total_block_evals: evals, resolved_early_trees: early }))
}

proof fn law_failed_prefix(p: PackModel, batch: BatchModel, a: int, b: int, c: int)
    requires
        a <= b <= c,
    ensures
        batch_walk(p, batch, a, b) matches Err(e) ==> batch_walk(p, batch, a, c) == Err::<
            BatchWalk,
            ScoreError,
        >(e),
{
    law_batch_can_be_cut(p, batch, a, b, c);
}

/// Scores the first `n` rows of a batch.
pub fn run_qs_exact(pack: &QsPack, batch: &FeatureBatch, n: usize) -> (r: Result<
    (Vec<Vec<u32>>, QsAgg),
    ScoreError,
>)
    requires
        batch@.n_cols == pack@.n_features ==> rows_scorable(pack@, batch@, 0, n as int),
        MAX_TREE_BLOCKS * pack@.n_trees * n <= u64::MAX,
        pack@.n_trees * n <= u64::MAX,
    ensures
        if batch@.n_cols != pack@.n_features {
            r == Err::<(Vec<Vec<u32>>, QsAgg), ScoreError>(ScoreError::FeatureCountMismatch)
        } else {
            match batch_walk(pack@, batch@, 0, n as int) {
                Err(e) => r == Err::<(Vec<Vec<u32>>, QsAgg), ScoreError>(e),
                Ok(w) => r matches Ok((rows, agg)) && row_views(rows@) == w.rows
                    && agg.total_block_evals == w.evals && agg.resolved_early_trees == w.early,
            }
        },
{
    if batch.n_cols != pack.n_features {
        return Err(ScoreError::FeatureCountMismatch);
    }
    qs_exact_rows(pack, batch, 0, n)
}

} // verus!
