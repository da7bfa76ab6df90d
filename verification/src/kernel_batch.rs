//! Scoring a batch row by row, and what the rows add up to.
//!
//! Rows do not depend on each other: a batch can be cut anywhere, its parts scored apart and put
//! together again.

use crate::arith::{answers, follows, SingleOp};
use crate::features::{BatchModel, FeatureBatch};
use crate::forest::PrefixPack;
use crate::kernel::{
    choose_hot_pack, course_of, hot_choice, kernel_ready, leaves_of, row_result,
    score_row_by_kernel, workspace_fits, Kernel, KernelError, Workspace,
};
use crate::kinds::{approx_mode, is_approx_mode, InferMode};
use crate::single::NAN;
use crate::traverse::{lemma_visits_in_range, opening, RowResult};
use vstd::prelude::*;

verus! {

/// Whether row `i` is to be scored.
pub open spec fn row_active(k: Kernel, i: int) -> bool {
    match k.meta {
        Some(meta) => meta@.active[i] != 0,
        None => true,
    }
}

/// The threshold of row `i`.
pub open spec fn row_threshold(k: Kernel, i: int) -> u32 {
    match k.meta {
        Some(meta) => meta@.taus[i],
        None => k.threshold,
    }
}

/// What row `i` comes to; nothing where it is not to be scored.
pub open spec fn cell(m: spec_fn(SingleOp) -> u32, k: Kernel, b: BatchModel, i: int) -> Result<
    Option<RowResult>,
    KernelError,
> {
    if !row_active(k, i) {
        Ok(None)
    } else {
        match row_result(m, k, b.nan_free, b.row(i), row_threshold(k, i)) {
            Ok(r) => Ok(Some(r)),
            Err(e) => Err(e),
        }
    }
}

/// Counts with the one at `i` raised.
pub open spec fn raised(counts: Seq<int>, i: int) -> Seq<int> {
    if 0 <= i < counts.len() {
        counts.update(i, counts[i] + 1)
    } else {
        counts
    }
}

/// Counts added up place by place, as long as the first.
pub open spec fn summed(a: Seq<int>, b: Seq<int>) -> Seq<int> {
    Seq::new(
        a.len(),
        |i: int|
            a[i] + if i < b.len() {
                b[i]
            } else {
                0
            },
    )
}

/// No counts yet.
pub open spec fn zeros(n: nat) -> Seq<int> {
    Seq::new(n, |i: int| 0int)
}

/// Counts as numbers.
pub open spec fn counts_of(v: Seq<u64>) -> Seq<int> {
    Seq::new(v.len(), |i: int| v[i] as int)
}

/// What rows come to, one by one, and how many stopped where.
#[verifier::ext_equal]
pub struct RowsView {
    pub scores: Seq<u32>,
    pub passes: Seq<bool>,
    pub visits: Seq<i32>,
    pub approx_pass: int,
    pub approx_ref: int,
    pub counts: Seq<int>,
}

impl RowsView {
    /// No rows.
    pub open spec fn none(slots: nat) -> RowsView {
        RowsView {
            scores: Seq::empty(),
            passes: Seq::empty(),
            visits: Seq::empty(),
            approx_pass: 0,
            approx_ref: 0,
            counts: zeros(slots),
        }
    }

    /// One more row.
    pub open spec fn push(self, c: Option<RowResult>) -> RowsView {
        match c {
            None => RowsView {
                scores: self.scores.push(NAN),
                passes: self.passes.push(false),
                visits: self.visits.push(0),
                ..self
            },
            Some(r) => RowsView {
                scores: self.scores.push(r.score),
                passes: self.passes.push(r.pass),
                visits: self.visits.push(r.visited),
                approx_pass: self.approx_pass + if r.meta.approx_pass {
                    1int
                } else {
                    0
                },
                approx_ref: self.approx_ref + if r.meta.approx_refer {
                    1int
                } else {
                    0
                },
                counts: raised(self.counts, r.meta.approx_checkpoint_idx as int),
            },
        }
    }

    /// These rows, and others after them.
    pub open spec fn join(self, next: RowsView) -> RowsView {
        RowsView {
            scores: self.scores + next.scores,
            passes: self.passes + next.passes,
            visits: self.visits + next.visits,
            approx_pass: self.approx_pass + next.approx_pass,
            approx_ref: self.approx_ref + next.approx_ref,
            counts: summed(self.counts, next.counts),
        }
    }
}

/// How many checkpoint slots are counted.
pub open spec fn slot_count(k: Kernel) -> nat {
    match k.policy {
        Some(p) => p@.used_checkpoints.len(),
        None => 0,
    }
}

/// What the rows from `a` up to `e` come to, or what the first row that fails says.
pub open spec fn rows(m: spec_fn(SingleOp) -> u32, k: Kernel, b: BatchModel, a: int, e: int) -> Result<
    RowsView,
    KernelError,
>
    decreases e - a,
{
    if a >= e {
        Ok(RowsView::none(slot_count(k)))
    } else {
        match rows(m, k, b, a, e - 1) {
            Err(x) => Err(x),
            Ok(v) => match cell(m, k, b, e - 1) {
                Err(x) => Err(x),
                Ok(c) => Ok(v.push(c)),
            },
        }
    }
}

proof fn lemma_rows_fail_early(
    m: spec_fn(SingleOp) -> u32,
    k: Kernel,
    b: BatchModel,
    a: int,
    c: int,
    e: int,
)
    requires
        a <= c <= e,
        rows(m, k, b, a, c) is Err,
    ensures
        rows(m, k, b, a, e) == rows(m, k, b, a, c),
    decreases e - c,
{
    if c < e {
        lemma_rows_fail_early(m, k, b, a, c, e - 1);
    }
}

/// A batch can be cut anywhere: scoring the parts and putting them together is scoring the whole.
pub proof fn law_rows_can_be_cut(
    m: spec_fn(SingleOp) -> u32,
    k: Kernel,
    b: BatchModel,
    a: int,
    c: int,
    e: int,
)
    requires
        a <= c <= e,
    ensures
        rows(m, k, b, a, e) == (match rows(m, k, b, a, c) {
            Err(x) => Err::<RowsView, KernelError>(x),
            Ok(v) => match rows(m, k, b, c, e) {
                Err(x) => Err(x),
                Ok(w) => Ok(v.join(w)),
            },
        }),
    decreases e - c,
{
    lemma_rows_slots(m, k, b, a, c);
    if c == e {
        if let Ok(v) = rows(m, k, b, a, c) {
            assert(v.join(RowsView::none(slot_count(k))) =~= v);
        }
    } else {
        law_rows_can_be_cut(m, k, b, a, c, e - 1);
        lemma_rows_slots(m, k, b, c, e - 1);
        if let Ok(v) = rows(m, k, b, a, c) {
            if let Ok(w) = rows(m, k, b, c, e - 1) {
                if let Ok(x) = cell(m, k, b, e - 1) {
                    assert(v.join(w).push(x) =~= v.join(w.push(x)));
                }
            }
        }
    }
}

proof fn lemma_rows_slots(m: spec_fn(SingleOp) -> u32, k: Kernel, b: BatchModel, a: int, e: int)
    ensures
        rows(m, k, b, a, e) matches Ok(v) ==> v.counts.len() == slot_count(k),
    decreases e - a,
{
    if a < e {
        lemma_rows_slots(m, k, b, a, e - 1);
    }
}

/// What rows come to, one by one, and how many stopped where.
#[derive(Debug)]
pub struct KernelRows {
    pub scores: Vec<u32>,
    pub passes: Vec<bool>,
    pub visits: Vec<i32>,
    pub approx_pass_cnt: u64,
    pub approx_ref_cnt: u64,
    pub checkpoint_counts: Vec<u64>,
}

impl View for KernelRows {
    type V = RowsView;

    open spec fn view(&self) -> RowsView {
        RowsView {
            scores: self.scores@,
            passes: self.passes@,
            visits: self.visits@,
            approx_pass: self.approx_pass_cnt as int,
            approx_ref: self.approx_ref_cnt as int,
            counts: counts_of(self.checkpoint_counts@),
        }
    }
}

/// Whether no count exceeds `n`.
pub open spec fn counts_within(counts: Seq<u64>, n: int) -> bool {
    forall|i: int| 0 <= i < counts.len() ==> #[trigger] counts[i] <= n
}

impl KernelRows {
    /// Whether no count exceeds the number of rows.
    pub open spec fn well_formed(self) -> bool {
        let n = self.scores@.len();
        &&& self.passes@.len() == n
        &&& self.visits@.len() == n
        &&& self.approx_pass_cnt <= n
        &&& self.approx_ref_cnt <= n
        &&& counts_within(self.checkpoint_counts@, n as int)
    }

    /// Puts other rows after these.
    pub fn merge(a: KernelRows, b: KernelRows) -> (r: KernelRows)
        requires
            a.well_formed(),
            b.well_formed(),
            a.scores@.len() + b.scores@.len() <= usize::MAX,
        ensures
            r@ == a@.join(b@),
            r.well_formed(),
    {
        let ghost x = a@;
        let ghost y = b@;
        let ghost na = a.scores@.len();
        let ghost nb = b.scores@.len();
        let mut a: KernelRows = a;
        let mut b: KernelRows = b;
        a.scores.append(&mut b.scores);
        a.passes.append(&mut b.passes);
        a.visits.append(&mut b.visits);
        a.approx_pass_cnt = a.approx_pass_cnt + b.approx_pass_cnt;
        a.approx_ref_cnt = a.approx_ref_cnt + b.approx_ref_cnt;
        assert forall|i: int| 0 <= i < x.counts.len() implies #[trigger] summed(
            x.counts,
            y.counts,
        )[i] <= na + nb by {
            assert(x.counts[i] == a.checkpoint_counts@[i]);
            if i < y.counts.len() {
                assert(y.counts[i] == b.checkpoint_counts@[i]);
            }
        }
        let counts: Vec<u64> = add_counts(&a.checkpoint_counts, &b.checkpoint_counts);
        assert forall|i: int| 0 <= i < counts@.len() implies #[trigger] counts@[i] <= na + nb by {
            assert(counts_of(counts@)[i] == counts@[i]);
        }
        a.checkpoint_counts = counts;
        assert(a@ =~= x.join(y));
        a
    }
}

/// Whether every count fits the machine.
pub open spec fn counts_fit(counts: Seq<int>) -> bool {
    forall|i: int| 0 <= i < counts.len() ==> #[trigger] counts[i] <= u64::MAX
}

/// Adds counts place by place.
fn add_counts(a: &Vec<u64>, b: &Vec<u64>) -> (r: Vec<u64>)
    requires
        counts_fit(summed(counts_of(a@), counts_of(b@))),
    ensures
        counts_of(r@) == summed(counts_of(a@), counts_of(b@)),
{
    let ghost want = summed(counts_of(a@), counts_of(b@));
    let mut r: Vec<u64> = Vec::new();
    let mut i: usize = 0;
    while i < a.len()
        invariant
            i <= a@.len(),
            want == summed(counts_of(a@), counts_of(b@)),
            counts_fit(want),
            counts_of(r@) == want.take(i as int),
        decreases a@.len() - i,
    {
        let other: u64 = if i < b.len() {
            b[i]
        } else {
            0
        };
        assert(want[i as int] == a@[i as int] + other);
        let ghost before = counts_of(r@);
        let sum: u64 = a[i] + other;
        r.push(sum);
        proof {
            assert(counts_of(r@) =~= before.push(sum as int));
            assert(want.take(i + 1) =~= want.take(i as int).push(sum as int));
        }
        i += 1;
    }
    assert(counts_of(r@) =~= want);
    r
}

/// Whether the rows from `a` up to `e` can be read.
pub open spec fn rows_there(k: Kernel, b: BatchModel, a: int, e: int) -> bool {
    &&& forall|i: int| a <= i < e ==> #[trigger] b.has_features(i) && b.row(i).len() == b.n_cols
    &&& k.meta matches Some(meta) ==> a < e ==> e <= meta@.active.len() && e <= meta@.taus.len()
}

/// Raises one count.
fn raise(counts: &mut Vec<u64>, at: i32, Ghost(n): Ghost<int>)
    requires
        counts_within(old(counts)@, n),
        n < u64::MAX,
    ensures
        counts_of(final(counts)@) == raised(counts_of(old(counts)@), at as int),
        counts_within(final(counts)@, n + 1),
        final(counts)@.len() == old(counts)@.len(),
{
    let ghost before = counts@;
    if at >= 0 && (at as u64) < counts.len() as u64 {
        let i: usize = at as usize;
        assert(before[i as int] <= n);
        let c: u64 = counts[i];
        counts[i] = c + 1;
        assert(counts_of(counts@) =~= raised(counts_of(before), at as int));
    }
    assert forall|i: int| 0 <= i < counts@.len() implies #[trigger] counts@[i] <= n + 1 by {
        assert(before[i] <= n);
    }
}

/// Scores the rows from `start` up to `end`.
pub fn run_kernel_rows<'a, A: Fn(SingleOp) -> u32>(
    arith: &A,
    k: &Kernel<'a>,
    batch: &FeatureBatch,
    start: usize,
    end: usize,
) -> (r: Result<KernelRows, KernelError>)
    requires
        answers(*arith),
        kernel_ready(*k, batch@.n_cols),
        rows_there(*k, batch@, start as int, end as int),
    ensures
        r matches Ok(x) ==> x.well_formed() && x.scores@.len() == (if start <= end {
            end - start
        } else {
            0
        }),
        forall|m: spec_fn(SingleOp) -> u32| #[trigger]
            follows(*arith, m) ==> match rows(m, *k, batch@, start as int, end as int) {
                Err(e) => r == Err::<KernelRows, KernelError>(e),
                Ok(v) => r matches Ok(x) && x@ == v,
            },
{
    let slots: usize = match k.policy {
        Some(p) => p.used_checkpoints.len(),
        None => 0,
    };
    let ghost b = batch@;
    let mut work: Workspace = Workspace::new(k);
    let mut out: KernelRows = KernelRows {
        scores: Vec::new(),
        passes: Vec::new(),
        visits: Vec::new(),
        approx_pass_cnt: 0,
        approx_ref_cnt: 0,
        checkpoint_counts: vec![0u64; slots],
    };
    assert(out@ =~= RowsView::none(slot_count(*k)));
    let mut i: usize = start;
    while i < end
        invariant
            answers(*arith),
            kernel_ready(*k, b.n_cols),
            b == batch@,
            rows_there(*k, b, start as int, end as int),
            start <= i,
            i <= end || i == start,
            workspace_fits(work, *k),
            out.well_formed(),
            out.scores@.len() == i - start,
            forall|m: spec_fn(SingleOp) -> u32| #[trigger]
                follows(*arith, m) ==> rows(m, *k, b, start as int, i as int) == Ok::<
                    RowsView,
                    KernelError,
                >(out@),
        decreases end - i,
    {
        let ghost before = out@;
        assert(b.has_features(i as int));
        let active: bool = match k.meta {
            Some(meta) => meta.active[i] != 0,
            None => true,
        };
        if !active {
            out.scores.push(NAN);
            out.passes.push(false);
            out.visits.push(0);
            assert(out@ =~= before.push(None));
            assert(forall|q: int|
                0 <= q < out.checkpoint_counts@.len() ==> #[trigger] out.checkpoint_counts@[q]
                    <= out.scores@.len());
        } else {
            let threshold: u32 = match k.meta {
                Some(meta) => meta.tau_used[i],
                None => k.threshold,
            };
            let feat: Vec<u32> = batch.row(i);
            match score_row_by_kernel(
                arith,
                k,
                batch.nan_free,
                feat.as_slice(),
                threshold,
                &mut work,
            ) {
                Err(e) => {
                    proof {
                        assert forall|m: spec_fn(SingleOp) -> u32| #[trigger]
                            follows(*arith, m) implies rows(
                            m,
                            *k,
                            b,
                            start as int,
                            end as int,
                        ) == Err::<RowsView, KernelError>(e) by {
                            assert(rows(m, *k, b, start as int, i + 1) == Err::<
                                RowsView,
                                KernelError,
                            >(e));
                            lemma_rows_fail_early(m, *k, b, start as int, i + 1, end as int);
                        }
                    }
                    return Err(e);
                },
                Ok(row) => {
                    out.scores.push(row.score);
                    out.passes.push(row.pass);
                    out.visits.push(row.visited);
                    if row.meta.approx_pass {
                        out.approx_pass_cnt = out.approx_pass_cnt + 1;
                    }
                    if row.meta.approx_refer {
                        out.approx_ref_cnt = out.approx_ref_cnt + 1;
                    }
                    raise(
                        &mut out.checkpoint_counts,
                        row.meta.approx_checkpoint_idx,
                        Ghost((i - start) as int),
                    );
                    assert(out@ =~= before.push(Some(row)));
                },
            }
        }
        i += 1;
    }
    Ok(out)
}

/// The kernel with the pack of first trees that its policy calls for.
pub open spec fn with_hot_pack<'a>(
    k: Kernel<'a>,
    prefix16: Option<&'a PrefixPack>,
    prefix32: Option<&'a PrefixPack>,
) -> Kernel<'a> {
    Kernel {
        hot_pack: if approx_mode(k.mode) && k.policy is Some {
            hot_choice(*k.policy->Some_0, prefix16, prefix32)
        } else {
            None
        },
        ..k
    }
}

/// Chooses the pack of first trees.
pub fn choose_kernel<'a>(
    k: Kernel<'a>,
    prefix16: Option<&'a PrefixPack>,
    prefix32: Option<&'a PrefixPack>,
) -> (r: Kernel<'a>)
    ensures
        r == with_hot_pack(k, prefix16, prefix32),
{
    let hot_pack: Option<&'a PrefixPack> = if is_approx_mode(k.mode) {
        match k.policy {
            Some(p) => choose_hot_pack(p, prefix16, prefix32),
            None => None,
        }
    } else {
        None
    };
    Kernel { hot_pack, ..k }
}

/// Scores the first `n` rows of a batch.
pub fn run_kernel<'a, A: Fn(SingleOp) -> u32>(
    arith: &A,
    k: Kernel<'a>,
    prefix16_pack: Option<&'a PrefixPack>,
    prefix32_pack: Option<&'a PrefixPack>,
    batch: &FeatureBatch,
    n: usize,
) -> (r: Result<KernelRows, KernelError>)
    requires
        answers(*arith),
        kernel_ready(with_hot_pack(k, prefix16_pack, prefix32_pack), batch@.n_cols),
        rows_there(k, batch@, 0, n as int),
    ensures
        r matches Ok(x) ==> x.well_formed() && x.scores@.len() == n,
        forall|m: spec_fn(SingleOp) -> u32| #[trigger]
            follows(*arith, m) ==> match rows(
                m,
                with_hot_pack(k, prefix16_pack, prefix32_pack),
                batch@,
                0,
                n as int,
            ) {
                Err(e) => r == Err::<KernelRows, KernelError>(e),
                Ok(v) => r matches Ok(x) && x@ == v,
            },
{
    let chosen: Kernel<'a> = choose_kernel(k, prefix16_pack, prefix32_pack);
    run_kernel_rows(arith, &chosen, batch, 0, n)
}

/// What rows add up to.
#[verifier::ext_equal]
pub struct FastView {
    pub pass_cnt: int,
    pub active_cnt: int,
    pub visit_sum: int,
    pub full_cnt: int,
    pub approx_pass_cnt: int,
    pub approx_ref_cnt: int,
    pub counts: Seq<int>,
    pub hist: Seq<int>,
}

/// One or nothing.
pub open spec fn one_if(b: bool) -> int {
    if b {
        1
    } else {
        0
    }
}

impl FastView {
    /// No rows.
    pub open spec fn none(slots: nat, trees: nat) -> FastView {
        FastView {
            pass_cnt: 0,
            active_cnt: 0,
            visit_sum: 0,
            full_cnt: 0,
            approx_pass_cnt: 0,
            approx_ref_cnt: 0,
            counts: zeros(slots),
            hist: zeros(trees + 1),
        }
    }

    /// One more row.
    pub open spec fn push(self, c: Option<RowResult>, trees: int) -> FastView {
        match c {
            None => FastView { hist: raised(self.hist, 0), ..self },
            Some(r) => FastView {
                pass_cnt: self.pass_cnt + one_if(r.pass),
                active_cnt: self.active_cnt + 1,
                visit_sum: self.visit_sum + r.visited,
                full_cnt: self.full_cnt + one_if(r.visited == trees),
                approx_pass_cnt: self.approx_pass_cnt + one_if(r.meta.approx_pass),
                approx_ref_cnt: self.approx_ref_cnt + one_if(r.meta.approx_refer),
                counts: raised(self.counts, r.meta.approx_checkpoint_idx as int),
                hist: raised(self.hist, r.visited as int),
            },
        }
    }

    /// These rows, and others.
    pub open spec fn join(self, b: FastView) -> FastView {
        FastView {
            pass_cnt: self.pass_cnt + b.pass_cnt,
            active_cnt: self.active_cnt + b.active_cnt,
            visit_sum: self.visit_sum + b.visit_sum,
            full_cnt: self.full_cnt + b.full_cnt,
            approx_pass_cnt: self.approx_pass_cnt + b.approx_pass_cnt,
            approx_ref_cnt: self.approx_ref_cnt + b.approx_ref_cnt,
            counts: summed(self.counts, b.counts),
            hist: summed(self.hist, b.hist),
        }
    }

    /// Whether every total fits the machine.
    pub open spec fn fits(self) -> bool {
        &&& self.pass_cnt <= u64::MAX
        &&& self.active_cnt <= u64::MAX
        &&& self.visit_sum <= u64::MAX
        &&& self.full_cnt <= u64::MAX
        &&& self.approx_pass_cnt <= u64::MAX
        &&& self.approx_ref_cnt <= u64::MAX
        &&& counts_fit(self.counts)
        &&& counts_fit(self.hist)
    }
}

/// What the rows from `a` up to `e` add up to, or what the first row that fails says.
pub open spec fn fast_rows(
    m: spec_fn(SingleOp) -> u32,
    k: Kernel,
    b: BatchModel,
    a: int,
    e: int,
) -> Result<FastView, KernelError>
    decreases e - a,
{
    if a >= e {
        Ok(FastView::none(slot_count(k), k.plan.n_trees as nat))
    } else {
        match fast_rows(m, k, b, a, e - 1) {
            Err(x) => Err(x),
            Ok(v) => match cell(m, k, b, e - 1) {
                Err(x) => Err(x),
                Ok(c) => Ok(v.push(c, k.plan.n_trees as int)),
            },
        }
    }
}

proof fn lemma_fast_fail_early(
    m: spec_fn(SingleOp) -> u32,
    k: Kernel,
    b: BatchModel,
    a: int,
    c: int,
    e: int,
)
    requires
        a <= c <= e,
        fast_rows(m, k, b, a, c) is Err,
    ensures
        fast_rows(m, k, b, a, e) == fast_rows(m, k, b, a, c),
    decreases e - c,
{
    if c < e {
        lemma_fast_fail_early(m, k, b, a, c, e - 1);
    }
}

proof fn lemma_fast_slots(m: spec_fn(SingleOp) -> u32, k: Kernel, b: BatchModel, a: int, e: int)
    ensures
        fast_rows(m, k, b, a, e) matches Ok(v) ==> v.counts.len() == slot_count(k) && v.hist.len()
            == k.plan.n_trees + 1,
    decreases e - a,
{
    if a < e {
        lemma_fast_slots(m, k, b, a, e - 1);
    }
}

/// A batch can be cut anywhere: adding up the parts is adding up the whole.
pub proof fn law_fast_rows_can_be_cut(
    m: spec_fn(SingleOp) -> u32,
    k: Kernel,
    b: BatchModel,
    a: int,
    c: int,
    e: int,
)
    requires
        a <= c <= e,
    ensures
        fast_rows(m, k, b, a, e) == (match fast_rows(m, k, b, a, c) {
            Err(x) => Err::<FastView, KernelError>(x),
            Ok(v) => match fast_rows(m, k, b, c, e) {
                Err(x) => Err(x),
                Ok(w) => Ok(v.join(w)),
            },
        }),
    decreases e - c,
{
    lemma_fast_slots(m, k, b, a, c);
    if c == e {
        if let Ok(v) = fast_rows(m, k, b, a, c) {
            assert(v.join(FastView::none(slot_count(k), k.plan.n_trees as nat)) =~= v);
        }
    } else {
        law_fast_rows_can_be_cut(m, k, b, a, c, e - 1);
        lemma_fast_slots(m, k, b, c, e - 1);
        if let Ok(v) = fast_rows(m, k, b, a, c) {
            if let Ok(w) = fast_rows(m, k, b, c, e - 1) {
                if let Ok(x) = cell(m, k, b, e - 1) {
                    let t = k.plan.n_trees as int;
                    assert(v.join(w).push(x, t) =~= v.join(w.push(x, t)));
                }
            }
        }
    }
}

/// What rows add up to.
#[derive(Debug)]
pub struct FastAgg {
    pub pass_cnt: u64,
    pub active_cnt: u64,
    pub visit_sum: u64,
    pub full_cnt: u64,
    pub approx_pass_cnt: u64,
    pub approx_ref_cnt: u64,
    pub checkpoint_counts: Vec<u64>,
    pub visit_hist: Vec<u64>,
}

impl View for FastAgg {
    type V = FastView;

    open spec fn view(&self) -> FastView {
        FastView {
            pass_cnt: self.pass_cnt as int,
            active_cnt: self.active_cnt as int,
            visit_sum: self.visit_sum as int,
            full_cnt: self.full_cnt as int,
            approx_pass_cnt: self.approx_pass_cnt as int,
            approx_ref_cnt: self.approx_ref_cnt as int,
            counts: counts_of(self.checkpoint_counts@),
            hist: counts_of(self.visit_hist@),
        }
    }
}

impl FastAgg {
    /// Whether the counts are those of at most `n` rows, none of which visited more than `trees`
    /// trees.
    pub open spec fn of_rows(self, n: int, trees: int) -> bool {
        &&& self.pass_cnt <= n
        &&& self.active_cnt <= n
        &&& self.visit_sum <= trees * n
        &&& self.full_cnt <= n
        &&& self.approx_pass_cnt <= n
        &&& self.approx_ref_cnt <= n
        &&& counts_within(self.checkpoint_counts@, n)
        &&& counts_within(self.visit_hist@, n)
    }

    /// Adds what other rows add up to.
    pub fn merge(a: FastAgg, b: FastAgg) -> (r: FastAgg)
        requires
            a@.join(b@).fits(),
        ensures
            r@ == a@.join(b@),
    {
        let r: FastAgg = FastAgg {
            pass_cnt: a.pass_cnt + b.pass_cnt,
            active_cnt: a.active_cnt + b.active_cnt,
            visit_sum: a.visit_sum + b.visit_sum,
            full_cnt: a.full_cnt + b.full_cnt,
            approx_pass_cnt: a.approx_pass_cnt + b.approx_pass_cnt,
            approx_ref_cnt: a.approx_ref_cnt + b.approx_ref_cnt,
            checkpoint_counts: add_counts(&a.checkpoint_counts, &b.checkpoint_counts),
            visit_hist: add_counts(&a.visit_hist, &b.visit_hist),
        };
        assert(r@ =~= a@.join(b@));
        r
    }
}

/// The kernel that adds up rows: the approximate mode by values.
pub open spec fn fast_kernel<'a>(
    k: Kernel<'a>,
    prefix16: Option<&'a PrefixPack>,
    prefix32: Option<&'a PrefixPack>,
) -> Kernel<'a> {
    with_hot_pack(
        Kernel { mode: InferMode::RouteApprox, rank_pack: None, ..k },
        prefix16,
        prefix32,
    )
}

/// Makes a [`fast_kernel`].
pub fn make_fast_kernel<'a>(
    k: Kernel<'a>,
    prefix16: Option<&'a PrefixPack>,
    prefix32: Option<&'a PrefixPack>,
) -> (r: Kernel<'a>)
    ensures
        r == fast_kernel(k, prefix16, prefix32),
{
    choose_kernel(
        Kernel { mode: InferMode::RouteApprox, rank_pack: None, ..k },
        prefix16,
        prefix32,
    )
}

/// Adds up the rows from `start` up to `end`.
pub fn run_kernel_fast_rows<'a, A: Fn(SingleOp) -> u32>(
    arith: &A,
    k: &Kernel<'a>,
    batch: &FeatureBatch,
    start: usize,
    end: usize,
) -> (r: Result<FastAgg, KernelError>)
    requires
        answers(*arith),
        kernel_ready(*k, batch@.n_cols),
        rows_there(*k, batch@, start as int, end as int),
        k.plan.n_trees * (end - start) <= u64::MAX,
    ensures
        r matches Ok(x) ==> start <= end ==> x.of_rows(end - start, k.plan.n_trees as int),
        forall|m: spec_fn(SingleOp) -> u32| #[trigger]
            follows(*arith, m) ==> match fast_rows(m, *k, batch@, start as int, end as int) {
                Err(e) => r == Err::<FastAgg, KernelError>(e),
                Ok(v) => r matches Ok(x) && x@ == v,
            },
{
    let slots: usize = match k.policy {
        Some(p) => p.used_checkpoints.len(),
        None => 0,
    };
    let trees: usize = k.plan.n_trees;
    let ghost b = batch@;
    let mut work: Workspace = Workspace::new(k);
    let mut agg: FastAgg = FastAgg {
        pass_cnt: 0,
        active_cnt: 0,
        visit_sum: 0,
        full_cnt: 0,
        approx_pass_cnt: 0,
        approx_ref_cnt: 0,
        checkpoint_counts: vec![0u64; slots],
        visit_hist: vec![0u64; trees + 1],
    };
    assert(agg@ =~= FastView::none(slot_count(*k), trees as nat));
    let mut i: usize = start;
    while i < end
        invariant
            answers(*arith),
            kernel_ready(*k, b.n_cols),
            b == batch@,
            trees == k.plan.n_trees,
            rows_there(*k, b, start as int, end as int),
            trees * (end - start) <= u64::MAX,
            start <= i,
            i <= end || i == start,
            workspace_fits(work, *k),
            agg.of_rows(i - start, trees as int),
            forall|m: spec_fn(SingleOp) -> u32| #[trigger]
                follows(*arith, m) ==> fast_rows(m, *k, b, start as int, i as int) == Ok::<
                    FastView,
                    KernelError,
                >(agg@),
        decreases end - i,
    {
        let ghost before = agg@;
        let ghost done = i - start;
        assert(trees * done + trees <= trees * (end - start)) by (nonlinear_arith)
            requires
                0 <= done < end - start,
        ;
        assert(trees * (done + 1) == trees * done + trees) by (nonlinear_arith);
        assert(b.has_features(i as int));
        let active: bool = match k.meta {
            Some(meta) => meta.active[i] != 0,
            None => true,
        };
        if !active {
            raise(&mut agg.visit_hist, 0, Ghost(done));
            assert(agg@ =~= before.push(None, trees as int));
            assert(forall|q: int|
                0 <= q < agg.checkpoint_counts@.len() ==> #[trigger] agg.checkpoint_counts@[q]
                    <= done + 1);
        } else {
            let threshold: u32 = match k.meta {
                Some(meta) => meta.tau_used[i],
                None => k.threshold,
            };
            let feat: Vec<u32> = batch.row(i);
            match score_row_by_kernel(
                arith,
                k,
                batch.nan_free,
                feat.as_slice(),
                threshold,
                &mut work,
            ) {
                Err(e) => {
                    proof {
                        assert forall|m: spec_fn(SingleOp) -> u32| #[trigger]
                            follows(*arith, m) implies fast_rows(
                            m,
                            *k,
                            b,
                            start as int,
                            end as int,
                        ) == Err::<FastView, KernelError>(e) by {
                            assert(fast_rows(m, *k, b, start as int, i + 1) == Err::<
                                FastView,
                                KernelError,
                            >(e));
                            lemma_fast_fail_early(m, *k, b, start as int, i + 1, end as int);
                        }
                    }
                    return Err(e);
                },
                Ok(row) => {
                    agg.active_cnt = agg.active_cnt + 1;
                    if row.pass {
                        agg.pass_cnt = agg.pass_cnt + 1;
                    }
                    let visited: usize = row.visited as usize;
                    agg.visit_sum = agg.visit_sum + visited as u64;
                    if visited == trees {
                        agg.full_cnt = agg.full_cnt + 1;
                    }
                    if row.meta.approx_pass {
                        agg.approx_pass_cnt = agg.approx_pass_cnt + 1;
                    }
                    if row.meta.approx_refer {
                        agg.approx_ref_cnt = agg.approx_ref_cnt + 1;
                    }
                    raise(
                        &mut agg.checkpoint_counts,
                        row.meta.approx_checkpoint_idx,
                        Ghost(done),
                    );
                    raise(&mut agg.visit_hist, row.visited, Ghost(done));
                    assert(agg@ =~= before.push(Some(row), trees as int));
                },
            }
        }
        i += 1;
    }
    Ok(agg)
}

/// Adds up the first `n` rows of a batch by the approximate mode.
pub fn run_kernel_fast_approx<'a, A: Fn(SingleOp) -> u32>(
    arith: &A,
    k: Kernel<'a>,
    prefix16_pack: Option<&'a PrefixPack>,
    prefix32_pack: Option<&'a PrefixPack>,
    batch: &FeatureBatch,
    n: usize,
) -> (r: Result<FastAgg, KernelError>)
    requires
        answers(*arith),
        kernel_ready(fast_kernel(k, prefix16_pack, prefix32_pack), batch@.n_cols),
        rows_there(k, batch@, 0, n as int),
        k.plan.n_trees * n <= u64::MAX,
    ensures
        r matches Ok(x) ==> x.of_rows(n as int, k.plan.n_trees as int),
        forall|m: spec_fn(SingleOp) -> u32| #[trigger]
            follows(*arith, m) ==> match fast_rows(
                m,
                fast_kernel(k, prefix16_pack, prefix32_pack),
                batch@,
                0,
                n as int,
            ) {
                Err(e) => r == Err::<FastAgg, KernelError>(e),
                Ok(v) => r matches Ok(x) && x@ == v,
            },
{
    let chosen: Kernel<'a> = make_fast_kernel(k, prefix16_pack, prefix32_pack);
    run_kernel_fast_rows(arith, &chosen, batch, 0, n)
}

/// How many rows visited how many trees: visits below zero count as none, visits past `max_trees`
/// as all.
pub open spec fn visit_histogram(visits: Seq<i32>, max_trees: nat) -> Seq<int>
    decreases visits.len(),
{
    if visits.len() == 0 {
        zeros(max_trees + 1)
    } else {
        let v = visits.last();
        raised(
            visit_histogram(visits.drop_last(), max_trees),
            if v <= 0 {
                0
            } else if v <= max_trees {
                v as int
            } else {
                max_trees as int
            },
        )
    }
}

/// How many of the rows pass.
pub open spec fn pass_count(passes: Seq<bool>) -> int
    decreases passes.len(),
{
    if passes.len() == 0 {
        0
    } else {
        pass_count(passes.drop_last()) + one_if(passes.last())
    }
}

/// How many trees the rows visited together.
pub open spec fn visit_total(visits: Seq<i32>) -> int
    decreases visits.len(),
{
    if visits.len() == 0 {
        0
    } else {
        visit_total(visits.drop_last()) + visits.last()
    }
}

/// How many of the rows from `a` up to `e` are to be scored.
pub open spec fn active_count(k: Kernel, a: int, e: int) -> int
    decreases e - a,
{
    if a >= e {
        0
    } else {
        active_count(k, a, e - 1) + one_if(row_active(k, e - 1))
    }
}

/// How many of the rows from `a` up to `e` that are to be scored visited all trees.
pub open spec fn full_count(k: Kernel, visits: Seq<i32>, a: int, e: int) -> int
    decreases e - a,
{
    if a >= e {
        0
    } else {
        full_count(k, visits, a, e - 1) + one_if(
            row_active(k, e - 1) && visits[e - 1 - a] == k.plan.n_trees,
        )
    }
}

proof fn lemma_full_count_grows(k: Kernel, visits: Seq<i32>, v: i32, a: int, e: int)
    requires
        e - a <= visits.len(),
    ensures
        full_count(k, visits.push(v), a, e) == full_count(k, visits, a, e),
    decreases e - a,
{
    if a < e {
        lemma_full_count_grows(k, visits, v, a, e - 1);
    }
}

/// What rows add up to, told from what they come to one by one.
pub open spec fn totals_of(k: Kernel, v: RowsView, a: int, e: int) -> FastView {
    FastView {
        pass_cnt: pass_count(v.passes),
        active_cnt: active_count(k, a, e),
        visit_sum: visit_total(v.visits),
        full_cnt: full_count(k, v.visits, a, e),
        approx_pass_cnt: v.approx_pass,
        approx_ref_cnt: v.approx_ref,
        counts: v.counts,
        hist: visit_histogram(v.visits, k.plan.n_trees as nat),
    }
}

/// What rows add up to is the sum of what they come to one by one, and where one fails both ways
/// fail alike.
proof fn lemma_rows_add_up(m: spec_fn(SingleOp) -> u32, k: Kernel, b: BatchModel, a: int, e: int)
    requires
        k.plan.n_trees <= 0x7fff_ffff,
    ensures
        match rows(m, k, b, a, e) {
            Err(x) => fast_rows(m, k, b, a, e) == Err::<FastView, KernelError>(x),
            Ok(v) => {
                &&& v.visits.len() == (if a <= e { e - a } else { 0 })
                &&& fast_rows(m, k, b, a, e) == Ok::<FastView, KernelError>(totals_of(k, v, a, e))
            },
        },
    decreases e - a,
{
    if a < e {
        lemma_rows_add_up(m, k, b, a, e - 1);
        if let Ok(v) = rows(m, k, b, a, e - 1) {
            if let Ok(c) = cell(m, k, b, e - 1) {
                let w = v.push(c);
                assert(w.passes.drop_last() =~= v.passes);
                assert(w.visits.drop_last() =~= v.visits);
                lemma_full_count_grows(k, v.visits, w.visits.last(), a, e - 1);
                if c is Some {
                    let course = course_of(k, b.nan_free, row_threshold(k, e - 1));
                    lemma_visits_in_range(
                        m,
                        leaves_of(k, b.nan_free, b.row(e - 1)),
                        course,
                        0,
                        opening(m, course, k.base_score),
                        0,
                    );
                }
                assert(totals_of(k, v, a, e - 1).push(c, k.plan.n_trees as int) =~= totals_of(
                    k,
                    w,
                    a,
                    e,
                ));
            }
        }
    } else {
        let v = RowsView::none(slot_count(k));
        assert(totals_of(k, v, a, e) =~= FastView::none(slot_count(k), k.plan.n_trees as nat));
    }
}

/// The fast run of the approximate mode adds up what the plain run of that mode gives row by row.
pub proof fn law_fast_totals_are_sums(
    m: spec_fn(SingleOp) -> u32,
    k: Kernel,
    prefix16: Option<&PrefixPack>,
    prefix32: Option<&PrefixPack>,
    b: BatchModel,
    n: int,
)
    requires
        k.mode == InferMode::RouteApprox,
        k.rank_pack is None,
        k.plan.n_trees <= 0x7fff_ffff,
    ensures
        ({
            let fast = fast_rows(m, fast_kernel(k, prefix16, prefix32), b, 0, n);
            match rows(m, with_hot_pack(k, prefix16, prefix32), b, 0, n) {
                Err(x) => fast == Err::<FastView, KernelError>(x),
                Ok(v) => fast == Ok::<FastView, KernelError>(totals_of(k, v, 0, n)),
            }
        }),
{
    let chosen = with_hot_pack(k, prefix16, prefix32);
    assert(fast_kernel(k, prefix16, prefix32) == chosen);
    lemma_rows_add_up(m, chosen, b, 0, n);
    if let Ok(v) = rows(m, chosen, b, 0, n) {
        lemma_same_counts(k, chosen, v.visits, 0, n);
        assert(totals_of(k, v, 0, n) =~= totals_of(chosen, v, 0, n));
    }
}

/// Which rows are to be scored does not depend on the pack of first trees.
proof fn lemma_same_counts(k: Kernel, other: Kernel, visits: Seq<i32>, a: int, e: int)
    requires
        k.meta == other.meta,
        k.plan == other.plan,
    ensures
        active_count(k, a, e) == active_count(other, a, e),
        full_count(k, visits, a, e) == full_count(other, visits, a, e),
    decreases e - a,
{
    if a < e {
        lemma_same_counts(k, other, visits, a, e - 1);
    }
}

/// Counts how many rows visited how many trees.
pub fn histogram_from_visits(visits: &[i32], max_trees: usize) -> (r: Vec<u64>)
    requires
        max_trees < usize::MAX,
    ensures
        counts_of(r@) == visit_histogram(visits@, max_trees as nat),
{
    let n: usize = visits.len();
    let mut hist: Vec<u64> = vec![0u64; max_trees + 1];
    assert(counts_of(hist@) =~= zeros(max_trees as nat + 1));
    assert(visits@.take(0) =~= Seq::empty());
    let mut i: usize = 0;
    while i < n
        invariant
            i <= n,
            n == visits@.len(),
            max_trees < usize::MAX,
            counts_within(hist@, i as int),
            hist@.len() == max_trees + 1,
            counts_of(hist@) == visit_histogram(visits@.take(i as int), max_trees as nat),
        decreases n - i,
    {
        let v: i32 = visits[i];
        let at: usize = if v <= 0 {
            0
        } else if v as u64 <= max_trees as u64 {
            v as usize
        } else {
            max_trees
        };
        let ghost before = hist@;
        assert(hist@[at as int] <= i);
        let c: u64 = hist[at];
        hist[at] = c + 1;
        proof {
            assert(visits@.take(i + 1).drop_last() =~= visits@.take(i as int));
            assert(counts_of(hist@) =~= raised(counts_of(before), at as int));
            assert forall|q: int| 0 <= q < hist@.len() implies #[trigger] hist@[q] <= i + 1 by {
                assert(before[q] <= i);
            }
        }
        i += 1;
    }
    assert(visits@.take(i as int) =~= visits@);
    hist
}

/// The first place where more than `target` are counted, from place `i` on with `acc` before it;
/// the last place where there is none.
pub open spec fn place_past(hist: Seq<u64>, target: u64, i: int, acc: int) -> int
    decreases hist.len() - i,
{
    if i >= hist.len() {
        if hist.len() == 0 {
            0
        } else {
            hist.len() - 1
        }
    } else if acc + hist[i] > target {
        i
    } else {
        place_past(hist, target, i + 1, acc + hist[i])
    }
}

/// Finds the number of trees that a given share of `n` rows did not exceed; `target` is that share
/// in rows.
pub fn pct_from_hist(hist: &[u64], target: u64, n: usize) -> (r: i32)
    requires
        hist@.len() <= 0x7fff_ffff,
    ensures
        r == (if n == 0 {
            0
        } else {
            place_past(hist@, target, 0, 0)
        }),
{
    if n == 0 {
        return 0;
    }
    let mut acc: u64 = 0;
    let mut i: usize = 0;
    while i < hist.len()
        invariant
            n > 0,
            i <= hist@.len() <= 0x7fff_ffff,
            acc <= target,
            place_past(hist@, target, 0, 0) == place_past(hist@, target, i as int, acc as int),
        decreases hist@.len() - i,
    {
        if hist[i] > target - acc {
            return i as i32;
        }
        acc = acc + hist[i];
        i += 1;
    }
    if hist.len() == 0 {
        0
    } else {
        (hist.len() - 1) as i32
    }
}

} // verus!
