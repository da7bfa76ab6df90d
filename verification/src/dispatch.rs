//! Rows that go to different models: each row names its model, and every model scores its own.

use crate::arith::{answers, follows, SingleOp};
use crate::descend::TraverseError;
use crate::features::{BatchModel, FeatureBatch};
use crate::forest::{materialize_tree_plan, planned, Bounds, SoaModel, TreeOrder};
use crate::kernel_batch::{counts_of, histogram_from_visits, visit_histogram};
use crate::kinds::DispatchThresholdMode;
use crate::row_meta::DispatchMeta;
use crate::single::NAN;
use crate::tail::{plan_ready, run_tail, tail_result};
use crate::traverse::RowResult;
use vstd::prelude::*;

verus! {

/// A model that rows are sent to.
#[derive(Debug)]
pub struct LoadedDispatchSlot {
    pub slot: i32,
    pub label: String,
    pub threshold_mode: DispatchThresholdMode,
    pub model: SoaModel,
    pub plan: TreeOrder,
    pub base_score: u32,
}

/// Why rows cannot be sent to their models.
#[derive(Clone, Copy, Debug, PartialEq, Eq, Structural)]
pub enum DispatchError {
    RowCount { meta: usize, batch: usize },
    RowId { row: usize },
    TreePlan,
    UnknownSlot { slot: i32 },
    Astray(TraverseError),
}

/// Makes a model that rows are sent to, with its trees in the order given.
pub fn load_dispatch_slot(
    slot: i32,
    label: String,
    threshold_mode: DispatchThresholdMode,
    model: SoaModel,
    bounds: &Bounds,
    tree_order: &TreeOrder,
    base_score: u32,
) -> (r: Result<LoadedDispatchSlot, DispatchError>)
    requires
        bounds@.complete(),
        tree_order@.complete(),
    ensures
        match planned(bounds@, Some(tree_order@), None) {
            None => r == Err::<LoadedDispatchSlot, DispatchError>(DispatchError::TreePlan),
            Some(p) => r matches Ok(s) && s.slot == slot && s.label == label && s.threshold_mode
                == threshold_mode && s.model == model && s.plan@ == p && s.base_score
                == base_score,
        },
{
    match materialize_tree_plan(bounds, Some(tree_order), None) {
        None => Err(DispatchError::TreePlan),
        Some(plan) => Ok(LoadedDispatchSlot { slot, label, threshold_mode, model, plan, base_score }),
    }
}

/// The number and the name of a model made for a segment: they follow the one for all rows.
pub fn expert_head(idx: usize, seg_key: &str) -> (r: (i32, String))
    requires
        idx < 0x7fff_ffff,
    ensures
        r.0 == idx + 1,
        r.1@ == "seg:"@ + seg_key@,
{
    ((idx + 1) as i32, "seg:".to_owned().concat(seg_key))
}

/// Whether what is known of the rows is there for every one of them.
pub open spec fn meta_whole(meta: DispatchMeta) -> bool {
    &&& meta.ids@.len() == meta.n_rows
    &&& meta.slot_id@.len() == meta.n_rows
    &&& meta.tau_used@.len() == meta.n_rows
    &&& meta.active@.len() == meta.n_rows
}

/// Whether the identifier of every row of a batch is there.
pub open spec fn ids_whole(b: BatchModel) -> bool {
    forall|i: int| 0 <= i < b.n_rows ==> #[trigger] b.has_id(i)
}

/// Whether the features of every row of a batch are there.
pub open spec fn features_whole(b: BatchModel) -> bool {
    forall|i: int| 0 <= i < b.n_rows ==> #[trigger] b.has_features(i)
}

/// The first row from `i` on that is known under another number.
pub open spec fn odd_row(b: BatchModel, meta: DispatchMeta, i: int) -> Option<int>
    decreases b.n_rows - i,
{
    if i < 0 || i >= b.n_rows {
        None
    } else if b.id(i) != meta.ids@[i] {
        Some(i)
    } else {
        odd_row(b, meta, i + 1)
    }
}

/// Holds a batch against what is known of its rows.
pub fn check_dispatch_meta(batch: &FeatureBatch, meta: &DispatchMeta) -> (r: Result<
    (),
    DispatchError,
>)
    requires
        ids_whole(batch@),
        meta_whole(*meta),
    ensures
        if meta.n_rows != batch.n_rows {
            r == Err::<(), DispatchError>(
                DispatchError::RowCount { meta: meta.n_rows, batch: batch.n_rows },
            )
        } else {
            match odd_row(batch@, *meta, 0) {
                Some(i) => r == Err::<(), DispatchError>(
                    DispatchError::RowId { row: i as usize },
                ),
                None => r is Ok,
            }
        },
{
    if meta.n_rows != batch.n_rows {
        return Err(DispatchError::RowCount { meta: meta.n_rows, batch: batch.n_rows });
    }
    let mut i: usize = 0;
    while i < batch.n_rows
        invariant
            i <= batch.n_rows,
            meta.n_rows == batch.n_rows,
            ids_whole(batch@),
            meta_whole(*meta),
            odd_row(batch@, *meta, 0) == odd_row(batch@, *meta, i as int),
        decreases batch.n_rows - i,
    {
        assert(batch@.has_id(i as int));
        if batch.id(i) != meta.ids[i] {
            return Err(DispatchError::RowId { row: i });
        }
        i += 1;
    }
    Ok(())
}

/// The last of the first `n` models with a number.
pub open spec fn place_of_slot(slots: Seq<LoadedDispatchSlot>, slot: i32, n: int) -> Option<int>
    decreases n,
{
    if n <= 0 {
        None
    } else if slots[n - 1].slot == slot {
        Some(n - 1)
    } else {
        place_of_slot(slots, slot, n - 1)
    }
}

/// Where the model of a row stands; of two with one number the later.
pub open spec fn place_of_row(slots: Seq<LoadedDispatchSlot>, meta: DispatchMeta, row: int) -> Option<
    int,
> {
    place_of_slot(slots, meta.slot_id@[row], slots.len() as int)
}

proof fn lemma_place_range(slots: Seq<LoadedDispatchSlot>, slot: i32, n: int)
    requires
        0 <= n <= slots.len(),
    ensures
        place_of_slot(slots, slot, n) matches Some(p) ==> 0 <= p < n,
    decreases n,
{
    if n > 0 {
        lemma_place_range(slots, slot, n - 1);
    }
}

fn find_slot(slots: &Vec<LoadedDispatchSlot>, slot: i32) -> (r: Option<usize>)
    ensures
        match r {
            Some(p) => p < slots@.len() && place_of_slot(slots@, slot, slots@.len() as int) == Some(
                p as int,
            ),
            None => place_of_slot(slots@, slot, slots@.len() as int) is None,
        },
{
    let mut i: usize = slots.len();
    while i > 0
        invariant
            i <= slots@.len(),
            place_of_slot(slots@, slot, slots@.len() as int) == place_of_slot(
                slots@,
                slot,
                i as int,
            ),
        decreases i,
    {
        i -= 1;
        if slots[i].slot == slot {
            return Some(i);
        }
    }
    None
}

/// Whether a row takes part.
pub open spec fn takes_part(meta: DispatchMeta, row: int) -> bool {
    meta.active@[row] != 0
}

/// The number of the first of the first `n` rows that names no model.
pub open spec fn unknown_slot(slots: Seq<LoadedDispatchSlot>, meta: DispatchMeta, n: int) -> Option<i32>
    decreases n,
{
    if n <= 0 {
        None
    } else {
        match unknown_slot(slots, meta, n - 1) {
            Some(s) => Some(s),
            None => if takes_part(meta, n - 1) && place_of_row(slots, meta, n - 1) is None {
                Some(meta.slot_id@[n - 1])
            } else {
                None
            },
        }
    }
}

proof fn lemma_unknown_lasts(slots: Seq<LoadedDispatchSlot>, meta: DispatchMeta, n: int, k: int)
    requires
        n <= k,
        unknown_slot(slots, meta, n) is Some,
    ensures
        unknown_slot(slots, meta, k) == unknown_slot(slots, meta, n),
    decreases k - n,
{
    if n < k {
        lemma_unknown_lasts(slots, meta, n, k - 1);
    }
}

/// The rows among the first `n` that the model at `p` scores, in turn.
pub open spec fn bucket(slots: Seq<LoadedDispatchSlot>, meta: DispatchMeta, p: int, n: int) -> Seq<
    usize,
>
    decreases n,
{
    if n <= 0 {
        Seq::empty()
    } else {
        let before = bucket(slots, meta, p, n - 1);
        if takes_part(meta, n - 1) && place_of_row(slots, meta, n - 1) == Some(p) {
            before.push((n - 1) as usize)
        } else {
            before
        }
    }
}

/// A bucket holds exactly the rows of its model.
proof fn lemma_bucket_holds(slots: Seq<LoadedDispatchSlot>, meta: DispatchMeta, p: int, n: int)
    requires
        0 <= n <= usize::MAX,
    ensures
        forall|i: int|
            0 <= i < bucket(slots, meta, p, n).len() ==> {
                let row = #[trigger] bucket(slots, meta, p, n)[i];
                row < n && takes_part(meta, row as int) && place_of_row(slots, meta, row as int)
                    == Some(p)
            },
        forall|row: int|
            0 <= row < n && #[trigger] takes_part(meta, row) && place_of_row(slots, meta, row)
                == Some(p) ==> bucket(slots, meta, p, n).contains(row as usize),
    decreases n,
{
    if n > 0 {
        lemma_bucket_holds(slots, meta, p, n - 1);
        let before = bucket(slots, meta, p, n - 1);
        let now = bucket(slots, meta, p, n);
        assert forall|row: int|
            0 <= row < n && #[trigger] takes_part(meta, row) && place_of_row(slots, meta, row)
                == Some(p) implies now.contains(row as usize) by {
            if row < n - 1 {
                assert(before.contains(row as usize));
                let i = choose|i: int| 0 <= i < before.len() && before[i] == row as usize;
                assert(now[i] == row as usize);
            } else {
                assert(now[now.len() - 1] == row as usize);
            }
        }
        assert forall|i: int| 0 <= i < now.len() implies {
            let row = #[trigger] now[i];
            row < n && takes_part(meta, row as int) && place_of_row(slots, meta, row as int)
                == Some(p)
        } by {
            if i < before.len() {
                assert(now[i] == before[i]);
            }
        }
    }
}

/// How many of the first `n` rows take part.
pub open spec fn parts_taken(meta: DispatchMeta, n: int) -> nat
    decreases n,
{
    if n <= 0 {
        0
    } else {
        parts_taken(meta, n - 1) + if takes_part(meta, n - 1) {
            1nat
        } else {
            0nat
        }
    }
}

/// How many rows the first `k` buckets hold.
pub open spec fn held(b: Seq<Seq<usize>>, k: int) -> nat
    decreases k,
{
    if k <= 0 {
        0
    } else {
        held(b, k - 1) + b[k - 1].len()
    }
}

proof fn lemma_held_push(b: Seq<Seq<usize>>, p: int, x: usize, k: int)
    requires
        0 <= p < b.len(),
        0 <= k <= b.len(),
    ensures
        held(b.update(p, b[p].push(x)), k) == held(b, k) + if p < k {
            1nat
        } else {
            0nat
        },
    decreases k,
{
    if k > 0 {
        lemma_held_push(b, p, x, k - 1);
    }
}

/// Buckets as sequences.
pub open spec fn row_lists(v: Seq<Vec<usize>>) -> Seq<Seq<usize>> {
    Seq::new(v.len(), |i: int| v[i]@)
}

/// The buckets of all models.
pub open spec fn buckets_of(slots: Seq<LoadedDispatchSlot>, meta: DispatchMeta, n: int) -> Seq<
    Seq<usize>,
> {
    Seq::new(slots.len(), |p: int| bucket(slots, meta, p, n))
}

/// Sorts the first `n` rows by their models.
pub fn bucket_rows(slots: &Vec<LoadedDispatchSlot>, meta: &DispatchMeta, n: usize) -> (r: Result<
    (Vec<Vec<usize>>, usize),
    DispatchError,
>)
    requires
        meta_whole(*meta),
        n <= meta.n_rows,
    ensures
        match unknown_slot(slots@, *meta, n as int) {
            Some(s) => r == Err::<(Vec<Vec<usize>>, usize), DispatchError>(
                DispatchError::UnknownSlot { slot: s },
            ),
            None => r matches Ok((b, active)) && row_lists(b@) == buckets_of(
                slots@,
                *meta,
                n as int,
            ) && active == parts_taken(*meta, n as int) && active <= n && held(
                row_lists(b@),
                b@.len() as int,
            ) == active,
        },
{
    let k: usize = slots.len();
    let mut buckets: Vec<Vec<usize>> = Vec::new();
    let mut j: usize = 0;
    while j < k
        invariant
            j <= k,
            buckets@.len() == j,
            forall|q: int| 0 <= q < j ==> (#[trigger] buckets@[q])@.len() == 0,
            held(row_lists(buckets@), j as int) == 0,
        decreases k - j,
    {
        let ghost before = row_lists(buckets@);
        buckets.push(Vec::new());
        proof {
            assert(row_lists(buckets@).drop_last() =~= before);
            lemma_held_prefix(row_lists(buckets@), before, j as int);
        }
        j += 1;
    }
    assert forall|q: int| 0 <= q < k implies #[trigger] row_lists(buckets@)[q] == bucket(
        slots@,
        *meta,
        q,
        0,
    ) by {
        assert(buckets@[q]@ =~= Seq::empty());
    }
    assert(row_lists(buckets@) =~= buckets_of(slots@, *meta, 0));
    let mut active: usize = 0;
    let mut row: usize = 0;
    while row < n
        invariant
            row <= n,
            n <= meta.n_rows,
            meta_whole(*meta),
            k == slots@.len(),
            buckets@.len() == k,
            active <= row,
            active == parts_taken(*meta, row as int),
            unknown_slot(slots@, *meta, row as int) is None,
            row_lists(buckets@) == buckets_of(slots@, *meta, row as int),
            held(row_lists(buckets@), k as int) == active,
        decreases n - row,
    {
        if meta.active[row] != 0 {
            active += 1;
            let slot: i32 = meta.slot_id[row];
            let p: usize = match find_slot(slots, slot) {
                None => {
                    proof {
                        lemma_unknown_lasts(slots@, *meta, row + 1, n as int);
                    }
                    return Err(DispatchError::UnknownSlot { slot });
                },
                Some(p) => p,
            };
            let ghost before = row_lists(buckets@);
            buckets[p].push(row);
            proof {
                lemma_held_push(before, p as int, row, k as int);
                assert(row_lists(buckets@) =~= before.update(p as int, before[p as int].push(row)));
                assert(row_lists(buckets@) =~= buckets_of(slots@, *meta, row + 1));
            }
        } else {
            assert(buckets_of(slots@, *meta, row + 1) =~= buckets_of(slots@, *meta, row as int));
        }
        row += 1;
    }
    Ok((buckets, active))
}

proof fn lemma_held_prefix(a: Seq<Seq<usize>>, b: Seq<Seq<usize>>, k: int)
    requires
        0 <= k <= b.len(),
        b.len() <= a.len(),
        forall|i: int| 0 <= i < k ==> a[i] == #[trigger] b[i],
    ensures
        held(a, k) == held(b, k),
    decreases k,
{
    if k > 0 {
        lemma_held_prefix(a, b, k - 1);
        assert(a[k - 1] == b[k - 1]);
    }
}

/// What a row is held against: its own threshold, or zero.
pub open spec fn row_threshold(s: LoadedDispatchSlot, meta: DispatchMeta, row: int) -> u32 {
    match s.threshold_mode {
        DispatchThresholdMode::Tau => meta.tau_used@[row],
        DispatchThresholdMode::Zero => 0,
    }
}

/// What a model makes of a row.
pub open spec fn scored(
    m: spec_fn(SingleOp) -> u32,
    s: LoadedDispatchSlot,
    b: BatchModel,
    meta: DispatchMeta,
    row: int,
) -> Result<RowResult, TraverseError> {
    tail_result(
        m,
        s.model,
        &s.plan,
        b.row(row),
        row_threshold(s, meta, row),
        true,
        s.base_score,
        0,
    )
}

/// Whether that is what a model makes of a row.
pub open spec fn comes_to(
    m: spec_fn(SingleOp) -> u32,
    s: LoadedDispatchSlot,
    b: BatchModel,
    meta: DispatchMeta,
    row: int,
    score: u32,
    pass: bool,
    visited: i32,
) -> bool {
    match scored(m, s, b, meta, row) {
        Ok(x) => score == x.score && pass == x.pass && visited == x.visited,
        Err(_) => false,
    }
}

/// Why the first of the first `k` rows of a bucket that fails does so.
pub open spec fn bucket_fault(
    m: spec_fn(SingleOp) -> u32,
    s: LoadedDispatchSlot,
    b: BatchModel,
    meta: DispatchMeta,
    rows: Seq<usize>,
    k: int,
) -> Option<TraverseError>
    decreases k,
{
    if k <= 0 {
        None
    } else {
        match bucket_fault(m, s, b, meta, rows, k - 1) {
            Some(e) => Some(e),
            None => match scored(m, s, b, meta, rows[k - 1] as int) {
                Err(e) => Some(e),
                Ok(_) => None,
            },
        }
    }
}

proof fn lemma_bucket_fault_lasts(
    m: spec_fn(SingleOp) -> u32,
    s: LoadedDispatchSlot,
    b: BatchModel,
    meta: DispatchMeta,
    rows: Seq<usize>,
    n: int,
    k: int,
)
    requires
        n <= k,
        bucket_fault(m, s, b, meta, rows, n) is Some,
    ensures
        bucket_fault(m, s, b, meta, rows, k) == bucket_fault(m, s, b, meta, rows, n),
    decreases k - n,
{
    if n < k {
        lemma_bucket_fault_lasts(m, s, b, meta, rows, n, k - 1);
    }
}

/// What a model made of its rows.
#[derive(Debug)]
pub struct DispatchSlotRun {
    pub scores: Vec<u32>,
    pub passes: Vec<bool>,
    pub visits: Vec<i32>,
    pub visit_hist: Vec<u64>,
    pub reject_cnt: usize,
}

/// How many of the first `k` rows passed.
pub open spec fn passed(s: Seq<bool>, k: int) -> nat
    decreases k,
{
    if k <= 0 {
        0
    } else {
        passed(s, k - 1) + if s[k - 1] {
            1nat
        } else {
            0nat
        }
    }
}

proof fn lemma_passed_push(s: Seq<bool>, x: bool, k: int)
    requires
        0 <= k <= s.len(),
    ensures
        passed(s.push(x), k) == passed(s, k),
    decreases k,
{
    if k > 0 {
        lemma_passed_push(s, x, k - 1);
    }
}

/// Whether a run holds what a model makes of row `i` of its bucket.
pub open spec fn run_holds(
    m: spec_fn(SingleOp) -> u32,
    run: DispatchSlotRun,
    s: LoadedDispatchSlot,
    b: BatchModel,
    meta: DispatchMeta,
    rows: Seq<usize>,
    i: int,
) -> bool {
    comes_to(
        m,
        s,
        b,
        meta,
        rows[i] as int,
        run.scores@[i],
        run.passes@[i],
        run.visits@[i],
    )
}

/// Whether a model can score rows of a batch.
pub open spec fn slot_ready(s: LoadedDispatchSlot) -> bool {
    plan_ready(s.plan) && s.plan.n_trees < usize::MAX
}

/// Lets a model score its rows, in turn. The first row that fails ends it.
pub fn run_dispatch_exact_slot<A: Fn(SingleOp) -> u32>(
    arith: &A,
    slot: &LoadedDispatchSlot,
    batch: &FeatureBatch,
    meta: &DispatchMeta,
    rows: &Vec<usize>,
) -> (r: Result<DispatchSlotRun, TraverseError>)
    requires
        answers(*arith),
        slot_ready(*slot),
        features_whole(batch@),
        meta_whole(*meta),
        meta.n_rows == batch.n_rows,
        forall|i: int| 0 <= i < rows@.len() ==> #[trigger] rows@[i] < batch.n_rows,
    ensures
        r matches Ok(run) ==> {
            &&& run.scores@.len() == rows@.len()
            &&& run.passes@.len() == rows@.len()
            &&& run.visits@.len() == rows@.len()
            &&& run.reject_cnt == passed(run.passes@, rows@.len() as int)
            &&& run.reject_cnt <= rows@.len()
            &&& counts_of(run.visit_hist@) == visit_histogram(
                run.visits@,
                slot.plan.n_trees as nat,
            )
        },
        forall|m: spec_fn(SingleOp) -> u32| #[trigger]
            follows(*arith, m) ==> match bucket_fault(
                m,
                *slot,
                batch@,
                *meta,
                rows@,
                rows@.len() as int,
            ) {
                Some(e) => r == Err::<DispatchSlotRun, TraverseError>(e),
                None => r is Ok && forall|i: int|
                    0 <= i < rows@.len() ==> #[trigger] run_holds(
                        m,
                        r->Ok_0,
                        *slot,
                        batch@,
                        *meta,
                        rows@,
                        i,
                    ),
            },
{
    let n: usize = rows.len();
    let mut scores: Vec<u32> = Vec::new();
    let mut passes: Vec<bool> = Vec::new();
    let mut visits: Vec<i32> = Vec::new();
    let mut rejects: usize = 0;
    let mut i: usize = 0;
    while i < n
        invariant
            answers(*arith),
            slot_ready(*slot),
            features_whole(batch@),
            meta_whole(*meta),
            meta.n_rows == batch.n_rows,
            forall|k: int| 0 <= k < rows@.len() ==> #[trigger] rows@[k] < batch.n_rows,
            i <= n,
            n == rows@.len(),
            scores@.len() == i,
            passes@.len() == i,
            visits@.len() == i,
            rejects <= i,
            rejects == passed(passes@, i as int),
            forall|m: spec_fn(SingleOp) -> u32| #[trigger]
                follows(*arith, m) ==> bucket_fault(
                    m,
                    *slot,
                    batch@,
                    *meta,
                    rows@,
                    i as int,
                ) is None,
            forall|m: spec_fn(SingleOp) -> u32, k: int| #[trigger]
                follows(*arith, m) && 0 <= k < i ==> comes_to(
                    m,
                    *slot,
                    batch@,
                    *meta,
                    rows@[k] as int,
                    #[trigger] scores@[k],
                    passes@[k],
                    visits@[k],
                ),
        decreases n - i,
    {
        let row: usize = rows[i];
        assert(batch@.has_features(row as int));
        let threshold: u32 = match slot.threshold_mode {
            DispatchThresholdMode::Tau => meta.tau_used[row],
            DispatchThresholdMode::Zero => 0,
        };
        let feat: Vec<u32> = batch.row(row);
        match run_tail(
            arith,
            &slot.model,
            &slot.plan,
            feat.as_slice(),
            threshold,
            true,
            slot.base_score,
            0,
        ) {
            Err(e) => {
                assert forall|m: spec_fn(SingleOp) -> u32| #[trigger]
                    follows(*arith, m) implies bucket_fault(
                    m,
                    *slot,
                    batch@,
                    *meta,
                    rows@,
                    n as int,
                ) == Some(e) by {
                    assert(bucket_fault(m, *slot, batch@, *meta, rows@, i + 1) == Some(e));
                    lemma_bucket_fault_lasts(m, *slot, batch@, *meta, rows@, i + 1, n as int);
                }
                return Err(e);
            },
            Ok(x) => {
                let ghost (s0, p0, v0) = (scores@, passes@, visits@);
                scores.push(x.score);
                passes.push(x.pass);
                visits.push(x.visited);
                proof {
                    lemma_passed_push(p0, x.pass, i as int);
                    assert forall|m: spec_fn(SingleOp) -> u32, k: int| #[trigger]
                        follows(*arith, m) && 0 <= k < i + 1 implies comes_to(
                        m,
                        *slot,
                        batch@,
                        *meta,
                        rows@[k] as int,
                        #[trigger] scores@[k],
                        passes@[k],
                        visits@[k],
                    ) by {
                        if k < i {
                            assert(scores@[k] == s0[k]);
                            assert(passes@[k] == p0[k]);
                            assert(visits@[k] == v0[k]);
                        }
                    }
                }
                if x.pass {
                    rejects += 1;
                }
            },
        }
        i += 1;
    }
    let visit_hist: Vec<u64> = histogram_from_visits(visits.as_slice(), slot.plan.n_trees);
    let run: DispatchSlotRun = DispatchSlotRun {
        scores,
        passes,
        visits,
        visit_hist,
        reject_cnt: rejects,
    };
    assert forall|m: spec_fn(SingleOp) -> u32, k: int| #[trigger]
        follows(*arith, m) && 0 <= k < n implies #[trigger] run_holds(
        m,
        run,
        *slot,
        batch@,
        *meta,
        rows@,
        k,
    ) by {
        assert(run.scores@[k] == scores@[k]);
    }
    Ok(run)
}

/// Why the first row that fails does so, over the first `k` models in turn.
pub open spec fn dispatch_fault(
    m: spec_fn(SingleOp) -> u32,
    slots: Seq<LoadedDispatchSlot>,
    b: BatchModel,
    meta: DispatchMeta,
    n: int,
    k: int,
) -> Option<TraverseError>
    decreases k,
{
    if k <= 0 {
        None
    } else {
        match dispatch_fault(m, slots, b, meta, n, k - 1) {
            Some(e) => Some(e),
            None => {
                let rows = bucket(slots, meta, k - 1, n);
                bucket_fault(m, slots[k - 1], b, meta, rows, rows.len() as int)
            },
        }
    }
}

proof fn lemma_dispatch_fault_lasts(
    m: spec_fn(SingleOp) -> u32,
    slots: Seq<LoadedDispatchSlot>,
    b: BatchModel,
    meta: DispatchMeta,
    n: int,
    k: int,
    j: int,
)
    requires
        k <= j,
        dispatch_fault(m, slots, b, meta, n, k) is Some,
    ensures
        dispatch_fault(m, slots, b, meta, n, j) == dispatch_fault(m, slots, b, meta, n, k),
    decreases j - k,
{
    if k < j {
        lemma_dispatch_fault_lasts(m, slots, b, meta, n, k, j - 1);
    }
}

/// What a model did: where it stands, how many rows it scored and rejected, and how many trees
/// they visited.
#[derive(Debug)]
pub struct SlotDetail {
    pub place: usize,
    pub rows: usize,
    pub reject_cnt: usize,
    pub visit_hist: Vec<u64>,
}

/// What became of the rows.
#[derive(Debug)]
pub struct DispatchRun {
    pub scores: Vec<u32>,
    pub passes: Vec<bool>,
    pub visits: Vec<i32>,
    pub active_cnt: usize,
    pub total_reject: usize,
    pub visit_hist: Vec<u64>,
    pub details: Vec<SlotDetail>,
}

/// What becomes of one row: a row that takes no part has no score, does not pass and visits no
/// tree.
pub open spec fn row_outcome(
    m: spec_fn(SingleOp) -> u32,
    slots: Seq<LoadedDispatchSlot>,
    b: BatchModel,
    meta: DispatchMeta,
    k: int,
    row: int,
) -> (u32, bool, i32) {
    let p = place_of_row(slots, meta, row);
    if takes_part(meta, row) && p is Some && p->Some_0 < k {
        let x = scored(m, slots[p->Some_0], b, meta, row)->Ok_0;
        (x.score, x.pass, x.visited)
    } else {
        (NAN, false, 0)
    }
}

/// Two counts added place by place, the shorter one made longer.
pub open spec fn merged(a: Seq<int>, b: Seq<int>) -> Seq<int> {
    Seq::new(
        if a.len() < b.len() {
            b.len()
        } else {
            a.len()
        },
        |i: int|
            (if i < a.len() {
                a[i]
            } else {
                0
            }) + (if i < b.len() {
                b[i]
            } else {
                0
            }),
    )
}

/// The visits of all details, counted together.
pub open spec fn merged_hist(d: Seq<SlotDetail>, k: int) -> Seq<int>
    decreases k,
{
    if k <= 0 {
        seq![0]
    } else {
        merged(merged_hist(d, k - 1), counts_of(d[k - 1].visit_hist@))
    }
}

/// How many rows the details count as rejected.
pub open spec fn rejected(d: Seq<SlotDetail>, k: int) -> nat
    decreases k,
{
    if k <= 0 {
        0
    } else {
        rejected(d, k - 1) + d[k - 1].reject_cnt as nat
    }
}

/// No place of a count holds more than there were visits.
proof fn lemma_histogram_within(visits: Seq<i32>, max_trees: nat)
    ensures
        visit_histogram(visits, max_trees).len() == max_trees + 1,
        forall|q: int|
            0 <= q <= max_trees ==> 0 <= #[trigger] visit_histogram(visits, max_trees)[q]
                <= visits.len(),
    decreases visits.len(),
{
    if visits.len() > 0 {
        lemma_histogram_within(visits.drop_last(), max_trees);
    }
}

proof fn lemma_rejected_push(d: Seq<SlotDetail>, x: SlotDetail, k: int)
    requires
        0 <= k <= d.len(),
    ensures
        rejected(d.push(x), k) == rejected(d, k),
        merged_hist(d.push(x), k) == merged_hist(d, k),
    decreases k,
{
    if k > 0 {
        lemma_rejected_push(d, x, k - 1);
        assert(d.push(x)[k - 1] == d[k - 1]);
    }
}

fn merge_counts(all: &mut Vec<u64>, more: &Vec<u64>, Ghost(a): Ghost<int>, Ghost(b): Ghost<int>)
    requires
        0 <= a,
        0 <= b,
        a + b <= u64::MAX,
        forall|i: int| 0 <= i < old(all)@.len() ==> #[trigger] old(all)@[i] <= a,
        forall|i: int| 0 <= i < more@.len() ==> #[trigger] more@[i] <= b,
    ensures
        counts_of(final(all)@) == merged(counts_of(old(all)@), counts_of(more@)),
        forall|i: int| 0 <= i < final(all)@.len() ==> #[trigger] final(all)@[i] <= a + b,
{
    let ghost before = all@;
    while all.len() < more.len()
        invariant
            before.len() <= all@.len(),
            all@.len() <= before.len() || all@.len() <= more@.len(),
            forall|i: int|
                0 <= i < all@.len() ==> #[trigger] all@[i] == (if i < before.len() {
                    before[i]
                } else {
                    0
                }),
        decreases more@.len() - all@.len(),
    {
        all.push(0);
    }
    let ghost wide = all@;
    let mut i: usize = 0;
    while i < more.len()
        invariant
            i <= more@.len() <= all@.len(),
            wide.len() == all@.len(),
            0 <= a,
            0 <= b,
            a + b <= u64::MAX,
            forall|k: int| 0 <= k < before.len() ==> #[trigger] before[k] <= a,
            forall|k: int|
                0 <= k < wide.len() ==> #[trigger] wide[k] == (if k < before.len() {
                    before[k]
                } else {
                    0
                }),
            forall|k: int| 0 <= k < more@.len() ==> #[trigger] more@[k] <= b,
            forall|k: int|
                0 <= k < all@.len() ==> #[trigger] all@[k] == wide[k] + (if k < i {
                    more@[k] as int
                } else {
                    0
                }),
        decreases more@.len() - i,
    {
        let c: u64 = all[i];
        assert(wide[i as int] <= a);
        all[i] = c + more[i];
        i += 1;
    }
    assert(counts_of(all@) =~= merged(counts_of(before), counts_of(more@)));
    assert forall|k: int| 0 <= k < all@.len() implies #[trigger] all@[k] <= a + b by {
        assert(wide[k] <= a);
    }
}

/// Whether what became of the rows is what their models make of them.
pub open spec fn dispatched(
    m: spec_fn(SingleOp) -> u32,
    run: DispatchRun,
    slots: Seq<LoadedDispatchSlot>,
    b: BatchModel,
    meta: DispatchMeta,
    n: int,
    k: int,
) -> bool {
    &&& run.scores@.len() == n
    &&& run.passes@.len() == n
    &&& run.visits@.len() == n
    &&& forall|row: int|
        0 <= row < n ==> (#[trigger] run.scores@[row], run.passes@[row], run.visits@[row])
            == row_outcome(m, slots, b, meta, k, row)
}

/// The places of the models that have rows, among the first `k`.
pub open spec fn used_places(slots: Seq<LoadedDispatchSlot>, meta: DispatchMeta, n: int, k: int) -> Seq<
    int,
>
    decreases k,
{
    if k <= 0 {
        Seq::empty()
    } else {
        let before = used_places(slots, meta, n, k - 1);
        if bucket(slots, meta, k - 1, n).len() > 0 {
            before.push(k - 1)
        } else {
            before
        }
    }
}

/// Whether a detail is that of a model with rows.
pub open spec fn detailed(
    d: SlotDetail,
    slots: Seq<LoadedDispatchSlot>,
    meta: DispatchMeta,
    n: int,
) -> bool {
    &&& d.place < slots.len()
    &&& d.rows == bucket(slots, meta, d.place as int, n).len()
    &&& d.visit_hist@.len() == slots[d.place as int].plan.n_trees + 1
}

/// Whether the rows of a bucket pass.
pub open spec fn bucket_passes(
    m: spec_fn(SingleOp) -> u32,
    s: LoadedDispatchSlot,
    b: BatchModel,
    meta: DispatchMeta,
    rows: Seq<usize>,
) -> Seq<bool> {
    Seq::new(rows.len(), |i: int| scored(m, s, b, meta, rows[i] as int)->Ok_0.pass)
}

/// How many trees the rows of a bucket visit.
pub open spec fn bucket_visits(
    m: spec_fn(SingleOp) -> u32,
    s: LoadedDispatchSlot,
    b: BatchModel,
    meta: DispatchMeta,
    rows: Seq<usize>,
) -> Seq<i32> {
    Seq::new(rows.len(), |i: int| scored(m, s, b, meta, rows[i] as int)->Ok_0.visited)
}

/// Whether a detail counts the rows of its model right.
pub open spec fn counted_right(
    m: spec_fn(SingleOp) -> u32,
    d: SlotDetail,
    slots: Seq<LoadedDispatchSlot>,
    b: BatchModel,
    meta: DispatchMeta,
    n: int,
) -> bool {
    let s = slots[d.place as int];
    let rows = bucket(slots, meta, d.place as int, n);
    &&& d.reject_cnt == passed(bucket_passes(m, s, b, meta, rows), rows.len() as int)
    &&& counts_of(d.visit_hist@) == visit_histogram(
        bucket_visits(m, s, b, meta, rows),
        s.plan.n_trees as nat,
    )
}

/// The places that details are for.
pub open spec fn places_of(d: Seq<SlotDetail>) -> Seq<int> {
    Seq::new(d.len(), |i: int| d[i].place as int)
}

/// Sends the first rows of a batch to their models, and gathers what becomes of them.
#[verifier::rlimit(60)]
pub fn run_dispatch_l2_exact<A: Fn(SingleOp) -> u32>(
    arith: &A,
    slots: &Vec<LoadedDispatchSlot>,
    batch: &FeatureBatch,
    meta: &DispatchMeta,
    max_rows: Option<usize>,
) -> (r: Result<DispatchRun, DispatchError>)
    requires
        answers(*arith),
        features_whole(batch@),
        meta_whole(*meta),
        meta.n_rows == batch.n_rows,
        forall|i: int| 0 <= i < slots@.len() ==> slot_ready(#[trigger] slots@[i]),
    ensures
        ({
            let n = match max_rows {
                Some(x) => if x <= batch.n_rows {
                    x as int
                } else {
                    batch.n_rows as int
                },
                None => batch.n_rows as int,
            };
            let count = slots@.len() as int;
            match unknown_slot(slots@, *meta, n) {
                Some(s) => r == Err::<DispatchRun, DispatchError>(
                    DispatchError::UnknownSlot { slot: s },
                ),
                None => {
                    &&& forall|m: spec_fn(SingleOp) -> u32| #[trigger]
                        follows(*arith, m) ==> match dispatch_fault(
                            m,
                            slots@,
                            batch@,
                            *meta,
                            n,
                            count,
                        ) {
                            Some(e) => r == Err::<DispatchRun, DispatchError>(
                                DispatchError::Astray(e),
                            ),
                            None => r is Ok && dispatched(
                                m,
                                r->Ok_0,
                                slots@,
                                batch@,
                                *meta,
                                n,
                                count,
                            ) && forall|i: int|
                                0 <= i < r->Ok_0.details@.len() ==> counted_right(
                                    m,
                                    #[trigger] r->Ok_0.details@[i],
                                    slots@,
                                    batch@,
                                    *meta,
                                    n,
                                ),
                        }
                    &&& r matches Ok(x) ==> {
                        &&& x.active_cnt == parts_taken(*meta, n)
                        &&& places_of(x.details@) == used_places(slots@, *meta, n, count)
                        &&& forall|i: int|
                            0 <= i < x.details@.len() ==> detailed(
                                #[trigger] x.details@[i],
                                slots@,
                                *meta,
                                n,
                            )
                        &&& x.total_reject == rejected(x.details@, x.details@.len() as int)
                        &&& counts_of(x.visit_hist@) == merged_hist(
                            x.details@,
                            x.details@.len() as int,
                        )
                    }
                },
            }
        }),
{
    let n: usize = match max_rows {
        Some(x) => if x <= batch.n_rows {
            x
        } else {
            batch.n_rows
        },
        None => batch.n_rows,
    };
    let (buckets, active_cnt): (Vec<Vec<usize>>, usize) = match bucket_rows(slots, meta, n) {
        Ok(x) => x,
        Err(e) => {
            return Err(e);
        },
    };
    let count: usize = slots.len();
    let ghost lists = row_lists(buckets@);
    assert(lists.len() == buckets@.len());
    let mut scores: Vec<u32> = vec![NAN; n];
    let mut passes: Vec<bool> = vec![false; n];
    let mut visits: Vec<i32> = vec![0i32; n];
    let mut total_reject: usize = 0;
    let mut hist: Vec<u64> = vec![0u64; 1];
    let mut details: Vec<SlotDetail> = Vec::new();
    assert(counts_of(hist@) =~= seq![0]);
    assert(places_of(details@) =~= Seq::empty());
    assert forall|m: spec_fn(SingleOp) -> u32, row: int| 0 <= row < n implies (
    #[trigger] scores@[row], passes@[row], visits@[row]) == #[trigger] row_outcome(
        m,
        slots@,
        batch@,
        *meta,
        0,
        row,
    ) by {
        lemma_place_range(slots@, meta.slot_id@[row], slots@.len() as int);
    }
    let mut k: usize = 0;
    while k < count
        invariant
            answers(*arith),
            features_whole(batch@),
            meta_whole(*meta),
            meta.n_rows == batch.n_rows,
            n == (match max_rows {
                Some(x) => if x <= batch.n_rows {
                    x
                } else {
                    batch.n_rows
                },
                None => batch.n_rows,
            }),
            forall|i: int| 0 <= i < slots@.len() ==> slot_ready(#[trigger] slots@[i]),
            k <= count,
            count == slots@.len(),
            buckets@.len() == count,
            lists == row_lists(buckets@),
            lists == buckets_of(slots@, *meta, n as int),
            held(lists, count as int) == active_cnt,
            active_cnt <= n,
            unknown_slot(slots@, *meta, n as int) is None,
            scores@.len() == n,
            passes@.len() == n,
            visits@.len() == n,
            total_reject == rejected(details@, details@.len() as int),
            total_reject <= held(lists, k as int),
            counts_of(hist@) == merged_hist(details@, details@.len() as int),
            forall|i: int| 0 <= i < hist@.len() ==> #[trigger] hist@[i] <= held(lists, k as int),
            places_of(details@) == used_places(slots@, *meta, n as int, k as int),
            forall|i: int|
                0 <= i < details@.len() ==> detailed(
                    #[trigger] details@[i],
                    slots@,
                    *meta,
                    n as int,
                ),
            forall|m: spec_fn(SingleOp) -> u32| #[trigger]
                follows(*arith, m) ==> dispatch_fault(
                    m,
                    slots@,
                    batch@,
                    *meta,
                    n as int,
                    k as int,
                ) is None,
            forall|m: spec_fn(SingleOp) -> u32, i: int| #[trigger]
                follows(*arith, m) && 0 <= i < details@.len() ==> counted_right(
                    m,
                    #[trigger] details@[i],
                    slots@,
                    batch@,
                    *meta,
                    n as int,
                ),
            forall|m: spec_fn(SingleOp) -> u32, row: int| #[trigger]
                follows(*arith, m) && 0 <= row < n ==> (
                #[trigger] scores@[row], passes@[row], visits@[row]) == row_outcome(
                    m,
                    slots@,
                    batch@,
                    *meta,
                    k as int,
                    row,
                ),
        decreases count - k,
    {
        let rows: &Vec<usize> = &buckets[k];
        let ghost b = bucket(slots@, *meta, k as int, n as int);
        proof {
            assert(lists[k as int] == rows@);
            lemma_bucket_holds(slots@, *meta, k as int, n as int);
            lemma_held_grows(lists, k + 1, count as int);
        }
        if rows.len() > 0 {
            let run: DispatchSlotRun = match run_dispatch_exact_slot(
                arith,
                &slots[k],
                batch,
                meta,
                rows,
            ) {
                Ok(x) => x,
                Err(e) => {
                    assert forall|m: spec_fn(SingleOp) -> u32| #[trigger]
                        follows(*arith, m) implies dispatch_fault(
                        m,
                        slots@,
                        batch@,
                        *meta,
                        n as int,
                        count as int,
                    ) == Some(e) by {
                        assert(dispatch_fault(m, slots@, batch@, *meta, n as int, k + 1) == Some(e));
                        lemma_dispatch_fault_lasts(
                            m,
                            slots@,
                            batch@,
                            *meta,
                            n as int,
                            k + 1,
                            count as int,
                        );
                    }
                    return Err(DispatchError::Astray(e));
                },
            };
            let ghost old_scores = scores@;
            let ghost old_passes = passes@;
            let ghost old_visits = visits@;
            let mut i: usize = 0;
            while i < rows.len()
                invariant
                    i <= rows@.len(),
                    rows@ == b,
                    b == bucket(slots@, *meta, k as int, n as int),
                    forall|j: int| 0 <= j < b.len() ==> #[trigger] b[j] < n,
                    run.scores@.len() == rows@.len(),
                    run.passes@.len() == rows@.len(),
                    run.visits@.len() == rows@.len(),
                    scores@.len() == n,
                    passes@.len() == n,
                    visits@.len() == n,
                    old_scores.len() == n,
                    old_passes.len() == n,
                    old_visits.len() == n,
                    k < slots@.len(),
                    forall|m: spec_fn(SingleOp) -> u32, j: int| #[trigger]
                        follows(*arith, m) && 0 <= j < rows@.len() ==> #[trigger] run_holds(
                            m,
                            run,
                            slots@[k as int],
                            batch@,
                            *meta,
                            rows@,
                            j,
                        ),
                    forall|row: int|
                        0 <= row < n && !b.subrange(0, i as int).contains(row as usize) ==> (
                        #[trigger] scores@[row], passes@[row], visits@[row]) == (
                            old_scores[row],
                            old_passes[row],
                            old_visits[row],
                        ),
                    forall|m: spec_fn(SingleOp) -> u32, row: int| #[trigger]
                        follows(*arith, m) && 0 <= row < n && b.subrange(0, i as int).contains(
                            row as usize,
                        ) ==> comes_to(
                            m,
                            slots@[k as int],
                            batch@,
                            *meta,
                            row,
                            #[trigger] scores@[row],
                            passes@[row],
                            visits@[row],
                        ),
                decreases rows@.len() - i,
            {
                let row: usize = rows[i];
                assert(b[i as int] < n);
                let ghost (s0, p0, v0) = (scores@, passes@, visits@);
                scores.set(row, run.scores[i]);
                passes.set(row, run.passes[i]);
                visits.set(row, run.visits[i]);
                proof {
                    let done = b.subrange(0, i as int);
                    let next = b.subrange(0, i + 1);
                    assert(next =~= done.push(row));
                    assert forall|q: int| 0 <= q < n && !next.contains(q as usize) implies (
                    #[trigger] scores@[q], passes@[q], visits@[q]) == (
                        old_scores[q],
                        old_passes[q],
                        old_visits[q],
                    ) by {
                        assert(next[i as int] == row);
                        assert(q != row);
                        if done.contains(q as usize) {
                            let j = choose|j: int| 0 <= j < done.len() && done[j] == q as usize;
                            assert(next[j] == q as usize);
                        }
                        assert(scores@[q] == s0[q]);
                        assert(passes@[q] == p0[q]);
                        assert(visits@[q] == v0[q]);
                    }
                    assert forall|m: spec_fn(SingleOp) -> u32, q: int| #[trigger]
                        follows(*arith, m) && 0 <= q < n && next.contains(
                            q as usize,
                        ) implies comes_to(
                        m,
                        slots@[k as int],
                        batch@,
                        *meta,
                        q,
                        #[trigger] scores@[q],
                        passes@[q],
                        visits@[q],
                    ) by {
                        if q == row {
                            assert(run_holds(
                                m,
                                run,
                                slots@[k as int],
                                batch@,
                                *meta,
                                rows@,
                                i as int,
                            ));
                        } else {
                            let j = choose|j: int| 0 <= j < next.len() && next[j] == q as usize;
                            assert(next[i as int] == row);
                            assert(j < i);
                            assert(done[j] == q as usize);
                            assert(done.contains(q as usize));
                            assert(scores@[q] == s0[q]);
                            assert(passes@[q] == p0[q]);
                            assert(visits@[q] == v0[q]);
                        }
                    }
                }
                i += 1;
            }
            let rows_here: usize = rows.len();
            proof {
                assert(b.subrange(0, b.len() as int) =~= b);
                lemma_histogram_within(run.visits@, slots@[k as int].plan.n_trees as nat);
                assert forall|q: int| 0 <= q < run.visit_hist@.len() implies #[trigger] run
                    .visit_hist@[q] <= rows_here by {
                    assert(counts_of(run.visit_hist@)[q] == run.visit_hist@[q]);
                }
            }
            merge_counts(
                &mut hist,
                &run.visit_hist,
                Ghost(held(lists, k as int) as int),
                Ghost(rows_here as int),
            );
            let ghost before = details@;
            total_reject += run.reject_cnt;
            details.push(
                SlotDetail {
                    place: k,
                    rows: rows_here,
                    reject_cnt: run.reject_cnt,
                    visit_hist: run.visit_hist,
                },
            );
            proof {
                lemma_rejected_push(before, details@[before.len() as int], before.len() as int);
                assert(details@ =~= before.push(details@[before.len() as int]));
                assert(places_of(details@) =~= places_of(before).push(k as int));
                assert forall|m: spec_fn(SingleOp) -> u32, i: int| #[trigger]
                    follows(*arith, m) && 0 <= i < details@.len() implies counted_right(
                    m,
                    #[trigger] details@[i],
                    slots@,
                    batch@,
                    *meta,
                    n as int,
                ) by {
                    if i < before.len() {
                        assert(details@[i] == before[i]);
                    } else {
                        let s = slots@[k as int];
                        assert forall|j: int| 0 <= j < b.len() implies #[trigger] run_holds(
                            m,
                            run,
                            s,
                            batch@,
                            *meta,
                            b,
                            j,
                        ) by {}
                        assert forall|j: int| 0 <= j < b.len() implies bucket_passes(
                            m,
                            s,
                            batch@,
                            *meta,
                            b,
                        )[j] == run.passes@[j] && bucket_visits(m, s, batch@, *meta, b)[j]
                            == run.visits@[j] by {
                            assert(run_holds(m, run, s, batch@, *meta, b, j));
                        }
                        assert(bucket_passes(m, s, batch@, *meta, b) =~= run.passes@);
                        assert(bucket_visits(m, s, batch@, *meta, b) =~= run.visits@);
                    }
                }
            }
        }
        assert forall|m: spec_fn(SingleOp) -> u32, row: int| #[trigger]
            follows(*arith, m) && 0 <= row < n implies (
        #[trigger] scores@[row], passes@[row], visits@[row]) == row_outcome(
            m,
            slots@,
            batch@,
            *meta,
            k + 1,
            row,
        ) by {
            lemma_place_range(slots@, meta.slot_id@[row], slots@.len() as int);
        }
        k += 1;
    }
    let run: DispatchRun = DispatchRun {
        scores,
        passes,
        visits,
        active_cnt,
        total_reject,
        visit_hist: hist,
        details,
    };
    Ok(run)
}

proof fn lemma_held_grows(b: Seq<Seq<usize>>, k: int, n: int)
    requires
        0 <= k <= n <= b.len(),
    ensures
        held(b, k) <= held(b, n),
    decreases n - k,
{
    if k < n {
        lemma_held_grows(b, k, n - 1);
    }
}

} // verus!
