//! Deciding a row from its first trees.
//!
//! A run goes from checkpoint to checkpoint. At each one the score so far is judged; the first
//! verdict ends the run, and a run without a verdict falls back to all trees.

use crate::arith::{add_values, answers, follows, total, SingleOp};
use crate::bands::{
    fold_slot, lemma_slot_range, prefix_fold_slot, table_sound, LoadedPrefixCheckpoint,
};
use crate::certify::{
    atlases_sound, certified, maybe_prefix_certify, maybe_prefix_certify_plan_fast, network_sound,
    pair_sound, plan_certified, Certifier, LoadedPrefixCertifyPlan, RowAt, RowWork,
};
use crate::descend::{NodeModel, RowModel, RowSource, Rule};
use crate::hot::{hot_span, hot_walk, HotTrees, MAX_TREE_MOVES};
use crate::qs_pack::{PackModel, QsPack};
use crate::qs_prefix::{
    check_checkpoints, checkpoints_error, checkpoints_rise, law_checkpoints_pass_when_rising,
    span_readable,
};
use crate::qs_score::{marks, span, walk, walk_span, ScoreError, Walk, Walked, MAX_TREE_BLOCKS};
use vstd::prelude::*;

verus! {

/// The checkpoint whose score later checkpoints are compared with.
pub const LANDMARK: usize = 64;

/// What rows are judged by, and what of the row the verdict depends on.
pub struct Judge<'a> {
    pub tables: &'a Vec<LoadedPrefixCheckpoint>,
    pub certifier: Certifier<'a>,
    /// Takes the place of tables and certifier where it is there.
    pub plan: Option<&'a LoadedPrefixCertifyPlan>,
    pub fold: i32,
    pub tau: u32,
    pub atlas_tau_bin: usize,
    pub calibration_tau_bin: usize,
}

/// Whether everything that can be looked up is there.
pub open spec fn judge_ready(j: Judge) -> bool {
    match j.plan {
        Some(plan) => forall|i: int|
            0 <= i < plan.checkpoints@.len() ==> pair_sound(#[trigger] plan.checkpoints@[i]),
        None => {
            &&& atlases_sound(j.certifier.atlas)
            &&& network_sound(j.certifier.mlp)
            &&& forall|i: int| 0 <= i < j.tables@.len() ==> table_sound(#[trigger] j.tables@[i]@)
        },
    }
}

/// Whether slot `slot` can be judged.
pub open spec fn slot_ready(j: Judge, slot: int) -> bool {
    j.plan is None ==> slot < j.tables@.len()
}

/// The verdict on a row at a checkpoint.
pub open spec fn judged(
    m: spec_fn(SingleOp) -> u32,
    j: Judge,
    slot: usize,
    checkpoint: usize,
    score: u32,
    evals: int,
    early: int,
    delta_prev: u32,
    delta_from_64: u32,
) -> Option<(bool, u32)> {
    match j.plan {
        Some(plan) => if slot < plan.checkpoints@.len() {
            let c = plan.checkpoints@[slot as int];
            plan_certified(
                m,
                c.table@,
                c.atlas@,
                slot,
                j.fold,
                j.tau,
                j.atlas_tau_bin as int,
                score,
                delta_prev,
                delta_from_64,
            )
        } else {
            None
        },
        None => {
            let t = j.tables@[slot as int]@;
            certified(
                m,
                j.certifier,
                t,
                RowAt {
                    slot,
                    fold_slot: fold_slot(t, j.fold),
                    tau: j.tau,
                    atlas_tau_bin: j.atlas_tau_bin as int,
                    calibration_tau_bin: j.calibration_tau_bin as int,
                    score,
                    delta_prev,
                    delta_from_64,
                },
                RowWork {
                    checkpoint,
                    fold: j.fold,
                    work_evals: evals as u64,
                    trees_used: checkpoint,
                    resolved_early: early as u64,
                },
            )
        },
    }
}

/// How far a run has come.
#[derive(Debug)]
pub struct Progress {
    pub score: u32,
    pub trees_used: usize,
    pub work_evals: u64,
    pub resolved_early: u64,
    /// The score at the checkpoint before.
    pub last: u32,
    /// The score at the landmark.
    pub at_64: Option<u32>,
    /// Whether the checkpoints are recorded.
    pub trace: bool,
    pub scores: Vec<u32>,
    pub works: Vec<u32>,
    pub deltas: Vec<u32>,
    pub resolved: Vec<u32>,
}

/// What is known of how far a run has come.
#[verifier::ext_equal]
pub struct ProgressView {
    pub score: u32,
    pub trees_used: usize,
    pub evals: int,
    pub early: int,
    pub last: u32,
    pub at_64: Option<u32>,
    pub trace: bool,
    pub scores: Seq<u32>,
    pub works: Seq<u32>,
    pub deltas: Seq<u32>,
    pub resolved: Seq<u32>,
}

impl View for Progress {
    type V = ProgressView;

    open spec fn view(&self) -> ProgressView {
        ProgressView {
            score: self.score,
            trees_used: self.trees_used,
            evals: self.work_evals as int,
            early: self.resolved_early as int,
            last: self.last,
            at_64: self.at_64,
            trace: self.trace,
            scores: self.scores@,
            works: self.works@,
            deltas: self.deltas@,
            resolved: self.resolved@,
        }
    }
}

/// Whether slot `slot` can be recorded.
pub open spec fn recordable(st: ProgressView, slot: int) -> bool {
    st.trace ==> slot < st.scores.len() && slot < st.works.len() && slot < st.deltas.len() && slot
        < st.resolved.len()
}

/// A run that has not begun.
pub open spec fn beginning(score: u32, init: u32, trace: bool, slots: nat) -> ProgressView {
    let n = if trace {
        slots
    } else {
        0
    };
    ProgressView {
        score,
        trees_used: 0,
        evals: 0,
        early: 0,
        last: init,
        at_64: None,
        trace,
        scores: Seq::new(n, |i: int| crate::single::NAN),
        works: Seq::new(n, |i: int| 0u32),
        deltas: Seq::new(n, |i: int| 0u32),
        resolved: Seq::new(n, |i: int| 0u32),
    }
}

impl Progress {
    /// A run that has not begun.
    pub fn begin(score: u32, init: u32, trace: bool, slots: usize) -> (r: Progress)
        ensures
            r@ == beginning(score, init, trace, slots as nat),
    {
        let n: usize = if trace {
            slots
        } else {
            0
        };
        let r: Progress = Progress {
            score,
            trees_used: 0,
            work_evals: 0,
            resolved_early: 0,
            last: init,
            at_64: None,
            trace,
            scores: vec![crate::single::NAN; n],
            works: vec![0u32; n],
            deltas: vec![0u32; n],
            resolved: vec![0u32; n],
        };
        assert(r@ =~= beginning(score, init, trace, slots as nat));
        r
    }
}

/// How a stretch of trees is added and compared.
#[derive(Clone, Copy, Debug, PartialEq, Eq, Structural)]
pub struct StepStyle {
    /// Whether the first slot is compared with the start, whatever came before.
    pub resets: bool,
    /// Whether the landmark is marked.
    pub landmark: bool,
    /// Whether the stretch is added up on its own first.
    pub apart: bool,
}

impl StepStyle {
    /// Tree by tree onto the score, with or without both marks.
    pub open spec fn onto(marks: bool) -> StepStyle {
        StepStyle { resets: marks, landmark: marks, apart: false }
    }

    /// Makes [`StepStyle::onto`].
    pub fn tree_by_tree(marks: bool) -> (r: StepStyle)
        ensures
            r == StepStyle::onto(marks),
    {
        StepStyle { resets: marks, landmark: marks, apart: false }
    }
}

/// A stretch of trees up to a checkpoint.
pub struct Step {
    pub slot: usize,
    pub checkpoint: usize,
    /// What its trees gather.
    pub part: Result<Walk, ScoreError>,
    pub style: StepStyle,
}

/// A count as it is recorded.
pub open spec fn recorded(n: int) -> u32 {
    if n <= u32::MAX {
        n as u32
    } else {
        u32::MAX
    }
}

/// The run after a stretch of trees, and the verdict there.
pub open spec fn step(
    m: spec_fn(SingleOp) -> u32,
    j: Judge,
    init: u32,
    st: ProgressView,
    slot: usize,
    checkpoint: usize,
    w: Walk,
    style: StepStyle,
) -> (ProgressView, Option<(bool, u32)>) {
    let score = if style.apart {
        m(SingleOp::Sum(st.score, total(m, 0, w.leaves)))
    } else {
        total(m, st.score, w.leaves)
    };
    let evals = st.evals + w.evals;
    let early = st.early + w.early;
    let delta_prev = m(
        SingleOp::Difference(
            score,
            if slot == 0 && style.resets {
                init
            } else {
                st.last
            },
        ),
    );
    let delta_from_64 = match st.at_64 {
        Some(x) => m(SingleOp::Difference(score, x)),
        None => 0,
    };
    let next = ProgressView {
        score,
        trees_used: checkpoint,
        evals,
        early,
        last: score,
        at_64: if checkpoint == LANDMARK && style.landmark {
            Some(score)
        } else {
            st.at_64
        },
        trace: st.trace,
        scores: if st.trace {
            st.scores.update(slot as int, score)
        } else {
            st.scores
        },
        works: if st.trace {
            st.works.update(slot as int, recorded(evals))
        } else {
            st.works
        },
        deltas: if st.trace {
            st.deltas.update(slot as int, delta_prev)
        } else {
            st.deltas
        },
        resolved: if st.trace {
            st.resolved.update(slot as int, recorded(early))
        } else {
            st.resolved
        },
    };
    (next, judged(m, j, slot, checkpoint, score, evals, early, delta_prev, delta_from_64))
}

/// Where a run has stopped, with the verdict and its checkpoint if there is one.
pub struct Ended {
    pub st: ProgressView,
    pub verdict: Option<(bool, u32, usize)>,
}

/// The run over the steps from `i` on.
pub open spec fn run_steps(
    m: spec_fn(SingleOp) -> u32,
    j: Judge,
    init: u32,
    st: ProgressView,
    steps: Seq<Step>,
    i: int,
) -> Result<Ended, ScoreError>
    decreases steps.len() - i,
{
    if i >= steps.len() {
        Ok(Ended { st, verdict: None })
    } else {
        match steps[i].part {
            Err(e) => Err(e),
            Ok(w) => {
                let s = steps[i];
                let (next, verdict) = step(m, j, init, st, s.slot, s.checkpoint, w, s.style);
                match verdict {
                    Some(v) => Ok(Ended { st: next, verdict: Some((v.0, v.1, s.checkpoint)) }),
                    None => run_steps(m, j, init, next, steps, i + 1),
                }
            },
        }
    }
}

/// What a run returns, as a value of [`run_steps`].
pub open spec fn ended(r: Result<Option<(bool, u32, usize)>, ScoreError>, st: ProgressView) -> Result<
    Ended,
    ScoreError,
> {
    match r {
        Err(e) => Err(e),
        Ok(verdict) => Ok(Ended { st, verdict }),
    }
}

fn judge_at<'a, A: Fn(SingleOp) -> u32>(
    arith: &A,
    judge: &Judge<'a>,
    slot: usize,
    checkpoint: usize,
    score: u32,
    evals: u64,
    early: u64,
    delta_prev: u32,
    delta_from_64: u32,
) -> (r: Option<(bool, u32)>)
    requires
        answers(*arith),
        judge_ready(*judge),
        slot_ready(*judge, slot as int),
    ensures
        forall|m: spec_fn(SingleOp) -> u32| #[trigger]
            follows(*arith, m) ==> r == judged(
                m,
                *judge,
                slot,
                checkpoint,
                score,
                evals as int,
                early as int,
                delta_prev,
                delta_from_64,
            ),
{
    match judge.plan {
        Some(plan) => {
            if slot >= plan.checkpoints.len() {
                return None;
            }
            assert(pair_sound(plan.checkpoints@[slot as int]));
            maybe_prefix_certify_plan_fast(
                arith,
                &plan.checkpoints[slot],
                slot,
                judge.fold,
                judge.tau,
                judge.atlas_tau_bin,
                score,
                delta_prev,
                delta_from_64,
            )
        },
        None => {
            let table: &LoadedPrefixCheckpoint = &judge.tables[slot];
            assert(table_sound(judge.tables@[slot as int]@));
            proof {
                lemma_slot_range(table@, judge.fold);
            }
            maybe_prefix_certify(
                arith,
                &judge.certifier,
                table,
                slot,
                checkpoint,
                judge.fold,
                prefix_fold_slot(table, judge.fold),
                judge.tau,
                judge.atlas_tau_bin,
                judge.calibration_tau_bin,
                score,
                evals,
                checkpoint,
                early,
                delta_prev,
                delta_from_64,
            )
        },
    }
}

fn record(n: u64) -> (r: u32)
    ensures
        r == recorded(n as int),
{
    if n <= u32::MAX as u64 {
        n as u32
    } else {
        u32::MAX
    }
}

/// Takes one step: adds what a stretch of trees gathered and judges the row.
pub fn advance<'a, A: Fn(SingleOp) -> u32>(
    arith: &A,
    judge: &Judge<'a>,
    init: u32,
    st: &mut Progress,
    slot: usize,
    checkpoint: usize,
    w: Walked,
    style: StepStyle,
) -> (r: Option<(bool, u32)>)
    requires
        answers(*arith),
        judge_ready(*judge),
        slot_ready(*judge, slot as int),
        recordable(old(st)@, slot as int),
        old(st).work_evals + w.block_evals <= u64::MAX,
        old(st).resolved_early + w.resolved_early <= u64::MAX,
    ensures
        final(st).work_evals == old(st).work_evals + w.block_evals,
        final(st).resolved_early == old(st).resolved_early + w.resolved_early,
        forall|k: int| recordable(old(st)@, k) ==> #[trigger] recordable(final(st)@, k),
        final(st).trees_used == checkpoint,
        forall|m: spec_fn(SingleOp) -> u32| #[trigger]
            follows(*arith, m) ==> (final(st)@, r) == step(
                m,
                *judge,
                init,
                old(st)@,
                slot,
                checkpoint,
                w@,
                style,
            ),
{
    let ghost before = st@;
    let score: u32 = if style.apart {
        let own: u32 = add_values(arith, 0, &w.leaves, 0);
        arith(SingleOp::Sum(st.score, own))
    } else {
        add_values(arith, st.score, &w.leaves, 0)
    };
    assert(w.leaves@.subrange(0, w.leaves@.len() as int) =~= w.leaves@);
    let against: u32 = if slot == 0 && style.resets {
        init
    } else {
        st.last
    };
    let delta_prev: u32 = arith(SingleOp::Difference(score, against));
    let delta_from_64: u32 = match st.at_64 {
        Some(x) => arith(SingleOp::Difference(score, x)),
        None => 0,
    };
    let evals: u64 = st.work_evals + w.block_evals;
    let early: u64 = st.resolved_early + w.resolved_early;
    if st.trace {
        st.scores[slot] = score;
        st.works[slot] = record(evals);
        st.deltas[slot] = delta_prev;
        st.resolved[slot] = record(early);
    }
    if checkpoint == LANDMARK && style.landmark {
        st.at_64 = Some(score);
    }
    st.last = score;
    st.score = score;
    st.trees_used = checkpoint;
    st.work_evals = evals;
    st.resolved_early = early;
    let verdict: Option<(bool, u32)> = judge_at(
        arith,
        judge,
        slot,
        checkpoint,
        score,
        evals,
        early,
        delta_prev,
        delta_from_64,
    );
    proof {
        assert forall|m: spec_fn(SingleOp) -> u32| #[trigger] follows(*arith, m) implies (
        st@,
        verdict,
        ) == step(m, *judge, init, before, slot, checkpoint, w@, style) by {
            let want = step(m, *judge, init, before, slot, checkpoint, w@, style);
            assert(st@ =~= want.0);
        }
    }
    verdict
}

/// The tree at which stretch `i` begins.
pub open spec fn stretch_start(cps: Seq<usize>, start: int, i: int) -> int {
    if i <= 0 {
        start
    } else {
        cps[i - 1] as int
    }
}

/// The steps over trees that are evaluated node by node.
pub open spec fn hot_steps(
    ns: Seq<NodeModel>,
    starts: Seq<int>,
    row: RowModel,
    rule: Rule,
    cps: Seq<usize>,
    slots: Seq<usize>,
) -> Seq<Step> {
    Seq::new(
        cps.len(),
        |i: int|
            Step {
                slot: slots[i],
                checkpoint: cps[i],
                part: hot_walk(ns, starts, row, rule, stretch_start(cps, 0, i), cps[i] as int),
                style: StepStyle::onto(true),
            },
    )
}

/// The run over trees that are evaluated node by node, checkpoints tested first.
pub open spec fn hot_phase(
    m: spec_fn(SingleOp) -> u32,
    j: Judge,
    init: u32,
    st: ProgressView,
    count: int,
    steps: Seq<Step>,
    cps: Seq<usize>,
) -> Result<Ended, ScoreError> {
    match checkpoints_error(cps, count) {
        Some(e) => Err(e),
        None => run_steps(m, j, init, st, steps, 0),
    }
}

/// Whether the slots of checkpoints can be judged and recorded.
pub open spec fn slots_ready(j: Judge, st: ProgressView, slots: Seq<usize>, n: nat) -> bool {
    &&& slots.len() >= n
    &&& forall|i: int|
        0 <= i < n ==> slot_ready(j, #[trigger] slots[i] as int) && recordable(st, slots[i] as int)
}

/// Runs over trees that are evaluated node by node.
pub fn run_hot<'a, T: HotTrees, R: RowSource, A: Fn(SingleOp) -> u32>(
    arith: &A,
    judge: &Judge<'a>,
    init: u32,
    st: &mut Progress,
    trees: &T,
    row: &mut R,
    miss_aware: bool,
    checkpoints: &[usize],
    slots: &[usize],
) -> (r: Result<Option<(bool, u32, usize)>, ScoreError>)
    requires
        answers(*arith),
        judge_ready(*judge),
        slots_ready(*judge, old(st)@, slots@, checkpoints@.len()),
        old(row).ready(),
        trees.nodes_model().len() <= MAX_TREE_MOVES,
        trees.count() <= 0x8000_0000,
        old(st).work_evals == 0,
    ensures
        final(row).ready(),
        final(row).row() == old(row).row(),
        final(st).work_evals <= MAX_TREE_MOVES * 0x8000_0000,
        final(st).resolved_early == old(st).resolved_early,
        forall|k: int| recordable(old(st)@, k) ==> #[trigger] recordable(final(st)@, k),
        forall|m: spec_fn(SingleOp) -> u32| #[trigger]
            follows(*arith, m) ==> ended(r, final(st)@) == hot_phase(
                m,
                *judge,
                init,
                old(st)@,
                trees.count(),
                hot_steps(
                    trees.nodes_model(),
                    trees.starts(),
                    old(row).row(),
                    Rule { miss_aware, ranks: None },
                    checkpoints@,
                    slots@,
                ),
                checkpoints@,
            ),
{
    let n: usize = trees.tree_count();
    match check_checkpoints(checkpoints, n) {
        Some(e) => {
            return Err(e);
        },
        None => {},
    }
    let ghost cps = checkpoints@;
    let ghost rule = Rule { miss_aware, ranks: None };
    let ghost rm = row.row();
    let ghost st0 = st@;
    let ghost steps = hot_steps(
        trees.nodes_model(),
        trees.starts(),
        rm,
        rule,
        cps,
        slots@,
    );
    proof {
        law_checkpoints_pass_when_rising(cps, n as int);
    }
    let mut prev: usize = 0;
    let mut i: usize = 0;
    while i < checkpoints.len()
        invariant
            answers(*arith),
            judge_ready(*judge),
            n <= 0x8000_0000,
            i <= cps.len(),
            cps == checkpoints@,
            checkpoints_rise(cps, n as int),
            prev == stretch_start(cps, 0, i as int),
            prev <= n,
            rule == (Rule { miss_aware, ranks: None }),
            row.ready(),
            row.row() == rm,
            rm == old(row).row(),
            n == trees.count(),
            trees.nodes_model().len() <= MAX_TREE_MOVES,
            steps == hot_steps(
                trees.nodes_model(),
                trees.starts(),
                rm,
                rule,
                cps,
                slots@,
            ),
            st0 == old(st)@,
            checkpoints_error(cps, trees.count()) is None,
            slots_ready(*judge, st@, slots@, cps.len()),
            st.work_evals <= MAX_TREE_MOVES * prev,
            st.resolved_early == old(st).resolved_early,
            forall|k: int| recordable(st0, k) ==> #[trigger] recordable(st@, k),
            forall|m: spec_fn(SingleOp) -> u32| #[trigger]
                follows(*arith, m) ==> run_steps(m, *judge, init, st0, steps, 0) == run_steps(
                    m,
                    *judge,
                    init,
                    st@,
                    steps,
                    i as int,
                ),
        decreases cps.len() - i,
    {
        let cp: usize = checkpoints[i];
        let slot: usize = slots[i];
        assert(slot_ready(*judge, slots@[i as int] as int));
        assert(prev < cp <= n) by {
            if i > 0 {
                assert(cps[i - 1] < cps[i as int]);
            }
            assert(1 <= cps[i as int] <= n);
        }
        match hot_span(trees, row, miss_aware, prev, cp) {
            Err(e) => {
                assert(steps[i as int].part == Err::<Walk, ScoreError>(e));
                return Err(e);
            },
            Ok(w) => {
                assert(steps[i as int].part == Ok::<Walk, ScoreError>(w@));
                let verdict: Option<(bool, u32)> = advance(
                    arith,
                    judge,
                    init,
                    st,
                    slot,
                    cp,
                    w,
                    StepStyle::tree_by_tree(true),
                );
                if let Some(v) = verdict {
                    return Ok(Some((v.0, v.1, cp)));
                }
            },
        }
        prev = cp;
        i += 1;
    }
    Ok(None)
}

/// The steps over a packed ensemble from tree `start` on.
pub open spec fn qs_steps(
    p: PackModel,
    ranks: Seq<u8>,
    miss: Seq<u8>,
    cps: Seq<usize>,
    slots: Seq<usize>,
    start: int,
) -> Seq<Step> {
    Seq::new(
        cps.len(),
        |i: int|
            Step {
                slot: slots[i],
                checkpoint: cps[i],
                part: walk(p, span(stretch_start(cps, start, i), cps[i] as int), ranks, miss),
                style: StepStyle::onto(true),
            },
    )
}

/// The run over a packed ensemble from tree `start` on, checkpoints and start tested first. A run
/// that starts at or past the first checkpoint never meets it.
pub open spec fn qs_phase(
    m: spec_fn(SingleOp) -> u32,
    j: Judge,
    init: u32,
    st: ProgressView,
    p: PackModel,
    ranks: Seq<u8>,
    miss: Seq<u8>,
    cps: Seq<usize>,
    slots: Seq<usize>,
    start: int,
) -> Result<Ended, ScoreError> {
    match checkpoints_error(cps, p.n_trees) {
        Some(e) => Err(e),
        None => if start > p.n_trees {
            Err(ScoreError::StartOutside { start: start as usize })
        } else if start >= cps[0] {
            match walk(p, span(start, cps.last() as int), ranks, miss) {
                Err(e) => Err(e),
                Ok(_) => Err(ScoreError::CheckpointNotReached { reached: 0 }),
            }
        } else {
            run_steps(m, j, init, st, qs_steps(p, ranks, miss, cps, slots, start), 0)
        },
    }
}

/// Runs over a packed ensemble.
pub fn run_qs<'a, A: Fn(SingleOp) -> u32>(
    arith: &A,
    judge: &Judge<'a>,
    init: u32,
    st: &mut Progress,
    pack: &QsPack,
    ranks: &[u8],
    missing: Option<&[u8]>,
    checkpoints: &[usize],
    slots: &[usize],
    start: usize,
) -> (r: Result<Option<(bool, u32, usize)>, ScoreError>)
    requires
        answers(*arith),
        judge_ready(*judge),
        slots_ready(*judge, old(st)@, slots@, checkpoints@.len()),
        span_readable(pack@, 0, pack@.n_trees, ranks@, marks(missing)),
        pack@.n_trees <= 0x8000_0000,
        old(st).work_evals <= MAX_TREE_MOVES * 0x8000_0000,
        old(st).resolved_early <= 0x8000_0000,
    ensures
        forall|m: spec_fn(SingleOp) -> u32| #[trigger]
            follows(*arith, m) ==> ended(r, final(st)@) == qs_phase(
                m,
                *judge,
                init,
                old(st)@,
                pack@,
                ranks@,
                marks(missing),
                checkpoints@,
                slots@,
                start as int,
            ),
{
    match check_checkpoints(checkpoints, pack.n_trees) {
        Some(e) => {
            return Err(e);
        },
        None => {},
    }
    let ghost p = pack@;
    let ghost cps = checkpoints@;
    let ghost miss = marks(missing);
    let ghost st0 = st@;
    proof {
        law_checkpoints_pass_when_rising(cps, p.n_trees);
    }
    if start > pack.n_trees {
        return Err(ScoreError::StartOutside { start });
    }
    let n: usize = checkpoints.len();
    if start >= checkpoints[0] {
        let mut w: Walked = Walked::start(0, 0);
        return match walk_span(pack, start, checkpoints[n - 1], ranks, missing, &mut w) {
            Err(e) => Err(e),
            Ok(()) => Err(ScoreError::CheckpointNotReached { reached: 0 }),
        };
    }
    let ghost steps = qs_steps(p, ranks@, miss, cps, slots@, start as int);
    let mut prev: usize = start;
    let mut i: usize = 0;
    while i < n
        invariant
            answers(*arith),
            judge_ready(*judge),
            i <= n,
            n == cps.len(),
            p == pack@,
            cps == checkpoints@,
            miss == marks(missing),
            checkpoints_rise(cps, p.n_trees),
            checkpoints_error(cps, p.n_trees) is None,
            start <= p.n_trees,
            start < cps[0],
            p.n_trees <= 0x8000_0000,
            span_readable(p, 0, p.n_trees, ranks@, miss),
            prev == stretch_start(cps, start as int, i as int),
            start <= prev <= p.n_trees,
            st0 == old(st)@,
            slots_ready(*judge, st@, slots@, cps.len()),
            steps == qs_steps(p, ranks@, miss, cps, slots@, start as int),
            st.work_evals <= MAX_TREE_MOVES * 0x8000_0000 + MAX_TREE_BLOCKS * (prev - start),
            st.resolved_early <= 0x8000_0000 + (prev - start),
            forall|m: spec_fn(SingleOp) -> u32| #[trigger]
                follows(*arith, m) ==> run_steps(m, *judge, init, st0, steps, 0) == run_steps(
                    m,
                    *judge,
                    init,
                    st@,
                    steps,
                    i as int,
                ),
        decreases n - i,
    {
        let cp: usize = checkpoints[i];
        let slot: usize = slots[i];
        assert(slot_ready(*judge, slots@[i as int] as int));
        assert(prev < cp <= p.n_trees) by {
            if i > 0 {
                assert(cps[i - 1] < cps[i as int]);
            }
            assert(1 <= cps[i as int] <= p.n_trees);
        }
        let mut w: Walked = Walked::start(0, 0);
        let ghost w0 = w@;
        match walk_span(pack, prev, cp, ranks, missing, &mut w) {
            Err(e) => {
                assert(steps[i as int].part == Err::<Walk, ScoreError>(e));
                return Err(e);
            },
            Ok(()) => {
                proof {
                    let v = walk(p, span(prev as int, cp as int), ranks@, miss)->Ok_0;
                    assert(w0.join(v) =~= v);
                    assert(steps[i as int].part == Ok::<Walk, ScoreError>(w@));
                }
                let verdict: Option<(bool, u32)> = advance(
                    arith,
                    judge,
                    init,
                    st,
                    slot,
                    cp,
                    w,
                    StepStyle::tree_by_tree(true),
                );
                if let Some(v) = verdict {
                    return Ok(Some((v.0, v.1, cp)));
                }
            },
        }
        prev = cp;
        i += 1;
    }
    Ok(None)
}

} // verus!
