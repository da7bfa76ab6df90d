//! Laws on runs from checkpoint to checkpoint: what each stretch is judged by and what is recorded.

use crate::arith::SingleOp;
use crate::descend::{NodeModel, RowModel, Rule};
use crate::exp_v1::{exp_late_steps, ExpV1LateSegment};
use crate::qs_pack::PackModel;
use crate::shadow::{
    hot_steps, judged, qs_steps, recorded, run_steps, step, Ended, Judge, ProgressView, Step,
};
use vstd::prelude::*;

verus! {

/// A run over one stretch more goes on from where the shorter run has come to.
proof fn lemma_one_more(
    m: spec_fn(SingleOp) -> u32,
    j: Judge,
    init: u32,
    st: ProgressView,
    steps: Seq<Step>,
    i: int,
    k: int,
)
    requires
        0 <= i <= k < steps.len(),
    ensures
        run_steps(m, j, init, st, steps.take(k), i) matches Ok(e) ==> (e.verdict is None ==> run_steps(
            m,
            j,
            init,
            st,
            steps.take(k + 1),
            i,
        ) == run_steps(m, j, init, e.st, steps.take(k + 1), k)),
    decreases k - i,
{
    let short = steps.take(k);
    let long = steps.take(k + 1);
    if i < k {
        assert(short[i] == long[i]);
        if let Ok(w) = long[i].part {
            let s = long[i];
            let (next, verdict) = step(m, j, init, st, s.slot, s.checkpoint, w, s.style);
            if verdict is None {
                lemma_one_more(m, j, init, next, steps, i + 1, k);
            }
        }
    }
}

/// A run keeps the score of the landmark until the landmark comes again.
proof fn lemma_landmark(
    m: spec_fn(SingleOp) -> u32,
    j: Judge,
    init: u32,
    st: ProgressView,
    steps: Seq<Step>,
    i: int,
)
    requires
        0 <= i <= steps.len(),
        forall|k: int| i <= k < steps.len() ==> !marks_landmark(#[trigger] steps[k]),
    ensures
        run_steps(m, j, init, st, steps, i) matches Ok(e) ==> e.st.at_64 == st.at_64,
    decreases steps.len() - i,
{
    if i < steps.len() {
        let s = steps[i];
        if let Ok(w) = s.part {
            let (next, verdict) = step(m, j, init, st, s.slot, s.checkpoint, w, s.style);
            if verdict is None {
                lemma_landmark(m, j, init, next, steps, i + 1);
            }
        }
    }
}

/// A run remembers the score that it has come to.
proof fn lemma_last(
    m: spec_fn(SingleOp) -> u32,
    j: Judge,
    init: u32,
    st: ProgressView,
    steps: Seq<Step>,
    i: int,
)
    requires
        0 <= i <= steps.len(),
    ensures
        run_steps(m, j, init, st, steps, i) matches Ok(e) ==> {
            &&& e.st.last == if i < steps.len() {
                e.st.score
            } else {
                st.last
            }
            &&& e.st.trace == st.trace
        },
    decreases steps.len() - i,
{
    if i < steps.len() {
        let s = steps[i];
        if let Ok(w) = s.part {
            let (next, verdict) = step(m, j, init, st, s.slot, s.checkpoint, w, s.style);
            if verdict is None {
                lemma_last(m, j, init, next, steps, i + 1);
            }
        }
    }
}

/// A run over the first `n` stretches passes the run over the first `k`.
proof fn lemma_passes(
    m: spec_fn(SingleOp) -> u32,
    j: Judge,
    init: u32,
    st: ProgressView,
    steps: Seq<Step>,
    i: int,
    k: int,
    n: int,
)
    requires
        0 <= i <= k <= n <= steps.len(),
        run_steps(m, j, init, st, steps.take(n), i) matches Ok(e) && e.verdict is None,
    ensures
        run_steps(m, j, init, st, steps.take(k), i) matches Ok(e) && {
            &&& e.verdict is None
            &&& run_steps(m, j, init, st, steps.take(n), i) == run_steps(
                m,
                j,
                init,
                e.st,
                steps.take(n),
                k,
            )
        },
    decreases k - i,
{
    let short = steps.take(k);
    let long = steps.take(n);
    if i < k {
        assert(short[i] == long[i]);
        let s = long[i];
        let w = s.part->Ok_0;
        let (next, verdict) = step(m, j, init, st, s.slot, s.checkpoint, w, s.style);
        lemma_passes(m, j, init, next, steps, i + 1, k, n);
    }
}

/// Whether the score after a stretch is kept for later stretches to be compared with: that after 64
/// trees, where the run keeps it.
pub open spec fn marks_landmark(s: Step) -> bool {
    s.checkpoint == 64 && s.style.landmark
}

/// Where the score after a stretch is kept as the landmark: the last such stretch before another.
pub open spec fn landmark_before(steps: Seq<Step>, k: int, at: int) -> bool {
    &&& 0 <= at < k
    &&& marks_landmark(steps[at])
    &&& forall|i: int| at < i < k ==> !marks_landmark(#[trigger] steps[i])
}

/// What a run over the first stretches comes to.
pub open spec fn run_over(
    m: spec_fn(SingleOp) -> u32,
    j: Judge,
    init: u32,
    st: ProgressView,
    steps: Seq<Step>,
    k: int,
) -> Result<Ended, crate::qs_score::ScoreError> {
    run_steps(m, j, init, st, steps.take(k), 0)
}

/// A stretch is judged by the row as it stands after it: its score, the work that all of its trees
/// took, the way that the score has come since the checkpoint before, and the way since the
/// landmark, none if there was no landmark. A run that keeps a record keeps these at the place of
/// the stretch and touches no other place; a run that keeps none leaves the record as it was.
pub proof fn law_stretches_are_judged_by_what_they_did(
    m: spec_fn(SingleOp) -> u32,
    j: Judge,
    init: u32,
    st: ProgressView,
    steps: Seq<Step>,
    k: int,
)
    requires
        0 <= k < steps.len(),
        steps[k].part is Ok,
        run_over(m, j, init, st, steps, k) matches Ok(e) && e.verdict is None,
    ensures
        run_over(m, j, init, st, steps, k + 1) matches Ok(after) && {
            let before = run_over(m, j, init, st, steps, k)->Ok_0.st;
            let s = steps[k];
            let w = s.part->Ok_0;
            let now = after.st;
            let way = m(
                SingleOp::Difference(
                    now.score,
                    if s.slot == 0 && s.style.resets {
                        init
                    } else if k == 0 {
                        st.last
                    } else {
                        before.score
                    },
                ),
            );
            let slot = s.slot as int;
            &&& now.trees_used == s.checkpoint
            &&& now.evals == before.evals + w.evals
            &&& now.early == before.early + w.early
            &&& forall|at: int| #[trigger]
                landmark_before(steps, k, at) ==> same_verdict(
                    after.verdict,
                    judged(
                        m,
                        j,
                        s.slot,
                        s.checkpoint,
                        now.score,
                        now.evals,
                        now.early,
                        way,
                        m(
                            SingleOp::Difference(
                                now.score,
                                run_over(m, j, init, st, steps, at + 1)->Ok_0.st.score,
                            ),
                        ),
                    ),
                    s.checkpoint,
                )
            &&& st.at_64 is None && (forall|i: int|
                0 <= i < k ==> !marks_landmark(#[trigger] steps[i])) ==> same_verdict(
                after.verdict,
                judged(m, j, s.slot, s.checkpoint, now.score, now.evals, now.early, way, 0),
                s.checkpoint,
            )
            &&& !st.trace ==> {
                &&& now.scores == before.scores
                &&& now.works == before.works
                &&& now.deltas == before.deltas
                &&& now.resolved == before.resolved
            }
            &&& st.trace && 0 <= slot < before.scores.len() ==> now.scores[slot] == now.score
            &&& st.trace && 0 <= slot < before.works.len() ==> now.works[slot] == recorded(
                now.evals,
            )
            &&& st.trace && 0 <= slot < before.deltas.len() ==> now.deltas[slot] == way
            &&& st.trace && 0 <= slot < before.resolved.len() ==> now.resolved[slot] == recorded(
                now.early,
            )
            &&& forall|p: int|
                #![trigger now.scores[p]]
                slot < before.scores.len() && 0 <= p < before.scores.len() && p != slot
                    ==> now.scores[p] == before.scores[p]
            &&& forall|p: int|
                #![trigger now.works[p]]
                slot < before.works.len() && 0 <= p < before.works.len() && p != slot
                    ==> now.works[p] == before.works[p]
            &&& forall|p: int|
                #![trigger now.deltas[p]]
                slot < before.deltas.len() && 0 <= p < before.deltas.len() && p != slot
                    ==> now.deltas[p] == before.deltas[p]
            &&& forall|p: int|
                #![trigger now.resolved[p]]
                slot < before.resolved.len() && 0 <= p < before.resolved.len() && p != slot
                    ==> now.resolved[p]
                    == before.resolved[p]
        },
{
    let short = steps.take(k);
    let long = steps.take(k + 1);
    let before = run_over(m, j, init, st, steps, k)->Ok_0.st;
    lemma_one_more(m, j, init, st, steps, 0, k);
    lemma_last(m, j, init, st, short, 0);
    let s = steps[k];
    let w = s.part->Ok_0;
    assert(long[k] == s);
    let (next, verdict) = step(m, j, init, before, s.slot, s.checkpoint, w, s.style);
    assert(run_steps(m, j, init, next, long, k + 1) == Ok::<_, crate::qs_score::ScoreError>(
        Ended { st: next, verdict: None },
    ));
    let after = run_over(m, j, init, st, steps, k + 1)->Ok_0;
    assert(after.st == next);
    assert forall|at: int| #[trigger] landmark_before(steps, k, at) implies before.at_64 == Some(
        run_over(m, j, init, st, steps, at + 1)->Ok_0.st.score,
    ) by {
        lemma_passes(m, j, init, st, steps, 0, at + 1, k);
        lemma_passes(m, j, init, st, steps, 0, at, at + 1);
        let mid = run_over(m, j, init, st, steps, at + 1)->Ok_0.st;
        let early = run_over(m, j, init, st, steps, at)->Ok_0.st;
        let upto = steps.take(at + 1);
        assert(upto[at] == steps[at]);
        let x = steps[at];
        let (y, v) = step(m, j, init, early, x.slot, x.checkpoint, x.part->Ok_0, x.style);
        assert(run_steps(m, j, init, y, upto, at + 1) == Ok::<_, crate::qs_score::ScoreError>(
            Ended { st: y, verdict: None },
        ));
        assert(mid == y);
        assert forall|i: int| at + 1 <= i < short.len() implies !marks_landmark(
            #[trigger] short[i],
        ) by {
            assert(short[i] == steps[i]);
        }
        lemma_landmark(m, j, init, mid, short, at + 1);
    }
    if forall|i: int| 0 <= i < k ==> !marks_landmark(#[trigger] steps[i]) {
        assert forall|i: int| 0 <= i < short.len() implies !marks_landmark(#[trigger] short[i]) by {
            assert(short[i] == steps[i]);
        }
        lemma_landmark(m, j, init, st, short, 0);
    }
}

/// Whether a run ends with a verdict, or goes on without one.
pub open spec fn same_verdict(
    end: Option<(bool, u32, usize)>,
    v: Option<(bool, u32)>,
    checkpoint: usize,
) -> bool {
    match v {
        None => end is None,
        Some((reject, score)) => end == Some((reject, score, checkpoint)),
    }
}

/// The stretches of a layout stand in turn at its checkpoints and its places. The one at 64 trees is
/// the landmark, the one at the first place is compared with the start, and trees are added to the
/// score one by one.
pub proof fn law_stretches_stand_at_their_checkpoints(
    ns: Seq<NodeModel>,
    starts: Seq<int>,
    row: RowModel,
    rule: Rule,
    p: PackModel,
    ranks: Seq<u8>,
    miss: Seq<u8>,
    cps: Seq<usize>,
    slots: Seq<usize>,
    start: int,
    i: int,
)
    requires
        0 <= i < cps.len() == slots.len(),
    ensures
        ({
            let stands = |s: Step|
                {
                    &&& s.slot == slots[i]
                    &&& s.checkpoint == cps[i]
                    &&& marks_landmark(s) <==> cps[i] == 64
                    &&& s.style.resets
                    &&& !s.style.apart
                };
            &&& hot_steps(ns, starts, row, rule, cps, slots).len() == cps.len()
            &&& stands(hot_steps(ns, starts, row, rule, cps, slots)[i])
            &&& qs_steps(p, ranks, miss, cps, slots, start).len() == cps.len()
            &&& stands(qs_steps(p, ranks, miss, cps, slots, start)[i])
        }),
{
}

/// The late stretches of a package stand in turn at the checkpoints and the places of its segments;
/// each is added up on its own, none is the landmark, and none is compared with the start.
pub proof fn law_segments_stand_at_their_checkpoints(
    segs: Seq<ExpV1LateSegment>,
    feat: Seq<u32>,
    ranks: Seq<u8>,
    i: int,
)
    requires
        0 <= i < segs.len(),
    ensures
        ({
            let s = exp_late_steps(segs, feat, ranks)[i];
            &&& exp_late_steps(segs, feat, ranks).len() == segs.len()
            &&& s.slot == segs[i].global_cp_idx
            &&& s.checkpoint == segs[i].checkpoint
            &&& !marks_landmark(s)
            &&& !s.style.resets
            &&& s.style.apart
        }),
{
}

} // verus!
