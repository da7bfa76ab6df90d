//! What recording the checkpoints of a row changes, and what it leaves as it is.

use crate::arith::SingleOp;
use crate::descend::{chosen_row, RowModel, Rule};
use crate::hot::HotTrees;
use crate::kinds::hot_kernel;
use crate::layout::{layout_of, places, LayoutView};
use crate::prefix_runtime::{
    all_slots, fewer, first_phase, judge_for, layout_fits, shadow_row, LoadedPrefixRuntime,
    ShadowView,
};
use crate::qs_pack::PackModel;
use crate::qs_prefix::{checkpoints_error, law_checkpoints_pass_when_rising};
use crate::qs_score::ScoreError;
use crate::quantize::{marked, ranked};
use crate::shadow::{
    beginning, hot_steps, qs_phase, qs_steps, run_steps, step, Ended, Judge, ProgressView, Step,
};
use crate::single::NAN;
use vstd::prelude::*;

verus! {

/// A run without its record.
pub open spec fn unrecorded(st: ProgressView) -> ProgressView {
    ProgressView {
        trace: false,
        scores: Seq::empty(),
        works: Seq::empty(),
        deltas: Seq::empty(),
        resolved: Seq::empty(),
        ..st
    }
}

/// What a run comes to, without its record.
pub open spec fn end_unrecorded(r: Result<Ended, ScoreError>) -> Result<Ended, ScoreError> {
    match r {
        Err(e) => Err(e),
        Ok(e) => Ok(Ended { st: unrecorded(e.st), verdict: e.verdict }),
    }
}

/// What a row comes to, without its record.
pub open spec fn row_unrecorded(v: ShadowView) -> ShadowView {
    ShadowView {
        checkpoint_scores: Seq::empty(),
        checkpoint_work_evals: Seq::empty(),
        checkpoint_deltas: Seq::empty(),
        checkpoint_resolved_early: Seq::empty(),
        ..v
    }
}

/// Whether a record has room for `n` checkpoints.
pub open spec fn record_of(st: ProgressView, n: nat) -> bool {
    &&& st.trace
    &&& st.scores.len() == n
    &&& st.works.len() == n
    &&& st.deltas.len() == n
    &&& st.resolved.len() == n
}

/// A run that is not recorded goes the way of one that is.
proof fn lemma_record_is_all(
    m: spec_fn(SingleOp) -> u32,
    j: Judge,
    init: u32,
    st: ProgressView,
    steps: Seq<Step>,
    i: int,
    n: nat,
)
    requires
        0 <= i,
        record_of(st, n),
        forall|k: int| 0 <= k < steps.len() ==> (#[trigger] steps[k]).slot < n,
    ensures
        run_steps(m, j, init, unrecorded(st), steps, i) == end_unrecorded(
            run_steps(m, j, init, st, steps, i),
        ),
        run_steps(m, j, init, st, steps, i) matches Ok(e) ==> record_of(e.st, n),
    decreases steps.len() - i,
{
    if i < steps.len() {
        if let Ok(w) = steps[i].part {
            let s = steps[i];
            let next = step(m, j, init, st, s.slot, s.checkpoint, w, s.style);
            let bare = step(m, j, init, unrecorded(st), s.slot, s.checkpoint, w, s.style);
            assert(bare.0 == unrecorded(next.0));
            assert(bare.1 == next.1);
            lemma_record_is_all(m, j, init, next.0, steps, i + 1, n);
        }
    }
}

/// Whether the checkpoints of steps rise, and there is a place for each in a record of `n`.
pub open spec fn steps_rise(steps: Seq<Step>, n: nat) -> bool {
    &&& forall|a: int, b: int|
        0 <= a < b < steps.len() ==> (#[trigger] steps[a]).checkpoint < (
        #[trigger] steps[b]).checkpoint
    &&& forall|a: int| 0 <= a < steps.len() ==> (#[trigger] steps[a]).slot < n
}

/// A run goes from checkpoint to checkpoint, and leaves a place blank that no step up to its end
/// goes with.
proof fn lemma_blank_past(
    m: spec_fn(SingleOp) -> u32,
    j: Judge,
    init: u32,
    st: ProgressView,
    steps: Seq<Step>,
    i: int,
    n: nat,
    q: int,
)
    requires
        0 <= i,
        record_of(st, n),
        steps_rise(steps, n),
        i < steps.len() ==> st.trees_used < steps[i].checkpoint,
    ensures
        run_steps(m, j, init, st, steps, i) matches Ok(e) ==> {
            &&& st.trees_used <= e.st.trees_used
            &&& i < steps.len() ==> e.st.trees_used <= steps.last().checkpoint
            &&& i >= steps.len() ==> e.st.trees_used == st.trees_used
            &&& 0 <= q < n && st.scores[q] == NAN && (forall|k: int|
                0 <= k < steps.len() && (#[trigger] steps[k]).slot == q ==> steps[k].checkpoint
                    > e.st.trees_used) ==> e.st.scores[q] == NAN
        },
    decreases steps.len() - i,
{
    if i < steps.len() {
        if let Ok(w) = steps[i].part {
            let s = steps[i];
            let (next, verdict) = step(m, j, init, st, s.slot, s.checkpoint, w, s.style);
            if verdict is None {
                lemma_blank_past(m, j, init, next, steps, i + 1, n, q);
            }
            if i < steps.len() - 1 {
                assert(steps[i].checkpoint < steps[steps.len() - 1].checkpoint);
            }
        }
    }
}

/// Whether one of some checkpoints that go with place `q` lies among the first `used` trees.
pub open spec fn slot_reached(values: Seq<usize>, slots: Seq<usize>, used: int, q: int) -> bool {
    exists|i: int| 0 <= i < values.len() && #[trigger] slots[i] == q && values[i] <= used
}

/// Whether a model has a checkpoint that goes with place `q` among the first `used` trees.
pub open spec fn place_reached(rt: LoadedPrefixRuntime, used: int, q: int) -> bool {
    if !hot_kernel(rt.direct_kernel) {
        rt.calibration.checkpoints@[q] <= used
    } else {
        let l = rt.hot_checkpoint_layout->0@;
        slot_reached(l.hot_values, l.hot_indices, used, q) || slot_reached(
            l.late_values,
            l.late_indices,
            used,
            q,
        )
    }
}

/// A run over a packed ensemble: its record is all that recording changes, and a place that it does
/// not reach stays blank.
proof fn lemma_qs_phase(
    m: spec_fn(SingleOp) -> u32,
    j: Judge,
    init: u32,
    st: ProgressView,
    rt: &LoadedPrefixRuntime,
    ranks: Seq<u8>,
    miss: Seq<u8>,
    values: Seq<usize>,
    slots: Seq<usize>,
    start: int,
    n: nat,
    q: int,
)
    requires
        record_of(st, n),
        st.trees_used <= start,
        slots.len() >= values.len(),
        forall|i: int| 0 <= i < values.len() ==> #[trigger] slots[i] < n,
    ensures
        ({
            let r = qs_phase(m, j, init, st, rt.pack@, ranks, miss, values, slots, start);
            &&& qs_phase(
                m,
                j,
                init,
                unrecorded(st),
                rt.pack@,
                ranks,
                miss,
                values,
                slots,
                start,
            ) == end_unrecorded(r)
            &&& r matches Ok(e) ==> {
                &&& record_of(e.st, n)
                &&& st.trees_used <= e.st.trees_used
                &&& 0 <= q < n && st.scores[q] == NAN && !slot_reached(
                    values,
                    slots,
                    e.st.trees_used as int,
                    q,
                ) ==> e.st.scores[q] == NAN
            }
        }),
{
    let p = rt.pack@;
    law_checkpoints_pass_when_rising(values, p.n_trees);
    if checkpoints_error(values, p.n_trees) is None && start < values[0] {
        let steps = qs_steps(p, ranks, miss, values, slots, start);
        assert(steps_rise(steps, n)) by {
            assert forall|a: int, b: int| 0 <= a < b < steps.len() implies (
            #[trigger] steps[a]).checkpoint < (#[trigger] steps[b]).checkpoint by {
                assert(values[a] < values[b]);
            }
            assert forall|a: int| 0 <= a < steps.len() implies (#[trigger] steps[a]).slot < n by {
                assert(slots[a] < n);
            }
        }
        lemma_record_is_all(m, j, init, st, steps, 0, n);
        lemma_blank_past(m, j, init, st, steps, 0, n, q);
        if let Ok(e) = run_steps(m, j, init, st, steps, 0) {
            lemma_not_reached(steps, values, slots, e.st.trees_used as int, q);
        }
    }
}

/// No step up to the end of a run goes with a place that the run does not reach.
proof fn lemma_not_reached(
    steps: Seq<Step>,
    values: Seq<usize>,
    slots: Seq<usize>,
    used: int,
    q: int,
)
    requires
        steps.len() == values.len(),
        forall|k: int|
            0 <= k < steps.len() ==> (#[trigger] steps[k]).slot == slots[k] && steps[k].checkpoint
                == values[k],
    ensures
        !slot_reached(values, slots, used, q) ==> forall|k: int|
            0 <= k < steps.len() && (#[trigger] steps[k]).slot == q ==> steps[k].checkpoint > used,
{
    if !slot_reached(values, slots, used, q) {
        assert forall|k: int|
            0 <= k < steps.len() && (#[trigger] steps[k]).slot == q implies steps[k].checkpoint
            > used by {
            assert(slots[k] == q);
        }
    }
}

/// A run that has not begun is the same recorded or not, but for its record, which is blank.
proof fn lemma_beginning(score: u32, init: u32, n: nat)
    ensures
        beginning(score, init, false, n) == unrecorded(beginning(score, init, true, n)),
        record_of(beginning(score, init, true, n), n),
        forall|q: int|
            0 <= q < n ==> #[trigger] beginning(score, init, true, n).scores[q] == NAN,
{
    assert(beginning(score, init, false, n) =~= unrecorded(beginning(score, init, true, n)));
}

/// A run over the first trees of a layout.
proof fn lemma_first_phase(
    m: spec_fn(SingleOp) -> u32,
    j: Judge,
    init: u32,
    rt: &LoadedPrefixRuntime,
    row: RowModel,
    l: LayoutView,
    n: nat,
    q: int,
)
    requires
        rt.hot_pack is Some,
        layout_fits(l, n),
    ensures
        ({
            let h = rt.hot_pack->0;
            let base = rt.pack@.base_score;
            let a = first_phase(
                m,
                j,
                init,
                base,
                true,
                n,
                h@.n_trees,
                h.nodes_model(),
                h.starts(),
                row,
                true,
                l,
            );
            let b = first_phase(
                m,
                j,
                init,
                base,
                false,
                n,
                h@.n_trees,
                h.nodes_model(),
                h.starts(),
                row,
                true,
                l,
            );
            &&& b == end_unrecorded(a)
            &&& a matches Ok(e) ==> {
                &&& record_of(e.st, n)
                &&& e.st.trees_used <= h@.n_trees
                &&& 0 <= q < n && !slot_reached(
                    l.hot_values,
                    l.hot_indices,
                    e.st.trees_used as int,
                    q,
                ) ==> e.st.scores[q] == NAN
            }
        }),
{
    let h = rt.hot_pack->0;
    let values = l.hot_values;
    if values.len() == 0 {
        lemma_beginning(rt.pack@.base_score, init, n);
    } else {
        lemma_beginning(init, init, n);
        law_checkpoints_pass_when_rising(values, h@.n_trees);
        if checkpoints_error(values, h@.n_trees) is None {
            let steps = hot_steps(
                h.nodes_model(),
                h.starts(),
                row,
                Rule { miss_aware: true, ranks: None },
                values,
                l.hot_indices,
            );
            assert(steps_rise(steps, n)) by {
                assert forall|a: int, b: int| 0 <= a < b < steps.len() implies (
                #[trigger] steps[a]).checkpoint < (#[trigger] steps[b]).checkpoint by {
                    assert(values[a] < values[b]);
                }
                assert forall|a: int| 0 <= a < steps.len() implies (#[trigger] steps[a]).slot
                    < n by {
                    assert(l.hot_indices[a] < n);
                }
            }
            let st = beginning(init, init, true, n);
            assert(steps[0].checkpoint == values[0]);
            assert(1 <= values[0]);
            lemma_record_is_all(m, j, init, st, steps, 0, n);
            lemma_blank_past(m, j, init, st, steps, 0, n, q);
            if let Ok(e) = run_steps(m, j, init, st, steps, 0) {
                lemma_not_reached(steps, values, l.hot_indices, e.st.trees_used as int, q);
            }
            assert(steps.last().checkpoint == values.last());
            assert(values[values.len() - 1] <= h@.n_trees);
        }
    }
}

/// What recording does to a row, and to place `q` of the record.
pub open spec fn recorded_apart(
    rt: LoadedPrefixRuntime,
    a: Result<ShadowView, ScoreError>,
    b: Result<ShadowView, ScoreError>,
    q: int,
) -> bool {
    let n = rt.calibration.checkpoints@.len();
    match a {
        Err(e) => b == Err::<ShadowView, ScoreError>(e),
        Ok(v) => {
            &&& b == Ok::<ShadowView, ScoreError>(row_unrecorded(v))
            &&& v.checkpoint_scores.len() == n
            &&& v.checkpoint_work_evals.len() == n
            &&& v.checkpoint_deltas.len() == n
            &&& v.checkpoint_resolved_early.len() == n
            &&& 0 <= q < n && !place_reached(rt, v.trees_used as int, q)
                ==> v.checkpoint_scores[q] == NAN
        },
    }
}

/// Recording the checkpoints of a row changes the record alone: the row comes to the same in all
/// else. A record has a place for every checkpoint of the calibration, and the score at each place
/// that the row did not reach is no number.
pub proof fn law_recording_changes_the_record_alone(
    m: spec_fn(SingleOp) -> u32,
    rt: &LoadedPrefixRuntime,
    feat: Seq<u32>,
    tau: u32,
    fold: i32,
    ranks: Seq<u8>,
    miss: Seq<u8>,
    init: u32,
    q: int,
)
    requires
        rt.hot_checkpoint_layout matches Some(l) ==> layout_fits(
            l@,
            rt.calibration.checkpoints@.len(),
        ),
    ensures
        recorded_apart(
            *rt,
            shadow_row(m, rt, feat, tau, fold, ranks, miss, init, true),
            shadow_row(m, rt, feat, tau, fold, ranks, miss, init, false),
            q,
        ),
{
    let j = judge_for(rt, None, fold, tau);
    let p = rt.pack@;
    let cps = rt.calibration.checkpoints@;
    let n = cps.len();
    let r = ranked(p, feat, ranks);
    let gaps = marked(p, feat, miss);
    if !hot_kernel(rt.direct_kernel) {
        lemma_beginning(init, init, n);
        let slots = all_slots(n);
        let st = beginning(init, init, true, n);
        assert(n == rt.calibration.checkpoints.len());
        lemma_qs_phase(m, j, init, st, rt, r, gaps, cps, slots, 0, n, q);
        if let Ok(e) = qs_phase(m, j, init, st, p, r, gaps, cps, slots, 0) {
            if slot_reached(cps, slots, e.st.trees_used as int, q) {
                let i = choose|i: int|
                    0 <= i < cps.len() && #[trigger] slots[i] == q && cps[i] <= e.st.trees_used;
                assert(slots[i] == i);
            }
        }
    } else if rt.hot_pack is Some && rt.hot_checkpoint_layout is Some {
        let h = rt.hot_pack->0;
        let l = rt.hot_checkpoint_layout->0@;
        let row = chosen_row(h@.hot_global_fidx, feat);
        let first = first_phase(
            m,
            j,
            init,
            p.base_score,
            true,
            n,
            h@.n_trees,
            h.nodes_model(),
            h.starts(),
            row,
            true,
            l,
        );
        lemma_first_phase(m, j, init, rt, row, l, n, q);
        let start = fewer(h@.n_trees, p.n_trees);
        if let Ok(e) = first {
            if e.verdict is None && l.late_values.len() > 0 {
                if e.st.trees_used <= start {
                    lemma_qs_phase(
                        m,
                        j,
                        init,
                        e.st,
                        rt,
                        r,
                        gaps,
                        l.late_values,
                        l.late_indices,
                        start,
                        n,
                        q,
                    );
                    let rest = qs_phase(
                        m,
                        j,
                        init,
                        e.st,
                        p,
                        r,
                        gaps,
                        l.late_values,
                        l.late_indices,
                        start,
                    );
                    if let Ok(x) = rest {
                        if slot_reached(l.hot_values, l.hot_indices, e.st.trees_used as int, q) {
                            let i = choose|i: int|
                                0 <= i < l.hot_values.len() && #[trigger] l.hot_indices[i] == q
                                    && l.hot_values[i] <= e.st.trees_used;
                            assert(l.hot_indices[i] == q && l.hot_values[i] <= x.st.trees_used);
                        }
                    }
                } else {
                    law_checkpoints_pass_when_rising(l.late_values, p.n_trees);
                }
            }
        }
    }
}

/// Whether the checkpoints of a layout are those of the calibration, each in its place.
pub open spec fn slots_match(l: LayoutView, cps: Seq<usize>) -> bool {
    &&& l.hot_indices.len() >= l.hot_values.len()
    &&& l.late_indices.len() >= l.late_values.len()
    &&& forall|i: int|
        0 <= i < l.hot_values.len() ==> #[trigger] l.hot_indices[i] < cps.len()
            && cps[l.hot_indices[i] as int] == l.hot_values[i]
    &&& forall|i: int|
        0 <= i < l.late_values.len() ==> #[trigger] l.late_indices[i] < cps.len()
            && cps[l.late_indices[i] as int] == l.late_values[i]
}

proof fn lemma_places_in_range(cps: Seq<usize>, limit: int, within: bool, n: nat)
    requires
        n <= cps.len() <= usize::MAX,
    ensures
        forall|i: int|
            0 <= i < places(cps, limit, within, n).len() ==> #[trigger] places(
                cps,
                limit,
                within,
                n,
            )[i] < n,
    decreases n,
{
    if n > 0 {
        lemma_places_in_range(cps, limit, within, (n - 1) as nat);
        let before = places(cps, limit, within, (n - 1) as nat);
        let now = places(cps, limit, within, n);
        assert forall|i: int| 0 <= i < now.len() implies #[trigger] now[i] < n by {
            if i < before.len() {
                assert(now[i] == before[i]);
            }
        }
    }
}

/// The checkpoints of a layout that was built are those it was built from, each in its place.
pub proof fn law_built_layouts_match(p: PackModel, cps: Seq<usize>, limit: int)
    requires
        cps.len() <= usize::MAX,
    ensures
        slots_match(layout_of(p, cps, limit), cps),
{
    lemma_places_in_range(cps, limit, true, cps.len());
    lemma_places_in_range(cps, limit, false, cps.len());
}

/// Where every checkpoint is in its place, a place is not reached as long as the trees up to its
/// checkpoint were not run.
pub proof fn law_places_are_reached_in_turn(rt: LoadedPrefixRuntime, used: int, q: int)
    requires
        rt.hot_checkpoint_layout matches Some(l) ==> slots_match(
            l@,
            rt.calibration.checkpoints@,
        ),
        hot_kernel(rt.direct_kernel) ==> rt.hot_checkpoint_layout is Some,
        0 <= q < rt.calibration.checkpoints@.len(),
        rt.calibration.checkpoints@[q] > used,
    ensures
        !place_reached(rt, used, q),
{
}

} // verus!
