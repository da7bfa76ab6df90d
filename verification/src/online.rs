//! Deciding a row without missing values from its first trees, stage by stage.
//!
//! Each stage copies only the features that no earlier stage needed; each later stretch ranks only
//! the features that it needs.

use crate::arith::{answers, follows, SingleOp};
use crate::certify::{LoadedPrefixCertifyPlan, PrefixCertifierKind};
use crate::descend::{full_row, PlainRow, RowSource, Rule};
use crate::hot::{
    filled, filled_subset, hot_span, hot_walk, map_fits, span_len, HotFeatureBuf, HotTrees,
    MAX_TREE_MOVES,
};
use crate::hot_pack::HotCompiledPrefixPack;
use crate::kinds::hot_kernel;
use crate::layout::{stage_at, HotCheckpointLayout, LayoutView, PrefixV2HotStage};
use crate::pack_check::{
    block_sound, feature_takes, lemma_mapped_is_readable, lemma_rank_top, lemma_still_readable,
    names_below, pack_sound, ranks_fit, takes, top_rank, tree_sound, tree_takes,
};
use crate::prefix_runtime::{
    compiled_route, conclude, fallback_checkpoint, fewer, first_phase, has_compiled_route,
    judge_for, last_checkpoint, make_judge, outcome, plan_sound, runtime_sound, LoadedLateSegment,
    LoadedPrefixRuntime, PrefixRowShadow, ShadowView,
};
use crate::qs_pack::{PackModel, QsPack};
use crate::qs_score::{
    block_readable, block_total, lemma_block_total_grows, lemma_walk_counts, none_missing, span, tree_readable, walk,
    walk_span, ScoreError, Walk, Walked, MAX_TREE_BLOCKS,
};
use crate::qs_prefix::span_readable;
use crate::rank::rank_byte;
use crate::quantize::{
    quantize_feature_subset_nomiss_mapped, quantize_feature_subset_nomiss_precomputed,
    ranked_mapped, ranked_spans,
};
use crate::shadow::{
    advance, beginning, ended, judge_ready, recordable, run_hot, run_steps, slot_ready,
    slots_ready, Ended, Judge, Progress, ProgressView, Step, StepStyle,
};
use crate::stage_plan::{offsets_climb, HotStagePlan};
use vstd::prelude::*;

verus! {

/// The values of the features after the first `k` stages have copied theirs.
pub open spec fn staged_values(
    values: Seq<u32>,
    map: Seq<u32>,
    feat: Seq<u32>,
    ids: Seq<u16>,
    stages: Seq<PrefixV2HotStage>,
    k: int,
) -> Seq<u32>
    decreases k,
{
    if k <= 0 {
        values
    } else {
        let before = staged_values(values, map, feat, ids, stages, k - 1);
        let s = stages[k - 1];
        if s.feature_end > s.feature_start {
            filled_subset(
                before,
                map,
                feat,
                ids.subrange(s.feature_start as int, s.feature_end as int),
            )
        } else {
            before
        }
    }
}

/// The tree at which stage `i` begins.
pub open spec fn stage_begin(stages: Seq<PrefixV2HotStage>, i: int) -> int {
    if i <= 0 {
        0
    } else {
        stages[i - 1].checkpoint as int
    }
}

/// The steps over the stages. Where checkpoints are tested, one that does not rise or lies past
/// the trees fails.
pub open spec fn staged_steps(
    h: HotCompiledPrefixPack,
    values: Seq<u32>,
    feat: Seq<u32>,
    ids: Seq<u16>,
    stages: Seq<PrefixV2HotStage>,
    tested: bool,
    style: StepStyle,
) -> Seq<Step> {
    Seq::new(
        stages.len(),
        |i: int|
            Step {
                slot: stages[i].global_cp_idx,
                checkpoint: stages[i].checkpoint,
                part: if tested && (stages[i].checkpoint <= stage_begin(stages, i)
                    || stages[i].checkpoint > h@.n_trees) {
                    Err(ScoreError::InvalidCheckpoint { checkpoint: stages[i].checkpoint })
                } else {
                    hot_walk(
                        h.nodes_model(),
                        h.starts(),
                        full_row(
                            staged_values(
                                values,
                                h@.hot_global_fidx,
                                feat,
                                ids,
                                stages,
                                i + 1,
                            ),
                        ),
                        Rule { miss_aware: false, ranks: None },
                        stage_begin(stages, i),
                        stages[i].checkpoint as int,
                    )
                },
                style,
            },
    )
}

/// Whether the features of every stage are there.
pub open spec fn stages_fit(
    stages: Seq<PrefixV2HotStage>,
    ids: Seq<u16>,
    map: Seq<u32>,
    buf: nat,
) -> bool {
    &&& forall|i: int|
        0 <= i < stages.len() && (#[trigger] stages[i]).feature_end > stages[i].feature_start
            ==> stages[i].feature_end <= ids.len()
    &&& forall|k: int| 0 <= k < ids.len() ==> (#[trigger] ids[k]) < map.len() && ids[k] < buf
}

/// Whether the slots of stages can be judged and recorded.
pub open spec fn stage_slots_ready(j: Judge, st: ProgressView, stages: Seq<PrefixV2HotStage>) -> bool {
    forall|i: int|
        0 <= i < stages.len() ==> slot_ready(j, (#[trigger] stages[i]).global_cp_idx as int)
            && recordable(st, stages[i].global_cp_idx as int)
}

/// How many of `trees` trees the first `k` stages walk together, as long as none fails. A stage
/// whose checkpoint does not rise walks none.
pub open spec fn stage_trees(stages: Seq<PrefixV2HotStage>, trees: int, k: int) -> int
    decreases k,
{
    if k <= 0 {
        0
    } else {
        stage_trees(stages, trees, k - 1) + if stage_begin(stages, k - 1) < stages[k
            - 1].checkpoint <= trees {
            stages[k - 1].checkpoint - stage_begin(stages, k - 1)
        } else {
            0
        }
    }
}

/// More stages walk no fewer trees.
pub proof fn lemma_stage_trees_grow(stages: Seq<PrefixV2HotStage>, trees: int, j: int, k: int)
    requires
        j <= k,
    ensures
        0 <= stage_trees(stages, trees, j) <= stage_trees(stages, trees, k),
    decreases k,
{
    if k > 0 {
        if j < k {
            lemma_stage_trees_grow(stages, trees, j, k - 1);
        } else {
            lemma_stage_trees_grow(stages, trees, k - 1, k - 1);
        }
    }
}

/// The most steps that walking stages can take.
pub open spec fn stage_work(stages: Seq<PrefixV2HotStage>, trees: int) -> int {
    MAX_TREE_MOVES * stage_trees(stages, trees, stages.len() as int)
}

/// Whether the steps of stages can be counted.
pub open spec fn stages_countable(stages: Seq<PrefixV2HotStage>, trees: int) -> bool {
    trees <= 0x1_0000_0000 && stage_work(stages, trees) <= u64::MAX
}

/// Runs over the stages.
pub fn run_stages<'a, A: Fn(SingleOp) -> u32>(
    arith: &A,
    judge: &Judge<'a>,
    init: u32,
    st: &mut Progress,
    hot: &HotCompiledPrefixPack,
    hot_buf: &mut HotFeatureBuf,
    feat: &[u32],
    ids: &[u16],
    stages: &Vec<PrefixV2HotStage>,
    tested: bool,
    style: StepStyle,
) -> (r: Result<Option<(bool, u32, usize)>, ScoreError>)
    requires
        answers(*arith),
        judge_ready(*judge),
        stage_slots_ready(*judge, old(st)@, stages@),
        hot@.nodes.len() <= MAX_TREE_MOVES,
        tested ==> hot@.n_trees <= 0x8000_0000,
        !tested ==> stages_countable(stages@, hot.tree_roots@.len() as int),
        map_fits(hot@.hot_global_fidx, feat@),
        stages_fit(stages@, ids@, hot@.hot_global_fidx, old(hot_buf).values@.len()),
        old(st).work_evals == 0,
    ensures
        final(hot_buf).values@.len() == old(hot_buf).values@.len(),
        tested ==> final(st).work_evals <= MAX_TREE_MOVES * 0x8000_0000,
        !tested ==> final(st).work_evals <= stage_work(stages@, hot.tree_roots@.len() as int),
        final(st).resolved_early == old(st).resolved_early,
        forall|k: int| recordable(old(st)@, k) ==> #[trigger] recordable(final(st)@, k),
        forall|m: spec_fn(SingleOp) -> u32| #[trigger]
            follows(*arith, m) ==> ended(r, final(st)@) == run_steps(
                m,
                *judge,
                init,
                old(st)@,
                staged_steps(*hot, old(hot_buf).values@, feat@, ids@, stages@, tested, style),
                0,
            ),
{
    let ghost st0 = st@;
    let ghost v0 = hot_buf.values@;
    let ghost map = hot@.hot_global_fidx;
    let ghost steps = staged_steps(*hot, v0, feat@, ids@, stages@, tested, style);
    let ghost trees = hot.tree_roots@.len() as int;
    proof {
        lemma_stage_trees_grow(stages@, trees, 0, stages@.len() as int);
    }
    let mut start: usize = 0;
    let mut i: usize = 0;
    while i < stages.len()
        invariant
            answers(*arith),
            judge_ready(*judge),
            i <= stages@.len(),
            start == stage_begin(stages@, i as int),
            hot@.nodes.len() <= MAX_TREE_MOVES,
            trees == hot.tree_roots@.len(),
            tested ==> start <= 0x8000_0000 && hot@.n_trees <= 0x8000_0000,
            !tested ==> stages_countable(stages@, trees),
            map == hot@.hot_global_fidx,
            map_fits(map, feat@),
            hot_buf.values@.len() == v0.len(),
            v0 == old(hot_buf).values@,
            stages_fit(stages@, ids@, map, v0.len()),
            hot_buf.values@ == staged_values(v0, map, feat@, ids@, stages@, i as int),
            steps == staged_steps(*hot, v0, feat@, ids@, stages@, tested, style),
            st0 == old(st)@,
            stage_slots_ready(*judge, st@, stages@),
            tested ==> st.work_evals <= MAX_TREE_MOVES * start,
            !tested ==> st.work_evals <= MAX_TREE_MOVES * stage_trees(stages@, trees, i as int),
            0 <= stage_trees(stages@, trees, i as int),
            st.resolved_early == old(st).resolved_early,
            forall|k: int| recordable(st0, k) ==> #[trigger] recordable(st@, k),
            forall|m: spec_fn(SingleOp) -> u32| #[trigger]
                follows(*arith, m) ==> run_steps(m, *judge, init, st0, steps, 0) == run_steps(
                    m,
                    *judge,
                    init,
                    st@,
                    steps,
                    i as int,
                ),
        decreases stages@.len() - i,
    {
        let s: PrefixV2HotStage = stages[i];
        assert(s == stages@[i as int]);
        if tested && (s.checkpoint <= start || s.checkpoint > hot.n_trees) {
            return Err(ScoreError::InvalidCheckpoint { checkpoint: s.checkpoint });
        }
        proof {
            lemma_stage_trees_grow(stages@, trees, i as int, i + 1);
            lemma_stage_trees_grow(stages@, trees, i + 1, stages@.len() as int);
        }
        if s.feature_end > s.feature_start {
            assert(ids@.len() == ids.len());
            let own: &[u16] = vstd::slice::slice_subrange(
                ids,
                s.feature_start as usize,
                s.feature_end as usize,
            );
            assert forall|k: int| 0 <= k < own@.len() implies (#[trigger] own@[k]) < map.len()
                && own@[k] < v0.len() by {
                assert(own@[k] == ids@[s.feature_start + k]);
            }
            hot_buf.fill_subset_from_global_u32(hot.hot_global_fidx.as_slice(), feat, own);
        }
        assert(hot_buf.values@ == staged_values(v0, map, feat@, ids@, stages@, i + 1));
        let mut row: PlainRow = PlainRow { feat: hot_buf.values.as_slice() };
        match hot_span(hot, &mut row, false, start, s.checkpoint) {
            Err(e) => {
                assert(steps[i as int].part == Err::<Walk, ScoreError>(e));
                return Err(e);
            },
            Ok(w) => {
                assert(steps[i as int].part == Ok::<Walk, ScoreError>(w@));
                assert(hot.starts().len() == trees);
                assert(start < s.checkpoint ==> s.checkpoint <= trees);
                assert(tested ==> span_len(start, s.checkpoint) == s.checkpoint - start);
                assert(!tested ==> stage_trees(stages@, trees, i + 1) == stage_trees(
                    stages@,
                    trees,
                    i as int,
                ) + span_len(start, s.checkpoint));
                let verdict: Option<(bool, u32)> = advance(
                    arith,
                    judge,
                    init,
                    st,
                    s.global_cp_idx,
                    s.checkpoint,
                    w,
                    style,
                );
                if let Some(v) = verdict {
                    return Ok(Some((v.0, v.1, s.checkpoint)));
                }
            },
        }
        start = s.checkpoint;
        i += 1;
    }
    Ok(None)
}

/// The ranks after the first `k` segments have ranked their features.
pub open spec fn segment_ranks(
    segs: Seq<LoadedLateSegment>,
    feat: Seq<u32>,
    ranks: Seq<u8>,
    k: int,
) -> Seq<u8>
    decreases k,
{
    if k <= 0 {
        ranks
    } else {
        let s = segs[k - 1];
        ranked_mapped(
            s.pack@,
            feat,
            segment_ranks(segs, feat, ranks, k - 1),
            s.local_to_global_fid@,
        )
    }
}

/// The steps over the segments. Where segments are tested, one without trees fails.
pub open spec fn segment_steps(
    segs: Seq<LoadedLateSegment>,
    feat: Seq<u32>,
    ranks: Seq<u8>,
    tested: bool,
) -> Seq<Step> {
    Seq::new(
        segs.len(),
        |i: int|
            Step {
                slot: segs[i].global_cp_idx,
                checkpoint: segs[i].checkpoint,
                part: if tested && segs[i].pack@.n_trees == 0 {
                    Err(ScoreError::InvalidCheckpoint { checkpoint: 0 })
                } else {
                    walk(
                        segs[i].pack@,
                        span(0, segs[i].pack@.n_trees),
                        segment_ranks(segs, feat, ranks, i + 1),
                        none_missing(),
                    )
                },
                style: StepStyle::onto(tested),
            },
    )
}

/// Whether a segment can be run on a row.
pub open spec fn segment_fits(s: LoadedLateSegment, feat: nat, ranks: nat) -> bool {
    &&& pack_sound(s.pack@)
    &&& s.pack@.n_trees <= 0x8000_0000
    &&& s.pack@.n_features <= ranks
    &&& s.local_to_global_fid@.len() <= s.pack@.n_features
    &&& names_below(s.pack@, s.local_to_global_fid@.len() as int)
    &&& forall|f: int|
        0 <= f < s.local_to_global_fid@.len() ==> (#[trigger] s.local_to_global_fid@[f]) < feat
}

/// How many blocks the first `k` segments have together.
pub open spec fn segment_blocks(segs: Seq<LoadedLateSegment>, k: int) -> int
    decreases k,
{
    if k <= 0 {
        0
    } else {
        segment_blocks(segs, k - 1) + block_total(
            segs[k - 1].pack@,
            span(0, segs[k - 1].pack@.n_trees),
        )
    }
}

/// More segments have no fewer blocks.
pub proof fn lemma_segment_blocks_grow(segs: Seq<LoadedLateSegment>, j: int, k: int)
    requires
        j <= k,
    ensures
        0 <= segment_blocks(segs, j) <= segment_blocks(segs, k),
    decreases k,
{
    if k > 0 {
        lemma_block_total_grows(segs[k - 1].pack@, span(0, segs[k - 1].pack@.n_trees), 0);
        if j < k {
            lemma_segment_blocks_grow(segs, j, k - 1);
        } else {
            lemma_segment_blocks_grow(segs, k - 1, k - 1);
        }
    }
}

/// Whether segments can be run on a row, and the blocks that are read can be counted on from
/// `count`.
pub open spec fn segments_fit(
    segs: Seq<LoadedLateSegment>,
    feat: nat,
    ranks: nat,
    count: int,
) -> bool {
    &&& count + segment_blocks(segs, segs.len() as int) <= u64::MAX
    &&& forall|i: int| 0 <= i < segs.len() ==> segment_fits(#[trigger] segs[i], feat, ranks)
}

/// Whether the slots of segments can be judged and recorded.
pub open spec fn segment_slots_ready(j: Judge, st: ProgressView, segs: Seq<LoadedLateSegment>) -> bool {
    forall|i: int|
        0 <= i < segs.len() ==> slot_ready(j, (#[trigger] segs[i]).global_cp_idx as int)
            && recordable(st, segs[i].global_cp_idx as int)
}

/// Runs over the segments.
fn run_segments<'a, A: Fn(SingleOp) -> u32>(
    arith: &A,
    judge: &Judge<'a>,
    init: u32,
    st: &mut Progress,
    segs: &Vec<LoadedLateSegment>,
    feat: &[u32],
    ranks: &mut [u8],
    tested: bool,
) -> (r: Result<Option<(bool, u32, usize)>, ScoreError>)
    requires
        answers(*arith),
        judge_ready(*judge),
        segment_slots_ready(*judge, old(st)@, segs@),
        segments_fit(segs@, feat@.len(), old(ranks)@.len(), old(st).work_evals as int),
        old(st).resolved_early <= old(st).work_evals,
    ensures
        final(ranks)@.len() == old(ranks)@.len(),
        r matches Ok(None) ==> final(ranks)@ == segment_ranks(
            segs@,
            feat@,
            old(ranks)@,
            segs@.len() as int,
        ),
        forall|m: spec_fn(SingleOp) -> u32| #[trigger]
            follows(*arith, m) ==> ended(r, final(st)@) == run_steps(
                m,
                *judge,
                init,
                old(st)@,
                segment_steps(segs@, feat@, old(ranks)@, tested),
                0,
            ),
{
    let ghost st0 = st@;
    let ghost r0 = ranks@;
    let ghost steps = segment_steps(segs@, feat@, r0, tested);
    let ghost count = st.work_evals as int;
    let mut i: usize = 0;
    while i < segs.len()
        invariant
            answers(*arith),
            judge_ready(*judge),
            i <= segs@.len(),
            segments_fit(segs@, feat@.len(), r0.len(), count),
            ranks@.len() == r0.len(),
            r0 == old(ranks)@,
            ranks@ == segment_ranks(segs@, feat@, r0, i as int),
            steps == segment_steps(segs@, feat@, r0, tested),
            st0 == old(st)@,
            segment_slots_ready(*judge, st@, segs@),
            st.work_evals <= count + segment_blocks(segs@, i as int),
            st.resolved_early <= count + segment_blocks(segs@, i as int),
            forall|m: spec_fn(SingleOp) -> u32| #[trigger]
                follows(*arith, m) ==> run_steps(m, *judge, init, st0, steps, 0) == run_steps(
                    m,
                    *judge,
                    init,
                    st@,
                    steps,
                    i as int,
                ),
        decreases segs@.len() - i,
    {
        let seg: &LoadedLateSegment = &segs[i];
        let ghost p = seg.pack@;
        assert(segment_fits(segs@[i as int], feat@.len(), r0.len()));
        proof {
            lemma_mapped_is_readable(p, feat@, ranks@, seg.local_to_global_fid@);
        }
        quantize_feature_subset_nomiss_mapped(
            &seg.pack,
            feat,
            ranks,
            seg.local_to_global_fid.as_slice(),
        );
        if tested && seg.pack.n_trees == 0 {
            return Err(ScoreError::InvalidCheckpoint { checkpoint: 0 });
        }
        let mut w: Walked = Walked::start(0, 0);
        let ghost w0 = w@;
        match walk_span(&seg.pack, 0, seg.pack.n_trees, ranks, None, &mut w) {
            Err(e) => {
                assert(steps[i as int].part == Err::<Walk, ScoreError>(e));
                return Err(e);
            },
            Ok(()) => {
                proof {
                    let v = walk(p, span(0, p.n_trees), ranks@, none_missing())->Ok_0;
                    assert(w0.join(v) =~= v);
                    assert(steps[i as int].part == Ok::<Walk, ScoreError>(w@));
                    lemma_walk_counts(p, span(0, p.n_trees), ranks@, none_missing());
                    lemma_segment_blocks_grow(segs@, i + 1, segs@.len() as int);
                }
                let verdict: Option<(bool, u32)> = advance(
                    arith,
                    judge,
                    init,
                    st,
                    seg.global_cp_idx,
                    seg.checkpoint,
                    w,
                    StepStyle::tree_by_tree(tested),
                );
                if let Some(v) = verdict {
                    return Ok(Some((v.0, v.1, seg.checkpoint)));
                }
            },
        }
        i += 1;
    }
    Ok(None)
}

/// The ranks after the first `k` late stretches have ranked the features they need anew.
pub open spec fn late_ranks(
    p: PackModel,
    feat: Seq<u32>,
    ranks: Seq<u8>,
    l: LayoutView,
    k: int,
) -> Seq<u8>
    decreases k,
{
    if k <= 0 {
        ranks
    } else {
        let before = late_ranks(p, feat, ranks, l, k - 1);
        let a = l.late_feature_offsets[k - 1] as int;
        let b = l.late_feature_offsets[k] as int;
        if b > a {
            ranked_spans(
                p.cuts,
                feat,
                before,
                l.late_feature_ids.subrange(a, b),
                l.late_cut_starts.subrange(a, b),
                l.late_cut_ends.subrange(a, b),
                (b - a) as nat,
            )
        } else {
            before
        }
    }
}

/// Where late stretch `i` begins.
pub open spec fn late_begin(l: LayoutView, start: int, i: int) -> int {
    if i <= 0 {
        start
    } else {
        l.late_values[i - 1] as int
    }
}

/// The steps over the late stretches. A checkpoint past the trees, or one that does not lie past
/// the start of its stretch, fails.
pub open spec fn late_steps(
    p: PackModel,
    feat: Seq<u32>,
    ranks: Seq<u8>,
    l: LayoutView,
    start: int,
) -> Seq<Step> {
    Seq::new(
        l.late_values.len(),
        |i: int|
            {
                let cp = l.late_values[i];
                let a = late_begin(l, start, i);
                Step {
                    slot: l.late_indices[i],
                    checkpoint: cp,
                    part: if cp == 0 || cp > p.n_trees {
                        Err(ScoreError::InvalidCheckpoint { checkpoint: cp })
                    } else if a >= cp {
                        Err(ScoreError::CheckpointNotReached { reached: 0 })
                    } else {
                        walk(
                            p,
                            span(a, cp as int),
                            late_ranks(p, feat, ranks, l, i + 1),
                            none_missing(),
                        )
                    },
                    style: StepStyle::onto(true),
                }
            },
    )
}

/// Whether the features of the late stretches are there, each with a span of cuts whose ranks the
/// pack takes.
pub open spec fn late_fits(l: LayoutView, p: PackModel, feat: nat, ranks: nat) -> bool {
    &&& l.late_feature_offsets.len() > l.late_values.len() || l.late_values.len() == 0
    &&& l.late_cut_starts.len() == l.late_feature_ids.len()
    &&& l.late_cut_ends.len() == l.late_feature_ids.len()
    &&& forall|i: int|
        0 <= i < l.late_feature_offsets.len() ==> (#[trigger] l.late_feature_offsets[i])
            <= l.late_feature_ids.len()
    &&& forall|i: int|
        0 <= i < l.late_feature_ids.len() ==> (#[trigger] l.late_feature_ids[i]) < feat
            && l.late_feature_ids[i] < ranks
    &&& forall|i: int|
        0 <= i < l.late_cut_starts.len() ==> (#[trigger] l.late_cut_starts[i])
            <= l.late_cut_ends[i] <= p.cuts.len() && feature_takes(
            p,
            l.late_feature_ids[i] as int,
            top_rank(l.late_cut_ends[i] - l.late_cut_starts[i]),
        )
}

/// Whether the trees of every late stretch can be read with the ranks that they find.
pub open spec fn late_readable(
    p: PackModel,
    feat: Seq<u32>,
    ranks: Seq<u8>,
    l: LayoutView,
    start: int,
) -> bool {
    forall|i: int|
        0 <= i < l.late_values.len() && 0 < (#[trigger] l.late_values[i]) <= p.n_trees
            ==> span_readable(
            p,
            late_begin(l, start, i),
            l.late_values[i] as int,
            late_ranks(p, feat, ranks, l, i + 1),
            none_missing(),
        )
}

/// Ranking features among spans that a pack takes leaves trees that could be read readable.
proof fn lemma_spans_fit(
    p: PackModel,
    feat: Seq<u32>,
    ranks: Seq<u8>,
    ids: Seq<u16>,
    starts: Seq<u32>,
    ends: Seq<u32>,
    n: nat,
)
    requires
        ranks_fit(p, ranks),
        n <= ids.len(),
        forall|i: int|
            0 <= i < n ==> (#[trigger] ids[i]) < ranks.len() && starts[i] <= ends[i]
                <= p.cuts.len() && feature_takes(p, ids[i] as int, top_rank(ends[i] - starts[i])),
    ensures
        ranks_fit(p, ranked_spans(p.cuts, feat, ranks, ids, starts, ends, n)),
        ranked_spans(p.cuts, feat, ranks, ids, starts, ends, n).len() == ranks.len(),
    decreases n,
{
    if n > 0 {
        lemma_spans_fit(p, feat, ranks, ids, starts, ends, (n - 1) as nat);
        let i = n - 1;
        let before = ranked_spans(p.cuts, feat, ranks, ids, starts, ends, (n - 1) as nat);
        assert(ids[i] < ranks.len());
        let cuts = p.cuts.subrange(starts[i] as int, ends[i] as int);
        let x = feat[ids[i] as int];
        lemma_rank_top(cuts, x);
        lemma_still_readable(
            p,
            before,
            ids[i] as int,
            rank_byte(cuts, x),
            top_rank(ends[i] - starts[i]),
        );
    }
}

/// There are as many ranks after every late stretch as before.
pub proof fn lemma_late_ranks_len(
    p: PackModel,
    feat: Seq<u32>,
    ranks: Seq<u8>,
    l: LayoutView,
    k: int,
)
    requires
        late_fits(l, p, feat.len(), ranks.len()),
        k <= l.late_values.len(),
    ensures
        late_ranks(p, feat, ranks, l, k).len() == ranks.len(),
    decreases k,
{
    if k > 0 {
        lemma_late_ranks_len(p, feat, ranks, l, k - 1);
        let a = l.late_feature_offsets[k - 1] as int;
        let b = l.late_feature_offsets[k] as int;
        if b > a {
            let ids = l.late_feature_ids.subrange(a, b);
            assert forall|i: int| 0 <= i < ids.len() implies (#[trigger] ids[i]) < ranks.len() by {
                assert(ids[i] == l.late_feature_ids[a + i]);
            }
            lemma_spans_len(
                p.cuts,
                feat,
                late_ranks(p, feat, ranks, l, k - 1),
                ids,
                l.late_cut_starts.subrange(a, b),
                l.late_cut_ends.subrange(a, b),
                (b - a) as nat,
            );
        }
    }
}

proof fn lemma_spans_len(
    cuts: Seq<u32>,
    feat: Seq<u32>,
    ranks: Seq<u8>,
    ids: Seq<u16>,
    starts: Seq<u32>,
    ends: Seq<u32>,
    n: nat,
)
    requires
        n <= ids.len(),
        forall|i: int| 0 <= i < ids.len() ==> (#[trigger] ids[i]) < ranks.len(),
    ensures
        ranked_spans(cuts, feat, ranks, ids, starts, ends, n).len() == ranks.len(),
    decreases n,
{
    if n > 0 {
        assert(ids[n - 1] < ranks.len());
        lemma_spans_len(cuts, feat, ranks, ids, starts, ends, (n - 1) as nat);
    }
}

/// Ranks that fit a pack fit it after every late stretch.
pub proof fn lemma_late_ranks_fit(
    p: PackModel,
    feat: Seq<u32>,
    ranks: Seq<u8>,
    l: LayoutView,
    k: int,
)
    requires
        ranks_fit(p, ranks),
        late_fits(l, p, feat.len(), ranks.len()),
        k <= l.late_values.len(),
    ensures
        ranks_fit(p, late_ranks(p, feat, ranks, l, k)),
        late_ranks(p, feat, ranks, l, k).len() == ranks.len(),
    decreases k,
{
    if k > 0 {
        lemma_late_ranks_fit(p, feat, ranks, l, k - 1);
        let before = late_ranks(p, feat, ranks, l, k - 1);
        let a = l.late_feature_offsets[k - 1] as int;
        let b = l.late_feature_offsets[k] as int;
        if b > a {
            let ids = l.late_feature_ids.subrange(a, b);
            let starts = l.late_cut_starts.subrange(a, b);
            let ends = l.late_cut_ends.subrange(a, b);
            assert forall|i: int| 0 <= i < ids.len() implies (#[trigger] ids[i]) < ranks.len()
                && starts[i] <= ends[i] <= p.cuts.len() && feature_takes(
                p,
                ids[i] as int,
                top_rank(ends[i] - starts[i]),
            ) by {
                assert(ids[i] == l.late_feature_ids[a + i]);
                assert(starts[i] == l.late_cut_starts[a + i]);
                assert(ends[i] == l.late_cut_ends[a + i]);
            }
            lemma_spans_fit(p, feat, before, ids, starts, ends, (b - a) as nat);
        }
    }
}

/// With ranks that fit the pack, every late stretch can be read.
pub proof fn lemma_fit_is_late_readable(
    p: PackModel,
    feat: Seq<u32>,
    ranks: Seq<u8>,
    l: LayoutView,
    start: int,
)
    requires
        ranks_fit(p, ranks),
        late_fits(l, p, feat.len(), ranks.len()),
        0 <= start,
    ensures
        late_readable(p, feat, ranks, l, start),
{
    assert forall|i: int|
        0 <= i < l.late_values.len() && 0 < (#[trigger] l.late_values[i])
            <= p.n_trees implies span_readable(
        p,
        late_begin(l, start, i),
        l.late_values[i] as int,
        late_ranks(p, feat, ranks, l, i + 1),
        none_missing(),
    ) by {
        lemma_late_ranks_fit(p, feat, ranks, l, i + 1);
        assert(0 <= late_begin(l, start, i));
    }
}

/// Whether a feature is among the first `n` of some.
pub open spec fn among(ids: Seq<u16>, n: int, f: int) -> bool {
    exists|q: int| 0 <= q < n && #[trigger] ids[q] == f
}

/// Whether everything that a tree names is among the first `n` of some features.
pub open spec fn tree_listed(p: PackModel, t: int, ids: Seq<u16>, n: int) -> bool {
    let h = p.tree_hdrs[t];
    forall|b: int|
        h.block_off <= b < h.block_off + h.block_cnt ==> among(
            ids,
            n,
            (#[trigger] p.block_hdrs[b]).fid as int,
        )
}

/// Whether every late stretch ranks the features of its trees, or a stretch before it does.
pub open spec fn late_covered(p: PackModel, l: LayoutView, start: int) -> bool {
    l.late_values.len() > 0 ==> {
        &&& l.late_feature_offsets.len() == l.late_values.len() + 1
        &&& offsets_climb(l.late_feature_offsets, l.late_feature_ids.len() as int)
        &&& forall|i: int, t: int|
            0 <= i < l.late_values.len() && late_begin(l, start, i) <= t < l.late_values[i] && t
                < p.n_trees ==> #[trigger] tree_listed(
                p,
                t,
                l.late_feature_ids,
                l.late_feature_offsets[i + 1] as int,
            )
    }
}

/// Whether the blocks of a tree that name a feature take one rank.
pub open spec fn tree_takes_one(p: PackModel, t: int, f: int, r: int) -> bool {
    let h = p.tree_hdrs[t];
    forall|b: int|
        h.block_off <= b < h.block_off + h.block_cnt && (#[trigger] p.block_hdrs[b]).fid == f
            ==> takes(p, b, r)
}

proof fn lemma_spans_take(
    p: PackModel,
    feat: Seq<u32>,
    ranks: Seq<u8>,
    ids: Seq<u16>,
    starts: Seq<u32>,
    ends: Seq<u32>,
    n: nat,
    t: int,
    f: int,
)
    requires
        0 <= t < p.n_trees,
        n <= ids.len(),
        0 <= f < ranks.len(),
        forall|i: int|
            0 <= i < n ==> (#[trigger] ids[i]) < ranks.len() && starts[i] <= ends[i]
                <= p.cuts.len() && feature_takes(p, ids[i] as int, top_rank(ends[i] - starts[i])),
    ensures
        ({
            let now = ranked_spans(p.cuts, feat, ranks, ids, starts, ends, n);
            &&& now.len() == ranks.len()
            &&& if among(ids, n as int, f) {
                tree_takes_one(p, t, f, now[f] as int)
            } else {
                now[f] == ranks[f]
            }
        }),
    decreases n,
{
    if n > 0 {
        lemma_spans_take(p, feat, ranks, ids, starts, ends, (n - 1) as nat, t, f);
        let i = n - 1;
        let cuts = p.cuts.subrange(starts[i] as int, ends[i] as int);
        assert(ids[i] < ranks.len());
        lemma_rank_top(cuts, feat[ids[i] as int]);
        if ids[i] == f {
            assert(tree_takes(p, t, f, top_rank(ends[i] - starts[i])));
            assert(among(ids, n as int, f));
        } else if among(ids, n as int, f) {
            let q = choose|q: int| 0 <= q < n && #[trigger] ids[q] == f;
            assert(among(ids, n - 1, f));
        } else {
            if among(ids, n - 1, f) {
                let q = choose|q: int| 0 <= q < n - 1 && #[trigger] ids[q] == f;
                assert(among(ids, n as int, f));
            }
        }
    }
}

/// A feature that was listed so far has a rank that the pack takes.
proof fn lemma_listed_ranks_take(
    p: PackModel,
    feat: Seq<u32>,
    ranks: Seq<u8>,
    l: LayoutView,
    k: int,
    t: int,
    f: int,
)
    requires
        0 <= t < p.n_trees,
        late_fits(l, p, feat.len(), ranks.len()),
        offsets_climb(l.late_feature_offsets, l.late_feature_ids.len() as int),
        0 <= k < l.late_feature_offsets.len(),
        0 <= f < ranks.len(),
    ensures
        late_ranks(p, feat, ranks, l, k).len() == ranks.len(),
        among(l.late_feature_ids, l.late_feature_offsets[k] as int, f) ==> tree_takes_one(
            p,
            t,
            f,
            late_ranks(p, feat, ranks, l, k)[f] as int,
        ),
    decreases k,
{
    if k > 0 {
        lemma_listed_ranks_take(p, feat, ranks, l, k - 1, t, f);
        let before = late_ranks(p, feat, ranks, l, k - 1);
        let a = l.late_feature_offsets[k - 1] as int;
        let b = l.late_feature_offsets[k] as int;
        let all = l.late_feature_ids;
        assert(a <= b <= all.len());
        if b > a {
            let ids = all.subrange(a, b);
            let starts = l.late_cut_starts.subrange(a, b);
            let ends = l.late_cut_ends.subrange(a, b);
            assert forall|i: int| 0 <= i < ids.len() implies (#[trigger] ids[i]) < ranks.len()
                && starts[i] <= ends[i] <= p.cuts.len() && feature_takes(
                p,
                ids[i] as int,
                top_rank(ends[i] - starts[i]),
            ) by {
                assert(ids[i] == all[a + i]);
                assert(starts[i] == l.late_cut_starts[a + i]);
                assert(ends[i] == l.late_cut_ends[a + i]);
            }
            lemma_spans_take(p, feat, before, ids, starts, ends, (b - a) as nat, t, f);
            if among(all, b, f) {
                let q = choose|q: int| 0 <= q < b && #[trigger] all[q] == f;
                if q >= a {
                    assert(ids[q - a] == f);
                    assert(among(ids, b - a, f));
                } else {
                    assert(among(all, a, f));
                }
            }
        }
    }
}

/// Where every stretch ranks the features of its trees, it can be read whatever the ranks were.
pub proof fn lemma_covered_is_late_readable(
    p: PackModel,
    feat: Seq<u32>,
    ranks: Seq<u8>,
    l: LayoutView,
    start: int,
)
    requires
        pack_sound(p),
        p.n_features <= ranks.len(),
        late_fits(l, p, feat.len(), ranks.len()),
        late_covered(p, l, start),
        0 <= start,
    ensures
        late_readable(p, feat, ranks, l, start),
{
    assert forall|i: int|
        0 <= i < l.late_values.len() && 0 < (#[trigger] l.late_values[i])
            <= p.n_trees implies span_readable(
        p,
        late_begin(l, start, i),
        l.late_values[i] as int,
        late_ranks(p, feat, ranks, l, i + 1),
        none_missing(),
    ) by {
        let own = late_ranks(p, feat, ranks, l, i + 1);
        assert forall|t: int| late_begin(l, start, i) <= t < l.late_values[i] implies
            #[trigger] tree_readable(p, t, own, none_missing()) by {
            assert(0 <= late_begin(l, start, i));
            assert(tree_sound(p, t));
            assert(tree_listed(p, t, l.late_feature_ids, l.late_feature_offsets[i + 1] as int));
            let h = p.tree_hdrs[t];
            assert forall|b: int| h.block_off <= b < h.block_off + h.block_cnt implies
                #[trigger] block_readable(p, b, own, none_missing()) by {
                assert(block_sound(p, b));
                let f = p.block_hdrs[b].fid as int;
                assert(among(l.late_feature_ids, l.late_feature_offsets[i + 1] as int, f));
                lemma_listed_ranks_take(p, feat, ranks, l, i + 1, t, f);
                assert(takes(p, b, own[f] as int));
            }
        }
    }
}

/// Runs over the late stretches.
fn run_late<'a, A: Fn(SingleOp) -> u32>(
    arith: &A,
    judge: &Judge<'a>,
    init: u32,
    st: &mut Progress,
    pack: &QsPack,
    layout: &HotCheckpointLayout,
    feat: &[u32],
    ranks: &mut [u8],
    start: usize,
) -> (r: Result<Option<(bool, u32, usize)>, ScoreError>)
    requires
        answers(*arith),
        judge_ready(*judge),
        slots_ready(*judge, old(st)@, layout@.late_indices, layout@.late_values.len()),
        pack_sound(pack@),
        pack@.n_trees <= 0x8000_0000,
        pack@.n_features <= old(ranks)@.len(),
        late_fits(layout@, pack@, feat@.len(), old(ranks)@.len()),
        late_readable(pack@, feat@, old(ranks)@, layout@, start as int),
        start <= pack@.n_trees,
        old(st).work_evals <= MAX_TREE_MOVES * 0x8000_0000,
        old(st).resolved_early <= 0x8000_0000,
    ensures
        final(ranks)@.len() == old(ranks)@.len(),
        ranks_fit(pack@, old(ranks)@) ==> ranks_fit(pack@, final(ranks)@),
        r matches Ok(None) ==> final(ranks)@ == late_ranks(
            pack@,
            feat@,
            old(ranks)@,
            layout@,
            layout@.late_values.len() as int,
        ),
        forall|m: spec_fn(SingleOp) -> u32| #[trigger]
            follows(*arith, m) ==> ended(r, final(st)@) == run_steps(
                m,
                *judge,
                init,
                old(st)@,
                late_steps(pack@, feat@, old(ranks)@, layout@, start as int),
                0,
            ),
{
    let ghost p = pack@;
    let ghost l = layout@;
    let ghost st0 = st@;
    let ghost r0 = ranks@;
    let ghost steps = late_steps(p, feat@, r0, l, start as int);
    let mut from: usize = start;
    let mut i: usize = 0;
    while i < layout.late_values.len()
        invariant
            answers(*arith),
            judge_ready(*judge),
            p == pack@,
            l == layout@,
            i <= l.late_values.len(),
            pack_sound(p),
            p.n_trees <= 0x8000_0000,
            p.n_features <= r0.len(),
            late_fits(l, p, feat@.len(), r0.len()),
            ranks@.len() == r0.len(),
            r0 == old(ranks)@,
            late_readable(p, feat@, r0, l, start as int),
            ranks_fit(p, r0) ==> ranks_fit(p, ranks@),
            ranks@ == late_ranks(p, feat@, r0, l, i as int),
            from == late_begin(l, start as int, i as int),
            start <= from <= p.n_trees,
            steps == late_steps(p, feat@, r0, l, start as int),
            st0 == old(st)@,
            slots_ready(*judge, st@, l.late_indices, l.late_values.len()),
            st.work_evals <= MAX_TREE_MOVES * 0x8000_0000 + MAX_TREE_BLOCKS * (from - start),
            st.resolved_early <= 0x8000_0000 + (from - start),
            forall|m: spec_fn(SingleOp) -> u32| #[trigger]
                follows(*arith, m) ==> run_steps(m, *judge, init, st0, steps, 0) == run_steps(
                    m,
                    *judge,
                    init,
                    st@,
                    steps,
                    i as int,
                ),
        decreases l.late_values.len() - i,
    {
        let cp: usize = layout.late_values[i];
        let slot: usize = layout.late_indices[i];
        assert(slot_ready(*judge, l.late_indices[i as int] as int));
        let a: u32 = layout.late_feature_offsets[i];
        let b: u32 = layout.late_feature_offsets[i + 1];
        if b > a {
            assert(l.late_feature_offsets[i + 1] <= l.late_feature_ids.len());
            assert(layout.late_feature_ids@.len() == layout.late_feature_ids.len());
            let ids: &[u16] = vstd::slice::slice_subrange(
                layout.late_feature_ids.as_slice(),
                a as usize,
                b as usize,
            );
            let starts: &[u32] = vstd::slice::slice_subrange(
                layout.late_cut_starts.as_slice(),
                a as usize,
                b as usize,
            );
            let ends: &[u32] = vstd::slice::slice_subrange(
                layout.late_cut_ends.as_slice(),
                a as usize,
                b as usize,
            );
            proof {
                assert forall|k: int| 0 <= k < ids@.len() implies (#[trigger] ids@[k])
                    < feat@.len() && ids@[k] < r0.len() by {
                    assert(ids@[k] == l.late_feature_ids[a + k]);
                }
                assert forall|k: int| 0 <= k < starts@.len() implies (#[trigger] starts@[k])
                    <= ends@[k] <= p.cuts.len() by {
                    assert(starts@[k] == l.late_cut_starts[a + k]);
                    assert(ends@[k] == l.late_cut_ends[a + k]);
                }
                assert forall|k: int| 0 <= k < ids@.len() implies {
                    &&& #[trigger] ids@[k] < feat@.len()
                    &&& ids@[k] < ranks@.len()
                    &&& starts@[k] <= ends@[k] <= pack.cuts@.len()
                } by {
                    assert(starts@[k] <= ends@[k]);
                }
            }
            quantize_feature_subset_nomiss_precomputed(
                pack.cuts.as_slice(),
                feat,
                ranks,
                ids,
                starts,
                ends,
            );
        }
        assert(ranks@ == late_ranks(p, feat@, r0, l, i + 1));
        proof {
            lemma_late_ranks_len(p, feat@, r0, l, i + 1);
            if ranks_fit(p, r0) {
                lemma_late_ranks_fit(p, feat@, r0, l, i + 1);
            }
        }
        if cp == 0 || cp > pack.n_trees {
            return Err(ScoreError::InvalidCheckpoint { checkpoint: cp });
        }
        if from >= cp {
            return Err(ScoreError::CheckpointNotReached { reached: 0 });
        }
        assert(span_readable(p, from as int, cp as int, ranks@, none_missing())) by {
            assert(0 < l.late_values[i as int] <= p.n_trees);
        }
        let mut w: Walked = Walked::start(0, 0);
        let ghost w0 = w@;
        match walk_span(pack, from, cp, ranks, None, &mut w) {
            Err(e) => {
                assert(steps[i as int].part == Err::<Walk, ScoreError>(e));
                return Err(e);
            },
            Ok(()) => {
                proof {
                    let v = walk(p, span(from as int, cp as int), ranks@, none_missing())->Ok_0;
                    assert(w0.join(v) =~= v);
                    assert(steps[i as int].part == Ok::<Walk, ScoreError>(w@));
                }
                let verdict: Option<(bool, u32)> = advance(
                    arith,
                    judge,
                    init,
                    st,
                    slot,
                    cp,
                    w,
                    StepStyle::tree_by_tree(true),
                );
                if let Some(v) = verdict {
                    return Ok(Some((v.0, v.1, cp)));
                }
            },
        }
        from = cp;
        i += 1;
    }
    Ok(None)
}

/// The plan of a model.
pub open spec fn plan_of<'a>(rt: &'a LoadedPrefixRuntime) -> Option<&'a LoadedPrefixCertifyPlan> {
    match &rt.certify_plan {
        Some(p) => Some(p),
        None => None,
    }
}

/// The stages of a plan with the slots of a layout.
pub open spec fn stages_of(plan: HotStagePlan, slots: Seq<usize>) -> Seq<PrefixV2HotStage> {
    Seq::new(
        plan.checkpoints@.len(),
        |i: int| stage_at(plan.checkpoints@, plan.feature_offsets@, slots, i),
    )
}

/// The run over the first trees: in stages where there is a plan for them.
pub open spec fn online_first(
    m: spec_fn(SingleOp) -> u32,
    j: Judge,
    rt: LoadedPrefixRuntime,
    feat: Seq<u32>,
    buf: Seq<u32>,
) -> Result<Ended, ScoreError> {
    let base = rt.pack@.base_score;
    let h = rt.compiled_hot_pack->Some_0;
    let l = rt.hot_checkpoint_layout->Some_0@;
    let st = beginning(base, base, false, 0);
    match rt.hot_stage_plan {
        Some(plan) => if l.hot_values.len() == 0 {
            Ok(Ended { st, verdict: None })
        } else if plan.checkpoints@.len() == 0 {
            Err(ScoreError::NoCheckpoints)
        } else if plan.feature_offsets@.len() != plan.checkpoints@.len() + 1 {
            Err(ScoreError::StageOffsets)
        } else {
            run_steps(
                m,
                j,
                base,
                st,
                staged_steps(
                    h,
                    buf,
                    feat,
                    plan.hot_feature_ids@,
                    stages_of(plan, l.hot_indices),
                    true,
                    StepStyle::onto(true),
                ),
                0,
            )
        },
        None => first_phase(
            m,
            j,
            base,
            base,
            false,
            0,
            h@.n_trees,
            h.nodes_model(),
            h.starts(),
            full_row(filled(buf, h@.hot_global_fidx, feat)),
            false,
            l,
        ),
    }
}

/// What a row without missing values comes to, stage by stage: first trees, then segments where
/// there are any, else the late stretches of the pack.
pub open spec fn online_row(
    m: spec_fn(SingleOp) -> u32,
    rt: &LoadedPrefixRuntime,
    feat: Seq<u32>,
    tau: u32,
    fold: i32,
    ranks: Seq<u8>,
    buf: Seq<u32>,
) -> Result<ShadowView, ScoreError> {
    let j = judge_for(rt, plan_of(rt), fold, tau);
    let base = rt.pack@.base_score;
    let h = rt.compiled_hot_pack->Some_0;
    let l = rt.hot_checkpoint_layout->Some_0@;
    outcome(
        match online_first(m, j, *rt, feat, buf) {
            Err(e) => Err(e),
            Ok(e) => if e.verdict is Some {
                Ok(e)
            } else if rt.late_segments is Some && rt.late_segments->Some_0@.len() > 0 {
                run_steps(
                    m,
                    j,
                    base,
                    e.st,
                    segment_steps(rt.late_segments->Some_0@, feat, ranks, true),
                    0,
                )
            } else {
                run_steps(
                    m,
                    j,
                    base,
                    e.st,
                    late_steps(rt.pack@, feat, ranks, l, fewer(h@.n_trees, rt.pack@.n_trees)),
                    0,
                )
            },
        },
        last_checkpoint(rt.calibration),
    )
}

/// The ranks after a row that no stage decided.
pub open spec fn online_ranks(rt: LoadedPrefixRuntime, feat: Seq<u32>, ranks: Seq<u8>) -> Seq<u8> {
    let l = rt.hot_checkpoint_layout->Some_0@;
    if rt.late_segments is Some && rt.late_segments->Some_0@.len() > 0 {
        let segs = rt.late_segments->Some_0@;
        segment_ranks(segs, feat, ranks, segs.len() as int)
    } else {
        late_ranks(rt.pack@, feat, ranks, l, l.late_values.len() as int)
    }
}

/// Whether a model can run rows stage by stage.
pub open spec fn online_ready(rt: LoadedPrefixRuntime, feat: nat, ranks: nat, buf: nat) -> bool {
    let slots = rt.calibration.tables@.len();
    &&& runtime_sound(rt)
    &&& rt.pack@.n_features <= ranks
    &&& rt.certify_plan matches Some(p) ==> plan_sound(p)
    &&& (rt.compiled_hot_pack is Some && rt.hot_checkpoint_layout is Some) ==> {
        let h = rt.compiled_hot_pack->Some_0;
        let l = rt.hot_checkpoint_layout->Some_0@;
        &&& h@.hot_global_fidx.len() <= buf
        &&& forall|k: int|
            0 <= k < h@.hot_global_fidx.len() ==> (#[trigger] h@.hot_global_fidx[k]) < feat
        &&& has_segments(rt) || late_fits(l, rt.pack@, feat, ranks)
        &&& rt.hot_stage_plan matches Some(plan) ==> {
            &&& plan.checkpoints@.len() <= l.hot_indices.len()
            &&& forall|i: int|
                0 <= i < plan.checkpoints@.len() ==> #[trigger] l.hot_indices[i] < slots
            &&& plan.feature_offsets@.len() == plan.checkpoints@.len() + 1 ==> stages_fit(
                stages_of(plan, l.hot_indices),
                plan.hot_feature_ids@,
                h@.hot_global_fidx,
                buf,
            )
        }
        &&& rt.late_segments matches Some(segs) ==> {
            &&& segments_fit(segs@, feat, ranks, MAX_TREE_MOVES * 0x8000_0000)
            &&& forall|i: int| 0 <= i < segs@.len() ==> (#[trigger] segs@[i]).global_cp_idx < slots
        }
    }
}

/// Whether a model has late stretches cut out as segments.
pub open spec fn has_segments(rt: LoadedPrefixRuntime) -> bool {
    rt.late_segments is Some && rt.late_segments->Some_0@.len() > 0
}

/// Whether a row can be run over the late stretches of a pack, where a model runs them there.
pub open spec fn late_ready(rt: LoadedPrefixRuntime, feat: Seq<u32>, ranks: Seq<u8>) -> bool {
    compiled_route(rt) && !has_segments(rt) ==> late_readable(
        rt.pack@,
        feat,
        ranks,
        rt.hot_checkpoint_layout->Some_0@,
        fewer(rt.compiled_hot_pack->Some_0@.n_trees, rt.pack@.n_trees),
    )
}

/// Runs a row without missing values stage by stage, where the model has what that takes.
pub fn run_prefix_shadow_row_single_route_compiled_nomiss_online<A: Fn(SingleOp) -> u32>(
    arith: &A,
    runtime: &LoadedPrefixRuntime,
    feat: &[u32],
    row_tau: u32,
    row_fold: i32,
    hot_buf: &mut HotFeatureBuf,
    ranks: &mut [u8],
) -> (r: Result<Option<PrefixRowShadow>, ScoreError>)
    requires
        answers(*arith),
        online_ready(
            *runtime,
            feat@.len(),
            old(ranks)@.len(),
            old(hot_buf).values@.len(),
        ),
        late_ready(*runtime, feat@, old(ranks)@),
    ensures
        final(hot_buf).values@.len() == old(hot_buf).values@.len(),
        final(ranks)@.len() == old(ranks)@.len(),
        !has_segments(*runtime) && ranks_fit(runtime.pack@, old(ranks)@) ==> ranks_fit(
            runtime.pack@,
            final(ranks)@,
        ),
        if !compiled_route(*runtime) {
            &&& r == Ok::<Option<PrefixRowShadow>, ScoreError>(None)
            &&& final(ranks)@ == old(ranks)@
            &&& final(hot_buf).values@ == old(hot_buf).values@
        } else {
            &&& r is Ok ==> r->Ok_0 is Some
            &&& (r matches Ok(Some(row)) && row.fallback_used) ==> final(ranks)@ == online_ranks(
                *runtime,
                feat@,
                old(ranks)@,
            )
            &&& forall|m: spec_fn(SingleOp) -> u32| #[trigger]
                follows(*arith, m) ==> match online_row(
                    m,
                    runtime,
                    feat@,
                    row_tau,
                    row_fold,
                    old(ranks)@,
                    old(hot_buf).values@,
                ) {
                    Err(e) => r == Err::<Option<PrefixRowShadow>, ScoreError>(e),
                    Ok(v) => r matches Ok(Some(row)) && row@ == v,
                }
        },
{
    if !has_compiled_route(runtime) {
        return Ok(None);
    }
    match (&runtime.compiled_hot_pack, &runtime.hot_checkpoint_layout) {
        (Some(hot), Some(layout)) => {
            let judge: Judge = make_judge(
                runtime,
                runtime.certify_plan.as_ref(),
                row_fold,
                row_tau,
            );
            let base: u32 = runtime.pack.base_score;
            let ghost tables = runtime.calibration.tables@.len();
            let ghost blank = beginning(base, base, false, 0);
            let mut st: Progress = Progress::begin(base, base, false, 0);
            let mut verdict: Option<(bool, u32, usize)> = None;
            if layout.hot_values.len() > 0 {
                let got: Result<Option<(bool, u32, usize)>, ScoreError> =
                    match &runtime.hot_stage_plan {
                    Some(plan) => {
                        let n: usize = plan.checkpoints.len();
                        if n == 0 {
                            return Err(ScoreError::NoCheckpoints);
                        }
                        if plan.feature_offsets.len() == 0 || plan.feature_offsets.len() - 1 != n {
                            return Err(ScoreError::StageOffsets);
                        }
                        let stages: Vec<PrefixV2HotStage> = list_stages(plan, layout);
                        assert forall|i: int| 0 <= i < stages@.len() implies slot_ready(
                            judge,
                            (#[trigger] stages@[i]).global_cp_idx as int,
                        ) && recordable(st@, stages@[i].global_cp_idx as int) by {
                            assert(layout@.hot_indices[i] < tables);
                            assert(slot_ready(judge, layout@.hot_indices[i] as int));
                        }
                        run_stages(
                            arith,
                            &judge,
                            base,
                            &mut st,
                            hot,
                            hot_buf,
                            feat,
                            plan.hot_feature_ids.as_slice(),
                            &stages,
                            true,
                            StepStyle::tree_by_tree(true),
                        )
                    },
                    None => {
                        hot_buf.fill_from_global_u32(hot.hot_global_fidx.as_slice(), feat);
                        let mut row: PlainRow = PlainRow { feat: hot_buf.values.as_slice() };
                        assert forall|i: int| 0 <= i < layout.hot_values@.len() implies slot_ready(
                            judge,
                            #[trigger] layout.hot_indices@[i] as int,
                        ) && recordable(st@, layout.hot_indices@[i] as int) by {
                            assert(layout@.hot_indices[i] < tables);
                            assert(slot_ready(judge, layout.hot_indices@[i] as int));
                        }
                        run_hot(
                            arith,
                            &judge,
                            base,
                            &mut st,
                            hot,
                            &mut row,
                            false,
                            layout.hot_values.as_slice(),
                            layout.hot_indices.as_slice(),
                        )
                    },
                };
                match got {
                    Err(e) => {
                        return Err(e);
                    },
                    Ok(v) => {
                        verdict = v;
                    },
                }
            }
            if verdict.is_none() {
                let got: Result<Option<(bool, u32, usize)>, ScoreError> =
                    match &runtime.late_segments {
                    Some(segs) if segs.len() > 0 => {
                        assert forall|i: int| 0 <= i < segs@.len() implies slot_ready(
                            judge,
                            (#[trigger] segs@[i]).global_cp_idx as int,
                        ) && recordable(st@, segs@[i].global_cp_idx as int) by {
                            assert(slot_ready(judge, segs@[i].global_cp_idx as int));
                            assert(recordable(blank, segs@[i].global_cp_idx as int));
                        }
                        run_segments(arith, &judge, base, &mut st, segs, feat, ranks, true)
                    },
                    _ => {
                        let start: usize = if hot.n_trees <= runtime.pack.n_trees {
                            hot.n_trees
                        } else {
                            runtime.pack.n_trees
                        };
                        assert forall|i: int| 0 <= i < layout@.late_values.len() implies slot_ready(
                            judge,
                            #[trigger] layout@.late_indices[i] as int,
                        ) && recordable(st@, layout@.late_indices[i] as int) by {
                            assert(layout@.late_indices[i] < tables);
                            assert(slot_ready(judge, layout@.late_indices[i] as int));
                            assert(recordable(blank, layout@.late_indices[i] as int));
                        }
                        run_late(
                            arith,
                            &judge,
                            base,
                            &mut st,
                            &runtime.pack,
                            layout,
                            feat,
                            ranks,
                            start,
                        )
                    },
                };
                match got {
                    Err(e) => {
                        return Err(e);
                    },
                    Ok(v) => {
                        verdict = v;
                    },
                }
            }
            Ok(Some(conclude(st, verdict, fallback_checkpoint(&runtime.calibration))))
        },
        _ => Ok(None),
    }
}

/// Lists the stages of a plan with the slots of a layout.
pub fn list_stages(plan: &HotStagePlan, layout: &HotCheckpointLayout) -> (r: Vec<PrefixV2HotStage>)
    requires
        plan.feature_offsets@.len() == plan.checkpoints@.len() + 1,
        plan.checkpoints@.len() <= layout@.hot_indices.len(),
    ensures
        r@ == stages_of(*plan, layout@.hot_indices),
{
    let ghost want = stages_of(*plan, layout@.hot_indices);
    let mut r: Vec<PrefixV2HotStage> = Vec::new();
    let mut i: usize = 0;
    while i < plan.checkpoints.len()
        invariant
            i <= plan.checkpoints@.len(),
            plan.feature_offsets@.len() == plan.checkpoints@.len() + 1,
            plan.checkpoints@.len() <= layout@.hot_indices.len(),
            want == stages_of(*plan, layout@.hot_indices),
            r@ == want.take(i as int),
        decreases plan.checkpoints@.len() - i,
    {
        r.push(
            PrefixV2HotStage {
                checkpoint: plan.checkpoints[i],
                global_cp_idx: layout.hot_indices[i],
                feature_start: plan.feature_offsets[i],
                feature_end: plan.feature_offsets[i + 1],
            },
        );
        i += 1;
        assert(r@ =~= want.take(i as int));
    }
    assert(r@ =~= want);
    r
}

/// Whether a model has the stages of its first trees prepared, with everything they go with.
pub open spec fn prepared_route(rt: LoadedPrefixRuntime) -> bool {
    &&& rt.prefix_v2 is Some
    &&& rt.compiled_hot_pack is Some
    &&& rt.certify_plan is Some
    &&& rt.atlas_certifier is Some
    &&& rt.late_segments is Some
    &&& rt.certifier_kind == PrefixCertifierKind::AtlasV1
    &&& hot_kernel(rt.direct_kernel)
}

/// What a row without missing values comes to over prepared stages and segments.
pub open spec fn prepared_row(
    m: spec_fn(SingleOp) -> u32,
    rt: &LoadedPrefixRuntime,
    feat: Seq<u32>,
    tau: u32,
    fold: i32,
    ranks: Seq<u8>,
    buf: Seq<u32>,
) -> Result<ShadowView, ScoreError> {
    let j = judge_for(rt, plan_of(rt), fold, tau);
    let base = rt.pack@.base_score;
    let h = rt.compiled_hot_pack->Some_0;
    let v2 = rt.prefix_v2->Some_0;
    let first = run_steps(
        m,
        j,
        base,
        beginning(base, base, false, 0),
        staged_steps(
            h,
            buf,
            feat,
            v2.hot_feature_ids@,
            v2.stages@,
            false,
            StepStyle::onto(true),
        ),
        0,
    );
    outcome(
        match first {
            Err(e) => Err(e),
            Ok(e) => if e.verdict is Some {
                Ok(e)
            } else {
                run_steps(
                    m,
                    j,
                    base,
                    e.st,
                    segment_steps(rt.late_segments->Some_0@, feat, ranks, false),
                    0,
                )
            },
        },
        last_checkpoint(rt.calibration),
    )
}

/// Whether a model can run rows over prepared stages.
pub open spec fn prepared_ready(rt: LoadedPrefixRuntime, feat: nat, ranks: nat, buf: nat) -> bool {
    &&& runtime_sound(rt)
    &&& prepared_route(rt) ==> {
        let h = rt.compiled_hot_pack->Some_0;
        let v2 = rt.prefix_v2->Some_0;
        let segs = rt.late_segments->Some_0@;
        &&& plan_sound(rt.certify_plan->Some_0)
        &&& forall|k: int|
            0 <= k < h@.hot_global_fidx.len() ==> (#[trigger] h@.hot_global_fidx[k]) < feat
        &&& stages_countable(v2.stages@, h.tree_roots@.len() as int)
        &&& stages_fit(v2.stages@, v2.hot_feature_ids@, h@.hot_global_fidx, buf)
        &&& segments_fit(
            segs,
            feat,
            ranks,
            stage_work(v2.stages@, h.tree_roots@.len() as int),
        )
    }
}

/// Runs a row without missing values over prepared stages and segments, where the model has them.
pub fn run_prefix_shadow_row_single_route_prefix_v2_nomiss<A: Fn(SingleOp) -> u32>(
    arith: &A,
    runtime: &LoadedPrefixRuntime,
    feat: &[u32],
    row_tau: u32,
    row_fold: i32,
    hot_buf: &mut HotFeatureBuf,
    ranks: &mut [u8],
) -> (r: Result<Option<PrefixRowShadow>, ScoreError>)
    requires
        answers(*arith),
        prepared_ready(
            *runtime,
            feat@.len(),
            old(ranks)@.len(),
            old(hot_buf).values@.len(),
        ),
    ensures
        final(hot_buf).values@.len() == old(hot_buf).values@.len(),
        final(ranks)@.len() == old(ranks)@.len(),
        if !prepared_route(*runtime) {
            &&& r == Ok::<Option<PrefixRowShadow>, ScoreError>(None)
            &&& final(ranks)@ == old(ranks)@
            &&& final(hot_buf).values@ == old(hot_buf).values@
        } else {
            &&& r is Ok ==> r->Ok_0 is Some
            &&& forall|m: spec_fn(SingleOp) -> u32| #[trigger]
                follows(*arith, m) ==> match prepared_row(
                    m,
                    runtime,
                    feat@,
                    row_tau,
                    row_fold,
                    old(ranks)@,
                    old(hot_buf).values@,
                ) {
                    Err(e) => r == Err::<Option<PrefixRowShadow>, ScoreError>(e),
                    Ok(v) => r matches Ok(Some(row)) && row@ == v,
                }
        },
{
    if runtime.atlas_certifier.is_none() || runtime.certifier_kind != PrefixCertifierKind::AtlasV1
        || !crate::kinds::is_hot_kernel(runtime.direct_kernel) {
        return Ok(None);
    }
    match (
        &runtime.prefix_v2,
        &runtime.compiled_hot_pack,
        &runtime.certify_plan,
        &runtime.late_segments,
    ) {
        (Some(v2), Some(hot), Some(plan), Some(segs)) => {
            let judge: Judge = make_judge(runtime, Some(plan), row_fold, row_tau);
            let base: u32 = runtime.pack.base_score;
            let mut st: Progress = Progress::begin(base, base, false, 0);
            let mut verdict: Option<(bool, u32, usize)> = None;
            match run_stages(
                arith,
                &judge,
                base,
                &mut st,
                hot,
                hot_buf,
                feat,
                v2.hot_feature_ids.as_slice(),
                &v2.stages,
                false,
                StepStyle::tree_by_tree(true),
            ) {
                Err(e) => {
                    return Err(e);
                },
                Ok(v) => {
                    verdict = v;
                },
            }
            if verdict.is_none() {
                assert forall|i: int| 0 <= i < segs@.len() implies recordable(
                    st@,
                    (#[trigger] segs@[i]).global_cp_idx as int,
                ) by {
                    assert(recordable(
                        beginning(base, base, false, 0),
                        segs@[i].global_cp_idx as int,
                    ));
                }
                match run_segments(arith, &judge, base, &mut st, segs, feat, ranks, false) {
                    Err(e) => {
                        return Err(e);
                    },
                    Ok(v) => {
                        verdict = v;
                    },
                }
            }
            Ok(Some(conclude(st, verdict, fallback_checkpoint(&runtime.calibration))))
        },
        _ => Ok(None),
    }
}

} // verus!
