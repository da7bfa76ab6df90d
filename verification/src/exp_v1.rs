//! Rows without missing values over a package of their own: the first trees in compact form, the
//! late stretches and the rest each as a pack.

use crate::arith::{add_values, answers, follows, total, SingleOp};
use crate::bands::atlas_tau_bin;
use crate::certify::{Certifier, LoadedPrefixAtlas, PrefixCertifierKind};
use crate::forest::natural_order;
use crate::hot::{HotFeatureBuf, MAX_TREE_MOVES};
use crate::hot_pack::HotCompiledPrefixPack;
use crate::layout::{HotCheckpointLayout, LayoutView, PrefixV2HotStage};
use crate::minpack::OnlineL2Output;
use crate::online::{
    late_begin, list_stages, run_stages, stage_work, staged_steps, stages_countable, stages_fit,
    stages_of,
};
use crate::pack_check::{lemma_mapped_is_readable, names_below, pack_sound};
use crate::prefix_runtime::{
    atlas_of, fallback_checkpoint, fewer, last_checkpoint, runtime_sound, LoadedLateSegment,
    LoadedPrefixRuntime,
};
use crate::qs_extract::{
    extract_tree_indices_remapped, extracted, first_outside, local_features, ExtractError,
};
use crate::qs_features::{clamped, narrow};
use crate::qs_pack::QsPack;
use crate::qs_score::{
    block_total, lemma_block_total_grows, indices, lemma_walk_counts, none_missing,
    score_tree_indices_from_quantized_nomiss, walk, ScoreError, Walk, Walked, MAX_TREE_BLOCKS,
};
use crate::quantize::{quantize_feature_subset_nomiss_mapped, ranked_mapped};
use crate::segments::{cut_late_segments, cut_right, pack_copyable};
use crate::shadow::{
    advance, beginning, ended, judge_ready, recordable, run_steps, slot_ready, Judge, Progress,
    ProgressView, Step, StepStyle,
};
use crate::single::{at_most, le};
use crate::stage_plan::{
    build_hot_stage_plan, splits_in_range, stage_plan, HotStagePlan, StageError,
};
use crate::text::same_text;
use vstd::prelude::*;

verus! {

/// A late stretch.
#[derive(Debug)]
pub struct ExpV1LateSegment {
    pub checkpoint: usize,
    pub global_cp_idx: usize,
    pub pack: QsPack,
    pub local_to_global_fid: Vec<u16>,
    pub all_tree_indices: Vec<u32>,
}

/// The trees past the last checkpoint.
#[derive(Debug)]
pub struct ExpV1TailRuntime {
    pub pack: QsPack,
    pub local_to_global_fid: Vec<u16>,
    pub all_tree_indices: Vec<u32>,
    pub tree_count: usize,
}

/// The package.
#[derive(Debug)]
pub struct L2ExpV1Runtime {
    pub compiled_hot_pack: HotCompiledPrefixPack,
    pub hot_checkpoint_layout: HotCheckpointLayout,
    pub hot_stage_plan: HotStagePlan,
    pub late_segments: Vec<ExpV1LateSegment>,
    pub tail: Option<ExpV1TailRuntime>,
    pub final_checkpoint: usize,
}

impl L2ExpV1Runtime {
    /// How many features the first trees need.
    pub fn hot_feature_count(&self) -> (r: usize)
        ensures
            r == self.compiled_hot_pack@.n_hot_features,
    {
        self.compiled_hot_pack.n_hot_features
    }
}

/// Bytes made as many as `n`: cut off, or followed by zeros.
pub open spec fn resized(s: Seq<u8>, n: nat) -> Seq<u8> {
    Seq::new(
        n,
        |i: int|
            if i < s.len() {
                s[i]
            } else {
                0u8
            },
    )
}

/// Ranks made ready for a pack of `n` features: all zero where there were as many before.
pub open spec fn readied(s: Seq<u8>, n: nat) -> Seq<u8> {
    if s.len() != n {
        resized(s, n)
    } else {
        Seq::new(n, |i: int| 0u8)
    }
}

/// What `Vec::resize` leaves at each place.
proof fn lemma_resized<T>(before: Seq<T>, after: Seq<T>, fill: T, n: int)
    requires
        n <= before.len() ==> after == before.subrange(0, n),
        n > before.len() ==> after.len() == n && after.subrange(0, before.len() as int) == before
            && forall|i: int| before.len() <= i < n ==> #[trigger] after[i] == fill,
        n >= 0,
    ensures
        after.len() == n,
        forall|i: int|
            0 <= i < n ==> #[trigger] after[i] == (if i < before.len() {
                before[i]
            } else {
                fill
            }),
{
    if n > before.len() {
        assert forall|i: int| 0 <= i < before.len() implies #[trigger] after[i] == before[i] by {
            assert(after.subrange(0, before.len() as int)[i] == after[i]);
        }
    }
}

/// Makes ranks ready for a pack of `need` features.
pub fn ensure_local_ranks(buf: &mut Vec<u8>, need: usize)
    ensures
        final(buf)@ == readied(old(buf)@, need as nat),
{
    let ghost before = buf@;
    if buf.len() != need {
        buf.resize(need, 0);
        proof {
            lemma_resized(before, buf@, 0u8, need as int);
        }
        assert(buf@ =~= resized(before, need as nat));
    } else {
        *buf = vec![0u8; need];
        assert(buf@ =~= Seq::new(need as nat, |i: int| 0u8));
    }
}

/// Values made as many as `n`: cut off, or followed by zeros.
pub open spec fn resized_values(s: Seq<u32>, n: nat) -> Seq<u32> {
    Seq::new(
        n,
        |i: int|
            if i < s.len() {
                s[i]
            } else {
                0u32
            },
    )
}

impl HotFeatureBuf {
    /// Makes room for exactly `len` values.
    pub fn ensure_len(&mut self, len: usize)
        ensures
            final(self).values@ == resized_values(old(self).values@, len as nat),
    {
        let ghost before = self.values@;
        self.values.resize(len, 0);
        proof {
            lemma_resized(before, self.values@, 0u32, len as int);
        }
        assert(self.values@ =~= resized_values(before, len as nat));
    }
}

/// How the first trees are compared: always with the checkpoint before.
pub open spec fn exp_hot_style() -> StepStyle {
    StepStyle { resets: false, landmark: true, apart: false }
}

/// How late stretches are added and compared.
pub open spec fn exp_late_style() -> StepStyle {
    StepStyle { resets: false, landmark: false, apart: true }
}

/// The ranks after the first `k` late stretches.
pub open spec fn exp_ranks(
    segs: Seq<ExpV1LateSegment>,
    feat: Seq<u32>,
    ranks: Seq<u8>,
    k: int,
) -> Seq<u8>
    decreases k,
{
    if k <= 0 {
        ranks
    } else {
        let s = segs[k - 1];
        ranked_mapped(
            s.pack@,
            feat,
            readied(exp_ranks(segs, feat, ranks, k - 1), s.pack@.n_features as nat),
            s.local_to_global_fid@,
        )
    }
}

/// The steps over the late stretches.
pub open spec fn exp_late_steps(
    segs: Seq<ExpV1LateSegment>,
    feat: Seq<u32>,
    ranks: Seq<u8>,
) -> Seq<Step> {
    Seq::new(
        segs.len(),
        |i: int|
            Step {
                slot: segs[i].global_cp_idx,
                checkpoint: segs[i].checkpoint,
                part: walk(
                    segs[i].pack@,
                    indices(segs[i].all_tree_indices@),
                    exp_ranks(segs, feat, ranks, i + 1),
                    none_missing(),
                ),
                style: exp_late_style(),
            },
    )
}

/// Whether a pack can be run on rows of `feat` features.
pub open spec fn part_fits(pack: QsPack, map: Seq<u16>, all: Seq<u32>, feat: nat) -> bool {
    &&& pack_sound(pack@)
    &&& map.len() <= pack@.n_features
    &&& names_below(pack@, map.len() as int)
    &&& all.len() <= 0x8000_0000
    &&& forall|f: int| 0 <= f < map.len() ==> (#[trigger] map[f]) < feat
}

/// How many blocks the trees of the first `k` late stretches have together.
pub open spec fn late_blocks(segs: Seq<ExpV1LateSegment>, k: int) -> int
    decreases k,
{
    if k <= 0 {
        0
    } else {
        late_blocks(segs, k - 1) + block_total(
            segs[k - 1].pack@,
            indices(segs[k - 1].all_tree_indices@),
        )
    }
}

/// More segments have no fewer blocks.
pub proof fn lemma_late_blocks_grow(segs: Seq<ExpV1LateSegment>, j: int, k: int)
    requires
        j <= k,
    ensures
        0 <= late_blocks(segs, j) <= late_blocks(segs, k),
    decreases k,
{
    if k > 0 {
        lemma_block_total_grows(segs[k - 1].pack@, indices(segs[k - 1].all_tree_indices@), 0);
        if j < k {
            lemma_late_blocks_grow(segs, j, k - 1);
        } else {
            lemma_late_blocks_grow(segs, k - 1, k - 1);
        }
    }
}

/// Whether a package can run rows of `feat` features.
pub open spec fn exp_ready(exp: L2ExpV1Runtime, rt: LoadedPrefixRuntime, feat: nat) -> bool {
    let h = exp.compiled_hot_pack;
    let plan = exp.hot_stage_plan;
    let slots = rt.calibration.tables@.len();
    &&& runtime_sound(rt)
    &&& h@.nodes.len() <= MAX_TREE_MOVES
    &&& h@.hot_global_fidx.len() <= h@.n_hot_features
    &&& forall|k: int|
        0 <= k < h@.hot_global_fidx.len() ==> (#[trigger] h@.hot_global_fidx[k]) < feat
    &&& plan.feature_offsets@.len() == plan.checkpoints@.len() + 1
    &&& plan.checkpoints@.len() <= exp.hot_checkpoint_layout@.hot_indices.len()
    &&& forall|i: int|
        0 <= i < plan.checkpoints@.len()
            ==> #[trigger] exp.hot_checkpoint_layout@.hot_indices[i] < slots
    &&& stages_countable(
        stages_of(plan, exp.hot_checkpoint_layout@.hot_indices),
        h.tree_roots@.len() as int,
    )
    &&& stages_fit(
        stages_of(plan, exp.hot_checkpoint_layout@.hot_indices),
        plan.hot_feature_ids@,
        h@.hot_global_fidx,
        h@.n_hot_features as nat,
    )
    &&& stage_work(
        stages_of(plan, exp.hot_checkpoint_layout@.hot_indices),
        h.tree_roots@.len() as int,
    ) + late_blocks(exp.late_segments@, exp.late_segments@.len() as int) <= u64::MAX
    &&& forall|i: int| 0 <= i < exp.late_segments@.len() ==> {
        let s = #[trigger] exp.late_segments@[i];
        s.global_cp_idx < slots && part_fits(
            s.pack,
            s.local_to_global_fid@,
            s.all_tree_indices@,
            feat,
        )
    }
    &&& exp.tail matches Some(t) ==> part_fits(
        t.pack,
        t.local_to_global_fid@,
        t.all_tree_indices@,
        feat,
    )
}

/// What a row is judged by: bands and atlas, whatever the model's certifier.
pub open spec fn exp_judge<'a>(rt: &'a LoadedPrefixRuntime, fold: i32, tau: u32) -> Judge<'a> {
    Judge {
        certifier: Certifier {
            kind: PrefixCertifierKind::AtlasV1,
            atlas: atlas_of(rt),
            mlp: None,
        },
        ..crate::prefix_runtime::judge_for(rt, None, fold, tau)
    }
}

/// What a row decided at a checkpoint comes to.
pub open spec fn decided(v: (bool, u32, usize)) -> OnlineL2Output {
    OnlineL2Output { score: v.1, reject: v.0, used_fallback: false, trees_used: v.2 as i32 }
}

/// What a row comes to once the rest of the trees is added.
pub open spec fn exp_tail(
    m: spec_fn(SingleOp) -> u32,
    exp: L2ExpV1Runtime,
    feat: Seq<u32>,
    tau: u32,
    ranks: Seq<u8>,
    st: ProgressView,
) -> Result<OnlineL2Output, ScoreError> {
    match exp.tail {
        None => Ok(
            OnlineL2Output {
                score: st.score,
                reject: at_most(tau, st.score),
                used_fallback: true,
                trees_used: st.trees_used as i32,
            },
        ),
        Some(t) => match walk(
            t.pack@,
            indices(t.all_tree_indices@),
            ranked_mapped(
                t.pack@,
                feat,
                readied(ranks, t.pack@.n_features as nat),
                t.local_to_global_fid@,
            ),
            none_missing(),
        ) {
            Err(e) => Err(e),
            Ok(w) => {
                let score = m(SingleOp::Sum(st.score, total(m, 0, w.leaves)));
                Ok(
                    OnlineL2Output {
                        score,
                        reject: at_most(tau, score),
                        used_fallback: true,
                        trees_used: st.trees_used.wrapping_add(t.tree_count) as i32,
                    },
                )
            },
        },
    }
}

/// What a row comes to.
pub open spec fn exp_row(
    m: spec_fn(SingleOp) -> u32,
    exp: &L2ExpV1Runtime,
    rt: &LoadedPrefixRuntime,
    feat: Seq<u32>,
    tau: u32,
    fold: i32,
    buf: Seq<u32>,
    ranks: Seq<u8>,
) -> Result<OnlineL2Output, ScoreError> {
    let h = exp.compiled_hot_pack;
    let j = exp_judge(rt, fold, tau);
    let base = rt.pack@.base_score;
    if rt.atlas_certifier is None {
        Err(ScoreError::NotLoaded)
    } else {
        match run_steps(
            m,
            j,
            base,
            beginning(base, base, false, 0),
            staged_steps(
                h,
                resized_values(buf, h@.n_hot_features as nat),
                feat,
                exp.hot_stage_plan.hot_feature_ids@,
                stages_of(exp.hot_stage_plan, exp.hot_checkpoint_layout@.hot_indices),
                false,
                exp_hot_style(),
            ),
            0,
        ) {
            Err(e) => Err(e),
            Ok(first) => match first.verdict {
                Some(v) => Ok(decided(v)),
                None => match run_steps(
                    m,
                    j,
                    base,
                    first.st,
                    exp_late_steps(exp.late_segments@, feat, ranks),
                    0,
                ) {
                    Err(e) => Err(e),
                    Ok(second) => match second.verdict {
                        Some(v) => Ok(decided(v)),
                        None => exp_tail(
                            m,
                            *exp,
                            feat,
                            tau,
                            exp_ranks(
                                exp.late_segments@,
                                feat,
                                ranks,
                                exp.late_segments@.len() as int,
                            ),
                            second.st,
                        ),
                    },
                },
            },
        }
    }
}

/// Gathers the listed trees of a pack of its own.
fn gather_part(
    pack: &QsPack,
    map: &Vec<u16>,
    all: &Vec<u32>,
    feat: &[u32],
    ranks: &mut Vec<u8>,
) -> (r: Result<Walked, ScoreError>)
    requires
        part_fits(*pack, map@, all@, feat@.len()),
    ensures
        final(ranks)@ == ranked_mapped(
            pack@,
            feat@,
            readied(old(ranks)@, pack@.n_features as nat),
            map@,
        ),
        match walk(pack@, indices(all@), final(ranks)@, none_missing()) {
            Ok(w) => r matches Ok(x) && x@ == w && x.block_evals <= MAX_TREE_BLOCKS * all@.len()
                && x.resolved_early <= all@.len(),
            Err(e) => r == Err::<Walked, ScoreError>(e),
        },
{
    ensure_local_ranks(ranks, pack.n_features);
    proof {
        lemma_mapped_is_readable(pack@, feat@, ranks@, map@);
    }
    quantize_feature_subset_nomiss_mapped(pack, feat, ranks.as_mut_slice(), map.as_slice());
    score_tree_indices_from_quantized_nomiss(pack, all.as_slice(), ranks.as_slice())
}

/// Runs over the late stretches.
fn run_exp_late<'a, A: Fn(SingleOp) -> u32>(
    arith: &A,
    judge: &Judge<'a>,
    init: u32,
    st: &mut Progress,
    segs: &Vec<ExpV1LateSegment>,
    feat: &[u32],
    ranks: &mut Vec<u8>,
) -> (r: Result<Option<(bool, u32, usize)>, ScoreError>)
    requires
        answers(*arith),
        judge_ready(*judge),
        old(st).work_evals + late_blocks(segs@, segs@.len() as int) <= u64::MAX,
        forall|i: int| 0 <= i < segs@.len() ==> {
            let s = #[trigger] segs@[i];
            slot_ready(*judge, s.global_cp_idx as int) && recordable(
                old(st)@,
                s.global_cp_idx as int,
            ) && part_fits(s.pack, s.local_to_global_fid@, s.all_tree_indices@, feat@.len())
        },
        old(st).resolved_early <= old(st).work_evals,
    ensures
        r matches Ok(None) ==> final(ranks)@ == exp_ranks(
            segs@,
            feat@,
            old(ranks)@,
            segs@.len() as int,
        ),
        forall|m: spec_fn(SingleOp) -> u32| #[trigger]
            follows(*arith, m) ==> ended(r, final(st)@) == run_steps(
                m,
                *judge,
                init,
                old(st)@,
                exp_late_steps(segs@, feat@, old(ranks)@),
                0,
            ),
{
    let ghost st0 = st@;
    let ghost r0 = ranks@;
    let ghost steps = exp_late_steps(segs@, feat@, r0);
    let ghost count = st.work_evals as int;
    let mut i: usize = 0;
    while i < segs.len()
        invariant
            answers(*arith),
            judge_ready(*judge),
            i <= segs@.len(),
            count + late_blocks(segs@, segs@.len() as int) <= u64::MAX,
            r0 == old(ranks)@,
            st0 == old(st)@,
            ranks@ == exp_ranks(segs@, feat@, r0, i as int),
            steps == exp_late_steps(segs@, feat@, r0),
            forall|q: int| 0 <= q < segs@.len() ==> {
                let s = #[trigger] segs@[q];
                slot_ready(*judge, s.global_cp_idx as int) && recordable(
                    st@,
                    s.global_cp_idx as int,
                ) && part_fits(s.pack, s.local_to_global_fid@, s.all_tree_indices@, feat@.len())
            },
            st.work_evals <= count + late_blocks(segs@, i as int),
            st.resolved_early <= count + late_blocks(segs@, i as int),
            forall|m: spec_fn(SingleOp) -> u32| #[trigger]
                follows(*arith, m) ==> run_steps(m, *judge, init, st0, steps, 0) == run_steps(
                    m,
                    *judge,
                    init,
                    st@,
                    steps,
                    i as int,
                ),
        decreases segs@.len() - i,
    {
        let seg: &ExpV1LateSegment = &segs[i];
        assert(segs@[i as int] == *seg);
        match gather_part(
            &seg.pack,
            &seg.local_to_global_fid,
            &seg.all_tree_indices,
            feat,
            ranks,
        ) {
            Err(e) => {
                assert(steps[i as int].part == Err::<Walk, ScoreError>(e));
                return Err(e);
            },
            Ok(w) => {
                assert(steps[i as int].part == Ok::<Walk, ScoreError>(w@));
                proof {
                    lemma_walk_counts(
                        seg.pack@,
                        indices(seg.all_tree_indices@),
                        ranks@,
                        none_missing(),
                    );
                    lemma_late_blocks_grow(segs@, i + 1, segs@.len() as int);
                }
                let verdict: Option<(bool, u32)> = advance(
                    arith,
                    judge,
                    init,
                    st,
                    seg.global_cp_idx,
                    seg.checkpoint,
                    w,
                    StepStyle { resets: false, landmark: false, apart: true },
                );
                if let Some(v) = verdict {
                    return Ok(Some((v.0, v.1, seg.checkpoint)));
                }
            },
        }
        i += 1;
    }
    Ok(None)
}

/// Runs a row without missing values over the package.
pub fn predict_nomiss<A: Fn(SingleOp) -> u32>(
    arith: &A,
    exp: &L2ExpV1Runtime,
    base_runtime: &LoadedPrefixRuntime,
    feat: &[u32],
    row_tau: u32,
    row_fold: i32,
    hot_buf: &mut HotFeatureBuf,
    local_ranks: &mut Vec<u8>,
) -> (r: Result<OnlineL2Output, ScoreError>)
    requires
        answers(*arith),
        exp_ready(*exp, *base_runtime, feat@.len()),
    ensures
        forall|m: spec_fn(SingleOp) -> u32| #[trigger]
            follows(*arith, m) ==> r == exp_row(
                m,
                exp,
                base_runtime,
                feat@,
                row_tau,
                row_fold,
                old(hot_buf).values@,
                old(local_ranks)@,
            ),
{
    let base: u32 = base_runtime.pack.base_score;
    let atlas: &LoadedPrefixAtlas = match &base_runtime.atlas_certifier {
        None => {
            return Err(ScoreError::NotLoaded);
        },
        Some(a) => a,
    };
    let cal_bin: usize = if base_runtime.calibration.tables.len() > 0 {
        atlas_tau_bin(base_runtime.calibration.tables[0].tau_edges.as_slice(), row_tau)
    } else {
        0
    };
    let judge: Judge = Judge {
        tables: &base_runtime.calibration.tables,
        certifier: Certifier {
            kind: PrefixCertifierKind::AtlasV1,
            atlas: Some(atlas),
            mlp: None,
        },
        plan: None,
        fold: row_fold,
        tau: row_tau,
        atlas_tau_bin: atlas_tau_bin(atlas.tau_edges.as_slice(), row_tau),
        calibration_tau_bin: cal_bin,
    };
    assert(judge == exp_judge(base_runtime, row_fold, row_tau));
    assert(judge_ready(judge));
    let mut st: Progress = Progress::begin(base, base, false, 0);
    let ghost blank = st@;
    hot_buf.ensure_len(exp.compiled_hot_pack.n_hot_features);
    let stages: Vec<PrefixV2HotStage> = list_stages(
        &exp.hot_stage_plan,
        &exp.hot_checkpoint_layout,
    );
    let first: Option<(bool, u32, usize)> = match run_stages(
        arith,
        &judge,
        base,
        &mut st,
        &exp.compiled_hot_pack,
        hot_buf,
        feat,
        exp.hot_stage_plan.hot_feature_ids.as_slice(),
        &stages,
        false,
        StepStyle { resets: false, landmark: true, apart: false },
    ) {
        Err(e) => {
            return Err(e);
        },
        Ok(v) => v,
    };
    if let Some(v) = first {
        return Ok(
            OnlineL2Output {
                score: v.1,
                reject: v.0,
                used_fallback: false,
                trees_used: v.2 as i32,
            },
        );
    }
    assert forall|i: int| 0 <= i < exp.late_segments@.len() implies {
        let s = #[trigger] exp.late_segments@[i];
        slot_ready(judge, s.global_cp_idx as int) && recordable(st@, s.global_cp_idx as int)
            && part_fits(s.pack, s.local_to_global_fid@, s.all_tree_indices@, feat@.len())
    } by {
        assert(recordable(blank, exp.late_segments@[i].global_cp_idx as int));
    }
    let second: Option<(bool, u32, usize)> = match run_exp_late(
        arith,
        &judge,
        base,
        &mut st,
        &exp.late_segments,
        feat,
        local_ranks,
    ) {
        Err(e) => {
            return Err(e);
        },
        Ok(v) => v,
    };
    if let Some(v) = second {
        return Ok(
            OnlineL2Output {
                score: v.1,
                reject: v.0,
                used_fallback: false,
                trees_used: v.2 as i32,
            },
        );
    }
    match &exp.tail {
        None => Ok(
            OnlineL2Output {
                score: st.score,
                reject: le(row_tau, st.score),
                used_fallback: true,
                trees_used: st.trees_used as i32,
            },
        ),
        Some(t) => match gather_part(
            &t.pack,
            &t.local_to_global_fid,
            &t.all_tree_indices,
            feat,
            local_ranks,
        ) {
            Err(e) => Err(e),
            Ok(w) => {
                let own: u32 = add_values(arith, 0, &w.leaves, 0);
                assert(w.leaves@.subrange(0, w.leaves@.len() as int) =~= w.leaves@);
                let score: u32 = arith(SingleOp::Sum(st.score, own));
                Ok(
                    OnlineL2Output {
                        score,
                        reject: le(row_tau, score),
                        used_fallback: true,
                        trees_used: st.trees_used.wrapping_add(t.tree_count) as i32,
                    },
                )
            },
        },
    }
}

/// What is packed up for a model: everything that goes into files of its own.
#[derive(Debug)]
pub struct ExpV1Package {
    pub hot_stage_plan: HotStagePlan,
    pub late_segments: Vec<LoadedLateSegment>,
    pub tail: Option<(QsPack, Vec<u16>)>,
    pub tail_tree_count: usize,
    pub final_checkpoint: usize,
}

/// Why a model cannot be packed up.
#[derive(Clone, Copy, Debug, PartialEq, Eq, Structural)]
pub enum PackageError {
    NoHotPack,
    NoLayout,
    Stages(StageError),
    Cut(ExtractError),
}

/// The stages of the compact trees of a model; it must have checkpoints.
pub open spec fn package_stages(h: HotCompiledPrefixPack, l: LayoutView) -> Result<
    (Seq<u32>, Seq<u16>),
    StageError,
> {
    if l.hot_values.len() == 0 {
        Err(StageError::NoCheckpoints)
    } else {
        stage_plan(h@, l.hot_values)
    }
}

/// The trees past the last checkpoint.
pub open spec fn past_last(rt: LoadedPrefixRuntime, order: Seq<u32>) -> Seq<u32> {
    order.skip(fewer(last_checkpoint(rt.calibration) as int, order.len() as int))
}

/// Whether every late stretch of a model has trees.
pub open spec fn stretches_filled(rt: LoadedPrefixRuntime, h: HotCompiledPrefixPack, l: LayoutView) -> bool {
    forall|i: int|
        0 <= i < l.late_values.len() ==> clamped(
            rt.pack@,
            late_begin(l, fewer(h@.n_trees, rt.pack@.n_trees), i),
            (#[trigger] l.late_values[i]) as int,
        ).len() > 0
}

/// What packing up a model comes to.
pub open spec fn packaged(
    r: Result<ExpV1Package, PackageError>,
    rt: LoadedPrefixRuntime,
    h: HotCompiledPrefixPack,
    l: LayoutView,
    order: Seq<u32>,
) -> bool {
    let rest = past_last(rt, order);
    match package_stages(h, l) {
        Err(e) => r == Err::<ExpV1Package, PackageError>(PackageError::Stages(e)),
        Ok((offsets, ids)) => if !stretches_filled(rt, h, l) {
            r == Err::<ExpV1Package, PackageError>(PackageError::Cut(ExtractError::EmptyRange))
        } else if rest.len() > 0 && first_outside(rt.pack@, rest, 0) is Some {
            r == Err::<ExpV1Package, PackageError>(
                PackageError::Cut(
                    ExtractError::TreeOutside {
                        tree: first_outside(rt.pack@, rest, 0)->0 as usize,
                    },
                ),
            )
        } else {
            &&& r matches Ok(x)
            &&& x.hot_stage_plan.checkpoints@ == l.hot_values
            &&& x.hot_stage_plan.feature_offsets@ == offsets
            &&& x.hot_stage_plan.hot_feature_ids@ == ids
            &&& x.late_segments@.len() == l.late_values.len()
            &&& forall|i: int|
                0 <= i < x.late_segments@.len() ==> cut_right(
                    #[trigger] x.late_segments@[i],
                    rt.pack@,
                    l,
                    fewer(h@.n_trees, rt.pack@.n_trees),
                    i,
                )
            &&& x.final_checkpoint == last_checkpoint(rt.calibration)
            &&& x.tail_tree_count == rest.len()
            &&& match x.tail {
                None => rest.len() == 0,
                Some((part, map)) => rest.len() > 0 && part@ == extracted(rt.pack@, indices(rest))
                    && map@ == narrow(local_features(rt.pack@, indices(rest))),
            }
        },
    }
}

/// Packs up a model: stages for the compact trees, each late stretch and the rest of the trees as
/// a pack of its own. `order` lists all trees in the order of the model.
pub fn repack_from_bundle_manifest(runtime: &LoadedPrefixRuntime, order: &Vec<u32>) -> (r: Result<
    ExpV1Package,
    PackageError,
>)
    requires
        runtime.compiled_hot_pack matches Some(h) ==> splits_in_range(h@),
        runtime.hot_checkpoint_layout matches Some(l) ==> l@.late_indices.len()
            >= l@.late_values.len(),
        pack_copyable(runtime.pack@),
    ensures
        match runtime.compiled_hot_pack {
            None => r == Err::<ExpV1Package, PackageError>(PackageError::NoHotPack),
            Some(h) => match runtime.hot_checkpoint_layout {
                None => r == Err::<ExpV1Package, PackageError>(PackageError::NoLayout),
                Some(l) => packaged(r, *runtime, h, l@, order@),
            },
        },
{
    let hot: &HotCompiledPrefixPack = match &runtime.compiled_hot_pack {
        None => {
            return Err(PackageError::NoHotPack);
        },
        Some(h) => h,
    };
    let layout: &HotCheckpointLayout = match &runtime.hot_checkpoint_layout {
        None => {
            return Err(PackageError::NoLayout);
        },
        Some(l) => l,
    };
    if layout.hot_values.len() == 0 {
        return Err(PackageError::Stages(StageError::NoCheckpoints));
    }
    let hot_stage_plan: HotStagePlan = match build_hot_stage_plan(
        hot,
        layout.hot_values.as_slice(),
    ) {
        Err(e) => {
            return Err(PackageError::Stages(e));
        },
        Ok(p) => p,
    };
    let late_segments: Vec<LoadedLateSegment> = match cut_late_segments(
        &runtime.pack,
        layout,
        hot.n_trees,
    ) {
        Err(e) => {
            return Err(PackageError::Cut(e));
        },
        Ok(s) => s,
    };
    proof {
        let p = runtime.pack@;
        let l = layout@;
        let start = fewer(hot@.n_trees, p.n_trees);
        assert forall|i: int| 0 <= i < l.late_values.len() implies clamped(
            p,
            late_begin(l, start, i),
            (#[trigger] l.late_values[i]) as int,
        ).len() > 0 by {
            assert(cut_right(late_segments@[i], p, l, start, i));
        }
    }
    let final_checkpoint: usize = fallback_checkpoint(&runtime.calibration);
    let from: usize = if final_checkpoint <= order.len() {
        final_checkpoint
    } else {
        order.len()
    };
    let rest: &[u32] = vstd::slice::slice_subrange(order.as_slice(), from, order.len());
    assert(rest@ =~= past_last(*runtime, order@));
    let tail_tree_count: usize = rest.len();
    let tail: Option<(QsPack, Vec<u16>)> = if rest.len() == 0 {
        None
    } else {
        match extract_tree_indices_remapped(&runtime.pack, rest) {
            Err(e) => {
                return Err(PackageError::Cut(e));
            },
            Ok(x) => Some(x),
        }
    };
    Ok(
        ExpV1Package {
            hot_stage_plan,
            late_segments,
            tail,
            tail_tree_count,
            final_checkpoint,
        },
    )
}

/// A plan read back must have one offset more than it has checkpoints.
pub fn load_hot_stage_plan(
    checkpoints: Vec<usize>,
    feature_offsets: Vec<u32>,
    hot_feature_ids: Vec<u16>,
) -> (r: Option<HotStagePlan>)
    ensures
        match r {
            Some(p) => feature_offsets@.len() == checkpoints@.len() + 1 && p.checkpoints == checkpoints
                && p.feature_offsets == feature_offsets && p.hot_feature_ids == hot_feature_ids,
            None => feature_offsets@.len() != checkpoints@.len() + 1,
        },
{
    let n: usize = feature_offsets.len();
    if n == 0 || n - 1 != checkpoints.len() {
        return None;
    }
    Some(HotStagePlan { checkpoints, feature_offsets, hot_feature_ids })
}

/// A late stretch as the description of a package lists it.
#[derive(Debug)]
pub struct ExpV1SegmentPart {
    pub checkpoint: usize,
    pub global_cp_idx: usize,
    pub pack: QsPack,
    pub local_to_global_fid: Vec<u16>,
}

/// The rest of the trees as the description of a package lists it.
#[derive(Debug)]
pub struct ExpV1TailPart {
    pub pack: QsPack,
    pub local_to_global_fid: Vec<u16>,
    pub tree_count: usize,
}

/// The numbers of all trees of a pack.
fn all_trees(n: usize) -> (r: Vec<u32>)
    ensures
        r@ == natural_order(n as int),
{
    let mut r: Vec<u32> = Vec::new();
    let mut i: usize = 0;
    while i < n
        invariant
            i <= n,
            r@ == natural_order(i as int),
        decreases n - i,
    {
        r.push(i as u32);
        i += 1;
        assert(r@ =~= natural_order(i as int));
    }
    r
}

/// Whether a late stretch is made of what was listed.
pub open spec fn segment_made(s: ExpV1LateSegment, p: ExpV1SegmentPart) -> bool {
    &&& s.checkpoint == p.checkpoint
    &&& s.global_cp_idx == p.global_cp_idx
    &&& s.pack == p.pack
    &&& s.local_to_global_fid == p.local_to_global_fid
    &&& s.all_tree_indices@ == natural_order(p.pack@.n_trees)
}

/// Whether the rest is made of what was listed.
pub open spec fn tail_made(t: ExpV1TailRuntime, p: ExpV1TailPart) -> bool {
    &&& t.pack == p.pack
    &&& t.local_to_global_fid == p.local_to_global_fid
    &&& t.tree_count == p.tree_count
    &&& t.all_tree_indices@ == natural_order(p.pack@.n_trees)
}

/// Puts a package together out of what its description lists. Every part scores all its trees.
#[verifier::loop_isolation(false)]
pub fn load_from_manifest_dir(
    format: &str,
    compiled_hot_pack: HotCompiledPrefixPack,
    hot_checkpoint_layout: HotCheckpointLayout,
    hot_stage_plan: HotStagePlan,
    segments: Vec<ExpV1SegmentPart>,
    tail: Option<ExpV1TailPart>,
    final_checkpoint: usize,
) -> (r: Option<L2ExpV1Runtime>)
    ensures
        if format@ != "L2ExpV1"@ {
            r is None
        } else {
            &&& r is Some
            &&& r->Some_0.compiled_hot_pack == compiled_hot_pack
            &&& r->Some_0.hot_checkpoint_layout == hot_checkpoint_layout
            &&& r->Some_0.hot_stage_plan == hot_stage_plan
            &&& r->Some_0.final_checkpoint == final_checkpoint
            &&& r->Some_0.late_segments@.len() == segments@.len()
            &&& forall|i: int|
                0 <= i < segments@.len() ==> segment_made(
                    #[trigger] r->Some_0.late_segments@[i],
                    segments@[i],
                )
            &&& match tail {
                Some(p) => r->Some_0.tail matches Some(t) && tail_made(t, p),
                None => r->Some_0.tail is None,
            }
        },
{
    if !same_text(format, "L2ExpV1") {
        return None;
    }
    let ghost all = segments@;
    let mut left: Vec<ExpV1SegmentPart> = segments;
    let mut late_segments: Vec<ExpV1LateSegment> = Vec::new();
    let ghost mut done: int = 0;
    while left.len() > 0
        invariant
            0 <= done <= all.len(),
            left@ == all.skip(done),
            late_segments@.len() == done,
            forall|i: int|
                0 <= i < done ==> segment_made(#[trigger] late_segments@[i], all[i]),
        decreases left@.len(),
    {
        let one: ExpV1SegmentPart = left.remove(0);
        proof {
            assert(one == all[done]);
            assert(all.skip(done).remove(0) =~= all.skip(done + 1));
        }
        let all_tree_indices: Vec<u32> = all_trees(one.pack.n_trees);
        late_segments.push(
            ExpV1LateSegment {
                checkpoint: one.checkpoint,
                global_cp_idx: one.global_cp_idx,
                pack: one.pack,
                local_to_global_fid: one.local_to_global_fid,
                all_tree_indices,
            },
        );
        proof {
            done = done + 1;
        }
    }
    let rest: Option<ExpV1TailRuntime> = match tail {
        None => None,
        Some(t) => {
            let all_tree_indices: Vec<u32> = all_trees(t.pack.n_trees);
            Some(
                ExpV1TailRuntime {
                    pack: t.pack,
                    local_to_global_fid: t.local_to_global_fid,
                    all_tree_indices,
                    tree_count: t.tree_count,
                },
            )
        },
    };
    Some(
        L2ExpV1Runtime {
            compiled_hot_pack,
            hot_checkpoint_layout,
            hot_stage_plan,
            late_segments,
            tail: rest,
            final_checkpoint,
        },
    )
}

} // verus!
