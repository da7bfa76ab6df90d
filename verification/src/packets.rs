//! Rows that are decided packet by packet: a policy picks the next packet of trees from the state
//! that the row is in.

use crate::arith::{add_values, answers, follows, total, SingleOp};
use crate::bands::{
    atlas_tau_bin, bin_of, fold_slot, lemma_slot_range, mlp_tau_bin, prefix_fold_slot,
    prefix_gap_bin, tau_bin_of,
};
use crate::certify::{
    certified, maybe_prefix_certify, Certifier, PrefixCertifierKind, RowAt, RowWork,
};
use crate::descend::{chosen_row, Rule};
use crate::forest::PrefixPack;
use crate::hot::{hot_exact_score_full, hot_walk, HotTrees, MAX_TREE_MOVES};
use crate::pack_check::lemma_ranked_is_readable;
use crate::prefix_runtime::{
    buffers_fit, calibration_bin, fallback_checkpoint, last_checkpoint, runtime_sound, shown,
    LoadedPrefixRuntime, PrefixRowShadow, ShadowView,
};
use crate::qs_score::{
    indices, score_tree_indices_from_quantized, score_tree_indices_from_quantized_nomiss, walk,
    ScoreError, Walk, Walked,
};
use crate::quantize::{marked, quantize_into, ranked};
use crate::rescue::{cap_bin, capped_bin};
use crate::shadow::recorded;
use crate::single::{at_most, le};
use crate::qs_prefix::span_readable;
use vstd::prelude::*;

verus! {

/// Trees that are added up together.
#[derive(Debug)]
pub struct LoadedPacket {
    pub packet_id: usize,
    pub bank_id: i8,
    pub tree_indices: Vec<u32>,
    pub tree_count: usize,
    /// What the packet costs, in whole blocks, where it is run in its own form.
    pub block_proxy: u64,
    pub compiled_pack: Option<PrefixPack>,
}

/// Which packets to try first in one state, and how many rows were seen in it.
#[derive(Debug)]
pub struct PacketPolicyRow {
    pub step: usize,
    pub tau_bin: usize,
    pub gap_regime: usize,
    pub delta_regime: usize,
    pub row_count: usize,
    pub ranking: Vec<u16>,
}

/// Which packets to try first.
#[derive(Debug)]
pub struct LoadedPacketPolicy {
    pub n_packets: usize,
    pub max_steps: usize,
    pub tau_edges: Vec<u32>,
    pub gap_edges_by_step: Vec<Vec<u32>>,
    pub delta_edges_by_step: Vec<Vec<u32>>,
    pub rows: Vec<PacketPolicyRow>,
}

/// Packets and the policy that picks them.
#[derive(Debug)]
pub struct LoadedPacketScheduler {
    pub max_steps: usize,
    pub packets: Vec<LoadedPacket>,
    pub policy: LoadedPacketPolicy,
}

/// Whether a row of a policy is for a state.
pub open spec fn for_state(
    r: PacketPolicyRow,
    step: int,
    tau_bin: int,
    gap_bin: int,
    delta_bin: int,
) -> bool {
    r.step == step && r.tau_bin == tau_bin && r.gap_regime == gap_bin && r.delta_regime == delta_bin
}

/// The last of the first `n` rows for a state.
pub open spec fn state_row(
    rows: Seq<PacketPolicyRow>,
    step: int,
    tau_bin: int,
    gap_bin: int,
    delta_bin: int,
    n: int,
) -> Option<int>
    decreases n,
{
    if n <= 0 {
        None
    } else if for_state(rows[n - 1], step, tau_bin, gap_bin, delta_bin) {
        Some(n - 1)
    } else {
        state_row(rows, step, tau_bin, gap_bin, delta_bin, n - 1)
    }
}

/// Of the first `n` rows for a step, and for a bin of the threshold where one is given, the one that
/// most rows were seen in; of several, the first.
pub open spec fn default_row(
    rows: Seq<PacketPolicyRow>,
    step: int,
    tau_bin: Option<int>,
    n: int,
) -> Option<int>
    decreases n,
{
    if n <= 0 {
        None
    } else {
        let r = rows[n - 1];
        let best = default_row(rows, step, tau_bin, n - 1);
        if r.step == step && (tau_bin is None || tau_bin->0 == r.tau_bin) {
            match best {
                Some(k) => if rows[k].row_count >= r.row_count {
                    Some(k)
                } else {
                    Some(n - 1)
                },
                None => Some(n - 1),
            }
        } else {
            best
        }
    }
}

/// Which row of a policy a state goes by: its own, the default of its bin, or that of its step.
pub open spec fn policy_row(
    rows: Seq<PacketPolicyRow>,
    step: int,
    tau_bin: int,
    gap_bin: int,
    delta_bin: int,
) -> Option<int> {
    let n = rows.len() as int;
    match state_row(rows, step, tau_bin, gap_bin, delta_bin, n) {
        Some(k) => Some(k),
        None => match default_row(rows, step, Some(tau_bin), n) {
            Some(k) => Some(k),
            None => default_row(rows, step, None, n),
        },
    }
}

/// What a policy ranks in a state.
pub open spec fn policy_ranking(
    rows: Seq<PacketPolicyRow>,
    step: int,
    tau_bin: int,
    gap_bin: int,
    delta_bin: int,
) -> Seq<u16> {
    match policy_row(rows, step, tau_bin, gap_bin, delta_bin) {
        Some(k) => rows[k].ranking@,
        None => Seq::empty(),
    }
}

/// Finds the default of a step, and of a bin where one is given.
fn find_default(rows: &Vec<PacketPolicyRow>, step: usize, tau_bin: Option<usize>) -> (r: Option<
    usize,
>)
    ensures
        match r {
            Some(k) => k < rows@.len() && default_row(
                rows@,
                step as int,
                crate::bands::as_place(tau_bin),
                rows@.len() as int,
            ) == Some(k as int),
            None => default_row(
                rows@,
                step as int,
                crate::bands::as_place(tau_bin),
                rows@.len() as int,
            ) is None,
        },
{
    let ghost bin = crate::bands::as_place(tau_bin);
    let mut best: Option<usize> = None;
    let mut n: usize = 0;
    while n < rows.len()
        invariant
            n <= rows@.len(),
            bin == crate::bands::as_place(tau_bin),
            best matches Some(k) ==> k < n,
            default_row(rows@, step as int, bin, n as int) == crate::bands::as_place(best),
        decreases rows@.len() - n,
    {
        let row: &PacketPolicyRow = &rows[n];
        let same_bin: bool = match tau_bin {
            Some(t) => row.tau_bin == t,
            None => true,
        };
        if row.step == step && same_bin {
            match best {
                Some(k) => {
                    if rows[k].row_count < row.row_count {
                        best = Some(n);
                    }
                },
                None => {
                    best = Some(n);
                },
            }
        }
        n += 1;
    }
    best
}

/// Looks up what a policy ranks in a state.
pub fn lookup_packet_policy_ranking<'a>(
    policy: &'a LoadedPacketPolicy,
    step: usize,
    tau_bin: usize,
    gap_bin: usize,
    delta_bin: usize,
) -> (r: Option<&'a Vec<u16>>)
    ensures
        match r {
            Some(v) => policy_row(
                policy.rows@,
                step as int,
                tau_bin as int,
                gap_bin as int,
                delta_bin as int,
            ) matches Some(k) && 0 <= k < policy.rows@.len() && *v == policy.rows@[k].ranking,
            None => policy_row(
                policy.rows@,
                step as int,
                tau_bin as int,
                gap_bin as int,
                delta_bin as int,
            ) is None,
        },
{
    let rows: &'a Vec<PacketPolicyRow> = &policy.rows;
    let mut n: usize = rows.len();
    while n > 0
        invariant
            n <= rows@.len(),
            *rows == policy.rows,
            state_row(
                rows@,
                step as int,
                tau_bin as int,
                gap_bin as int,
                delta_bin as int,
                rows@.len() as int,
            ) == state_row(
                rows@,
                step as int,
                tau_bin as int,
                gap_bin as int,
                delta_bin as int,
                n as int,
            ),
        decreases n,
    {
        let row: &PacketPolicyRow = &rows[n - 1];
        if row.step == step && row.tau_bin == tau_bin && row.gap_regime == gap_bin
            && row.delta_regime == delta_bin {
            return Some(&rows[n - 1].ranking);
        }
        n -= 1;
    }
    match find_default(rows, step, Some(tau_bin)) {
        Some(k) => Some(&rows[k].ranking),
        None => match find_default(rows, step, None) {
            Some(k) => Some(&rows[k].ranking),
            None => None,
        },
    }
}

/// The first packet of a ranking, from place `k` on, that has not been used.
pub open spec fn first_ranked(ranking: Seq<u16>, used: Seq<bool>, k: int) -> Option<int>
    decreases ranking.len() - k,
{
    if k < 0 || k >= ranking.len() {
        None
    } else if ranking[k] < used.len() && !used[ranking[k] as int] {
        Some(ranking[k] as int)
    } else {
        first_ranked(ranking, used, k + 1)
    }
}

/// The first packet, from place `k` on, that has not been used.
pub open spec fn first_unused(packets: Seq<LoadedPacket>, used: Seq<bool>, k: int) -> Option<int>
    decreases packets.len() - k,
{
    if k < 0 || k >= packets.len() {
        None
    } else if !used[packets[k].packet_id as int] {
        Some(k)
    } else {
        first_unused(packets, used, k + 1)
    }
}

/// The packet that is used next: the best ranked that has not been used, or the first such.
pub open spec fn next_packet(
    packets: Seq<LoadedPacket>,
    used: Seq<bool>,
    ranking: Seq<u16>,
) -> Option<int> {
    match first_ranked(ranking, used, 0) {
        Some(k) => Some(k),
        None => first_unused(packets, used, 0),
    }
}

/// Picks the packet that is used next.
pub fn pick_packet(packets: &Vec<LoadedPacket>, used: &Vec<bool>, ranking: Option<&Vec<u16>>) -> (r:
    Option<usize>)
    requires
        used@.len() == packets@.len(),
        forall|i: int| 0 <= i < packets@.len() ==> (#[trigger] packets@[i]).packet_id < used@.len(),
    ensures
        match r {
            Some(k) => k < packets@.len() && next_packet(
                packets@,
                used@,
                match ranking {
                    Some(v) => v@,
                    None => Seq::empty(),
                },
            ) == Some(k as int),
            None => next_packet(
                packets@,
                used@,
                match ranking {
                    Some(v) => v@,
                    None => Seq::empty(),
                },
            ) is None,
        },
{
    let ghost rs = match ranking {
        Some(v) => v@,
        None => Seq::empty(),
    };
    if let Some(v) = ranking {
        let mut k: usize = 0;
        while k < v.len()
            invariant
                k <= v@.len(),
                rs == v@,
                used@.len() == packets@.len(),
                ranking == Some(v),
                first_ranked(rs, used@, 0) == first_ranked(rs, used@, k as int),
            decreases v@.len() - k,
        {
            let idx: usize = v[k] as usize;
            if idx < used.len() && !used[idx] {
                return Some(idx);
            }
            k += 1;
        }
    }
    let mut k: usize = 0;
    while k < packets.len()
        invariant
            k <= packets@.len(),
            used@.len() == packets@.len(),
            forall|i: int|
                0 <= i < packets@.len() ==> (#[trigger] packets@[i]).packet_id < used@.len(),
            rs == (match ranking {
                Some(v) => v@,
                None => Seq::empty(),
            }),
            first_ranked(rs, used@, 0) is None,
            first_unused(packets@, used@, 0) == first_unused(packets@, used@, k as int),
        decreases packets@.len() - k,
    {
        if !used[packets[k].packet_id] {
            return Some(k);
        }
        k += 1;
    }
    None
}

/// What a packet gathers: in its own form where it has one, over the packed ensemble otherwise.
pub open spec fn packet_walk(
    rt: LoadedPrefixRuntime,
    packet: LoadedPacket,
    feat: Seq<u32>,
    ranks: Seq<u8>,
    miss: Seq<u8>,
) -> Result<Walk, ScoreError> {
    match packet.compiled_pack {
        Some(h) => match hot_walk(
            h.nodes_model(),
            h.starts(),
            chosen_row(h@.hot_global_fidx, feat),
            Rule { miss_aware: true, ranks: None },
            0,
            h@.n_trees,
        ) {
            Err(e) => Err(e),
            Ok(w) => Ok(Walk { evals: packet.block_proxy as int, early: 0, ..w }),
        },
        None => walk(rt.pack@, indices(packet.tree_indices@), ranks, miss),
    }
}

/// Whether a packet can be run.
pub open spec fn packet_ready(packet: LoadedPacket) -> bool {
    &&& packet.tree_indices@.len() <= 0x8000_0000
    &&& packet.compiled_pack matches Some(h) ==> h@.nodes.len() <= MAX_TREE_MOVES && h@.n_trees
        <= 0x8000_0000
}

/// Gathers a packet; `missing` is `None` for a row without missing values.
fn run_packet(
    rt: &LoadedPrefixRuntime,
    packet: &LoadedPacket,
    feat: &[u32],
    ranks: &[u8],
    missing: Option<&[u8]>,
) -> (r: Result<Walked, ScoreError>)
    requires
        packet_ready(*packet),
        forall|t: int|
            0 <= t < rt.pack@.n_trees ==> #[trigger] crate::qs_score::tree_readable(
                rt.pack@,
                t,
                ranks@,
                crate::qs_score::marks(missing),
            ),
    ensures
        match packet_walk(*rt, *packet, feat@, ranks@, crate::qs_score::marks(missing)) {
            Ok(w) => r matches Ok(x) && x@ == w,
            Err(e) => r == Err::<Walked, ScoreError>(e),
        },
{
    match &packet.compiled_pack {
        Some(h) => match hot_exact_score_full(h, feat) {
            Err(e) => Err(e),
            Ok(w) => {
                let x: Walked = Walked {
                    leaves: w.leaves,
                    block_evals: packet.block_proxy,
                    resolved_early: 0,
                };
                Ok(x)
            },
        },
        None => match missing {
            Some(q) => score_tree_indices_from_quantized(
                &rt.pack,
                packet.tree_indices.as_slice(),
                ranks,
                q,
            ),
            None => score_tree_indices_from_quantized_nomiss(
                &rt.pack,
                packet.tree_indices.as_slice(),
                ranks,
            ),
        },
    }
}

/// How far a row has come.
#[verifier::ext_equal]
pub struct PacketState {
    pub score: u32,
    pub trees_used: usize,
    pub work_evals: u64,
    pub resolved_early: u64,
    pub prev_delta: u32,
    pub used: Seq<bool>,
    pub selected: Seq<u16>,
    pub scores: Seq<u32>,
    pub works: Seq<u32>,
    pub deltas: Seq<u32>,
    pub resolved: Seq<u32>,
}

/// A number of a packet as it is noted.
pub open spec fn noted_id(id: usize) -> u16 {
    if id <= 0xffff {
        id as u16
    } else {
        0xffff
    }
}

/// The packet that a row uses next in a state.
pub open spec fn chosen_packet(
    m: spec_fn(SingleOp) -> u32,
    sch: LoadedPacketScheduler,
    tau: u32,
    step: int,
    st: PacketState,
) -> Option<int> {
    let pol = sch.policy;
    let gap = m(SingleOp::Difference(tau, st.score));
    next_packet(
        sch.packets@,
        st.used,
        policy_ranking(
            pol.rows@,
            step,
            capped_bin(tau_bin_of(pol.tau_edges@, tau), pol.tau_edges@.len()),
            bin_of(pol.gap_edges_by_step@[step]@, gap),
            bin_of(pol.delta_edges_by_step@[step]@, st.prev_delta),
        ),
    )
}

/// A row after one more packet.
pub open spec fn after_packet(
    m: spec_fn(SingleOp) -> u32,
    packet: LoadedPacket,
    w: Walk,
    step: int,
    trace: bool,
    st: PacketState,
) -> PacketState {
    let own = total(m, 0, w.leaves);
    let score = m(SingleOp::Sum(st.score, own));
    let work_evals = st.work_evals.wrapping_add(w.evals as u64);
    let resolved_early = st.resolved_early.wrapping_add(w.early as u64);
    PacketState {
        score,
        trees_used: st.trees_used.wrapping_add(packet.tree_count),
        work_evals,
        resolved_early,
        prev_delta: own,
        used: st.used.update(packet.packet_id as int, true),
        selected: st.selected.push(noted_id(packet.packet_id)),
        scores: if trace {
            st.scores.update(step, score)
        } else {
            st.scores
        },
        works: if trace {
            st.works.update(step, recorded(work_evals as int))
        } else {
            st.works
        },
        deltas: if trace {
            st.deltas.update(step, own)
        } else {
            st.deltas
        },
        resolved: if trace {
            st.resolved.update(step, recorded(resolved_early as int))
        } else {
            st.resolved
        },
    }
}

/// The verdict of the bands after a packet.
pub open spec fn packet_verdict(
    m: spec_fn(SingleOp) -> u32,
    rt: LoadedPrefixRuntime,
    tau: u32,
    fold: i32,
    step: int,
    st: PacketState,
) -> Option<(bool, u32)> {
    let t = rt.calibration.tables@[step]@;
    certified(
        m,
        Certifier { kind: PrefixCertifierKind::TableV1, atlas: None, mlp: None },
        t,
        RowAt {
            slot: step as usize,
            fold_slot: fold_slot(t, fold),
            tau,
            atlas_tau_bin: 0,
            calibration_tau_bin: calibration_bin(rt.calibration, tau),
            score: st.score,
            delta_prev: st.prev_delta,
            delta_from_64: 0,
        },
        RowWork {
            checkpoint: rt.calibration.checkpoints@[step],
            fold,
            work_evals: st.work_evals,
            trees_used: st.trees_used,
            resolved_early: st.resolved_early,
        },
    )
}

/// What a state comes to with a verdict, or without one.
pub open spec fn packet_outcome(
    st: PacketState,
    verdict: Option<(bool, u32, usize)>,
    back: usize,
) -> ShadowView {
    ShadowView {
        prefix_score: st.score,
        trees_used: st.trees_used as int,
        work_evals: st.work_evals as int,
        resolved_early_trees: st.resolved_early as int,
        shadow_reject: match verdict {
            Some(v) => v.0,
            None => false,
        },
        shadow_route_score: match verdict {
            Some(v) => v.1,
            None => st.score,
        },
        fallback_used: verdict is None,
        direct_checkpoint: match verdict {
            Some(v) => v.2,
            None => 0,
        },
        fallback_entry_checkpoint: match verdict {
            Some(_) => 0,
            None => back,
        },
        checkpoint_scores: st.scores,
        checkpoint_work_evals: st.works,
        checkpoint_deltas: st.deltas,
        checkpoint_resolved_early: st.resolved,
        selected_packets: st.selected,
        anchor_trees_used: 0,
        anchor_direct_checkpoint: 0,
        rescue_trees_used: 0,
        rescue_direct_checkpoint: 0,
        rescue_route: 0,
    }
}

/// What a row comes to from step `step` on.
pub open spec fn packet_steps(
    m: spec_fn(SingleOp) -> u32,
    rt: LoadedPrefixRuntime,
    sch: LoadedPacketScheduler,
    feat: Seq<u32>,
    tau: u32,
    fold: i32,
    ranks: Seq<u8>,
    miss: Seq<u8>,
    trace: bool,
    step: int,
    st: PacketState,
) -> Result<ShadowView, ScoreError>
    decreases sch.max_steps - step,
{
    if step < 0 || step >= sch.max_steps {
        Ok(packet_outcome(st, None, last_checkpoint(rt.calibration)))
    } else {
        match chosen_packet(m, sch, tau, step, st) {
            None => Err(ScoreError::PacketsExhausted),
            Some(k) => {
                let packet = sch.packets@[k];
                match packet_walk(rt, packet, feat, ranks, miss) {
                    Err(e) => Err(e),
                    Ok(w) => {
                        let next = after_packet(m, packet, w, step, trace, st);
                        match packet_verdict(m, rt, tau, fold, step, next) {
                            Some(v) => Ok(
                                packet_outcome(
                                    next,
                                    Some((v.0, v.1, rt.calibration.checkpoints@[step])),
                                    0,
                                ),
                            ),
                            None => packet_steps(
                                m,
                                rt,
                                sch,
                                feat,
                                tau,
                                fold,
                                ranks,
                                miss,
                                trace,
                                step + 1,
                                next,
                            ),
                        }
                    },
                }
            },
        }
    }
}

/// A row before its first packet. Traced scores start out as not being numbers.
pub open spec fn packet_start(
    rt: LoadedPrefixRuntime,
    sch: LoadedPacketScheduler,
    trace: bool,
) -> PacketState {
    let n = if trace {
        rt.calibration.checkpoints@.len()
    } else {
        0
    };
    PacketState {
        score: rt.pack@.base_score,
        trees_used: 0,
        work_evals: 0,
        resolved_early: 0,
        prev_delta: 0,
        used: Seq::new(sch.packets@.len(), |i: int| false),
        selected: Seq::empty(),
        scores: Seq::new(n, |i: int| 0x7fc0_0000u32),
        works: Seq::new(n, |i: int| 0u32),
        deltas: Seq::new(n, |i: int| 0u32),
        resolved: Seq::new(n, |i: int| 0u32),
    }
}

/// What a row comes to, packet by packet.
pub open spec fn packet_row(
    m: spec_fn(SingleOp) -> u32,
    rt: &LoadedPrefixRuntime,
    sch: &LoadedPacketScheduler,
    feat: Seq<u32>,
    tau: u32,
    fold: i32,
    ranks: Seq<u8>,
    miss: Seq<u8>,
    trace: bool,
) -> Result<ShadowView, ScoreError> {
    let tables = rt.calibration.tables@.len();
    if tables != sch.max_steps {
        Err(ScoreError::StepCount { tables: tables as usize, max_steps: sch.max_steps })
    } else {
        packet_steps(
            m,
            *rt,
            *sch,
            feat,
            tau,
            fold,
            ranked(rt.pack@, feat, ranks),
            marked(rt.pack@, feat, miss),
            trace,
            0,
            packet_start(*rt, *sch, trace),
        )
    }
}

/// Whether packets and policy can be run.
pub open spec fn scheduler_ready(sch: LoadedPacketScheduler) -> bool {
    &&& sch.policy.gap_edges_by_step@.len() >= sch.max_steps
    &&& sch.policy.delta_edges_by_step@.len() >= sch.max_steps
    &&& forall|i: int|
        0 <= i < sch.packets@.len() ==> (#[trigger] sch.packets@[i]).packet_id < sch.packets@.len()
    &&& forall|i: int| 0 <= i < sch.packets@.len() ==> packet_ready(#[trigger] sch.packets@[i])
}

/// A row on its way.
struct PacketRun {
    score: u32,
    trees_used: usize,
    work_evals: u64,
    resolved_early: u64,
    prev_delta: u32,
    used: Vec<bool>,
    selected: Vec<u16>,
    scores: Vec<u32>,
    works: Vec<u32>,
    deltas: Vec<u32>,
    resolved: Vec<u32>,
}

impl View for PacketRun {
    type V = PacketState;

    closed spec fn view(&self) -> PacketState {
        PacketState {
            score: self.score,
            trees_used: self.trees_used,
            work_evals: self.work_evals,
            resolved_early: self.resolved_early,
            prev_delta: self.prev_delta,
            used: self.used@,
            selected: self.selected@,
            scores: self.scores@,
            works: self.works@,
            deltas: self.deltas@,
            resolved: self.resolved@,
        }
    }
}

/// A number as it is recorded in a trace.
fn record(n: u64) -> (r: u32)
    ensures
        r == recorded(n as int),
{
    if n <= 0xffff_ffff {
        n as u32
    } else {
        0xffff_ffff
    }
}

/// Puts together what a row comes to.
fn finish(run: PacketRun, verdict: Option<(bool, u32, usize)>, back: usize) -> (r: PrefixRowShadow)
    ensures
        r@ == packet_outcome(run@, verdict, back),
{
    let (reject, route, used, direct, entry) = match verdict {
        Some(v) => (v.0, v.1, false, v.2, 0),
        None => (false, run.score, true, 0, back),
    };
    let r: PrefixRowShadow = PrefixRowShadow {
        prefix_score: run.score,
        trees_used: run.trees_used,
        work_evals: run.work_evals,
        resolved_early_trees: run.resolved_early,
        shadow_reject: reject,
        shadow_route_score: route,
        fallback_used: used,
        direct_checkpoint: direct,
        fallback_entry_checkpoint: entry,
        checkpoint_scores: run.scores,
        checkpoint_work_evals: run.works,
        checkpoint_deltas: run.deltas,
        checkpoint_resolved_early: run.resolved,
        selected_packets: run.selected,
        anchor_trees_used: 0,
        anchor_direct_checkpoint: 0,
        rescue_trees_used: 0,
        rescue_direct_checkpoint: 0,
        rescue_route: 0,
    };
    assert(r@ =~= packet_outcome(run@, verdict, back));
    r
}

/// Runs a row packet by packet.
pub fn run_packet_shadow_row<A: Fn(SingleOp) -> u32>(
    arith: &A,
    runtime: &LoadedPrefixRuntime,
    scheduler: &LoadedPacketScheduler,
    feat: &[u32],
    row_tau: u32,
    row_fold: i32,
    ranks: &mut [u8],
    missing: &mut [u8],
    trace_enabled: bool,
) -> (r: Result<PrefixRowShadow, ScoreError>)
    requires
        answers(*arith),
        runtime_sound(*runtime),
        scheduler_ready(*scheduler),
        buffers_fit(runtime.pack@, feat@, old(ranks)@, old(missing)@),
    ensures
        final(ranks)@.len() == old(ranks)@.len(),
        final(missing)@.len() == old(missing)@.len(),
        runtime.calibration.tables@.len() == scheduler.max_steps ==> final(ranks)@ == ranked(
            runtime.pack@,
            feat@,
            old(ranks)@,
        ) && final(missing)@ == marked(runtime.pack@, feat@, old(missing)@),
        forall|m: spec_fn(SingleOp) -> u32| #[trigger]
            follows(*arith, m) ==> shown(r) == packet_row(
                m,
                runtime,
                scheduler,
                feat@,
                row_tau,
                row_fold,
                old(ranks)@,
                old(missing)@,
                trace_enabled,
            ),
{
    let ghost p = runtime.pack@;
    let ghost r0 = ranks@;
    let ghost q0 = missing@;
    let cal = &runtime.calibration;
    if cal.tables.len() != scheduler.max_steps {
        return Err(
            ScoreError::StepCount { tables: cal.tables.len(), max_steps: scheduler.max_steps },
        );
    }
    proof {
        lemma_ranked_is_readable(p, feat@, r0, q0);
    }
    quantize_into(&runtime.pack, feat, ranks, missing);
    let policy: &LoadedPacketPolicy = &scheduler.policy;
    let tau_bin: usize = cap_bin(
        mlp_tau_bin(policy.tau_edges.as_slice(), row_tau),
        policy.tau_edges.len(),
    );
    let cal_bin: usize = if cal.tables.len() > 0 {
        atlas_tau_bin(cal.tables[0].tau_edges.as_slice(), row_tau)
    } else {
        0
    };
    let traced: usize = if trace_enabled {
        cal.checkpoints.len()
    } else {
        0
    };
    let mut run: PacketRun = PacketRun {
        score: runtime.pack.base_score,
        trees_used: 0,
        work_evals: 0,
        resolved_early: 0,
        prev_delta: 0,
        used: vec![false; scheduler.packets.len()],
        selected: Vec::new(),
        scores: vec![0x7fc0_0000u32; traced],
        works: vec![0u32; traced],
        deltas: vec![0u32; traced],
        resolved: vec![0u32; traced],
    };
    let ghost start = packet_start(*runtime, *scheduler, trace_enabled);
    assert(run@ =~= start);
    let mut step: usize = 0;
    while step < scheduler.max_steps
        invariant
            answers(*arith),
            runtime_sound(*runtime),
            scheduler_ready(*scheduler),
            p == runtime.pack@,
            *cal == runtime.calibration,
            *policy == scheduler.policy,
            r0 == old(ranks)@,
            q0 == old(missing)@,
            ranks@ == ranked(p, feat@, r0),
            missing@ == marked(p, feat@, q0),
            ranks@.len() == r0.len(),
            missing@.len() == q0.len(),
            forall|t: int|
                0 <= t < p.n_trees ==> #[trigger] crate::qs_score::tree_readable(
                    p,
                    t,
                    ranks@,
                    missing@,
                ),
            cal.tables@.len() == scheduler.max_steps,
            step <= scheduler.max_steps,
            tau_bin == capped_bin(
                tau_bin_of(policy.tau_edges@, row_tau),
                policy.tau_edges@.len(),
            ),
            cal_bin == calibration_bin(*cal, row_tau),
            run.used@.len() == scheduler.packets@.len(),
            trace_enabled ==> run.scores@.len() == cal.checkpoints@.len() && run.works@.len()
                == cal.checkpoints@.len() && run.deltas@.len() == cal.checkpoints@.len()
                && run.resolved@.len() == cal.checkpoints@.len(),
            start == packet_start(*runtime, *scheduler, trace_enabled),
            forall|m: spec_fn(SingleOp) -> u32| #[trigger]
                follows(*arith, m) ==> packet_steps(
                    m,
                    *runtime,
                    *scheduler,
                    feat@,
                    row_tau,
                    row_fold,
                    ranks@,
                    missing@,
                    trace_enabled,
                    0,
                    start,
                ) == packet_steps(
                    m,
                    *runtime,
                    *scheduler,
                    feat@,
                    row_tau,
                    row_fold,
                    ranks@,
                    missing@,
                    trace_enabled,
                    step as int,
                    run@,
                ),
        decreases scheduler.max_steps - step,
    {
        let ghost before = run@;
        let gap: u32 = arith(SingleOp::Difference(row_tau, run.score));
        let gap_bin: usize = prefix_gap_bin(policy.gap_edges_by_step[step].as_slice(), gap);
        let delta_bin: usize = prefix_gap_bin(
            policy.delta_edges_by_step[step].as_slice(),
            run.prev_delta,
        );
        let ranking: Option<&Vec<u16>> = lookup_packet_policy_ranking(
            policy,
            step,
            tau_bin,
            gap_bin,
            delta_bin,
        );
        let k: usize = match pick_packet(&scheduler.packets, &run.used, ranking) {
            None => {
                return Err(ScoreError::PacketsExhausted);
            },
            Some(k) => k,
        };
        let packet: &LoadedPacket = &scheduler.packets[k];
        assert(*packet == scheduler.packets@[k as int]);
        run.used.set(packet.packet_id, true);
        let id: u16 = if packet.packet_id <= 0xffff {
            packet.packet_id as u16
        } else {
            0xffff
        };
        run.selected.push(id);
        let w: Walked = match run_packet(runtime, packet, feat, ranks, Some(&*missing)) {
            Err(e) => {
                return Err(e);
            },
            Ok(w) => w,
        };
        let own: u32 = add_values(arith, 0, &w.leaves, 0);
        assert(w.leaves@.subrange(0, w.leaves@.len() as int) =~= w.leaves@);
        run.score = arith(SingleOp::Sum(run.score, own));
        run.trees_used = run.trees_used.wrapping_add(packet.tree_count);
        run.work_evals = run.work_evals.wrapping_add(w.block_evals);
        run.resolved_early = run.resolved_early.wrapping_add(w.resolved_early);
        if trace_enabled {
            run.scores.set(step, run.score);
            run.works.set(step, record(run.work_evals));
            run.deltas.set(step, own);
            run.resolved.set(step, record(run.resolved_early));
        }
        run.prev_delta = own;
        proof {
            assert forall|m: spec_fn(SingleOp) -> u32| #[trigger] follows(
                *arith,
                m,
            ) implies run@ == after_packet(m, *packet, w@, step as int, trace_enabled, before) by {
                assert(run@ =~= after_packet(m, *packet, w@, step as int, trace_enabled, before));
            }
        }
        let certifier: Certifier = Certifier {
            kind: PrefixCertifierKind::TableV1,
            atlas: None,
            mlp: None,
        };
        proof {
            lemma_slot_range(cal.tables@[step as int]@, row_fold);
        }
        let verdict: Option<(bool, u32)> = maybe_prefix_certify(
            arith,
            &certifier,
            &cal.tables[step],
            step,
            cal.checkpoints[step],
            row_fold,
            prefix_fold_slot(&cal.tables[step], row_fold),
            row_tau,
            0,
            cal_bin,
            run.score,
            run.work_evals,
            run.trees_used,
            run.resolved_early,
            own,
            0,
        );
        if let Some(v) = verdict {
            return Ok(finish(run, Some((v.0, v.1, cal.checkpoints[step])), 0));
        }
        step += 1;
    }
    Ok(finish(run, None, fallback_checkpoint(cal)))
}

/// Which packets a row has used, by the numbers noted. The first that is no packet fails.
pub open spec fn used_packets(selected: Seq<u16>, n: nat, k: int) -> Result<Seq<bool>, ScoreError>
    decreases k,
{
    if k <= 0 {
        Ok(Seq::new(n, |i: int| false))
    } else {
        match used_packets(selected, n, k - 1) {
            Err(e) => Err(e),
            Ok(u) => if selected[k - 1] >= n {
                Err(ScoreError::InvalidPacket { packet: selected[k - 1] as usize })
            } else {
                Ok(u.update(selected[k - 1] as int, true))
            },
        }
    }
}

/// Score and trees after the packets from `k` on that a row has not used.
pub open spec fn packets_left(
    m: spec_fn(SingleOp) -> u32,
    rt: LoadedPrefixRuntime,
    packets: Seq<LoadedPacket>,
    used: Seq<bool>,
    feat: Seq<u32>,
    ranks: Seq<u8>,
    miss: Seq<u8>,
    k: int,
    score: u32,
    visited: i32,
) -> Result<(u32, i32), ScoreError>
    decreases packets.len() - k,
{
    if k < 0 || k >= packets.len() {
        Ok((score, visited))
    } else if used[packets[k].packet_id as int] {
        packets_left(m, rt, packets, used, feat, ranks, miss, k + 1, score, visited)
    } else {
        match packet_walk(rt, packets[k], feat, ranks, miss) {
            Err(e) => Err(e),
            Ok(w) => packets_left(
                m,
                rt,
                packets,
                used,
                feat,
                ranks,
                miss,
                k + 1,
                m(SingleOp::Sum(score, total(m, 0, w.leaves))),
                visited.wrapping_add(packets[k].tree_count as i32),
            ),
        }
    }
}

/// What the packets that a row has not used make of it.
pub open spec fn packet_tail(
    m: spec_fn(SingleOp) -> u32,
    rt: &LoadedPrefixRuntime,
    sch: &LoadedPacketScheduler,
    feat: Seq<u32>,
    tau: u32,
    v: ShadowView,
    ranks: Seq<u8>,
    miss: Seq<u8>,
) -> Result<(u32, bool, i32), ScoreError> {
    match used_packets(v.selected_packets, sch.packets@.len(), v.selected_packets.len() as int) {
        Err(e) => Err(e),
        Ok(used) => match packets_left(
            m,
            *rt,
            sch.packets@,
            used,
            feat,
            ranks,
            miss,
            0,
            v.prefix_score,
            0,
        ) {
            Err(e) => Err(e),
            Ok((score, visited)) => Ok((score, at_most(tau, score), visited)),
        },
    }
}

/// A failed packet stays the answer however many numbers follow.
proof fn lemma_used_error_stays(selected: Seq<u16>, n: nat, j: int, k: int)
    requires
        j <= k,
        used_packets(selected, n, j) is Err,
    ensures
        used_packets(selected, n, k) == used_packets(selected, n, j),
    decreases k - j,
{
    if j < k {
        lemma_used_error_stays(selected, n, j, k - 1);
    }
}

/// Adds up the packets that a row has not used; `missing` is `None` for a row without missing
/// values.
pub fn run_packet_continuation<A: Fn(SingleOp) -> u32>(
    arith: &A,
    runtime: &LoadedPrefixRuntime,
    scheduler: &LoadedPacketScheduler,
    feat: &[u32],
    row_tau: u32,
    shadow: &PrefixRowShadow,
    ranks: &[u8],
    missing: Option<&[u8]>,
) -> (r: Result<(u32, bool, i32), ScoreError>)
    requires
        answers(*arith),
        runtime_sound(*runtime),
        scheduler_ready(*scheduler),
        span_readable(
            runtime.pack@,
            0,
            runtime.pack@.n_trees,
            ranks@,
            crate::qs_score::marks(missing),
        ),
    ensures
        forall|m: spec_fn(SingleOp) -> u32| #[trigger]
            follows(*arith, m) ==> r == packet_tail(
                m,
                runtime,
                scheduler,
                feat@,
                row_tau,
                shadow@,
                ranks@,
                crate::qs_score::marks(missing),
            ),
{
    let ghost miss = crate::qs_score::marks(missing);
    let n: usize = scheduler.packets.len();
    let ghost sel = shadow.selected_packets@;
    let mut used: Vec<bool> = vec![false; n];
    assert(used@ =~= Seq::new(n as nat, |i: int| false));
    let mut i: usize = 0;
    while i < shadow.selected_packets.len()
        invariant
            i <= sel.len(),
            sel == shadow.selected_packets@,
            n == scheduler.packets@.len(),
            used@.len() == n,
            used_packets(sel, n as nat, i as int) == Ok::<Seq<bool>, ScoreError>(used@),
        decreases sel.len() - i,
    {
        let idx: usize = shadow.selected_packets[i] as usize;
        if idx >= n {
            proof {
                lemma_used_error_stays(sel, n as nat, i + 1, sel.len() as int);
            }
            return Err(ScoreError::InvalidPacket { packet: idx });
        }
        used.set(idx, true);
        i += 1;
    }
    let mut score: u32 = shadow.prefix_score;
    let mut visited: i32 = 0;
    let mut k: usize = 0;
    while k < n
        invariant
            answers(*arith),
            k <= n,
            n == scheduler.packets@.len(),
            used@.len() == n,
            scheduler_ready(*scheduler),
            sel == shadow.selected_packets@,
            miss == crate::qs_score::marks(missing),
            used_packets(sel, n as nat, sel.len() as int) == Ok::<Seq<bool>, ScoreError>(used@),
            forall|t: int|
                0 <= t < runtime.pack@.n_trees ==> #[trigger] crate::qs_score::tree_readable(
                    runtime.pack@,
                    t,
                    ranks@,
                    miss,
                ),
            forall|m: spec_fn(SingleOp) -> u32| #[trigger]
                follows(*arith, m) ==> packets_left(
                    m,
                    *runtime,
                    scheduler.packets@,
                    used@,
                    feat@,
                    ranks@,
                    miss,
                    0,
                    shadow.prefix_score,
                    0,
                ) == packets_left(
                    m,
                    *runtime,
                    scheduler.packets@,
                    used@,
                    feat@,
                    ranks@,
                    miss,
                    k as int,
                    score,
                    visited,
                ),
        decreases n - k,
    {
        let packet: &LoadedPacket = &scheduler.packets[k];
        assert(*packet == scheduler.packets@[k as int]);
        if !used[packet.packet_id] {
            let w: Walked = match run_packet(runtime, packet, feat, ranks, missing) {
                Err(e) => {
                    return Err(e);
                },
                Ok(w) => w,
            };
            let own: u32 = add_values(arith, 0, &w.leaves, 0);
            assert(w.leaves@.subrange(0, w.leaves@.len() as int) =~= w.leaves@);
            score = arith(SingleOp::Sum(score, own));
            visited = visited.wrapping_add(packet.tree_count as i32);
        }
        k += 1;
    }
    Ok((score, le(row_tau, score), visited))
}

/// Picking a packet never takes one that has been used.
pub proof fn law_picked_packets_are_fresh(
    packets: Seq<LoadedPacket>,
    used: Seq<bool>,
    ranking: Seq<u16>,
)
    requires
        used.len() == packets.len(),
        forall|i: int| 0 <= i < packets.len() ==> (#[trigger] packets[i]).packet_id == i,
    ensures
        match next_packet(packets, used, ranking) {
            Some(k) => 0 <= k < packets.len() && !used[k],
            None => forall|i: int| 0 <= i < used.len() ==> #[trigger] used[i],
        },
{
    lemma_first_ranked(ranking, used, 0);
    lemma_first_unused(packets, used, 0);
}

proof fn lemma_first_ranked(ranking: Seq<u16>, used: Seq<bool>, k: int)
    ensures
        first_ranked(ranking, used, k) matches Some(i) ==> 0 <= i < used.len() && !used[i],
    decreases ranking.len() - k,
{
    if 0 <= k < ranking.len() {
        lemma_first_ranked(ranking, used, k + 1);
    }
}

proof fn lemma_first_unused(packets: Seq<LoadedPacket>, used: Seq<bool>, k: int)
    requires
        0 <= k,
        used.len() == packets.len(),
        forall|i: int| 0 <= i < packets.len() ==> (#[trigger] packets[i]).packet_id == i,
    ensures
        match first_unused(packets, used, k) {
            Some(i) => 0 <= i < packets.len() && !used[i],
            None => forall|i: int| k <= i < used.len() ==> #[trigger] used[i],
        },
    decreases packets.len() - k,
{
    if k < packets.len() {
        assert(packets[k].packet_id == k);
        lemma_first_unused(packets, used, k + 1);
    }
}

} // verus!
