//! Laws on rows that are run packet by packet: no packet is run twice, and in the end none is left.

use crate::arith::{total, SingleOp};
use crate::exact::{
    adds_steps, countable, in_steps, law_opposite_worth, law_small_multiples_add_exactly,
    law_worth_orders, lemma_sum_in_steps, size, sum_size, sum_worth, worth,
};
use crate::packets::{
    after_packet, chosen_packet, law_picked_packets_are_fresh, packet_row, packet_start,
    packet_steps, packet_tail, packet_verdict, packet_walk, packets_left, policy_ranking,
    used_packets, LoadedPacket, LoadedPacketScheduler, PacketState,
};
use crate::prefix_runtime::{last_checkpoint, LoadedPrefixRuntime, ShadowView};
use crate::quantize::{marked, ranked};
use vstd::prelude::*;

verus! {

/// What the chosen of the first `n` entries come to.
pub open spec fn chosen_sum(f: Seq<int>, chosen: Seq<bool>, n: int) -> int
    decreases n,
{
    if n <= 0 {
        0
    } else {
        chosen_sum(f, chosen, n - 1) + if chosen[n - 1] {
            f[n - 1]
        } else {
            0
        }
    }
}

/// What the first `n` entries come to.
pub open spec fn whole_sum(f: Seq<int>, n: int) -> int
    decreases n,
{
    if n <= 0 {
        0
    } else {
        whole_sum(f, n - 1) + f[n - 1]
    }
}

/// What each packet is worth.
pub open spec fn worths(gives: Seq<Seq<u32>>) -> Seq<int> {
    Seq::new(gives.len(), |i: int| sum_worth(gives[i]))
}

/// What the sizes of the leaf values of each packet come to.
pub open spec fn sizes(gives: Seq<Seq<u32>>) -> Seq<int> {
    Seq::new(gives.len(), |i: int| sum_size(gives[i]))
}

/// Whether the packets give a row these leaf values.
pub open spec fn packets_give(
    rt: LoadedPrefixRuntime,
    packets: Seq<LoadedPacket>,
    feat: Seq<u32>,
    ranks: Seq<u8>,
    miss: Seq<u8>,
    gives: Seq<Seq<u32>>,
) -> bool {
    &&& gives.len() == packets.len()
    &&& forall|i: int|
        0 <= i < packets.len() ==> (packet_walk(rt, #[trigger] packets[i], feat, ranks, miss)
            matches Ok(w) ==> w.leaves == gives[i])
}

/// Whether packets are listed by their numbers.
pub open spec fn numbered(packets: Seq<LoadedPacket>) -> bool {
    &&& packets.len() <= 0x1_0000
    &&& forall|i: int| 0 <= i < packets.len() ==> (#[trigger] packets[i]).packet_id == i
}

/// Whether a base and the leaf values of all packets are so coarse and so few that adding them does
/// not round.
pub open spec fn packets_add_up(
    m: spec_fn(SingleOp) -> u32,
    q: int,
    base: u32,
    gives: Seq<Seq<u32>>,
) -> bool {
    &&& adds_steps(m, q)
    &&& countable(base)
    &&& worth(base) % q == 0
    &&& forall|i: int| 0 <= i < gives.len() ==> in_steps(#[trigger] gives[i], q)
    &&& size(base) + whole_sum(sizes(gives), gives.len() as int) <= 0x100_0000 * q
}

/// Whether a score is worth the base and the chosen packets, each once.
pub open spec fn packets_counted(
    base: u32,
    gives: Seq<Seq<u32>>,
    used: Seq<bool>,
    score: u32,
) -> bool {
    &&& used.len() == gives.len()
    &&& countable(score)
    &&& worth(score) == worth(base) + chosen_sum(worths(gives), used, gives.len() as int)
}

proof fn lemma_one_chosen(f: Seq<int>, chosen: Seq<bool>, k: int, n: int)
    requires
        0 <= k < chosen.len(),
        !chosen[k],
        n <= chosen.len(),
    ensures
        chosen_sum(f, chosen.update(k, true), n) == chosen_sum(f, chosen, n) + if k < n {
            f[k]
        } else {
            0
        },
    decreases n,
{
    if n > 0 {
        lemma_one_chosen(f, chosen, k, n - 1);
    }
}

proof fn lemma_none_chosen(f: Seq<int>, chosen: Seq<bool>, n: int)
    requires
        n <= chosen.len(),
        forall|i: int| 0 <= i < chosen.len() ==> !#[trigger] chosen[i],
    ensures
        chosen_sum(f, chosen, n) == 0,
    decreases n,
{
    if n > 0 {
        lemma_none_chosen(f, chosen, n - 1);
    }
}

proof fn lemma_all_chosen(f: Seq<int>, chosen: Seq<bool>, n: int)
    requires
        n <= chosen.len(),
        forall|i: int| 0 <= i < chosen.len() ==> #[trigger] chosen[i],
    ensures
        chosen_sum(f, chosen, n) == whole_sum(f, n),
    decreases n,
{
    if n > 0 {
        lemma_all_chosen(f, chosen, n - 1);
    }
}

/// What chosen packets are worth is a multiple of the step, and no larger than the sizes of all.
proof fn lemma_chosen_bounds(gives: Seq<Seq<u32>>, chosen: Seq<bool>, q: int, n: int)
    requires
        q > 0,
        0 <= n <= gives.len(),
        forall|i: int| 0 <= i < gives.len() ==> in_steps(#[trigger] gives[i], q),
    ensures
        chosen_sum(worths(gives), chosen, n) % q == 0,
        -chosen_sum(sizes(gives), chosen, n) <= chosen_sum(worths(gives), chosen, n),
        chosen_sum(worths(gives), chosen, n) <= chosen_sum(sizes(gives), chosen, n),
        0 <= chosen_sum(sizes(gives), chosen, n) <= whole_sum(sizes(gives), n),
    decreases n,
{
    vstd::arithmetic::div_mod::lemma_small_mod(0, q as nat);
    if n > 0 {
        lemma_chosen_bounds(gives, chosen, q, n - 1);
        assert(in_steps(gives[n - 1], q));
        lemma_sum_in_steps(gives[n - 1], q);
        let a = chosen_sum(worths(gives), chosen, n - 1);
        let b = sum_worth(gives[n - 1]);
        vstd::arithmetic::div_mod::lemma_add_mod_noop(a, b, q);
        assert((a + b) % q == 0);
    }
}

/// Adding a packet that has not been used counts it.
proof fn lemma_packet_counts(
    m: spec_fn(SingleOp) -> u32,
    q: int,
    base: u32,
    gives: Seq<Seq<u32>>,
    used: Seq<bool>,
    score: u32,
    k: int,
)
    requires
        packets_add_up(m, q, base, gives),
        packets_counted(base, gives, used, score),
        0 <= k < gives.len(),
        !used[k],
    ensures
        packets_counted(
            base,
            gives,
            used.update(k, true),
            m(SingleOp::Sum(score, total(m, 0, gives[k]))),
        ),
{
    let n = gives.len() as int;
    let more = used.update(k, true);
    lemma_one_chosen(worths(gives), used, k, n);
    lemma_one_chosen(sizes(gives), used, k, n);
    lemma_chosen_bounds(gives, used, q, n);
    lemma_chosen_bounds(gives, more, q, n);
    assert(in_steps(gives[k], q));
    lemma_sum_in_steps(gives[k], q);
    vstd::arithmetic::div_mod::lemma_small_mod(0, q as nat);
    law_opposite_worth(0);
    law_small_multiples_add_exactly(m, q, 0, gives[k]);
    let own = total(m, 0, gives[k]);
    let sum = chosen_sum(worths(gives), used, n);
    vstd::arithmetic::div_mod::lemma_add_mod_noop(worth(base), sum, q);
    assert((worth(base) + sum) % q == 0);
    let r = m(SingleOp::Sum(score, own));
    assert(countable(r) && worth(r) == worth(score) + worth(own));
}

/// The numbers noted tell the packets used, and one more number one more packet.
proof fn lemma_noted(selected: Seq<u16>, x: u16, n: nat, k: int)
    requires
        0 <= k <= selected.len(),
    ensures
        used_packets(selected.push(x), n, k) == used_packets(selected, n, k),
    decreases k,
{
    if k > 0 {
        lemma_noted(selected, x, n, k - 1);
    }
}

/// Whether the packets noted are those used, each noted once.
pub open spec fn noted_once(selected: Seq<u16>, used: Seq<bool>) -> bool {
    &&& used_packets(selected, used.len(), selected.len() as int) == Ok::<
        Seq<bool>,
        crate::qs_score::ScoreError,
    >(used)
    &&& forall|i: int| 0 <= i < selected.len() ==> #[trigger] selected[i] < used.len() && used[
        selected[i] as int]
    &&& forall|i: int, j: int|
        0 <= i < j < selected.len() ==> #[trigger] selected[i] != #[trigger] selected[j]
}

/// Whether a row was decided at a step, in the state that it ended in.
pub open spec fn decided_there(
    m: spec_fn(SingleOp) -> u32,
    rt: LoadedPrefixRuntime,
    tau: u32,
    fold: i32,
    step: int,
    last: PacketState,
    v: ShadowView,
) -> bool {
    &&& packet_verdict(m, rt, tau, fold, step, last) == Some(
        (v.shadow_reject, v.shadow_route_score),
    )
    &&& v.prefix_score == last.score
    &&& v.trees_used == last.trees_used
    &&& v.work_evals == last.work_evals
    &&& v.resolved_early_trees == last.resolved_early
    &&& v.direct_checkpoint == rt.calibration.checkpoints@[step]
}

proof fn lemma_packets(
    m: spec_fn(SingleOp) -> u32,
    q: int,
    rt: LoadedPrefixRuntime,
    sch: LoadedPacketScheduler,
    feat: Seq<u32>,
    tau: u32,
    fold: i32,
    ranks: Seq<u8>,
    miss: Seq<u8>,
    trace: bool,
    step: int,
    st: PacketState,
    gives: Seq<Seq<u32>>,
) -> (used: Seq<bool>)
    requires
        numbered(sch.packets@),
        packets_give(rt, sch.packets@, feat, ranks, miss, gives),
        packets_add_up(m, q, rt.pack@.base_score, gives),
        packets_counted(rt.pack@.base_score, gives, st.used, st.score),
        noted_once(st.selected, st.used),
    ensures
        packet_steps(m, rt, sch, feat, tau, fold, ranks, miss, trace, step, st) matches Ok(v) ==> {
            &&& packets_counted(rt.pack@.base_score, gives, used, v.prefix_score)
            &&& noted_once(v.selected_packets, used)
            &&& v.fallback_used ==> {
                &&& v.selected_packets.len() == st.selected.len() + if step < 0 || step
                    >= sch.max_steps {
                    0
                } else {
                    sch.max_steps - step
                }
                &&& !v.shadow_reject
                &&& v.shadow_route_score == v.prefix_score
                &&& v.direct_checkpoint == 0
                &&& v.fallback_entry_checkpoint == last_checkpoint(rt.calibration)
            }
            &&& !v.fallback_used ==> exists|last: PacketState| #[trigger]
                decided_there(
                    m,
                    rt,
                    tau,
                    fold,
                    step + v.selected_packets.len() - st.selected.len() - 1,
                    last,
                    v,
                )
        },
    decreases sch.max_steps - step,
{
    if 0 <= step < sch.max_steps {
        match chosen_packet(m, sch, tau, step, st) {
            None => st.used,
            Some(k) => {
                let packets = sch.packets@;
                let pol = sch.policy;
                let gap = m(SingleOp::Difference(tau, st.score));
                law_picked_packets_are_fresh(
                    packets,
                    st.used,
                    policy_ranking(
                        pol.rows@,
                        step,
                        crate::rescue::capped_bin(
                            crate::bands::tau_bin_of(pol.tau_edges@, tau),
                            pol.tau_edges@.len(),
                        ),
                        crate::bands::bin_of(pol.gap_edges_by_step@[step]@, gap),
                        crate::bands::bin_of(pol.delta_edges_by_step@[step]@, st.prev_delta),
                    ),
                );
                assert(packets[k].packet_id == k);
                match packet_walk(rt, packets[k], feat, ranks, miss) {
                    Err(_) => st.used,
                    Ok(w) => {
                        let next = after_packet(m, packets[k], w, step, trace, st);
                        assert(w.leaves == gives[k]);
                        lemma_packet_counts(
                            m,
                            q,
                            rt.pack@.base_score,
                            gives,
                            st.used,
                            st.score,
                            k,
                        );
                        lemma_noted(st.selected, k as u16, st.used.len(), st.selected.len() as int);
                        assert(next.selected.last() == k);
                        assert(noted_once(next.selected, next.used)) by {
                            assert forall|i: int| 0 <= i < next.selected.len() implies
                                #[trigger] next.selected[i] < next.used.len() && next.used[
                                next.selected[i] as int] by {
                                if i < st.selected.len() {
                                    assert(next.selected[i] == st.selected[i]);
                                }
                            }
                            assert forall|i: int, j: int|
                                0 <= i < j < next.selected.len() implies #[trigger] next.selected[i]
                                != #[trigger] next.selected[j] by {
                                assert(next.selected[i] == st.selected[i]);
                                if j < st.selected.len() {
                                    assert(next.selected[j] == st.selected[j]);
                                }
                            }
                        }
                        if packet_verdict(m, rt, tau, fold, step, next) is Some {
                            let v = packet_steps(
                                m,
                                rt,
                                sch,
                                feat,
                                tau,
                                fold,
                                ranks,
                                miss,
                                trace,
                                step,
                                st,
                            )->Ok_0;
                            let at = step + v.selected_packets.len() - st.selected.len() - 1;
                            assert(v.selected_packets == next.selected);
                            assert(at == step);
                            assert(decided_there(m, rt, tau, fold, at, next, v));
                            next.used
                        } else {
                            let used = lemma_packets(
                                m,
                                q,
                                rt,
                                sch,
                                feat,
                                tau,
                                fold,
                                ranks,
                                miss,
                                trace,
                                step + 1,
                                next,
                                gives,
                            );
                            let r = packet_steps(
                                m,
                                rt,
                                sch,
                                feat,
                                tau,
                                fold,
                                ranks,
                                miss,
                                trace,
                                step + 1,
                                next,
                            );
                            if let Ok(v) = r {
                                if !v.fallback_used {
                                    let n = v.selected_packets.len();
                                    let last = choose|last: PacketState| #[trigger]
                                        decided_there(
                                            m,
                                            rt,
                                            tau,
                                            fold,
                                            step + 1 + n - next.selected.len() - 1,
                                            last,
                                            v,
                                        );
                                    let at = step + n - st.selected.len() - 1;
                                    assert(at == step + 1 + n - next.selected.len() - 1);
                                    assert(decided_there(m, rt, tau, fold, at, last, v));
                                }
                            }
                            used
                        }
                    },
                }
            },
        }
    } else {
        st.used
    }
}

/// The packets up to place `k` that were not used stay to be counted; the rest is counted.
proof fn lemma_left(
    m: spec_fn(SingleOp) -> u32,
    q: int,
    rt: LoadedPrefixRuntime,
    packets: Seq<LoadedPacket>,
    used: Seq<bool>,
    now: Seq<bool>,
    feat: Seq<u32>,
    ranks: Seq<u8>,
    miss: Seq<u8>,
    k: int,
    score: u32,
    visited: i32,
    gives: Seq<Seq<u32>>,
)
    requires
        numbered(packets),
        packets_give(rt, packets, feat, ranks, miss, gives),
        packets_add_up(m, q, rt.pack@.base_score, gives),
        packets_counted(rt.pack@.base_score, gives, now, score),
        used.len() == packets.len(),
        0 <= k <= packets.len(),
        forall|i: int| 0 <= i < packets.len() ==> #[trigger] now[i] == (i < k || used[i]),
    ensures
        packets_left(m, rt, packets, used, feat, ranks, miss, k, score, visited) matches Ok(o) ==> {
            &&& countable(o.0)
            &&& worth(o.0) == worth(rt.pack@.base_score) + whole_sum(
                worths(gives),
                gives.len() as int,
            )
        },
    decreases packets.len() - k,
{
    if k >= packets.len() {
        lemma_all_chosen(worths(gives), now, gives.len() as int);
    } else {
        assert(packets[k].packet_id == k);
        if used[k] {
            assert(now[k]);
            lemma_left(
                m,
                q,
                rt,
                packets,
                used,
                now,
                feat,
                ranks,
                miss,
                k + 1,
                score,
                visited,
                gives,
            );
        } else {
            assert(!now[k]);
            if let Ok(w) = packet_walk(rt, packets[k], feat, ranks, miss) {
                assert(w.leaves == gives[k]);
                lemma_packet_counts(m, q, rt.pack@.base_score, gives, now, score, k);
                lemma_left(
                    m,
                    q,
                    rt,
                    packets,
                    used,
                    now.update(k, true),
                    feat,
                    ranks,
                    miss,
                    k + 1,
                    m(SingleOp::Sum(score, total(m, 0, w.leaves))),
                    visited.wrapping_add(packets[k].tree_count as i32),
                    gives,
                );
            }
        }
    }
}

/// A row that is run packet by packet is worth the base score and the packets noted, none of which
/// is noted twice. If it is decided, it is so by the verdict of the last step that it took. If it
/// stays undecided, the packets left make it worth the base score and all
/// packets, each once, and it is rejected exactly if that reaches the threshold.
pub proof fn law_packets_count_every_tree(
    m: spec_fn(SingleOp) -> u32,
    q: int,
    rt: &LoadedPrefixRuntime,
    sch: &LoadedPacketScheduler,
    feat: Seq<u32>,
    tau: u32,
    fold: i32,
    ranks: Seq<u8>,
    miss: Seq<u8>,
    later_ranks: Seq<u8>,
    later_miss: Seq<u8>,
    trace: bool,
    gives: Seq<Seq<u32>>,
)
    requires
        numbered(sch.packets@),
        packets_give(
            *rt,
            sch.packets@,
            feat,
            ranked(rt.pack@, feat, ranks),
            marked(rt.pack@, feat, miss),
            gives,
        ),
        packets_give(*rt, sch.packets@, feat, later_ranks, later_miss, gives),
        packets_add_up(m, q, rt.pack@.base_score, gives),
        countable(tau),
    ensures
        packet_row(m, rt, sch, feat, tau, fold, ranks, miss, trace) matches Ok(v) ==> {
            &&& exists|used: Seq<bool>| #[trigger]
                noted_once(v.selected_packets, used) && packets_counted(
                    rt.pack@.base_score,
                    gives,
                    used,
                    v.prefix_score,
                )
            &&& v.fallback_used ==> {
                &&& v.selected_packets.len() == sch.max_steps
                &&& !v.shadow_reject
                &&& v.shadow_route_score == v.prefix_score
                &&& v.direct_checkpoint == 0
                &&& v.fallback_entry_checkpoint == last_checkpoint(rt.calibration)
            }
            &&& !v.fallback_used ==> exists|last: PacketState| #[trigger]
                decided_there(m, *rt, tau, fold, v.selected_packets.len() - 1, last, v)
            &&& packet_tail(m, rt, sch, feat, tau, v, later_ranks, later_miss) matches Ok(
                (score, reject, visited),
            ) ==> {
                let all = worth(rt.pack@.base_score) + whole_sum(
                    worths(gives),
                    gives.len() as int,
                );
                &&& worth(score) == all
                &&& reject <==> all >= worth(tau)
            }
        },
{
    let st = packet_start(*rt, *sch, trace);
    let base = rt.pack@.base_score;
    lemma_none_chosen(worths(gives), st.used, gives.len() as int);
    if let Ok(v) = packet_row(m, rt, sch, feat, tau, fold, ranks, miss, trace) {
        let used = lemma_packets(
            m,
            q,
            *rt,
            *sch,
            feat,
            tau,
            fold,
            ranked(rt.pack@, feat, ranks),
            marked(rt.pack@, feat, miss),
            trace,
            0,
            st,
            gives,
        );
        assert(noted_once(v.selected_packets, used));
        if let Ok((score, reject, visited)) = packet_tail(
            m,
            rt,
            sch,
            feat,
            tau,
            v,
            later_ranks,
            later_miss,
        ) {
            lemma_left(
                m,
                q,
                *rt,
                sch.packets@,
                used,
                used,
                feat,
                later_ranks,
                later_miss,
                0,
                v.prefix_score,
                0,
                gives,
            );
            law_worth_orders(tau, score);
        }
    }
}

} // verus!
