//! Laws on what is done with rows: which rescue or packet a state leads to, and what a row that
//! another model has taken over comes to.

use crate::arith::{total, SingleOp};
use crate::bands::{bin_of, tau_bin_of};
use crate::exact::{
    adds_steps, countable, in_steps, law_opposite_worth, law_small_multiples_add_exactly,
    law_worth_orders, lemma_sum_in_steps, size, sum_size, sum_worth, worth,
};
use crate::kinds::RescueAction;
use crate::packages::{lemma_part_leaves, part_gives};
use crate::packets::{
    chosen_packet, default_row, first_ranked, for_state, state_row, LoadedPacketScheduler,
    PacketPolicyRow, PacketState,
};
use crate::prefix_runtime::{shadow_row, ShadowView};
use crate::qs_score::{indices, tree_outcome};
use crate::rank::{bisect_above, first_above, law_rank_counts_cuts, lemma_first_above_range};
use crate::rescue::{
    capped_bin, default_for, entry_for, executed, left_over, positions_left, rescue_choice,
    rescue_tail, rescued_row, taken_order, LoadedAnchorRescueRuntime, LoadedRescueRouter,
    RescueDefault, RescueEntry,
};
use crate::schedules::chosen_sum;
use crate::single::{below, nan, rising};
use vstd::prelude::*;

verus! {

/// Whether a bin holds a value: its lower edge is at most the value, which the first bin does not
/// ask for, and its upper edge is above, which the last bin does not ask for.
pub open spec fn in_bin(edges: Seq<u32>, x: u32, b: int) -> bool {
    &&& 0 <= b
    &&& b == 0 || b + 2 <= edges.len()
    &&& b > 0 ==> worth(edges[b]) <= worth(x)
    &&& b + 2 < edges.len() ==> worth(x) < worth(edges[b + 1])
}

/// A value is found in the bin that holds it.
pub proof fn law_bins_are_found(edges: Seq<u32>, x: u32, b: int)
    requires
        rising(edges),
        !nan(x),
        in_bin(edges, x, b),
    ensures
        bin_of(edges, x) == b,
        tau_bin_of(edges, x) == b,
        capped_bin(bin_of(edges, x), edges.len()) == b,
        capped_bin(tau_bin_of(edges, x), edges.len()) == b,
{
    let n = edges.len() as int;
    law_rank_counts_cuts(edges, x);
    let r = bisect_above(edges, x, 0, n);
    assert(r == first_above(edges, x, 0));
    lemma_first_above_range(edges, x, 0);
    if n >= 2 {
        assert forall|i: int| 0 <= i < n implies (below(x, #[trigger] edges[i]) <==> worth(x)
            < worth(edges[i])) by {
            assert(!nan(edges[i]));
            law_worth_orders(x, edges[i]);
        }
        if b + 2 < n {
            assert(below(x, edges[b + 1]));
            assert(r <= b + 1);
        }
        if b > 0 {
            assert(!below(x, edges[b]));
            if r <= b {
                assert(below(x, edges[r]));
                assert(!nan(edges[r]) && !nan(edges[b]));
                law_worth_orders(edges[r], edges[b]);
            }
            assert(r > b);
        }
    }
}

/// Whether an entry of a router is for a state.
pub open spec fn entry_fits(
    e: RescueEntry,
    cp: usize,
    tau_bin: int,
    fold: i32,
    side: int,
    gap_bin: int,
) -> bool {
    &&& e.anchor_checkpoint == cp
    &&& e.tau_bin == tau_bin
    &&& e.fold_id == fold
    &&& e.shadow_side == side
    &&& e.gap_bin == gap_bin
}

/// Whether a default of a router is for a state.
pub open spec fn default_fits(e: RescueDefault, cp: usize, tau_bin: int, side: int) -> bool {
    &&& e.anchor_checkpoint == cp
    &&& e.tau_bin == tau_bin
    &&& e.shadow_side == side
}

proof fn lemma_entry(
    s: Seq<RescueEntry>,
    cp: usize,
    tau_bin: int,
    fold: i32,
    side: i8,
    gap_bin: int,
    n: int,
    i: int,
)
    requires
        0 <= n <= s.len(),
        0 <= i < n ==> entry_fits(s[i], cp, tau_bin, fold, side as int, gap_bin),
        i < n,
        forall|k: int|
            i < k < n && 0 <= k ==> !entry_fits(
                #[trigger] s[k],
                cp,
                tau_bin,
                fold,
                side as int,
                gap_bin,
            ),
    ensures
        0 <= i ==> entry_for(s, cp, tau_bin, fold, side, gap_bin, n) == Some(s[i].action),
        i < 0 ==> entry_for(s, cp, tau_bin, fold, side, gap_bin, n) is None,
    decreases n,
{
    if n > 0 && n - 1 != i {
        assert(!entry_fits(s[n - 1], cp, tau_bin, fold, side as int, gap_bin));
        lemma_entry(s, cp, tau_bin, fold, side, gap_bin, n - 1, i);
    }
}

proof fn lemma_default(
    s: Seq<RescueDefault>,
    cp: usize,
    tau_bin: int,
    side: i8,
    n: int,
    i: int,
)
    requires
        0 <= n <= s.len(),
        0 <= i < n ==> default_fits(s[i], cp, tau_bin, side as int),
        i < n,
        forall|k: int|
            i < k < n && 0 <= k ==> !default_fits(#[trigger] s[k], cp, tau_bin, side as int),
    ensures
        0 <= i ==> default_for(s, cp, tau_bin, side, n) == Some(s[i].action),
        i < 0 ==> default_for(s, cp, tau_bin, side, n) is None,
    decreases n,
{
    if n > 0 && n - 1 != i {
        assert(!default_fits(s[n - 1], cp, tau_bin, side as int));
        lemma_default(s, cp, tau_bin, side, n - 1, i);
    }
}

/// A row that the anchor left undecided goes by the last entry of the router for its checkpoint, its
/// fold, its side of the threshold, and the bins that hold the threshold and its distance from it;
/// without one by the last default for the checkpoint, the bin of the threshold and the side; and
/// without that it falls back.
pub proof fn law_routers_go_by_their_last_entries(
    m: spec_fn(SingleOp) -> u32,
    r: LoadedRescueRouter,
    cp: usize,
    tau: u32,
    fold: i32,
    score: u32,
    tau_bin: int,
    gap_bin: int,
    i: int,
)
    requires
        rising(r.tau_edges@),
        rising(r.gap_edges@),
        !nan(tau),
        !nan(score),
        !nan(m(SingleOp::Difference(tau, score))),
        in_bin(r.tau_edges@, tau, tau_bin),
        in_bin(r.gap_edges@, m(SingleOp::Difference(tau, score)), gap_bin),
    ensures
        ({
            let side: int = if worth(score) >= worth(tau) {
                1
            } else {
                -1
            };
            let fits = |e: RescueEntry| entry_fits(e, cp, tau_bin, fold, side, gap_bin);
            let serves = |e: RescueDefault| default_fits(e, cp, tau_bin, side);
            let choice = rescue_choice(m, r, cp, tau, fold, score);
            let n = r.actions@.len();
            let d = r.defaults@.len();
            &&& 0 <= i < n && fits(r.actions@[i]) && (forall|k: int|
                i < k < n ==> !fits(#[trigger] r.actions@[k])) ==> choice == r.actions@[i].action
            &&& (forall|k: int| 0 <= k < n ==> !fits(#[trigger] r.actions@[k])) ==> {
                &&& 0 <= i < d && serves(r.defaults@[i]) && (forall|k: int|
                    i < k < d ==> !serves(#[trigger] r.defaults@[k])) ==> choice
                    == r.defaults@[i].action
                &&& (forall|k: int| 0 <= k < d ==> !serves(#[trigger] r.defaults@[k])) ==> choice
                    == RescueAction::Fallback
            }
        }),
{
    let gap = m(SingleOp::Difference(tau, score));
    law_bins_are_found(r.tau_edges@, tau, tau_bin);
    law_bins_are_found(r.gap_edges@, gap, gap_bin);
    law_worth_orders(tau, score);
    let side = crate::rescue::side_of(score, tau);
    let s = r.actions@;
    let t = r.defaults@;
    let n = s.len() as int;
    let d = t.len() as int;
    if 0 <= i < n && entry_fits(s[i], cp, tau_bin, fold, side as int, gap_bin) && (forall|k: int|
        i < k < n ==> !entry_fits(#[trigger] s[k], cp, tau_bin, fold, side as int, gap_bin)) {
        lemma_entry(s, cp, tau_bin, fold, side, gap_bin, n, i);
    }
    if forall|k: int|
        0 <= k < n ==> !entry_fits(#[trigger] s[k], cp, tau_bin, fold, side as int, gap_bin) {
        lemma_entry(s, cp, tau_bin, fold, side, gap_bin, n, -1);
        if 0 <= i < d && default_fits(t[i], cp, tau_bin, side as int) && (forall|k: int|
            i < k < d ==> !default_fits(#[trigger] t[k], cp, tau_bin, side as int)) {
            lemma_default(t, cp, tau_bin, side, d, i);
        }
        if forall|k: int| 0 <= k < d ==> !default_fits(#[trigger] t[k], cp, tau_bin, side as int) {
            lemma_default(t, cp, tau_bin, side, d, -1);
        }
    }
}

/// A row that the anchor decides stays as decided. One that it leaves undecided is taken over, from
/// the score that it has come to, by the model that its action names: a verdict on the side of the
/// action counts, any other leaves the row undecided. Trees and work of both runs count together,
/// and the trees noted as run by the other model are those of its own order.
pub proof fn law_rescued_rows_are_taken_over(
    m: spec_fn(SingleOp) -> u32,
    a: &LoadedAnchorRescueRuntime,
    feat: Seq<u32>,
    tau: u32,
    fold: i32,
    ranks: Seq<u8>,
    miss: Seq<u8>,
    trace: bool,
)
    requires
        shadow_row(m, &a.anchor, feat, tau, fold, ranks, miss, a.anchor.pack@.base_score, trace) is Ok,
    ensures
        ({
            let first = shadow_row(
                m,
                &a.anchor,
                feat,
                tau,
                fold,
                ranks,
                miss,
                a.anchor.pack@.base_score,
                trace,
            )->Ok_0;
            let action = rescue_choice(
                m,
                a.router,
                first.fallback_entry_checkpoint,
                tau,
                fold,
                first.prefix_score,
            );
            let r = rescued_row(m, a, feat, tau, fold, ranks, miss, trace);
            let on_reject = shadow_row(
                m,
                &a.reject_rescue,
                feat,
                tau,
                fold,
                ranks,
                miss,
                first.prefix_score,
                false,
            );
            let on_refer = shadow_row(
                m,
                &a.refer_rescue,
                feat,
                tau,
                fold,
                ranks,
                miss,
                first.prefix_score,
                false,
            );
            &&& !first.fallback_used ==> r is Ok && keeps_verdict(r->Ok_0, first)
                && r->Ok_0.rescue_route == first.rescue_route
            &&& first.fallback_used ==> match action {
                RescueAction::Fallback => r is Ok && keeps_verdict(r->Ok_0, first)
                    && taken_order(*a, r->Ok_0.rescue_route).len() == 0,
                RescueAction::RejectRescue => match on_reject {
                    Err(e) => r == Err::<ShadowView, _>(e),
                    Ok(s) => r is Ok && runs_together(r->Ok_0, first, s, true) && taken_order(
                        *a,
                        r->Ok_0.rescue_route,
                    ) == a.reject_rescue.plan.order@,
                },
                RescueAction::ReferRescue => match on_refer {
                    Err(e) => r == Err::<ShadowView, _>(e),
                    Ok(s) => r is Ok && runs_together(r->Ok_0, first, s, false) && taken_order(
                        *a,
                        r->Ok_0.rescue_route,
                    ) == a.refer_rescue.plan.order@,
                },
            }
        }),
{
}

/// Whether a row stands as the anchor left it.
pub open spec fn keeps_verdict(v: ShadowView, first: ShadowView) -> bool {
    &&& v.prefix_score == first.prefix_score
    &&& v.trees_used == first.trees_used == v.anchor_trees_used
    &&& v.work_evals == first.work_evals
    &&& v.resolved_early_trees == first.resolved_early_trees
    &&& v.shadow_reject == first.shadow_reject
    &&& v.shadow_route_score == first.shadow_route_score
    &&& v.fallback_used == first.fallback_used
    &&& v.direct_checkpoint == first.direct_checkpoint == v.anchor_direct_checkpoint
    &&& v.fallback_entry_checkpoint == first.fallback_entry_checkpoint
    &&& v.rescue_trees_used == first.rescue_trees_used
    &&& v.checkpoint_scores == first.checkpoint_scores
}

/// Whether a row stands as another model left it that was asked about one side.
pub open spec fn runs_together(
    v: ShadowView,
    first: ShadowView,
    s: ShadowView,
    asked: bool,
) -> bool {
    &&& v.prefix_score == s.prefix_score
    &&& v.anchor_trees_used == first.trees_used
    &&& v.rescue_trees_used == s.trees_used
    &&& 0 <= first.trees_used && 0 <= s.trees_used && first.trees_used + s.trees_used
        <= usize::MAX ==> v.trees_used == first.trees_used + s.trees_used
    &&& 0 <= first.work_evals && 0 <= s.work_evals && first.work_evals + s.work_evals <= u64::MAX
        ==> v.work_evals == first.work_evals + s.work_evals
    &&& 0 <= first.resolved_early_trees && 0 <= s.resolved_early_trees && first.resolved_early_trees
        + s.resolved_early_trees <= u64::MAX ==> v.resolved_early_trees
        == first.resolved_early_trees + s.resolved_early_trees
    &&& v.fallback_used <==> s.fallback_used || s.shadow_reject != asked
    &&& !v.fallback_used ==> {
        &&& v.shadow_reject == asked
        &&& v.shadow_route_score == s.shadow_route_score
        &&& v.direct_checkpoint == s.direct_checkpoint == v.rescue_direct_checkpoint
    }
    &&& v.fallback_used && !s.fallback_used ==> {
        &&& !v.shadow_reject
        &&& v.shadow_route_score == s.prefix_score
        &&& v.direct_checkpoint == 0 == v.rescue_direct_checkpoint
    }
    &&& v.checkpoint_scores == first.checkpoint_scores
}

/// What each leaf value is worth.
pub open spec fn each_worth(leaves: Seq<u32>) -> Seq<int> {
    Seq::new(leaves.len(), |i: int| worth(leaves[i]))
}

/// Which positions of the anchor's order are left for a row.
pub open spec fn is_left(a: LoadedAnchorRescueRuntime, v: ShadowView) -> Seq<bool> {
    Seq::new(
        a.anchor.plan.order@.len(),
        |pos: int|
            !(pos < v.anchor_trees_used || ((forall|k: int|
                pos < k < a.anchor.plan.order@.len() ==> #[trigger] a.anchor.plan.order@[k]
                    != a.anchor.plan.order@[pos]) && taken_order(a, v.rescue_route).take(
                crate::prefix_runtime::fewer(
                    v.rescue_trees_used,
                    taken_order(a, v.rescue_route).len() as int,
                ),
            ).contains(a.anchor.plan.order@[pos]))),
    )
}

proof fn lemma_left_values(
    a: LoadedAnchorRescueRuntime,
    v: ShadowView,
    leaves: Seq<u32>,
    n: int,
)
    requires
        0 <= n <= a.anchor.plan.order@.len() == leaves.len() <= u32::MAX,
        0 <= v.rescue_trees_used,
    ensures
        ({
            let left = positions_left(
                a.anchor.plan.order@,
                v.anchor_trees_used,
                taken_order(a, v.rescue_route),
                v.rescue_trees_used,
                n,
            );
            let values = Seq::new(left.len(), |i: int| leaves[left[i] as int]);
            &&& left.len() <= n
            &&& forall|i: int| 0 <= i < left.len() ==> #[trigger] left[i] < n
            &&& sum_worth(values) == chosen_sum(each_worth(leaves), is_left(a, v), n)
            &&& sum_size(values) <= sum_size(leaves.take(n))
        }),
    decreases n,
{
    let order = a.anchor.plan.order@;
    let taken = taken_order(a, v.rescue_route);
    let left = positions_left(order, v.anchor_trees_used, taken, v.rescue_trees_used, n);
    let values = Seq::new(left.len(), |i: int| leaves[left[i] as int]);
    if n > 0 {
        lemma_left_values(a, v, leaves, n - 1);
        let rest = positions_left(order, v.anchor_trees_used, taken, v.rescue_trees_used, n - 1);
        let before = Seq::new(rest.len(), |i: int| leaves[rest[i] as int]);
        assert(leaves.take(n).drop_last() =~= leaves.take(n - 1));
        let pos = n - 1;
        let used = crate::prefix_runtime::fewer(v.rescue_trees_used, taken.len() as int);
        let gone = executed(order, v.anchor_trees_used, taken, v.rescue_trees_used, pos);
        assert(is_left(a, v)[pos] == !gone) by {
            let ran = taken.take(used);
            if ran.contains(order[pos]) {
                let k = choose|k: int| 0 <= k < ran.len() && ran[k] == order[pos];
                assert(taken[k] == order[pos]);
            }
            if exists|k: int|
                0 <= k < v.rescue_trees_used && k < taken.len() && #[trigger] taken[k] == order[pos] {
                let k = choose|k: int|
                    0 <= k < v.rescue_trees_used && k < taken.len() && #[trigger] taken[k]
                        == order[pos];
                assert(ran[k] == order[pos]);
            }
        }
        if gone {
            assert(values =~= before);
        } else {
            assert(values.drop_last() =~= before);
            assert(values.last() == leaves[pos]);
        }
    } else {
        assert(values =~= Seq::empty());
        assert(leaves.take(n) =~= Seq::empty());
    }
}

/// The trees that neither the anchor nor the model that took a row over has run are added to it,
/// each once: the row is worth what it was and their leaf values, and is rejected exactly if that
/// reaches the threshold.
pub proof fn law_rescued_rows_get_the_trees_left(
    m: spec_fn(SingleOp) -> u32,
    q: int,
    a: &LoadedAnchorRescueRuntime,
    feat: Seq<u32>,
    tau: u32,
    v: ShadowView,
    ranks: Seq<u8>,
    miss: Seq<u8>,
    leaves: Seq<u32>,
)
    requires
        leaves.len() == a.anchor.plan.order@.len() <= 0x7fff_ffff,
        0 <= v.rescue_trees_used,
        forall|pos: int|
            0 <= pos < leaves.len() ==> (tree_outcome(a.anchor.pack@, pos, ranks, miss) matches Ok(
                o,
            ) ==> o.leaf == #[trigger] leaves[pos]),
        adds_steps(m, q),
        countable(v.prefix_score),
        worth(v.prefix_score) % q == 0,
        in_steps(leaves, q),
        size(v.prefix_score) + sum_size(leaves) <= 0x100_0000 * q,
        countable(tau),
    ensures
        rescue_tail(m, a, feat, tau, v, ranks, miss) matches Ok((score, reject, left)) ==> {
            let all = worth(v.prefix_score) + chosen_sum(
                each_worth(leaves),
                is_left(*a, v),
                leaves.len() as int,
            );
            &&& worth(score) == all
            &&& reject <==> all >= worth(tau)
        },
{
    let n = leaves.len() as int;
    let left = left_over(*a, v);
    let values = Seq::new(left.len(), |i: int| leaves[left[i] as int]);
    lemma_left_values(*a, v, leaves, n);
    assert(leaves.take(n) =~= leaves);
    assert(part_gives(a.anchor.pack@, indices(left), ranks, miss, values)) by {
        assert forall|x: int| 0 <= x < values.len() implies (tree_outcome(
            a.anchor.pack@,
            #[trigger] indices(left)[x],
            ranks,
            miss,
        ) matches Ok(o) ==> o.leaf == values[x]) by {
            assert(left[x] < n);
            assert(values[x] == leaves[left[x] as int]);
        }
    }
    lemma_part_leaves(a.anchor.pack@, indices(left), ranks, miss, values);
    assert(in_steps(values, q)) by {
        assert forall|i: int| 0 <= i < values.len() implies worth(#[trigger] values[i]) % q
            == 0 by {
            assert(worth(leaves[left[i] as int]) % q == 0);
        }
    }
    lemma_sum_in_steps(values, q);
    vstd::arithmetic::div_mod::lemma_small_mod(0, q as nat);
    law_opposite_worth(0);
    law_small_multiples_add_exactly(m, q, 0, values);
    let own = total(m, 0, values);
    let r = m(SingleOp::Sum(v.prefix_score, own));
    assert(countable(r) && worth(r) == worth(v.prefix_score) + worth(own));
    law_worth_orders(tau, r);
}

/// Of the rows of a policy for a step, and for a bin of the threshold where one is given, the one
/// that most rows were seen in is the default; of several, the first.
pub proof fn law_defaults_are_most_seen(
    rows: Seq<PacketPolicyRow>,
    step: int,
    tau_bin: Option<int>,
    n: int,
    i: int,
)
    requires
        0 <= i < n <= rows.len(),
        rows[i].step == step,
        tau_bin matches Some(b) ==> rows[i].tau_bin == b,
    ensures
        default_row(rows, step, tau_bin, n) matches Some(k) && {
            &&& 0 <= k < n
            &&& rows[k].step == step
            &&& tau_bin matches Some(b) ==> rows[k].tau_bin == b
            &&& rows[k].row_count > rows[i].row_count || rows[k].row_count == rows[i].row_count && k
                <= i
        },
    decreases n,
{
    if i < n - 1 {
        law_defaults_are_most_seen(rows, step, tau_bin, n - 1, i);
    } else if default_row(rows, step, tau_bin, n - 1) is Some {
        lemma_default_in_range(rows, step, tau_bin, n - 1);
    }
}

proof fn lemma_default_in_range(
    rows: Seq<PacketPolicyRow>,
    step: int,
    tau_bin: Option<int>,
    n: int,
)
    requires
        n <= rows.len(),
    ensures
        default_row(rows, step, tau_bin, n) matches Some(k) ==> {
            &&& 0 <= k < n
            &&& rows[k].step == step
            &&& tau_bin matches Some(b) ==> rows[k].tau_bin == b
        },
    decreases n,
{
    if n > 0 {
        lemma_default_in_range(rows, step, tau_bin, n - 1);
    }
}

proof fn lemma_state_row(
    rows: Seq<PacketPolicyRow>,
    step: int,
    tau_bin: int,
    gap_bin: int,
    delta_bin: int,
    n: int,
    i: int,
)
    requires
        0 <= i < n <= rows.len(),
        for_state(rows[i], step, tau_bin, gap_bin, delta_bin),
        forall|k: int|
            i < k < n ==> !for_state(#[trigger] rows[k], step, tau_bin, gap_bin, delta_bin),
    ensures
        state_row(rows, step, tau_bin, gap_bin, delta_bin, n) == Some(i),
    decreases n,
{
    if i < n - 1 {
        assert(!for_state(rows[n - 1], step, tau_bin, gap_bin, delta_bin));
        lemma_state_row(rows, step, tau_bin, gap_bin, delta_bin, n - 1, i);
    }
}

proof fn lemma_first_ranked(ranking: Seq<u16>, used: Seq<bool>, k: int, p: int)
    requires
        0 <= k <= p < ranking.len(),
        ranking[p] < used.len(),
        !used[ranking[p] as int],
        forall|j: int|
            k <= j < p ==> #[trigger] ranking[j] >= used.len() || used[ranking[j] as int],
    ensures
        first_ranked(ranking, used, k) == Some(ranking[p] as int),
    decreases p - k,
{
    if k < p {
        assert(ranking[k] >= used.len() || used[ranking[k] as int]);
        lemma_first_ranked(ranking, used, k + 1, p);
    }
}

/// A row in a state that its policy knows uses the best ranked packet that it has not used: the
/// state is its step, the bin that holds the threshold, the bin that holds its distance from it and
/// the bin that holds what the packet before has added.
pub proof fn law_packets_are_picked_by_rank(
    m: spec_fn(SingleOp) -> u32,
    sch: LoadedPacketScheduler,
    tau: u32,
    step: int,
    st: PacketState,
    tau_bin: int,
    gap_bin: int,
    delta_bin: int,
    i: int,
    p: int,
)
    requires
        rising(sch.policy.tau_edges@),
        rising(sch.policy.gap_edges_by_step@[step]@),
        rising(sch.policy.delta_edges_by_step@[step]@),
        !nan(tau),
        !nan(m(SingleOp::Difference(tau, st.score))),
        !nan(st.prev_delta),
        in_bin(sch.policy.tau_edges@, tau, tau_bin),
        in_bin(
            sch.policy.gap_edges_by_step@[step]@,
            m(SingleOp::Difference(tau, st.score)),
            gap_bin,
        ),
        in_bin(sch.policy.delta_edges_by_step@[step]@, st.prev_delta, delta_bin),
        0 <= i < sch.policy.rows@.len(),
        sch.policy.rows@[i].step == step,
        sch.policy.rows@[i].tau_bin == tau_bin,
        sch.policy.rows@[i].gap_regime == gap_bin,
        sch.policy.rows@[i].delta_regime == delta_bin,
        forall|k: int|
            i < k < sch.policy.rows@.len() ==> !for_state(
                #[trigger] sch.policy.rows@[k],
                step,
                tau_bin,
                gap_bin,
                delta_bin,
            ),
        0 <= p < sch.policy.rows@[i].ranking@.len(),
        sch.policy.rows@[i].ranking@[p] < st.used.len(),
        !st.used[sch.policy.rows@[i].ranking@[p] as int],
        forall|j: int|
            0 <= j < p ==> #[trigger] sch.policy.rows@[i].ranking@[j] >= st.used.len()
                || st.used[sch.policy.rows@[i].ranking@[j] as int],
    ensures
        chosen_packet(m, sch, tau, step, st) == Some(sch.policy.rows@[i].ranking@[p] as int),
{
    let pol = sch.policy;
    law_bins_are_found(pol.tau_edges@, tau, tau_bin);
    law_bins_are_found(
        pol.gap_edges_by_step@[step]@,
        m(SingleOp::Difference(tau, st.score)),
        gap_bin,
    );
    law_bins_are_found(pol.delta_edges_by_step@[step]@, st.prev_delta, delta_bin);
    lemma_state_row(pol.rows@, step, tau_bin, gap_bin, delta_bin, pol.rows@.len() as int, i);
    lemma_first_ranked(pol.rows@[i].ranking@, st.used, 0, p);
}

} // verus!
