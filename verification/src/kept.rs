//! Rows of the second stage come to the same whatever earlier rows left behind.

use crate::arith::SingleOp;
use crate::buffers::{
    law_earlier_rows_leave_no_trace, law_earlier_rows_leave_no_trace_in_compact_form,
};
use crate::exp_v1::{readied, resized};
use crate::forest::BoundsView;
use crate::hot::filled;
use crate::kinds::PrefixDirectKernel;
use crate::layout::LayoutView;
use crate::minpack::{
    hot_len, l2_prefix, l2_ready, l2_row, refitted, whole, OnlineL2Runtime, ScratchView,
};
use crate::online::{
    among, has_segments, late_begin, late_covered, late_fits, late_ranks, late_steps,
    lemma_late_ranks_len, online_first, online_ready, online_row, plan_of, prepared_route,
    segment_fits, segment_ranks, segment_steps, tree_listed,
};
use crate::pack_check::{block_sound, pack_sound, tree_names_below, tree_sound};
use crate::prefix_runtime::{
    compiled_route, compiled_row, fewer, judge_for, LoadedLateSegment, LoadedPrefixRuntime,
};
use crate::qs_pack::PackModel;
use crate::qs_score::{none_missing, span, tree_outcome};
use crate::quantize::ranked_spans;
use crate::routes::{
    law_prepared_stages_come_to_the_same_verdict, law_staged_trees_come_to_the_same_verdict,
    lemma_ranks_that_matter, lemma_segment_ranks_len, lemma_walks_alike, prepared_to_match,
    stages_made,
};
use crate::runtime_load::{
    compact_form, parts_ready, put_together, Made, PrefixChoices, PrefixParts,
};
use crate::shadow::Judge;
use vstd::prelude::*;

verus! {

/// Features that were ranked anew have the same rank, whatever they had before.
proof fn lemma_spans_agree(
    cuts: Seq<u32>,
    feat: Seq<u32>,
    r1: Seq<u8>,
    r2: Seq<u8>,
    ids: Seq<u16>,
    starts: Seq<u32>,
    ends: Seq<u32>,
    n: nat,
    f: int,
)
    requires
        r1.len() == r2.len(),
        n <= ids.len(),
        0 <= f < r1.len(),
        forall|i: int| 0 <= i < n ==> (#[trigger] ids[i]) < r1.len(),
    ensures
        ({
            let a = ranked_spans(cuts, feat, r1, ids, starts, ends, n);
            let b = ranked_spans(cuts, feat, r2, ids, starts, ends, n);
            &&& a.len() == r1.len()
            &&& b.len() == r2.len()
            &&& r1[f] == r2[f] || among(ids, n as int, f) ==> a[f] == b[f]
        }),
    decreases n,
{
    if n > 0 {
        lemma_spans_agree(cuts, feat, r1, r2, ids, starts, ends, (n - 1) as nat, f);
        assert(ids[n - 1] < r1.len());
        if ids[n - 1] != f && among(ids, n as int, f) {
            let q = choose|q: int| 0 <= q < n && #[trigger] ids[q] == f;
            assert(among(ids, n - 1, f));
        }
    }
}

/// Features that the late stretches so far list have the same rank, whatever they had before.
proof fn lemma_listed_ranks_agree(
    p: PackModel,
    feat: Seq<u32>,
    r1: Seq<u8>,
    r2: Seq<u8>,
    l: LayoutView,
    start: int,
    k: int,
    f: int,
)
    requires
        late_fits(l, p, feat.len(), r1.len()),
        late_covered(p, l, start),
        r1.len() == r2.len(),
        0 < l.late_values.len(),
        0 <= k <= l.late_values.len(),
        0 <= f < r1.len(),
    ensures
        among(l.late_feature_ids, l.late_feature_offsets[k] as int, f) ==> late_ranks(
            p,
            feat,
            r1,
            l,
            k,
        )[f] == late_ranks(p, feat, r2, l, k)[f],
    decreases k,
{
    let all = l.late_feature_ids;
    if k == 0 {
        assert(l.late_feature_offsets[0] == 0);
    } else {
        lemma_listed_ranks_agree(p, feat, r1, r2, l, start, k - 1, f);
        lemma_late_ranks_len(p, feat, r1, l, k - 1);
        lemma_late_ranks_len(p, feat, r2, l, k - 1);
        let a = l.late_feature_offsets[k - 1] as int;
        let b = l.late_feature_offsets[k] as int;
        assert(a <= b <= all.len());
        if b > a {
            let ids = all.subrange(a, b);
            assert forall|i: int| 0 <= i < ids.len() implies (#[trigger] ids[i]) < r1.len() by {
                assert(ids[i] == all[a + i]);
            }
            lemma_spans_agree(
                p.cuts,
                feat,
                late_ranks(p, feat, r1, l, k - 1),
                late_ranks(p, feat, r2, l, k - 1),
                ids,
                l.late_cut_starts.subrange(a, b),
                l.late_cut_ends.subrange(a, b),
                (b - a) as nat,
                f,
            );
            if among(all, b, f) {
                let q = choose|q: int| 0 <= q < b && #[trigger] all[q] == f;
                if q >= a {
                    assert(ids[q - a] == f);
                    assert(among(ids, b - a, f));
                } else {
                    assert(among(all, a, f));
                }
            }
        }
    }
}

/// Late stretches that rank the features of their trees come to the same, whatever the ranks were
/// before.
pub proof fn law_covered_stretches_need_no_ranks(
    p: PackModel,
    feat: Seq<u32>,
    r1: Seq<u8>,
    r2: Seq<u8>,
    l: LayoutView,
    start: int,
)
    requires
        pack_sound(p),
        late_fits(l, p, feat.len(), r1.len()),
        late_covered(p, l, start),
        r1.len() == r2.len(),
        p.n_features <= r1.len(),
        0 <= start,
    ensures
        late_steps(p, feat, r1, l, start) == late_steps(p, feat, r2, l, start),
{
    let one = late_steps(p, feat, r1, l, start);
    let two = late_steps(p, feat, r2, l, start);
    assert forall|i: int| 0 <= i < one.len() implies one[i] == #[trigger] two[i] by {
        let cp = l.late_values[i];
        let a = late_begin(l, start, i);
        if 0 < cp <= p.n_trees && a < cp {
            let trees = span(a, cp as int);
            let x1 = late_ranks(p, feat, r1, l, i + 1);
            let x2 = late_ranks(p, feat, r2, l, i + 1);
            assert(0 <= a);
            assert forall|x: int| 0 <= x < trees.len() implies (#[trigger] trees[x]) < p.n_trees
                && tree_outcome(p, trees[x], x1, none_missing()) == tree_outcome(
                p,
                trees[x],
                x2,
                none_missing(),
            ) by {
                let t = trees[x];
                assert(tree_sound(p, t));
                assert(tree_listed(p, t, l.late_feature_ids, l.late_feature_offsets[i + 1] as int));
                let h = p.tree_hdrs[t];
                assert forall|b: int| h.block_off <= b < h.block_off + h.block_cnt implies {
                    let f = (#[trigger] p.block_hdrs[b]).fid as int;
                    none_missing()[f] == 0 && x1[f] == x2[f]
                } by {
                    assert(block_sound(p, b));
                    let f = p.block_hdrs[b].fid as int;
                    lemma_listed_ranks_agree(p, feat, r1, r2, l, start, i + 1, f);
                }
                lemma_ranks_that_matter(p, t, x1, none_missing(), x2, none_missing());
            }
            lemma_walks_alike(p, trees, x1, none_missing(), p, trees, x2, none_missing());
        }
    }
    assert(one =~= two);
}

/// Segments that rank the features of their trees come to the same, whatever the ranks were before.
pub proof fn law_segments_need_no_ranks(
    segs: Seq<LoadedLateSegment>,
    feat: Seq<u32>,
    r1: Seq<u8>,
    r2: Seq<u8>,
    tested: bool,
)
    requires
        forall|i: int|
            0 <= i < segs.len() ==> segment_fits(#[trigger] segs[i], feat.len(), r1.len()),
        r1.len() == r2.len(),
    ensures
        segment_steps(segs, feat, r1, tested) == segment_steps(segs, feat, r2, tested),
{
    let one = segment_steps(segs, feat, r1, tested);
    let two = segment_steps(segs, feat, r2, tested);
    assert forall|i: int| 0 <= i < one.len() implies one[i] == #[trigger] two[i] by {
        let s = segs[i];
        let p = s.pack@;
        let trees = span(0, p.n_trees);
        let x1 = segment_ranks(segs, feat, r1, i + 1);
        let x2 = segment_ranks(segs, feat, r2, i + 1);
        lemma_segment_ranks_len(segs, feat, r1, i);
        lemma_segment_ranks_len(segs, feat, r2, i);
        assert(segment_fits(s, feat.len(), r1.len()));
        assert forall|x: int| 0 <= x < trees.len() implies (#[trigger] trees[x]) < p.n_trees
            && tree_outcome(p, trees[x], x1, none_missing()) == tree_outcome(
            p,
            trees[x],
            x2,
            none_missing(),
        ) by {
            let t = trees[x];
            assert(tree_names_below(p, t, s.local_to_global_fid@.len() as int));
            let h = p.tree_hdrs[t];
            assert forall|b: int| h.block_off <= b < h.block_off + h.block_cnt implies {
                let f = (#[trigger] p.block_hdrs[b]).fid as int;
                none_missing()[f] == 0 && x1[f] == x2[f]
            } by {}
            lemma_ranks_that_matter(p, t, x1, none_missing(), x2, none_missing());
        }
        lemma_walks_alike(p, trees, x1, none_missing(), p, trees, x2, none_missing());
    }
    assert(one =~= two);
}

/// Whether a model writes everything that its rows read: the buffer of its first trees in full,
/// stages that were made for it, and late stretches or segments that rank the features of their
/// trees.
pub open spec fn writes_before_reading(rt: LoadedPrefixRuntime) -> bool {
    &&& rt.compiled_hot_pack matches Some(h) ==> h@.hot_global_fidx.len() == h@.n_hot_features
    &&& prepared_route(rt) ==> rt.hot_checkpoint_layout is Some && prepared_to_match(rt)
    &&& compiled_route(rt) ==> stages_made(rt) && (has_segments(rt) || late_covered(
        rt.pack@,
        rt.hot_checkpoint_layout->Some_0@,
        fewer(rt.compiled_hot_pack->Some_0@.n_trees, rt.pack@.n_trees),
    ))
}

/// A model that is put together writes everything that its rows read: segments stand for all of its
/// late stretches, and its stages are made for it. Segments that come from a file must not be none.
pub proof fn law_made_models_write_before_reading(
    rt: LoadedPrefixRuntime,
    made: Made,
    choices: PrefixChoices,
    parts: PrefixParts,
    bounds: BoundsView,
)
    requires
        parts_ready(choices, parts),
        put_together(rt, made, choices, parts, bounds),
        choices.direct_kernel != PrefixDirectKernel::Qs ==> compact_form(parts) is Ok,
        compact_form(parts) matches Ok(c) ==> c.hot_global_fidx.len() == c.n_hot_features
            && c.n_hot_features <= 0x8000,
        rt.hot_stage_plan matches Some(plan) ==> plan.hot_feature_ids@.len() <= u32::MAX,
        parts.late_segments matches Some(s) ==> s@.len() > 0,
    ensures
        writes_before_reading(rt),
{
}

/// The first trees come to the same, whatever the buffer held.
proof fn lemma_first_alike(
    m: spec_fn(SingleOp) -> u32,
    j: Judge,
    rt: LoadedPrefixRuntime,
    feat: Seq<u32>,
    b1: Seq<u32>,
    b2: Seq<u32>,
)
    requires
        rt.compiled_hot_pack is Some,
        rt.hot_checkpoint_layout is Some,
        stages_made(rt),
        b1.len() == rt.compiled_hot_pack->Some_0@.hot_global_fidx.len(),
        b2.len() == b1.len(),
    ensures
        online_first(m, j, rt, feat, b1) == online_first(m, j, rt, feat, b2),
{
    let map = rt.compiled_hot_pack->Some_0@.hot_global_fidx;
    law_staged_trees_come_to_the_same_verdict(m, j, rt, feat, b1);
    law_staged_trees_come_to_the_same_verdict(m, j, rt, feat, b2);
    assert(filled(b1, map, feat) =~= filled(b2, map, feat));
}

/// A row comes to the same stage by stage, whatever its buffers held.
pub proof fn law_stages_carry_nothing_over(
    m: spec_fn(SingleOp) -> u32,
    rt: &LoadedPrefixRuntime,
    feat: Seq<u32>,
    tau: u32,
    fold: i32,
    r1: Seq<u8>,
    b1: Seq<u32>,
    r2: Seq<u8>,
    b2: Seq<u32>,
)
    requires
        online_ready(*rt, feat.len(), r1.len(), b1.len()),
        rt.compiled_hot_pack is Some,
        rt.hot_checkpoint_layout is Some,
        stages_made(*rt),
        has_segments(*rt) || late_covered(
            rt.pack@,
            rt.hot_checkpoint_layout->Some_0@,
            fewer(rt.compiled_hot_pack->Some_0@.n_trees, rt.pack@.n_trees),
        ),
        b1.len() == rt.compiled_hot_pack->Some_0@.hot_global_fidx.len(),
        b2.len() == b1.len(),
        r2.len() == r1.len(),
    ensures
        online_row(m, rt, feat, tau, fold, r1, b1) == online_row(m, rt, feat, tau, fold, r2, b2),
{
    let j = judge_for(rt, plan_of(rt), fold, tau);
    lemma_first_alike(m, j, *rt, feat, b1, b2);
    if has_segments(*rt) {
        law_segments_need_no_ranks(rt.late_segments->Some_0@, feat, r1, r2, true);
    } else {
        law_covered_stretches_need_no_ranks(
            rt.pack@,
            feat,
            r1,
            r2,
            rt.hot_checkpoint_layout->Some_0@,
            fewer(rt.compiled_hot_pack->Some_0@.n_trees, rt.pack@.n_trees),
        );
    }
}

/// What the second stage makes of a row does not depend on what earlier rows left behind, for a
/// model that writes everything that its rows read.
pub proof fn law_scratch_leaves_no_trace(
    m: spec_fn(SingleOp) -> u32,
    l2: &OnlineL2Runtime,
    row: Seq<u32>,
    tau: u32,
    fold: i32,
    nan_free: bool,
    s: ScratchView,
    t: ScratchView,
)
    requires
        l2_ready(*l2, row.len()),
        writes_before_reading(l2.runtime),
    ensures
        l2_row(m, l2, row, tau, fold, nan_free, s) == l2_row(m, l2, row, tau, fold, nan_free, t),
{
    let rt = &l2.runtime;
    let n = rt.pack@.n_features as nat;
    let b1 = refitted(s.hot, hot_len(*rt));
    let b2 = refitted(t.hot, hot_len(*rt));
    let r1 = resized(s.ranks, n);
    let r2 = resized(t.ranks, n);
    if nan_free && prepared_route(*rt) {
        law_prepared_stages_come_to_the_same_verdict(m, rt, row, tau, fold, r1, b1);
        law_prepared_stages_come_to_the_same_verdict(m, rt, row, tau, fold, r2, b2);
        law_stages_carry_nothing_over(m, rt, row, tau, fold, r1, b1, r2, b2);
    } else if nan_free && compiled_route(*rt) {
        law_stages_carry_nothing_over(m, rt, row, tau, fold, r1, b1, r2, b2);
    } else {
        let x1 = if nan_free && rt.compiled_hot_pack is Some {
            readied(r1, n)
        } else {
            readied(s.ranks, n)
        };
        let x2 = if nan_free && rt.compiled_hot_pack is Some {
            readied(r2, n)
        } else {
            readied(t.ranks, n)
        };
        let q1 = readied(s.missing, n);
        let q2 = readied(t.missing, n);
        if compiled_route(*rt) {
            let map = rt.compiled_hot_pack->Some_0@.hot_global_fidx;
            law_earlier_rows_leave_no_trace_in_compact_form(
                m,
                rt,
                row,
                tau,
                fold,
                nan_free,
                x1,
                q1,
                x2,
                q2,
                b1,
            );
            assert(filled(b1, map, row) =~= filled(b2, map, row));
            assert(compiled_row(m, rt, row, tau, fold, nan_free, x2, q2, b1) == compiled_row(
                m,
                rt,
                row,
                tau,
                fold,
                nan_free,
                x2,
                q2,
                b2,
            ));
        } else {
            law_earlier_rows_leave_no_trace(
                m,
                rt,
                row,
                tau,
                fold,
                x1,
                q1,
                x2,
                q2,
                rt.pack@.base_score,
                false,
            );
        }
    }
    assert(l2_prefix(m, l2, row, tau, fold, nan_free, s) == l2_prefix(
        m,
        l2,
        row,
        tau,
        fold,
        nan_free,
        t,
    ));
}

/// A row that misses nothing comes to the same whether or not that is known beforehand, whatever
/// earlier rows left behind.
pub proof fn law_whole_rows_need_neither_hint_nor_scratch(
    m: spec_fn(SingleOp) -> u32,
    l2: &OnlineL2Runtime,
    row: Seq<u32>,
    tau: u32,
    fold: i32,
    s: ScratchView,
    t: ScratchView,
)
    requires
        whole(row),
        l2_ready(*l2, row.len()),
        writes_before_reading(l2.runtime),
    ensures
        l2_row(m, l2, row, tau, fold, whole(row), s) == l2_row(m, l2, row, tau, fold, true, t),
{
    law_scratch_leaves_no_trace(m, l2, row, tau, fold, true, s, t);
}

} // verus!
