//! Buffers that are used again from row to row do not carry anything over.

use crate::arith::SingleOp;
use crate::pack_check::{block_sound, pack_sound, tree_sound};
use crate::prefix_runtime::{compiled_row, runtime_sound, shadow_row, LoadedPrefixRuntime};
use crate::qs_pack::PackModel;
use crate::qs_score::{
    block_mask, blocks_read, candidates, lemma_blocks_read_range, span, tree_outcome, walk,
};
use crate::quantize::{marked, ranked};
use crate::shadow::{qs_phase, qs_steps, Judge, ProgressView};
use vstd::prelude::*;

verus! {

/// Whether two rows have the same ranks and marks for every feature of a pack.
pub open spec fn same_for(
    p: PackModel,
    r1: Seq<u8>,
    q1: Seq<u8>,
    r2: Seq<u8>,
    q2: Seq<u8>,
) -> bool {
    &&& forall|f: int| 0 <= f < p.n_features ==> #[trigger] r1[f] == r2[f]
    &&& forall|f: int| 0 <= f < p.n_features ==> #[trigger] q1[f] == q2[f]
}

proof fn lemma_same_candidates(
    p: PackModel,
    t: int,
    r1: Seq<u8>,
    q1: Seq<u8>,
    r2: Seq<u8>,
    q2: Seq<u8>,
    k: nat,
)
    requires
        pack_sound(p),
        0 <= t < p.n_trees,
        same_for(p, r1, q1, r2, q2),
        k <= p.tree_hdrs[t].block_cnt,
    ensures
        forall|j: nat|
            j <= k ==> candidates(p, t, r1, q1, j) == #[trigger] candidates(p, t, r2, q2, j),
    decreases k,
{
    if k > 0 {
        lemma_same_candidates(p, t, r1, q1, r2, q2, (k - 1) as nat);
        assert(tree_sound(p, t));
        let b = p.tree_hdrs[t].block_off + k - 1;
        assert(block_sound(p, b));
        let f = p.block_hdrs[b].fid as int;
        assert(r1[f] == r2[f] && q1[f] == q2[f]);
        assert(candidates(p, t, r1, q1, (k - 1) as nat) == candidates(
            p,
            t,
            r2,
            q2,
            (k - 1) as nat,
        ));
        assert forall|j: nat| j <= k implies candidates(p, t, r1, q1, j) == #[trigger] candidates(
            p,
            t,
            r2,
            q2,
            j,
        ) by {
            if j == k {
                assert(block_mask(p, b, r1, q1) == block_mask(p, b, r2, q2));
            }
        }
    }
}

proof fn lemma_same_blocks(
    p: PackModel,
    t: int,
    r1: Seq<u8>,
    q1: Seq<u8>,
    r2: Seq<u8>,
    q2: Seq<u8>,
    k: nat,
)
    requires
        pack_sound(p),
        0 <= t < p.n_trees,
        same_for(p, r1, q1, r2, q2),
    ensures
        blocks_read(p, t, r1, q1, k) == blocks_read(p, t, r2, q2, k),
    decreases p.tree_hdrs[t].block_cnt - k,
{
    if k < p.tree_hdrs[t].block_cnt {
        lemma_same_candidates(p, t, r1, q1, r2, q2, p.tree_hdrs[t].block_cnt as nat);
        assert(candidates(p, t, r1, q1, k + 1) == candidates(p, t, r2, q2, k + 1));
        lemma_same_blocks(p, t, r1, q1, r2, q2, k + 1);
    }
}

/// The trees of a pack read nothing but the ranks and marks of the features of the pack.
pub proof fn law_only_features_of_the_pack_matter(
    p: PackModel,
    trees: Seq<int>,
    r1: Seq<u8>,
    q1: Seq<u8>,
    r2: Seq<u8>,
    q2: Seq<u8>,
)
    requires
        pack_sound(p),
        same_for(p, r1, q1, r2, q2),
        forall|i: int| 0 <= i < trees.len() ==> #[trigger] trees[i] >= 0,
    ensures
        walk(p, trees, r1, q1) == walk(p, trees, r2, q2),
    decreases trees.len(),
{
    if trees.len() > 0 {
        law_only_features_of_the_pack_matter(p, trees.drop_last(), r1, q1, r2, q2);
        let t = trees.last();
        if t < p.n_trees {
            assert(trees[trees.len() - 1] >= 0);
            lemma_same_candidates(p, t, r1, q1, r2, q2, p.tree_hdrs[t].block_cnt as nat);
            lemma_same_blocks(p, t, r1, q1, r2, q2, 0);
            lemma_blocks_read_range(p, t, r1, q1, 0);
            let k = blocks_read(p, t, r1, q1, 0);
            assert(candidates(p, t, r1, q1, k) == candidates(p, t, r2, q2, k));
            assert(tree_outcome(p, t, r1, q1) == tree_outcome(p, t, r2, q2));
        }
    }
}

/// A run over a packed ensemble reads nothing but the ranks and marks of its features.
proof fn lemma_same_phase(
    m: spec_fn(SingleOp) -> u32,
    j: Judge,
    init: u32,
    st: ProgressView,
    p: PackModel,
    r1: Seq<u8>,
    q1: Seq<u8>,
    r2: Seq<u8>,
    q2: Seq<u8>,
    cps: Seq<usize>,
    slots: Seq<usize>,
    start: int,
)
    requires
        pack_sound(p),
        same_for(p, r1, q1, r2, q2),
        0 <= start,
    ensures
        qs_phase(m, j, init, st, p, r1, q1, cps, slots, start) == qs_phase(
            m,
            j,
            init,
            st,
            p,
            r2,
            q2,
            cps,
            slots,
            start,
        ),
{
    assert(qs_steps(p, r1, q1, cps, slots, start) =~= qs_steps(p, r2, q2, cps, slots, start)) by {
        assert forall|i: int| 0 <= i < cps.len() implies #[trigger] qs_steps(
            p,
            r1,
            q1,
            cps,
            slots,
            start,
        )[i] == qs_steps(p, r2, q2, cps, slots, start)[i] by {
            let a = crate::shadow::stretch_start(cps, start, i);
            law_only_features_of_the_pack_matter(p, span(a, cps[i] as int), r1, q1, r2, q2);
        }
    }
    if cps.len() > 0 {
        law_only_features_of_the_pack_matter(
            p,
            span(start, cps.last() as int),
            r1,
            q1,
            r2,
            q2,
        );
    }
}

/// What a row comes to does not depend on what its buffers held before, as long as they are large
/// enough.
pub proof fn law_earlier_rows_leave_no_trace(
    m: spec_fn(SingleOp) -> u32,
    rt: &LoadedPrefixRuntime,
    feat: Seq<u32>,
    tau: u32,
    fold: i32,
    r1: Seq<u8>,
    q1: Seq<u8>,
    r2: Seq<u8>,
    q2: Seq<u8>,
    init: u32,
    trace: bool,
)
    requires
        runtime_sound(*rt),
        rt.pack@.n_features <= r1.len(),
        rt.pack@.n_features <= q1.len(),
        rt.pack@.n_features <= r2.len(),
        rt.pack@.n_features <= q2.len(),
    ensures
        shadow_row(m, rt, feat, tau, fold, r1, q1, init, trace) == shadow_row(
            m,
            rt,
            feat,
            tau,
            fold,
            r2,
            q2,
            init,
            trace,
        ),
{
    let p = rt.pack@;
    let a1 = ranked(p, feat, r1);
    let b1 = marked(p, feat, q1);
    let a2 = ranked(p, feat, r2);
    let b2 = marked(p, feat, q2);
    assert(same_for(p, a1, b1, a2, b2));
    assert forall|
        j: Judge,
        st: ProgressView,
        cps: Seq<usize>,
        slots: Seq<usize>,
        start: int,
    | start >= 0 implies #[trigger] qs_phase(m, j, init, st, p, a1, b1, cps, slots, start)
        == qs_phase(m, j, init, st, p, a2, b2, cps, slots, start) by {
        lemma_same_phase(m, j, init, st, p, a1, b1, a2, b2, cps, slots, start);
    }
}

/// The same holds where the first trees come in compact form.
pub proof fn law_earlier_rows_leave_no_trace_in_compact_form(
    m: spec_fn(SingleOp) -> u32,
    rt: &LoadedPrefixRuntime,
    feat: Seq<u32>,
    tau: u32,
    fold: i32,
    nan_free: bool,
    r1: Seq<u8>,
    q1: Seq<u8>,
    r2: Seq<u8>,
    q2: Seq<u8>,
    buf: Seq<u32>,
)
    requires
        runtime_sound(*rt),
        rt.pack@.n_features <= r1.len(),
        rt.pack@.n_features <= q1.len(),
        rt.pack@.n_features <= r2.len(),
        rt.pack@.n_features <= q2.len(),
    ensures
        compiled_row(m, rt, feat, tau, fold, nan_free, r1, q1, buf) == compiled_row(
            m,
            rt,
            feat,
            tau,
            fold,
            nan_free,
            r2,
            q2,
            buf,
        ),
{
    let p = rt.pack@;
    let a1 = ranked(p, feat, r1);
    let b1 = marked(p, feat, q1);
    let a2 = ranked(p, feat, r2);
    let b2 = marked(p, feat, q2);
    let init = p.base_score;
    assert(same_for(p, a1, b1, a2, b2));
    assert forall|
        j: Judge,
        st: ProgressView,
        cps: Seq<usize>,
        slots: Seq<usize>,
        start: int,
    | start >= 0 implies #[trigger] qs_phase(m, j, init, st, p, a1, b1, cps, slots, start)
        == qs_phase(m, j, init, st, p, a2, b2, cps, slots, start) by {
        lemma_same_phase(m, j, init, st, p, a1, b1, a2, b2, cps, slots, start);
    }
}

} // verus!
