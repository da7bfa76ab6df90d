//! Which features each stage of the first trees needs that no earlier stage needed.
//!
//! The trees are explored with a stack, so that the features come out in the order in which the
//! exploration meets them.

use crate::descend::{
    descend, full_row, land, models, next_node, NodeModel, RoutingNode, RowModel, Rule,
};
use crate::hot_pack::{CompiledView, HotCompiledPrefixNode, HotCompiledPrefixPack};
use vstd::prelude::*;

verus! {

/// Stages of the first trees: stage `i` ends at checkpoint `i` and stages the features of `ids`
/// from offset `i` up to offset `i + 1`.
#[derive(Debug)]
pub struct HotStagePlan {
    pub checkpoints: Vec<usize>,
    pub feature_offsets: Vec<u32>,
    pub hot_feature_ids: Vec<u16>,
}

/// Why there are no stages.
#[derive(Clone, Copy, Debug, PartialEq, Eq, Structural)]
pub enum StageError {
    NoCheckpoints,
    InvalidCheckpoint { checkpoint: usize },
    RootMissing { tree: usize },
}

/// How far an exploration has come: the nodes it has been at, the features it has met, and the
/// features in the order in which it met them.
#[verifier::ext_equal]
pub struct Explored {
    pub nodes: Seq<bool>,
    pub feats: Seq<bool>,
    pub out: Seq<u16>,
}

/// How many entries are not set.
pub open spec fn count_unset(s: Seq<bool>) -> nat
    decreases s.len(),
{
    if s.len() == 0 {
        0
    } else {
        count_unset(s.drop_last()) + if s.last() {
            0nat
        } else {
            1nat
        }
    }
}

/// Setting an entry leaves one fewer.
pub proof fn lemma_count_unset(s: Seq<bool>, i: int)
    requires
        0 <= i < s.len(),
        !s[i],
    ensures
        count_unset(s) == count_unset(s.update(i, true)) + 1,
    decreases s.len(),
{
    let t = s.update(i, true);
    if i == s.len() - 1 {
        assert(t.drop_last() =~= s.drop_last());
    } else {
        assert(t.drop_last() =~= s.drop_last().update(i, true));
        lemma_count_unset(s.drop_last(), i);
    }
}

/// The state after node `n`, a split, was visited.
pub open spec fn met(e: Explored, idx: int, n: NodeModel) -> Explored {
    let nodes = e.nodes.update(idx, true);
    if n.leaf || e.feats[n.fidx] {
        Explored { nodes, ..e }
    } else {
        Explored { nodes, feats: e.feats.update(n.fidx, true), out: e.out.push(n.fidx as u16) }
    }
}

/// The state after everything that can be reached from the stack was visited. The top of the
/// stack comes first; a split puts its left, right and missing child on the stack.
pub open spec fn explore(ns: Seq<NodeModel>, stack: Seq<int>, e: Explored) -> Explored
    decreases count_unset(e.nodes), stack.len(),
{
    if stack.len() == 0 {
        e
    } else {
        let idx = stack.last();
        let rest = stack.drop_last();
        if !(0 <= idx < ns.len()) || !(idx < e.nodes.len()) || e.nodes[idx] {
            explore(ns, rest, e)
        } else {
            let n = ns[idx];
            let next = met(e, idx, n);
            proof {
                lemma_count_unset(e.nodes, idx);
            }
            if n.leaf {
                explore(ns, rest, next)
            } else {
                explore(ns, rest.push(n.left).push(n.right).push(n.missing), next)
            }
        }
    }
}

/// The state after the trees from `a` up to `b` were explored, or the first tree without a root.
pub open spec fn explore_trees(
    ns: Seq<NodeModel>,
    roots: Seq<u16>,
    a: int,
    b: int,
    e: Explored,
) -> Result<Explored, StageError>
    decreases b - a,
{
    if a >= b {
        Ok(e)
    } else if a >= roots.len() {
        Err(StageError::RootMissing { tree: a as usize })
    } else {
        explore_trees(ns, roots, a + 1, b, explore(ns, seq![roots[a] as int], e))
    }
}

/// A fresh set of node marks over the features met so far.
pub open spec fn fresh_nodes(c: CompiledView, feats: Seq<bool>, out: Seq<u16>) -> Explored {
    Explored { nodes: Seq::new(c.nodes.len(), |i: int| false), feats, out }
}

/// The plan so far, continued over the checkpoints from `i` on; `start` is where the stage begins.
pub open spec fn plan_from(
    c: CompiledView,
    cps: Seq<usize>,
    i: int,
    start: int,
    feats: Seq<bool>,
    ids: Seq<u16>,
    offsets: Seq<u32>,
) -> Result<(Seq<u32>, Seq<u16>), StageError>
    decreases cps.len() - i,
{
    if i >= cps.len() {
        Ok((offsets, ids))
    } else if cps[i] <= start || cps[i] > c.n_trees {
        Err(StageError::InvalidCheckpoint { checkpoint: cps[i] })
    } else {
        match explore_trees(
            models(c.nodes),
            c.tree_roots,
            start,
            cps[i] as int,
            fresh_nodes(c, feats, ids),
        ) {
            Err(e) => Err(e),
            Ok(e) => plan_from(
                c,
                cps,
                i + 1,
                cps[i] as int,
                e.feats,
                e.out,
                offsets.push(e.out.len() as u32),
            ),
        }
    }
}

/// The stages of a pack over checkpoints: offsets and features.
pub open spec fn stage_plan(c: CompiledView, cps: Seq<usize>) -> Result<
    (Seq<u32>, Seq<u16>),
    StageError,
> {
    if cps.len() == 0 {
        Ok((Seq::empty(), Seq::empty()))
    } else {
        plan_from(
            c,
            cps,
            0,
            0,
            Seq::new(c.n_hot_features as nat, |i: int| false),
            Seq::empty(),
            seq![0u32],
        )
    }
}

/// Whether every split names a feature of the pack.
pub open spec fn splits_in_range(c: CompiledView) -> bool {
    forall|i: int|
        0 <= i < c.nodes.len() && !(#[trigger] c.nodes[i]).model().leaf ==> c.nodes[i].model().fidx
            < c.n_hot_features
}

/// Explores the trees from `start_tree` up to `end_tree` and appends the features that were not
/// met before.
pub fn collect_tree_hot_features(
    compiled: &HotCompiledPrefixPack,
    start_tree: usize,
    end_tree: usize,
    hot_seen: &mut [bool],
    out: &mut Vec<u16>,
) -> (r: Result<(), StageError>)
    requires
        splits_in_range(compiled@),
        old(hot_seen)@.len() == compiled@.n_hot_features,
    ensures
        match explore_trees(
            models(compiled@.nodes),
            compiled@.tree_roots,
            start_tree as int,
            end_tree as int,
            fresh_nodes(compiled@, old(hot_seen)@, old(out)@),
        ) {
            Ok(e) => r is Ok && final(hot_seen)@ == e.feats && final(out)@ == e.out
                && final(hot_seen)@.len() == old(hot_seen)@.len(),
            Err(e) => r == Err::<(), StageError>(e),
        },
{
    let ghost c = compiled@;
    let ghost ns = models(c.nodes);
    let ghost first = fresh_nodes(c, hot_seen@, out@);
    let mut node_seen: Vec<bool> = vec![false; compiled.nodes.len()];
    assert(node_seen@ =~= first.nodes);
    let mut tree: usize = start_tree;
    while tree < end_tree
        invariant
            start_tree <= tree,
            tree <= end_tree || tree == start_tree,
            c == compiled@,
            ns == models(c.nodes),
            splits_in_range(c),
            node_seen@.len() == ns.len(),
            hot_seen@.len() == c.n_hot_features,
            explore_trees(ns, c.tree_roots, start_tree as int, end_tree as int, first)
                == explore_trees(
                ns,
                c.tree_roots,
                tree as int,
                end_tree as int,
                Explored { nodes: node_seen@, feats: hot_seen@, out: out@ },
            ),
            first == fresh_nodes(c, old(hot_seen)@, old(out)@),
        decreases end_tree - tree,
    {
        if tree >= compiled.tree_roots.len() {
            return Err(StageError::RootMissing { tree });
        }
        let ghost e0 = Explored { nodes: node_seen@, feats: hot_seen@, out: out@ };
        let root: usize = compiled.tree_roots[tree] as usize;
        let mut stack: Vec<usize> = Vec::new();
        stack.push(root);
        let ghost mut st: Seq<int> = seq![root as int];
        while stack.len() > 0
            invariant
                c == compiled@,
                ns == models(c.nodes),
                splits_in_range(c),
                node_seen@.len() == ns.len(),
                hot_seen@.len() == c.n_hot_features,
                st.len() == stack@.len(),
                forall|i: int| 0 <= i < stack@.len() ==> #[trigger] stack@[i] == st[i],
                explore(ns, seq![root as int], e0) == explore(
                    ns,
                    st,
                    Explored { nodes: node_seen@, feats: hot_seen@, out: out@ },
                ),
            decreases count_unset(node_seen@), stack@.len(),
        {
            let ghost e = Explored { nodes: node_seen@, feats: hot_seen@, out: out@ };
            let top: usize = stack[stack.len() - 1];
            stack.pop();
            proof {
                assert(st.last() == top);
                st = st.drop_last();
            }
            if top < compiled.nodes.len() && !node_seen[top] {
                proof {
                    lemma_count_unset(node_seen@, top as int);
                    assert(ns[top as int] == c.nodes[top as int].model());
                }
                node_seen[top] = true;
                let node: HotCompiledPrefixNode = compiled.nodes[top];
                if !node.is_leaf() {
                    let f: usize = node.hot_fidx();
                    assert(f < c.n_hot_features);
                    if !hot_seen[f] {
                        hot_seen[f] = true;
                        out.push(f as u16);
                    }
                    stack.push(node.left as usize);
                    stack.push(node.right as usize);
                    stack.push(node.missing as usize);
                    proof {
                        let n = ns[top as int];
                        st = st.push(n.left).push(n.right).push(n.missing);
                    }
                }
                assert(Explored { nodes: node_seen@, feats: hot_seen@, out: out@ } =~= met(
                    e,
                    top as int,
                    ns[top as int],
                ));
            }
        }
        assert(st =~= Seq::empty());
        assert(seq![root as int] =~= seq![c.tree_roots[tree as int] as int]);
        tree += 1;
    }
    Ok(())
}

/// Works out the stages of a pack over checkpoints.
pub fn build_hot_stage_plan(compiled: &HotCompiledPrefixPack, checkpoints: &[usize]) -> (r: Result<
    HotStagePlan,
    StageError,
>)
    requires
        splits_in_range(compiled@),
    ensures
        match stage_plan(compiled@, checkpoints@) {
            Ok((offsets, ids)) => r matches Ok(p) && p.feature_offsets@ == offsets
                && p.hot_feature_ids@ == ids && p.checkpoints@ == checkpoints@,
            Err(e) => r == Err::<HotStagePlan, StageError>(e),
        },
{
    let ghost c = compiled@;
    if checkpoints.len() == 0 {
        let plan: HotStagePlan = HotStagePlan {
            checkpoints: Vec::new(),
            feature_offsets: Vec::new(),
            hot_feature_ids: Vec::new(),
        };
        assert(plan.checkpoints@ =~= checkpoints@);
        return Ok(plan);
    }
    let mut hot_seen: Vec<bool> = vec![false; compiled.n_hot_features];
    assert(hot_seen@ =~= Seq::new(c.n_hot_features as nat, |i: int| false));
    let mut ids: Vec<u16> = Vec::new();
    let mut offsets: Vec<u32> = Vec::new();
    offsets.push(0);
    assert(offsets@ =~= seq![0u32]);
    let mut start: usize = 0;
    let mut i: usize = 0;
    while i < checkpoints.len()
        invariant
            i <= checkpoints@.len(),
            checkpoints@.len() > 0,
            c == compiled@,
            splits_in_range(c),
            hot_seen@.len() == c.n_hot_features,
            stage_plan(c, checkpoints@) == plan_from(
                c,
                checkpoints@,
                i as int,
                start as int,
                hot_seen@,
                ids@,
                offsets@,
            ),
        decreases checkpoints@.len() - i,
    {
        let cp: usize = checkpoints[i];
        if cp <= start || cp > compiled.n_trees {
            return Err(StageError::InvalidCheckpoint { checkpoint: cp });
        }
        match collect_tree_hot_features(compiled, start, cp, hot_seen.as_mut_slice(), &mut ids) {
            Ok(()) => {},
            Err(e) => {
                return Err(e);
            },
        }
        offsets.push(ids.len() as u32);
        start = cp;
        i += 1;
    }
    Ok(
        HotStagePlan {
            checkpoints: vstd::slice::slice_to_vec(checkpoints),
            feature_offsets: offsets,
            hot_feature_ids: ids,
        },
    )
}

/// Whether an exploration is complete but for what is on the stack: of every split it has been
/// at, the feature was met and the children were visited, lie outside, or wait on the stack.
pub open spec fn closed_but(ns: Seq<NodeModel>, stack: Seq<int>, e: Explored) -> bool {
    &&& e.nodes.len() == ns.len()
    &&& forall|i: int|
        0 <= i < ns.len() && #[trigger] e.nodes[i] && !ns[i].leaf ==> {
            &&& 0 <= ns[i].fidx < e.feats.len()
            &&& e.feats[ns[i].fidx]
            &&& reached(ns, stack, e, ns[i].left)
            &&& reached(ns, stack, e, ns[i].right)
            &&& reached(ns, stack, e, ns[i].missing)
        }
}

/// Whether node `k` was visited, lies outside, or waits on the stack.
pub open spec fn reached(ns: Seq<NodeModel>, stack: Seq<int>, e: Explored, k: int) -> bool {
    !(0 <= k < ns.len()) || e.nodes[k] || stack.contains(k)
}

/// Whether `b` has everything that `a` has.
pub open spec fn further(a: Explored, b: Explored) -> bool {
    &&& a.nodes.len() == b.nodes.len()
    &&& a.feats.len() == b.feats.len()
    &&& forall|i: int| 0 <= i < a.nodes.len() && a.nodes[i] ==> #[trigger] b.nodes[i]
    &&& forall|i: int| 0 <= i < a.feats.len() && a.feats[i] ==> #[trigger] b.feats[i]
    &&& a.out.is_prefix_of(b.out)
}

/// Whether the listed features are exactly those that were met, each once.
pub open spec fn listed_right(e: Explored) -> bool {
    &&& forall|f: int|
        0 <= f < e.feats.len() ==> (#[trigger] e.feats[f] <==> exists|k: int|
            0 <= k < e.out.len() && e.out[k] == f)
    &&& forall|k: int| 0 <= k < e.out.len() ==> #[trigger] e.out[k] < e.feats.len()
    &&& e.out.no_duplicates()
}

/// An exploration visits everything on the stack and what can be reached from there, and lists
/// the features it meets exactly once.
pub proof fn law_exploration_is_complete(ns: Seq<NodeModel>, stack: Seq<int>, e: Explored)
    requires
        closed_but(ns, stack, e),
        listed_right(e),
        e.feats.len() <= 0x8000,
        forall|i: int| 0 <= i < ns.len() && !(#[trigger] ns[i]).leaf ==> 0 <= ns[i].fidx
            < e.feats.len(),
    ensures
        closed_but(ns, Seq::empty(), explore(ns, stack, e)),
        further(e, explore(ns, stack, e)),
        listed_right(explore(ns, stack, e)),
        forall|k: int|
            stack.contains(k) && 0 <= k < ns.len() ==> #[trigger] explore(ns, stack, e).nodes[k],
    decreases count_unset(e.nodes), stack.len(),
{
    if stack.len() == 0 {
        assert(e.out.subrange(0, e.out.len() as int) =~= e.out);
    } else {
        let idx = stack.last();
        let rest = stack.drop_last();
        if !(0 <= idx < ns.len()) || e.nodes[idx] {
            assert forall|k: int| reached(ns, stack, e, k) implies reached(ns, rest, e, k) by {
                lemma_popped(stack, k);
            }
            law_exploration_is_complete(ns, rest, e);
            assert forall|k: int| stack.contains(k) && 0 <= k < ns.len() implies #[trigger] explore(
                ns,
                stack,
                e,
            ).nodes[k] by {
                lemma_popped(stack, k);
            }
        } else {
            let n = ns[idx];
            let next = met(e, idx, n);
            lemma_count_unset(e.nodes, idx);
            let more = if n.leaf {
                rest
            } else {
                rest.push(n.left).push(n.right).push(n.missing)
            };
            assert forall|k: int| reached(ns, stack, e, k) implies reached(ns, more, next, k) by {
                lemma_popped(stack, k);
                if rest.contains(k) {
                    let j = choose|j: int| 0 <= j < rest.len() && rest[j] == k;
                    assert(more[j] == k);
                }
            }
            if !n.leaf {
                assert(more[rest.len() as int] == n.left);
                assert(more[rest.len() as int + 1] == n.right);
                assert(more[rest.len() as int + 2] == n.missing);
            }
            assert(closed_but(ns, more, next)) by {
                assert forall|i: int|
                    0 <= i < ns.len() && #[trigger] next.nodes[i] && !ns[i].leaf implies {
                    &&& 0 <= ns[i].fidx < next.feats.len()
                    &&& next.feats[ns[i].fidx]
                    &&& reached(ns, more, next, ns[i].left)
                    &&& reached(ns, more, next, ns[i].right)
                    &&& reached(ns, more, next, ns[i].missing)
                } by {
                    if i != idx {
                        assert(e.nodes[i]);
                    }
                }
            }
            lemma_met_lists(e, idx, n);
            law_exploration_is_complete(ns, more, next);
            let end = explore(ns, stack, e);
            assert(further(e, next)) by {
                assert(next.out.subrange(0, e.out.len() as int) =~= e.out);
            }
            assert(further(e, end)) by {
                assert forall|i: int| 0 <= i < e.nodes.len() && e.nodes[i] implies
                    #[trigger] end.nodes[i] by {
                    assert(next.nodes[i]);
                }
                assert forall|i: int| 0 <= i < e.feats.len() && e.feats[i] implies
                    #[trigger] end.feats[i] by {
                    assert(next.feats[i]);
                }
                assert(end.out.subrange(0, e.out.len() as int) =~= next.out.subrange(
                    0,
                    e.out.len() as int,
                )) by {
                    assert(next.out =~= end.out.subrange(0, next.out.len() as int));
                }
            }
            assert forall|k: int| stack.contains(k) && 0 <= k < ns.len() implies
                #[trigger] end.nodes[k] by {
                lemma_popped(stack, k);
                if k == idx {
                    assert(next.nodes[k]);
                } else {
                    let j = choose|j: int| 0 <= j < rest.len() && rest[j] == k;
                    assert(more[j] == k);
                    assert(more.contains(k));
                }
            }
        }
    }
}

proof fn lemma_popped(stack: Seq<int>, k: int)
    requires
        stack.len() > 0,
    ensures
        stack.contains(k) <==> k == stack.last() || stack.drop_last().contains(k),
{
    if stack.contains(k) {
        let j = choose|j: int| 0 <= j < stack.len() && stack[j] == k;
        if j < stack.len() - 1 {
            assert(stack.drop_last()[j] == k);
        }
    }
    if stack.drop_last().contains(k) {
        let j = choose|j: int| 0 <= j < stack.drop_last().len() && stack.drop_last()[j] == k;
        assert(stack[j] == k);
    }
    assert(stack[stack.len() - 1] == stack.last());
}

proof fn lemma_met_lists(e: Explored, idx: int, n: NodeModel)
    requires
        listed_right(e),
        e.feats.len() <= 0x8000,
        !n.leaf ==> 0 <= n.fidx < e.feats.len(),
    ensures
        listed_right(met(e, idx, n)),
{
    let m = met(e, idx, n);
    if !n.leaf && !e.feats[n.fidx] {
        assert forall|f: int| 0 <= f < m.feats.len() implies (#[trigger] m.feats[f] <==> exists|
            k: int,
        |
            0 <= k < m.out.len() && m.out[k] == f) by {
            if f == n.fidx {
                assert(m.out[e.out.len() as int] == f);
            } else if e.feats[f] {
                let k = choose|k: int| 0 <= k < e.out.len() && e.out[k] == f;
                assert(m.out[k] == f);
            }
            if exists|k: int| 0 <= k < m.out.len() && m.out[k] == f {
                let k = choose|k: int| 0 <= k < m.out.len() && m.out[k] == f;
                if k < e.out.len() {
                    assert(e.out[k] == f);
                }
            }
        }
        assert forall|a: int, b: int| 0 <= a < m.out.len() && 0 <= b < m.out.len() && a != b implies
            m.out[a] != m.out[b] by {
            if a < e.out.len() && b == e.out.len() {
                assert(e.feats[e.out[a] as int]);
            }
            if b < e.out.len() && a == e.out.len() {
                assert(e.feats[e.out[b] as int]);
            }
        }
        assert(m.out.no_duplicates());
        assert forall|k: int| 0 <= k < m.out.len() implies #[trigger] m.out[k] < m.feats.len() by {
            if k < e.out.len() {
                assert(e.out[k] < e.feats.len());
            }
        }
        assert(listed_right(m));
    } else {
        assert(m.feats == e.feats && m.out == e.out);
        assert(listed_right(m));
    }
}

/// Two rows that agree on the features of every node in a set that is closed under children send
/// a walk that starts in the set to the same leaf.
pub proof fn law_rows_that_agree_where_it_matters_land_alike(
    ns: Seq<NodeModel>,
    set: Seq<bool>,
    x: RowModel,
    y: RowModel,
    rule: Rule,
    root: int,
)
    requires
        set.len() == ns.len(),
        0 <= root < ns.len() ==> set[root],
        agree_on(ns, set, x, y),
    ensures
        land(ns, 0, x, rule, root) == land(ns, 0, y, rule, root),
{
    lemma_agreeing_rows(ns, set, x, y, rule, root, ns.len());
}

/// Whether the set is closed under children and both rows have the same value for the feature of
/// every split in it.
pub open spec fn agree_on(ns: Seq<NodeModel>, set: Seq<bool>, x: RowModel, y: RowModel) -> bool {
    &&& x.len() == y.len()
    &&& forall|i: int|
        0 <= i < ns.len() && #[trigger] set[i] && !ns[i].leaf ==> {
            &&& 0 <= ns[i].fidx < x.len() ==> x[ns[i].fidx] == y[ns[i].fidx]
            &&& 0 <= ns[i].left < ns.len() ==> set[ns[i].left]
            &&& 0 <= ns[i].right < ns.len() ==> set[ns[i].right]
            &&& 0 <= ns[i].missing < ns.len() ==> set[ns[i].missing]
        }
}

proof fn lemma_agreeing_rows(
    ns: Seq<NodeModel>,
    set: Seq<bool>,
    x: RowModel,
    y: RowModel,
    rule: Rule,
    idx: int,
    fuel: nat,
)
    requires
        set.len() == ns.len(),
        0 <= idx < ns.len() ==> set[idx],
        agree_on(ns, set, x, y),
    ensures
        descend(ns, 0, x, rule, idx, fuel) == descend(ns, 0, y, rule, idx, fuel),
    decreases fuel,
{
    if 0 <= idx < ns.len() && !ns[idx].leaf && fuel > 0 {
        assert(set[idx]);
        assert(next_node(ns[idx], idx, x, rule) == next_node(ns[idx], idx, y, rule));
        if let Ok(next) = next_node(ns[idx], idx, x, rule) {
            lemma_agreeing_rows(ns, set, x, y, rule, next, (fuel - 1) as nat);
        }
    }
}

/// Whether some set of nodes holds node `root`, is closed under children, and has only splits on
/// the listed features.
pub open spec fn closed_over(ns: Seq<NodeModel>, root: int, listed: Seq<u16>) -> bool {
    exists|set: Seq<bool>| #[trigger] closed_set(ns, set, root, listed)
}

/// Whether the set holds node `root`, is closed under children, and has only splits on the listed
/// features.
pub open spec fn closed_set(
    ns: Seq<NodeModel>,
    set: Seq<bool>,
    root: int,
    listed: Seq<u16>,
) -> bool {
    &&& set.len() == ns.len()
    &&& 0 <= root < ns.len() ==> set[root]
    &&& forall|i: int|
        0 <= i < ns.len() && #[trigger] set[i] && !ns[i].leaf ==> {
            &&& exists|k: int| 0 <= k < listed.len() && listed[k] == ns[i].fidx
            &&& 0 <= ns[i].left < ns.len() ==> set[ns[i].left]
            &&& 0 <= ns[i].right < ns.len() ==> set[ns[i].right]
            &&& 0 <= ns[i].missing < ns.len() ==> set[ns[i].missing]
        }
}

/// Whether features in range, with flags in order.
spec fn fit_to_explore(ns: Seq<NodeModel>, e: Explored) -> bool {
    &&& closed_but(ns, Seq::empty(), e)
    &&& listed_right(e)
    &&& e.feats.len() <= 0x8000
    &&& forall|i: int| 0 <= i < ns.len() && !(#[trigger] ns[i]).leaf ==> 0 <= ns[i].fidx
        < e.feats.len()
}

proof fn lemma_weaken_stack(ns: Seq<NodeModel>, stack: Seq<int>, e: Explored)
    requires
        closed_but(ns, Seq::empty(), e),
    ensures
        closed_but(ns, stack, e),
{
    assert forall|i: int| 0 <= i < ns.len() && #[trigger] e.nodes[i] && !ns[i].leaf implies {
        &&& 0 <= ns[i].fidx < e.feats.len()
        &&& e.feats[ns[i].fidx]
        &&& reached(ns, stack, e, ns[i].left)
        &&& reached(ns, stack, e, ns[i].right)
        &&& reached(ns, stack, e, ns[i].missing)
    } by {
        assert(reached(ns, Seq::empty(), e, ns[i].left));
        assert(reached(ns, Seq::empty(), e, ns[i].right));
        assert(reached(ns, Seq::empty(), e, ns[i].missing));
    }
}

proof fn lemma_explore_trees(
    ns: Seq<NodeModel>,
    roots: Seq<u16>,
    a: int,
    b: int,
    e: Explored,
)
    requires
        0 <= a,
        fit_to_explore(ns, e),
        explore_trees(ns, roots, a, b, e) is Ok,
    ensures
        ({
            let end = explore_trees(ns, roots, a, b, e)->Ok_0;
            &&& fit_to_explore(ns, end)
            &&& further(e, end)
            &&& a < b ==> b <= roots.len()
            &&& forall|t: int| #![trigger roots[t]]
                a <= t < b && 0 <= roots[t] < ns.len() ==> end.nodes[roots[t] as int]
        }),
    decreases b - a,
{
    if a < b {
        let stack = seq![roots[a] as int];
        lemma_weaken_stack(ns, stack, e);
        law_exploration_is_complete(ns, stack, e);
        let next = explore(ns, stack, e);
        assert(stack[0] == roots[a] as int);
        assert(stack.contains(roots[a] as int));
        lemma_explore_trees(ns, roots, a + 1, b, next);
        let end = explore_trees(ns, roots, a, b, e)->Ok_0;
        assert(further(e, end)) by {
            assert forall|i: int| 0 <= i < e.nodes.len() && e.nodes[i] implies
                #[trigger] end.nodes[i] by {
                assert(next.nodes[i]);
            }
            assert forall|i: int| 0 <= i < e.feats.len() && e.feats[i] implies
                #[trigger] end.feats[i] by {
                assert(next.feats[i]);
            }
            assert(e.out =~= end.out.subrange(0, e.out.len() as int)) by {
                assert(next.out =~= end.out.subrange(0, next.out.len() as int));
                assert(e.out =~= next.out.subrange(0, e.out.len() as int));
            }
        }
        assert forall|t: int| #![trigger roots[t]]
            a <= t < b && 0 <= roots[t] < ns.len() implies end.nodes[roots[t] as int] by {
            if t == a {
                assert(next.nodes[roots[a] as int]);
            }
        }
        assert(a + 1 >= b ==> b <= roots.len());
    } else {
        assert(e.out =~= e.out.subrange(0, e.out.len() as int));
    }
}

/// Where stage `k` begins.
pub open spec fn stage_start(cps: Seq<usize>, k: int) -> int {
    if k <= 0 {
        0
    } else {
        cps[k - 1] as int
    }
}

proof fn lemma_plan(
    c: CompiledView,
    cps: Seq<usize>,
    i: int,
    feats: Seq<bool>,
    ids: Seq<u16>,
    offsets: Seq<u32>,
    k: int,
    t: int,
)
    requires
        splits_in_range(c),
        0 <= c.n_hot_features <= 0x8000,
        0 <= i <= cps.len(),
        feats.len() == c.n_hot_features,
        listed_right(fresh_nodes(c, feats, ids)),
        offsets.len() == i + 1,
        plan_from(c, cps, i, stage_start(cps, i), feats, ids, offsets) is Ok,
        plan_from(c, cps, i, stage_start(cps, i), feats, ids, offsets)->Ok_0.1.len() <= u32::MAX,
        i <= k < cps.len() ==> stage_start(cps, k) <= t < cps[k],
    ensures
        ({
            let (all_offsets, all_ids) = plan_from(
                c,
                cps,
                i,
                stage_start(cps, i),
                feats,
                ids,
                offsets,
            )->Ok_0;
            &&& ids.is_prefix_of(all_ids)
            &&& offsets.is_prefix_of(all_offsets)
            &&& all_offsets.len() == cps.len() + 1
            &&& i <= k < cps.len() ==> {
                &&& all_offsets[k + 1] <= all_ids.len()
                &&& t < c.tree_roots.len()
                &&& closed_over(
                    models(c.nodes),
                    c.tree_roots[t] as int,
                    all_ids.take(all_offsets[k + 1] as int),
                )
            }
        }),
    decreases cps.len() - i,
{
    let ns = models(c.nodes);
    if i < cps.len() {
        let e = fresh_nodes(c, feats, ids);
        assert forall|j: int| 0 <= j < ns.len() && !(#[trigger] ns[j]).leaf implies 0 <= ns[j].fidx
            < e.feats.len() by {
            assert(!c.nodes[j].model().leaf);
        }
        assert(fit_to_explore(ns, e));
        let start = stage_start(cps, i);
        lemma_explore_trees(ns, c.tree_roots, start, cps[i] as int, e);
        let end = explore_trees(ns, c.tree_roots, start, cps[i] as int, e)->Ok_0;
        let more = offsets.push(end.out.len() as u32);
        assert(listed_right(fresh_nodes(c, end.feats, end.out))) by {
            let anew = fresh_nodes(c, end.feats, end.out);
            assert(listed_right(end));
            assert(anew.feats == end.feats && anew.out == end.out);
            assert forall|f: int| 0 <= f < anew.feats.len() implies (#[trigger] anew.feats[f]
                <==> exists|k: int| 0 <= k < anew.out.len() && anew.out[k] == f) by {
                assert(end.feats[f] <==> exists|k: int| 0 <= k < end.out.len() && end.out[k] == f);
            }
        }
        lemma_plan(c, cps, i + 1, end.feats, end.out, more, k, t);
        let (all_offsets, all_ids) = plan_from(c, cps, i, start, feats, ids, offsets)->Ok_0;
        assert(ids =~= all_ids.subrange(0, ids.len() as int)) by {
            assert(end.out =~= all_ids.subrange(0, end.out.len() as int));
            assert(ids =~= end.out.subrange(0, ids.len() as int));
        }
        assert(offsets =~= all_offsets.subrange(0, offsets.len() as int)) by {
            assert(more =~= all_offsets.subrange(0, more.len() as int));
        }
        if k == i {
            assert(more =~= all_offsets.subrange(0, more.len() as int));
            assert(all_offsets[k + 1] == more[k + 1]);
            assert(end.out.len() <= all_ids.len());
            let listed = all_ids.take(all_offsets[k + 1] as int);
            assert(listed =~= end.out) by {
                assert(end.out =~= all_ids.subrange(0, end.out.len() as int));
            }
            let root = c.tree_roots[t] as int;
            assert(closed_set(ns, end.nodes, root, listed)) by {
                assert forall|j: int| 0 <= j < ns.len() && #[trigger] end.nodes[j] && !ns[j].leaf implies {
                    &&& exists|q: int| 0 <= q < listed.len() && listed[q] == ns[j].fidx
                    &&& 0 <= ns[j].left < ns.len() ==> end.nodes[ns[j].left]
                    &&& 0 <= ns[j].right < ns.len() ==> end.nodes[ns[j].right]
                    &&& 0 <= ns[j].missing < ns.len() ==> end.nodes[ns[j].missing]
                } by {
                    assert(end.feats[ns[j].fidx]);
                    assert(reached(ns, Seq::empty(), end, ns[j].left));
                    assert(reached(ns, Seq::empty(), end, ns[j].right));
                    assert(reached(ns, Seq::empty(), end, ns[j].missing));
                }
            }
            assert(closed_over(ns, root, listed));
        }
    } else {
        assert(ids =~= ids.subrange(0, ids.len() as int));
        assert(offsets =~= offsets.subrange(0, offsets.len() as int));
    }
}

/// Staging only the features of the stages so far is enough: a tree of stage `k` sends a buffer
/// that has them right to the same leaf as a buffer that has all features right.
pub proof fn law_staged_rows_land_alike(
    c: CompiledView,
    cps: Seq<usize>,
    k: int,
    t: int,
    staged: Seq<u32>,
    full: Seq<u32>,
    rule: Rule,
)
    requires
        splits_in_range(c),
        0 <= c.n_hot_features <= 0x8000,
        stage_plan(c, cps) is Ok,
        stage_plan(c, cps)->Ok_0.1.len() <= u32::MAX,
        0 <= k < cps.len(),
        stage_start(cps, k) <= t < cps[k],
        staged.len() == full.len(),
        forall|j: int|
            0 <= j < stage_plan(c, cps)->Ok_0.0[k + 1] && j < stage_plan(c, cps)->Ok_0.1.len() ==> {
                let f = #[trigger] stage_plan(c, cps)->Ok_0.1[j] as int;
                f < full.len() ==> staged[f] == full[f]
            },
    ensures
        t < c.tree_roots.len(),
        land(models(c.nodes), 0, full_row(staged), rule, c.tree_roots[t] as int) == land(
            models(c.nodes),
            0,
            full_row(full),
            rule,
            c.tree_roots[t] as int,
        ),
{
    let ns = models(c.nodes);
    let feats = Seq::new(c.n_hot_features as nat, |i: int| false);
    lemma_plan(c, cps, 0, feats, Seq::empty(), seq![0u32], k, t);
    let (offsets, ids) = stage_plan(c, cps)->Ok_0;
    let root = c.tree_roots[t] as int;
    let listed = ids.take(offsets[k + 1] as int);
    let set = choose|set: Seq<bool>| #[trigger] closed_set(ns, set, root, listed);
    let x = full_row(staged);
    let y = full_row(full);
    assert(agree_on(ns, set, x, y)) by {
        assert forall|i: int| 0 <= i < ns.len() && #[trigger] set[i] && !ns[i].leaf implies {
            &&& 0 <= ns[i].fidx < x.len() ==> x[ns[i].fidx] == y[ns[i].fidx]
            &&& 0 <= ns[i].left < ns.len() ==> set[ns[i].left]
            &&& 0 <= ns[i].right < ns.len() ==> set[ns[i].right]
            &&& 0 <= ns[i].missing < ns.len() ==> set[ns[i].missing]
        } by {
            let q = choose|q: int| 0 <= q < listed.len() && listed[q] == ns[i].fidx;
            assert(listed[q] == ids[q]);
        }
    }
    law_rows_that_agree_where_it_matters_land_alike(ns, set, x, y, rule, root);
}

/// Whether offsets start at nothing, do not fall, and lie within `n` entries.
pub open spec fn offsets_climb(o: Seq<u32>, n: int) -> bool {
    &&& o.len() > 0 && o[0] == 0
    &&& forall|a: int, b: int| 0 <= a <= b < o.len() ==> #[trigger] o[a] <= #[trigger] o[b]
    &&& forall|a: int| 0 <= a < o.len() ==> (#[trigger] o[a]) <= n
}

proof fn lemma_plan_climbs(
    c: CompiledView,
    cps: Seq<usize>,
    i: int,
    feats: Seq<bool>,
    ids: Seq<u16>,
    offsets: Seq<u32>,
)
    requires
        splits_in_range(c),
        0 <= c.n_hot_features <= 0x8000,
        0 <= i <= cps.len(),
        feats.len() == c.n_hot_features,
        listed_right(fresh_nodes(c, feats, ids)),
        offsets.len() == i + 1,
        offsets_climb(offsets, ids.len() as int),
        offsets.last() == ids.len(),
        plan_from(c, cps, i, stage_start(cps, i), feats, ids, offsets) is Ok,
        plan_from(c, cps, i, stage_start(cps, i), feats, ids, offsets)->Ok_0.1.len() <= u32::MAX,
    ensures
        ({
            let (all_offsets, all_ids) = plan_from(
                c,
                cps,
                i,
                stage_start(cps, i),
                feats,
                ids,
                offsets,
            )->Ok_0;
            &&& all_offsets.len() == cps.len() + 1
            &&& offsets_climb(all_offsets, all_ids.len() as int)
            &&& forall|k: int|
                i <= k < cps.len() ==> stage_start(cps, k) < #[trigger] cps[k] <= c.n_trees
        }),
    decreases cps.len() - i,
{
    let ns = models(c.nodes);
    if i < cps.len() {
        let start = stage_start(cps, i);
        lemma_plan(c, cps, i, feats, ids, offsets, i, start);
        let e = fresh_nodes(c, feats, ids);
        assert forall|j: int| 0 <= j < ns.len() && !(#[trigger] ns[j]).leaf implies 0 <= ns[j].fidx
            < e.feats.len() by {
            assert(!c.nodes[j].model().leaf);
        }
        assert(fit_to_explore(ns, e));
        lemma_explore_trees(ns, c.tree_roots, start, cps[i] as int, e);
        let end = explore_trees(ns, c.tree_roots, start, cps[i] as int, e)->Ok_0;
        let more = offsets.push(end.out.len() as u32);
        assert(listed_right(fresh_nodes(c, end.feats, end.out))) by {
            let anew = fresh_nodes(c, end.feats, end.out);
            assert(listed_right(end));
            assert(anew.feats == end.feats && anew.out == end.out);
            assert forall|f: int| 0 <= f < anew.feats.len() implies (#[trigger] anew.feats[f]
                <==> exists|k: int| 0 <= k < anew.out.len() && anew.out[k] == f) by {
                assert(end.feats[f] <==> exists|k: int| 0 <= k < end.out.len() && end.out[k] == f);
            }
        }
        lemma_plan(c, cps, i + 1, end.feats, end.out, more, i, start);
        let all_ids = plan_from(c, cps, i, start, feats, ids, offsets)->Ok_0.1;
        assert(end.out.len() <= all_ids.len());
        assert(ids.len() <= end.out.len());
        assert(offsets_climb(more, end.out.len() as int));
        lemma_plan_climbs(c, cps, i + 1, end.feats, end.out, more);
    }
}

/// The stages of a plan lie one behind the other, over checkpoints that rise.
pub proof fn lemma_plan_shape(c: CompiledView, cps: Seq<usize>)
    requires
        splits_in_range(c),
        0 <= c.n_hot_features <= 0x8000,
        cps.len() > 0,
        stage_plan(c, cps) is Ok,
        stage_plan(c, cps)->Ok_0.1.len() <= u32::MAX,
    ensures
        stage_plan(c, cps)->Ok_0.0.len() == cps.len() + 1,
        offsets_climb(stage_plan(c, cps)->Ok_0.0, stage_plan(c, cps)->Ok_0.1.len() as int),
        forall|k: int|
            0 <= k < cps.len() ==> stage_start(cps, k) < #[trigger] cps[k] <= c.n_trees,
{
    let feats = Seq::new(c.n_hot_features as nat, |i: int| false);
    lemma_plan_climbs(c, cps, 0, feats, Seq::empty(), seq![0u32]);
}

} // verus!
