//! The first trees of a model in a form of their own: each tree's nodes side by side, children in
//! sixteen bits.

use crate::descend::{
    descend, descend_within, full_row, land, models, next_node, NodeModel, PlainRow, RoutingNode,
    RowModel, Rule, TraverseError,
};
use crate::forest::{SoaModel, TreeNode, TreeOrder};
use crate::kernel::smaller_count;
use crate::policy::ApproxPolicy;
use crate::stage_plan::{count_unset, lemma_count_unset};
use crate::traverse::{landed, model_leaf, ByValue, LeafSource};
use vstd::prelude::*;

verus! {

/// The greatest feature number that fits beside the mark of a leaf.
pub const HOT_L1_COMPACT_NODE_FIDX_MASK: usize = 0x7fff;

/// A node with the children's places in its tree.
#[derive(Clone, Copy, Debug, PartialEq, Eq, Structural)]
pub struct HotApproxL1CompactNode {
    pub thr: u32,
    pub leaf: u32,
    pub left: u16,
    pub right: u16,
    pub fidx_flags: u16,
}

impl RoutingNode for HotApproxL1CompactNode {
    open spec fn model(&self) -> NodeModel {
        NodeModel {
            leaf: self.fidx_flags >= 0x8000,
            value: self.leaf,
            fidx: (self.fidx_flags % 0x8000) as int,
            thr: self.thr,
            left: self.left as int,
            right: self.right as int,
            missing: self.right as int,
        }
    }

    fn leaf_value(&self) -> (r: Option<u32>) {
        if self.fidx_flags >= 0x8000 {
            Some(self.leaf)
        } else {
            None
        }
    }

    fn split(&self) -> (r: (i64, u32)) {
        ((self.fidx_flags % 0x8000) as i64, self.thr)
    }

    fn children(&self) -> (r: (u32, u32, u32)) {
        (self.left as u32, self.right as u32, self.right as u32)
    }
}

/// The first trees, one after the other.
#[derive(Debug)]
pub struct HotApproxL1CompactPack {
    pub n_trees: usize,
    pub tree_node_offs: Vec<u32>,
    pub nodes: Vec<HotApproxL1CompactNode>,
}

/// Why there is no such form.
#[derive(Clone, Copy, Debug, PartialEq, Eq, Structural)]
pub enum CompactError {
    /// A tree has more nodes than sixteen bits can number.
    Tree { pos: usize },
    /// All trees have more nodes than thirty-two bits can number.
    Nodes,
}

/// Whether node `x` says what node `y` says, where the children of `x` are places in `members`.
pub open spec fn mirrored(x: NodeModel, y: NodeModel, members: Seq<int>) -> bool {
    &&& x.leaf == y.leaf
    &&& x.leaf ==> x.value == y.value
    &&& !x.leaf ==> {
        &&& x.fidx == y.fidx
        &&& x.thr == y.thr
        &&& 0 <= x.left < members.len()
        &&& members[x.left] == y.left
        &&& 0 <= x.right < members.len()
        &&& members[x.right] == y.right
    }
}

/// Whether the nodes from `base` on are those of the members.
pub open spec fn mirrors(
    nodes: Seq<NodeModel>,
    base: int,
    ns: Seq<NodeModel>,
    members: Seq<int>,
) -> bool {
    &&& 0 <= base
    &&& base + members.len() <= nodes.len()
    &&& forall|i: int|
        0 <= i < members.len() ==> 0 <= #[trigger] members[i] < ns.len() && mirrored(
            nodes[base + i],
            ns[members[i]],
            members,
        )
}

/// Whether some tree from `base` on mirrors the tree of `root`.
pub open spec fn mirrors_tree(
    nodes: Seq<NodeModel>,
    base: int,
    ns: Seq<NodeModel>,
    root: int,
) -> bool {
    exists|members: Seq<int>| #[trigger]
        mirrors(nodes, base, ns, members) && members.len() > 0 && members[0] == root
}

/// Whether the first trees of an order are mirrored.
pub open spec fn mirrors_model(
    pack: HotApproxL1CompactPack,
    model: SoaModel,
    order: Seq<u32>,
) -> bool {
    &&& pack.tree_node_offs@.len() == pack.n_trees
    &&& pack.n_trees <= order.len()
    &&& forall|p: int| #![trigger pack.tree_node_offs@[p]]
        0 <= p < pack.n_trees ==> order[p] < model.tree_roots@.len() && mirrors_tree(
            models(pack.nodes@),
            pack.tree_node_offs@[p] as int,
            models(model.nodes@),
            model.tree_roots@[order[p] as int] as int,
        )
}

proof fn lemma_mirror_lands(
    nodes: Seq<NodeModel>,
    base: int,
    ns: Seq<NodeModel>,
    members: Seq<int>,
    row: RowModel,
    at: int,
    fuel: nat,
)
    requires
        mirrors(nodes, base, ns, members),
        0 <= at < members.len(),
    ensures
        descend(nodes, base, row, Rule { miss_aware: false, ranks: None }, base + at, fuel)
            == descend(ns, 0, row, Rule { miss_aware: false, ranks: None }, members[at], fuel),
    decreases fuel,
{
    let rule = Rule { miss_aware: false, ranks: None };
    let idx = members[at];
    let x = nodes[base + at];
    let y = ns[idx];
    assert(mirrored(x, y, members));
    if !y.leaf && fuel > 0 {
        if let Ok(next) = next_node(y, idx, row, rule) {
            let here = next_node(x, base + at, row, rule)->Ok_0;
            lemma_mirror_lands(nodes, base, ns, members, row, here, (fuel - 1) as nat);
        }
    }
}

/// A tree that mirrors another sends every row to the same leaf, where no value counts as missing.
pub proof fn law_mirrored_tree_lands_alike(
    nodes: Seq<NodeModel>,
    base: int,
    ns: Seq<NodeModel>,
    root: int,
    row: RowModel,
)
    requires
        mirrors_tree(nodes, base, ns, root),
    ensures
        descend(nodes, base, row, Rule { miss_aware: false, ranks: None }, base, ns.len()) == land(
            ns,
            0,
            row,
            Rule { miss_aware: false, ranks: None },
            root,
        ),
{
    let members = choose|members: Seq<int>| #[trigger]
        mirrors(nodes, base, ns, members) && members.len() > 0 && members[0] == root;
    lemma_mirror_lands(nodes, base, ns, members, row, 0, ns.len());
}

/// Whether the splits of a model name its features and lead to its nodes.
pub open spec fn model_fits(model: SoaModel) -> bool {
    let n = model.nodes@.len();
    &&& forall|i: int| 0 <= i < model.tree_roots@.len() ==> (#[trigger] model.tree_roots@[i]) < n
    &&& forall|i: int|
        0 <= i < n && (#[trigger] model.nodes@[i]).is_leaf == 0 ==> {
            &&& 0 <= model.nodes@[i].fidx < model.n_features
            &&& model.nodes@[i].left < n
            &&& model.nodes@[i].right < n
        }
}

/// The nodes that are found from the top of the stack on: a node once, its left child next.
pub open spec fn found_from(
    nodes: Seq<TreeNode>,
    stack: Seq<usize>,
    seen: Seq<bool>,
    found: Seq<usize>,
) -> Seq<usize>
    decreases count_unset(seen), stack.len(),
{
    if stack.len() == 0 {
        found
    } else {
        let idx = stack.last();
        let rest = stack.drop_last();
        if idx >= nodes.len() || idx >= seen.len() || seen[idx as int] {
            found_from(nodes, rest, seen, found)
        } else {
            let node = nodes[idx as int];
            proof {
                lemma_count_unset(seen, idx as int);
            }
            found_from(
                nodes,
                if node.is_leaf == 0 {
                    rest.push(node.right as usize).push(node.left as usize)
                } else {
                    rest
                },
                seen.update(idx as int, true),
                found.push(idx),
            )
        }
    }
}

/// The nodes of a tree, the root first.
pub open spec fn tree_nodes(nodes: Seq<TreeNode>, root: usize) -> Seq<usize> {
    found_from(nodes, seq![root], Seq::new(nodes.len(), |i: int| false), Seq::empty())
}

/// The nodes of the tree at a place of an order.
pub open spec fn nodes_at_place(model: SoaModel, order: Seq<u32>, pos: int) -> Seq<usize> {
    tree_nodes(model.nodes@, model.tree_roots@[order[pos] as int] as usize)
}

/// How many nodes the first `pos` trees of an order have together.
pub open spec fn nodes_before(model: SoaModel, order: Seq<u32>, pos: int) -> nat
    decreases pos,
{
    if pos <= 0 {
        0
    } else {
        nodes_before(model, order, pos - 1) + nodes_at_place(model, order, pos - 1).len()
    }
}

/// What keeps the first `k` trees of an order from having a form of their own: nodes that cannot
/// be numbered.
pub open spec fn compact_fault(model: SoaModel, order: Seq<u32>, k: int) -> Option<CompactError>
    decreases k,
{
    if k <= 0 {
        None
    } else {
        match compact_fault(model, order, k - 1) {
            Some(e) => Some(e),
            None => if nodes_before(model, order, k - 1) > u32::MAX {
                Some(CompactError::Nodes)
            } else if nodes_at_place(model, order, k - 1).len() > 0xffff {
                Some(CompactError::Tree { pos: (k - 1) as usize })
            } else {
                None
            },
        }
    }
}

proof fn lemma_compact_fault_lasts(model: SoaModel, order: Seq<u32>, k: int, j: int)
    requires
        k <= j,
        compact_fault(model, order, k) is Some,
    ensures
        compact_fault(model, order, j) == compact_fault(model, order, k),
    decreases j - k,
{
    if k < j {
        lemma_compact_fault_lasts(model, order, k, j - 1);
    }
}

proof fn lemma_found_grows(
    nodes: Seq<TreeNode>,
    stack: Seq<usize>,
    seen: Seq<bool>,
    found: Seq<usize>,
)
    ensures
        found_from(nodes, stack, seen, found).len() >= found.len(),
    decreases count_unset(seen), stack.len(),
{
    if stack.len() > 0 {
        let idx = stack.last();
        let rest = stack.drop_last();
        if idx >= nodes.len() || idx >= seen.len() || seen[idx as int] {
            lemma_found_grows(nodes, rest, seen, found);
        } else {
            let node = nodes[idx as int];
            lemma_count_unset(seen, idx as int);
            lemma_found_grows(
                nodes,
                if node.is_leaf == 0 {
                    rest.push(node.right as usize).push(node.left as usize)
                } else {
                    rest
                },
                seen.update(idx as int, true),
                found.push(idx),
            );
        }
    }
}

/// Whether `idx` was met or waits on the stack.
spec fn awaited(seen: Seq<bool>, stack: Seq<usize>, idx: int) -> bool {
    seen[idx] || exists|k: int| 0 <= k < stack.len() && stack[k] == idx
}

/// Whether the children of every member were met or wait on the stack.
spec fn gathered(
    nodes: Seq<TreeNode>,
    members: Seq<usize>,
    seen: Seq<bool>,
    stack: Seq<usize>,
) -> bool {
    forall|i: int|
        0 <= i < members.len() && nodes[#[trigger] members[i] as int].is_leaf == 0 ==> awaited(
            seen,
            stack,
            nodes[members[i] as int].left as int,
        ) && awaited(seen, stack, nodes[members[i] as int].right as int)
}

/// Whether members are numbered: each in range, its number its place.
spec fn numbered(members: Seq<usize>, seen: Seq<bool>, local: Seq<u16>, n: int) -> bool {
    &&& seen.len() == n
    &&& local.len() == n
    &&& members.len() <= 0xffff
    &&& forall|i: int| 0 <= i < members.len() ==> (#[trigger] members[i]) < n
    &&& forall|x: int|
        0 <= x < n && #[trigger] seen[x] ==> local[x] < members.len() && members[local[x] as int]
            == x
    &&& forall|i: int| 0 <= i < members.len() ==> seen[#[trigger] members[i] as int]
}

/// Lists the nodes of a tree, the root first, and numbers them.
fn gather(model: &SoaModel, root: usize, pos: usize, seen: &mut Vec<bool>, local: &mut Vec<u16>) -> (r:
    Result<Vec<usize>, CompactError>)
    requires
        model_fits(*model),
        root < model.nodes@.len(),
        old(seen)@.len() == model.nodes@.len(),
        old(local)@.len() == model.nodes@.len(),
        forall|i: int| 0 <= i < old(seen)@.len() ==> !#[trigger] old(seen)@[i],
    ensures
        match r {
            Err(e) => e == (CompactError::Tree { pos }) && tree_nodes(model.nodes@, root).len()
                > 0xffff,
            Ok(members) => {
                &&& members@ == tree_nodes(model.nodes@, root)
                &&& members@.len() > 0
                &&& members@[0] == root
                &&& numbered(
                    members@,
                    final(seen)@,
                    final(local)@,
                    model.nodes@.len() as int,
                )
                &&& gathered(model.nodes@, members@, final(seen)@, Seq::empty())
            },
        },
{
    let ghost n = model.nodes@.len() as int;
    let mut members: Vec<usize> = Vec::new();
    let mut stack: Vec<usize> = Vec::new();
    stack.push(root);
    let ghost want = tree_nodes(model.nodes@, root);
    proof {
        lemma_all_unset(seen@);
        assert(stack@ =~= seq![root]);
        assert(seen@ =~= Seq::new(model.nodes@.len(), |i: int| false));
        assert(members@ =~= Seq::empty());
    }
    while stack.len() > 0
        invariant
            model_fits(*model),
            n == model.nodes@.len(),
            root < n,
            members@.len() + count_unset(seen@) == n,
            want == tree_nodes(model.nodes@, root),
            want == found_from(model.nodes@, stack@, seen@, members@),
            numbered(members@, seen@, local@, n),
            gathered(model.nodes@, members@, seen@, stack@),
            forall|k: int| 0 <= k < stack@.len() ==> (#[trigger] stack@[k]) < n,
            members@.len() > 0 ==> members@[0] == root,
            members@.len() == 0 ==> stack@ == seq![root],
        decreases count_unset(seen@), stack@.len(),
    {
        let ghost st0 = stack@;
        let ghost seen0 = seen@;
        let ghost mem0 = members@;
        let idx: usize = stack[stack.len() - 1];
        stack.pop();
        assert(stack@ =~= st0.drop_last());
        if seen[idx] {
            proof {
                assert forall|i: int|
                    0 <= i < members@.len() && model.nodes@[#[trigger] members@[i] as int].is_leaf
                        == 0 implies awaited(
                    seen@,
                    stack@,
                    model.nodes@[members@[i] as int].left as int,
                ) && awaited(seen@, stack@, model.nodes@[members@[i] as int].right as int) by {
                    lemma_awaited_pop(seen@, st0, model.nodes@[members@[i] as int].left as int);
                    lemma_awaited_pop(seen@, st0, model.nodes@[members@[i] as int].right as int);
                }
                assert(members@.len() == 0 ==> false) by {
                    if members@.len() == 0 {
                        assert(seen@[idx as int]);
                    }
                }
            }
        } else {
            proof {
                lemma_count_unset(seen@, idx as int);
            }
            if members.len() >= 0xffff {
                proof {
                    let node = model.nodes@[idx as int];
                    lemma_found_grows(
                        model.nodes@,
                        if node.is_leaf == 0 {
                            stack@.push(node.right as usize).push(node.left as usize)
                        } else {
                            stack@
                        },
                        seen@.update(idx as int, true),
                        members@.push(idx),
                    );
                }
                return Err(CompactError::Tree { pos });
            }
            seen[idx] = true;
            local[idx] = members.len() as u16;
            members.push(idx);
            let node: TreeNode = model.nodes[idx];
            if node.is_leaf == 0 {
                stack.push(node.right as usize);
                stack.push(node.left as usize);
            }
            proof {
                assert(numbered(members@, seen@, local@, n)) by {
                    assert forall|x: int| 0 <= x < n && #[trigger] seen@[x] implies local@[x]
                        < members@.len() && members@[local@[x] as int] == x by {
                        if x != idx {
                            assert(seen0[x]);
                        }
                    }
                    assert forall|i: int| 0 <= i < members@.len() implies seen@[#[trigger]
                    members@[i] as int] by {
                        if i < mem0.len() {
                            assert(seen0[mem0[i] as int]);
                        }
                    }
                }
                assert forall|i: int|
                    0 <= i < members@.len() && model.nodes@[#[trigger] members@[i] as int].is_leaf
                        == 0 implies awaited(
                    seen@,
                    stack@,
                    model.nodes@[members@[i] as int].left as int,
                ) && awaited(seen@, stack@, model.nodes@[members@[i] as int].right as int) by {
                    let l = model.nodes@[members@[i] as int].left as int;
                    let r = model.nodes@[members@[i] as int].right as int;
                    if i < mem0.len() {
                        assert(mem0[i] == members@[i]);
                        lemma_awaited_visit(seen0, st0, seen@, stack@, l);
                        lemma_awaited_visit(seen0, st0, seen@, stack@, r);
                    } else {
                        let k = stack@.len() as int;
                        assert(stack@[k - 1] == l);
                        assert(stack@[k - 2] == r);
                    }
                }
            }
        }
    }
    Ok(members)
}

proof fn lemma_all_unset(s: Seq<bool>)
    requires
        forall|i: int| 0 <= i < s.len() ==> !#[trigger] s[i],
    ensures
        count_unset(s) == s.len(),
    decreases s.len(),
{
    if s.len() > 0 {
        lemma_all_unset(s.drop_last());
    }
}

proof fn lemma_awaited_pop(seen: Seq<bool>, stack: Seq<usize>, x: int)
    requires
        stack.len() > 0,
        0 <= stack.last() < seen.len(),
        seen[stack.last() as int],
        awaited(seen, stack, x),
    ensures
        awaited(seen, stack.drop_last(), x),
{
    if !seen[x] {
        let k = choose|k: int| 0 <= k < stack.len() && stack[k] == x;
        assert(k < stack.len() - 1);
        assert(stack.drop_last()[k] == x);
    }
}

proof fn lemma_awaited_visit(
    seen0: Seq<bool>,
    st0: Seq<usize>,
    seen: Seq<bool>,
    stack: Seq<usize>,
    x: int,
)
    requires
        st0.len() > 0,
        0 <= st0.last() < seen0.len(),
        seen == seen0.update(st0.last() as int, true),
        0 <= x < seen0.len(),
        stack.len() >= st0.len() - 1,
        forall|k: int| 0 <= k < st0.len() - 1 ==> stack[k] == #[trigger] st0[k],
        awaited(seen0, st0, x),
    ensures
        awaited(seen, stack, x),
{
    if !seen[x] {
        let k = choose|k: int| 0 <= k < st0.len() && st0[k] == x;
        assert(k < st0.len() - 1);
        assert(stack[k] == x);
    }
}

proof fn lemma_mirrors_grow(
    a: Seq<HotApproxL1CompactNode>,
    b: Seq<HotApproxL1CompactNode>,
    base: int,
    ns: Seq<NodeModel>,
    root: int,
)
    requires
        mirrors_tree(models(a), base, ns, root),
        a.len() <= b.len(),
        forall|i: int| 0 <= i < a.len() ==> a[i] == #[trigger] b[i],
    ensures
        mirrors_tree(models(b), base, ns, root),
{
    let members = choose|members: Seq<int>| #[trigger]
        mirrors(models(a), base, ns, members) && members.len() > 0 && members[0] == root;
    assert(mirrors(models(b), base, ns, members)) by {
        assert forall|i: int| 0 <= i < members.len() implies 0 <= #[trigger] members[i] < ns.len()
            && mirrored(models(b)[base + i], ns[members[i]], members) by {
            assert(models(a)[base + i] == models(b)[base + i]);
        }
    }
}

/// How many trees of a model have a form of their own: as many as the policy looks at, unless the
/// model has too many features.
pub open spec fn own_form_trees(model: SoaModel, plan: TreeOrder, policy: ApproxPolicy) -> usize {
    if model.n_features > 0x7fff {
        0
    } else {
        smaller_count(policy.k_hot, plan.n_trees)
    }
}

/// Puts the first trees of a model into their own form: as many as the policy looks at. There is
/// none where the policy looks at no tree or the model has too many features.
pub fn compile_hot_approx_l1_compact_pack(
    model: &SoaModel,
    plan: &TreeOrder,
    approx_policy: &ApproxPolicy,
) -> (r: Result<Option<HotApproxL1CompactPack>, CompactError>)
    requires
        model_fits(*model),
        plan.n_trees <= plan.order@.len(),
        forall|p: int|
            0 <= p < plan.order@.len() ==> (#[trigger] plan.order@[p]) < model.tree_roots@.len(),
    ensures
        ({
            let k = own_form_trees(*model, *plan, *approx_policy);
            if k == 0 {
                r == Ok::<Option<HotApproxL1CompactPack>, CompactError>(None)
            } else {
                match compact_fault(*model, plan.order@, k as int) {
                    Some(e) => r == Err::<Option<HotApproxL1CompactPack>, CompactError>(e),
                    None => r matches Ok(x) && x matches Some(pack) && pack.n_trees == k
                        && mirrors_model(pack, *model, plan.order@),
                }
            }
        }),
{
    let k_hot: usize = if approx_policy.k_hot <= plan.n_trees {
        approx_policy.k_hot
    } else {
        plan.n_trees
    };
    if k_hot == 0 || model.n_features > HOT_L1_COMPACT_NODE_FIDX_MASK {
        return Ok(None);
    }
    let ghost ns = models(model.nodes@);
    let n: usize = model.nodes.len();
    let mut offs: Vec<u32> = Vec::new();
    let mut nodes: Vec<HotApproxL1CompactNode> = Vec::new();
    let mut seen: Vec<bool> = vec![false; n];
    let mut local: Vec<u16> = vec![0u16; n];
    let mut pos: usize = 0;
    while pos < k_hot
        invariant
            pos <= k_hot <= plan.order@.len(),
            k_hot == smaller_count(approx_policy.k_hot, plan.n_trees),
            k_hot > 0,
            nodes@.len() == nodes_before(*model, plan.order@, pos as int),
            compact_fault(*model, plan.order@, pos as int) is None,
            n == model.nodes@.len(),
            model.n_features <= 0x7fff,
            model_fits(*model),
            ns == models(model.nodes@),
            forall|p: int|
                0 <= p < plan.order@.len() ==> (#[trigger] plan.order@[p])
                    < model.tree_roots@.len(),
            seen@.len() == n,
            local@.len() == n,
            forall|i: int| 0 <= i < n ==> !#[trigger] seen@[i],
            offs@.len() == pos,
            forall|p: int| #![trigger offs@[p]]
                0 <= p < pos ==> mirrors_tree(
                    models(nodes@),
                    offs@[p] as int,
                    ns,
                    model.tree_roots@[plan.order@[p] as int] as int,
                ),
        decreases k_hot - pos,
    {
        if nodes.len() > 0xffff_ffff {
            proof {
                lemma_compact_fault_lasts(*model, plan.order@, pos + 1, k_hot as int);
            }
            return Err(CompactError::Nodes);
        }
        assert(plan.order@[pos as int] < model.tree_roots@.len());
        let tree: usize = plan.order[pos] as usize;
        assert(model.tree_roots@[tree as int] < n);
        let root: usize = model.tree_roots[tree] as usize;
        let members: Vec<usize> = match gather(model, root, pos, &mut seen, &mut local) {
            Err(e) => {
                proof {
                    lemma_compact_fault_lasts(*model, plan.order@, pos + 1, k_hot as int);
                }
                return Err(e);
            },
            Ok(m) => m,
        };
        let ghost nodes0 = nodes@;
        let ghost places = Seq::new(members@.len(), |i: int| members@[i] as int);
        let base: usize = nodes.len();
        let mut i: usize = 0;
        while i < members.len()
            invariant
                i <= members@.len(),
                n == model.nodes@.len(),
                model.n_features <= 0x7fff,
                model_fits(*model),
                ns == models(model.nodes@),
                numbered(members@, seen@, local@, n as int),
                gathered(model.nodes@, members@, seen@, Seq::empty()),
                places == Seq::new(members@.len(), |i: int| members@[i] as int),
                base == nodes0.len(),
                nodes@.len() == base + i,
                forall|q: int| 0 <= q < nodes0.len() ==> nodes0[q] == #[trigger] nodes@[q],
                forall|q: int|
                    0 <= q < i ==> mirrored(
                        (#[trigger] nodes@[base + q]).model(),
                        ns[members@[q] as int],
                        places,
                    ),
            decreases members@.len() - i,
        {
            let idx: usize = members[i];
            assert(members@[i as int] < n);
            let node: TreeNode = model.nodes[idx];
            let ghost before = nodes@;
            if node.is_leaf != 0 {
                nodes.push(
                    HotApproxL1CompactNode {
                        thr: 0,
                        leaf: node.leaf,
                        left: 0,
                        right: 0,
                        fidx_flags: 0x8000,
                    },
                );
            } else {
                assert(model.nodes@[idx as int].is_leaf == 0);
                assert(awaited(seen@, Seq::empty(), node.left as int));
                assert(awaited(seen@, Seq::empty(), node.right as int));
                assert(seen@[node.left as int] && seen@[node.right as int]);
                nodes.push(
                    HotApproxL1CompactNode {
                        thr: node.thr,
                        leaf: 0,
                        left: local[node.left as usize],
                        right: local[node.right as usize],
                        fidx_flags: node.fidx as u16,
                    },
                );
            }
            proof {
                let x = nodes@[base + i].model();
                let y = ns[idx as int];
                assert(mirrored(x, y, places));
                assert forall|q: int| 0 <= q < i + 1 implies mirrored(
                    (#[trigger] nodes@[base + q]).model(),
                    ns[members@[q] as int],
                    places,
                ) by {
                    if q < i {
                        assert(nodes@[base + q] == before[base + q]);
                    }
                }
            }
            i += 1;
        }
        proof {
            assert(mirrors(models(nodes@), base as int, ns, places)) by {
                assert forall|q: int| 0 <= q < places.len() implies 0 <= #[trigger] places[q]
                    < ns.len() && mirrored(models(nodes@)[base + q], ns[places[q]], places) by {
                    assert(members@[q] < n);
                    assert(mirrored(
                        nodes@[base + q].model(),
                        ns[members@[q] as int],
                        places,
                    ));
                }
            }
            assert(mirrors_tree(models(nodes@), base as int, ns, root as int));
            assert forall|p: int| #![trigger offs@[p]] 0 <= p < pos implies mirrors_tree(
                models(nodes@),
                offs@[p] as int,
                ns,
                model.tree_roots@[plan.order@[p] as int] as int,
            ) by {
                lemma_mirrors_grow(
                    nodes0,
                    nodes@,
                    offs@[p] as int,
                    ns,
                    model.tree_roots@[plan.order@[p] as int] as int,
                );
            }
        }
        seen = vec![false; n];
        offs.push(base as u32);
        pos += 1;
    }
    let pack: HotApproxL1CompactPack = HotApproxL1CompactPack {
        n_trees: k_hot,
        tree_node_offs: offs,
        nodes,
    };
    assert(mirrors_model(pack, *model, plan.order@));
    Ok(Some(pack))
}

/// A row without missing values whose first trees come from their own form.
pub struct CompactFirst<'a> {
    pub pack: &'a HotApproxL1CompactPack,
    pub model: &'a SoaModel,
    pub order: &'a Vec<u32>,
    pub feat: &'a [u32],
}

impl<'a> LeafSource for CompactFirst<'a> {
    open spec fn leaf_at(&self, pos: int) -> Result<u32, TraverseError> {
        let rule = Rule { miss_aware: false, ranks: None };
        let row = full_row(self.feat@);
        if 0 <= pos < self.pack.n_trees {
            if pos < self.pack.tree_node_offs@.len() {
                let base = self.pack.tree_node_offs@[pos] as int;
                landed(
                    descend(
                        models(self.pack.nodes@),
                        base,
                        row,
                        rule,
                        base,
                        self.model.nodes@.len(),
                    ),
                )
            } else {
                Err(TraverseError::Stray)
            }
        } else {
            model_leaf(*self.model, self.order@, row, rule, pos)
        }
    }

    open spec fn ready(&self) -> bool {
        true
    }

    open spec fn room(&self) -> nat {
        0
    }

    fn leaf(&mut self, pos: usize) -> (r: Result<u32, TraverseError>) {
        if pos < self.pack.n_trees {
            if pos >= self.pack.tree_node_offs.len() {
                return Err(TraverseError::Stray);
            }
            let base: usize = self.pack.tree_node_offs[pos] as usize;
            let mut row: PlainRow = PlainRow { feat: self.feat };
            match descend_within(
                &self.pack.nodes,
                base,
                &mut row,
                false,
                base,
                self.model.nodes.len(),
            ) {
                Ok((v, _)) => Ok(v),
                Err(e) => Err(e),
            }
        } else {
            let mut rest: ByValue = ByValue {
                model: self.model,
                order: self.order,
                feat: self.feat,
                miss_aware: false,
            };
            rest.leaf(pos)
        }
    }
}

/// Taking the first trees from their own form gives the same leaf values as taking them from the
/// model.
pub proof fn law_compact_trees_give_the_same_leaves(c: CompactFirst, pos: int)
    requires
        mirrors_model(*c.pack, *c.model, c.order@),
    ensures
        c.leaf_at(pos) == model_leaf(
            *c.model,
            c.order@,
            full_row(c.feat@),
            Rule { miss_aware: false, ranks: None },
            pos,
        ),
{
    if 0 <= pos < c.pack.n_trees {
        let base = c.pack.tree_node_offs@[pos] as int;
        law_mirrored_tree_lands_alike(
            models(c.pack.nodes@),
            base,
            models(c.model.nodes@),
            c.model.tree_roots@[c.order@[pos] as int] as int,
            full_row(c.feat@),
        );
    }
}

} // verus!
