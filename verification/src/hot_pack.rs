//! The compact form of the first trees: nodes of sixteen bytes, children in sixteen bits, the
//! feature and the leaf flag in one word.

use crate::descend::{descend, land, models, next_node, NodeModel, RoutingNode, RowModel, Rule};
use crate::forest::{LoadError, PrefixPack, PrefixView, TreeNode};
use crate::le::{
    begins_with, get_u16, get_u16s, get_u32, get_u32s, group_number_lens, holds_at,
    lemma_holds_is_subrange, lemma_holds_part, lemma_holds_whole, lemma_u16_back, lemma_u16s_back,
    lemma_u32_back, lemma_u32s_back, put_bytes, put_u16, put_u16s, put_u32, put_u32s, u16_at,
    u16_bytes, u16s_at, u16s_bytes, u32_at, u32_bytes, u32s_at, u32s_bytes, ReadError,
};
use vstd::prelude::*;

verus! {

broadcast use group_number_lens;

/// The bit that marks a leaf.
pub const HOT_COMPILED_NODE_LEAF: u16 = 0x8000;

/// The greatest feature number that fits beside the mark.
pub const HOT_COMPILED_NODE_FIDX_MASK: u16 = 0x7fff;

/// A compact node.
#[derive(Clone, Copy, Debug, PartialEq, Eq, Structural)]
pub struct HotCompiledPrefixNode {
    pub thr: u32,
    pub leaf: u32,
    pub left: u16,
    pub right: u16,
    pub missing: u16,
    pub hot_fidx_flags: u16,
}

impl HotCompiledPrefixNode {
    /// Whether the node is a leaf.
    pub fn is_leaf(self) -> (r: bool)
        ensures
            r == self.model().leaf,
    {
        self.hot_fidx_flags >= HOT_COMPILED_NODE_LEAF
    }

    /// The feature of a split.
    pub fn hot_fidx(self) -> (r: usize)
        ensures
            r == self.model().fidx,
    {
        (self.hot_fidx_flags % HOT_COMPILED_NODE_LEAF) as usize
    }
}

impl RoutingNode for HotCompiledPrefixNode {
    open spec fn model(&self) -> NodeModel {
        NodeModel {
            leaf: self.hot_fidx_flags >= 0x8000,
            value: self.leaf,
            fidx: (self.hot_fidx_flags % 0x8000) as int,
            thr: self.thr,
            left: self.left as int,
            right: self.right as int,
            missing: self.missing as int,
        }
    }

    fn leaf_value(&self) -> (r: Option<u32>) {
        if self.is_leaf() {
            Some(self.leaf)
        } else {
            None
        }
    }

    fn split(&self) -> (r: (i64, u32)) {
        (self.hot_fidx() as i64, self.thr)
    }

    fn children(&self) -> (r: (u32, u32, u32)) {
        (self.left as u32, self.right as u32, self.missing as u32)
    }
}

/// The first trees of a model in compact form.
#[derive(Debug)]
pub struct HotCompiledPrefixPack {
    pub n_hot_features: usize,
    pub n_trees: usize,
    pub hot_global_fidx: Vec<u32>,
    pub tree_roots: Vec<u16>,
    pub nodes: Vec<HotCompiledPrefixNode>,
}

/// What a compact pack holds.
#[verifier::ext_equal]
pub struct CompiledView {
    pub n_hot_features: int,
    pub n_trees: int,
    pub hot_global_fidx: Seq<u32>,
    pub tree_roots: Seq<u16>,
    pub nodes: Seq<HotCompiledPrefixNode>,
}

impl View for HotCompiledPrefixPack {
    type V = CompiledView;

    open spec fn view(&self) -> CompiledView {
        CompiledView {
            n_hot_features: self.n_hot_features as int,
            n_trees: self.n_trees as int,
            hot_global_fidx: self.hot_global_fidx@,
            tree_roots: self.tree_roots@,
            nodes: self.nodes@,
        }
    }
}

/// Why a pack has no compact form.
#[derive(Clone, Copy, Debug, PartialEq, Eq, Structural)]
pub enum CompileError {
    /// More features than the limit.
    Features { limit: usize, got: usize },
    /// More nodes than the limit.
    Nodes { limit: usize, got: usize },
}

/// The compact form of a node.
pub open spec fn compiled_node(n: TreeNode) -> HotCompiledPrefixNode {
    HotCompiledPrefixNode {
        thr: n.thr,
        leaf: n.leaf,
        left: n.left as u16,
        right: n.right as u16,
        missing: n.missing as u16,
        hot_fidx_flags: if n.is_leaf != 0 {
            0x8000
        } else if n.fidx < 0 {
            0
        } else {
            n.fidx as u16
        },
    }
}

/// The compact form of a pack.
pub open spec fn compiled(p: PrefixView) -> CompiledView {
    CompiledView {
        n_hot_features: p.n_hot_features,
        n_trees: p.n_trees,
        hot_global_fidx: p.hot_global_fidx,
        tree_roots: Seq::new(p.tree_roots.len(), |i: int| p.tree_roots[i] as u16),
        nodes: Seq::new(p.node_count as nat, |i: int| compiled_node(p.nodes[i])),
    }
}

/// What stands against the compact form of a pack.
pub open spec fn compile_fault(p: PrefixView) -> Option<CompileError> {
    if p.n_hot_features > 0xffff {
        Some(CompileError::Features { limit: 0xffff, got: p.n_hot_features as usize })
    } else if p.n_hot_features > 0x7fff {
        Some(CompileError::Features { limit: 0x7fff, got: p.n_hot_features as usize })
    } else if p.node_count > 0xffff {
        Some(CompileError::Nodes { limit: 0xffff, got: p.node_count as usize })
    } else {
        None
    }
}

/// Puts a pack into compact form.
pub fn compile_hot_prefix_pack(pack: &PrefixPack) -> (r: Result<HotCompiledPrefixPack, CompileError>)
    requires
        pack@.node_count <= pack@.nodes.len(),
    ensures
        match compile_fault(pack@) {
            Some(e) => r == Err::<HotCompiledPrefixPack, CompileError>(e),
            None => r matches Ok(c) && c@ == compiled(pack@),
        },
{
    if pack.n_hot_features > 0xffff {
        return Err(CompileError::Features { limit: 0xffff, got: pack.n_hot_features });
    }
    if pack.n_hot_features > HOT_COMPILED_NODE_FIDX_MASK as usize {
        return Err(CompileError::Features { limit: 0x7fff, got: pack.n_hot_features });
    }
    if pack.node_count > 0xffff {
        return Err(CompileError::Nodes { limit: 0xffff, got: pack.node_count });
    }
    let ghost want = compiled(pack@);
    let mut nodes: Vec<HotCompiledPrefixNode> = Vec::new();
    let mut idx: usize = 0;
    while idx < pack.node_count
        invariant
            idx <= pack.node_count,
            pack@.node_count <= pack@.nodes.len(),
            want == compiled(pack@),
            nodes@ == want.nodes.take(idx as int),
        decreases pack.node_count - idx,
    {
        let n: TreeNode = pack.nodes[idx];
        let flags: u16 = if n.is_leaf != 0 {
            HOT_COMPILED_NODE_LEAF
        } else if n.fidx < 0 {
            0
        } else {
            n.fidx as u16
        };
        nodes.push(
            HotCompiledPrefixNode {
                thr: n.thr,
                leaf: n.leaf,
                left: n.left as u16,
                right: n.right as u16,
                missing: n.missing as u16,
                hot_fidx_flags: flags,
            },
        );
        idx += 1;
        assert(nodes@ =~= want.nodes.take(idx as int));
    }
    assert(nodes@ =~= want.nodes);
    let mut roots: Vec<u16> = Vec::new();
    let mut k: usize = 0;
    while k < pack.tree_roots.len()
        invariant
            k <= pack.tree_roots@.len(),
            want == compiled(pack@),
            roots@ == want.tree_roots.take(k as int),
        decreases pack.tree_roots@.len() - k,
    {
        roots.push(pack.tree_roots[k] as u16);
        k += 1;
        assert(roots@ =~= want.tree_roots.take(k as int));
    }
    assert(roots@ =~= want.tree_roots);
    Ok(
        HotCompiledPrefixPack {
            n_hot_features: pack.n_hot_features,
            n_trees: pack.n_trees,
            hot_global_fidx: vstd::slice::slice_to_vec(pack.hot_global_fidx.as_slice()),
            tree_roots: roots,
            nodes,
        },
    )
}

/// Whether two lists of nodes send every row the same way.
pub open spec fn nodes_agree(a: Seq<NodeModel>, b: Seq<NodeModel>) -> bool {
    &&& a.len() == b.len()
    &&& forall|i: int|
        0 <= i < a.len() ==> {
            let x = #[trigger] a[i];
            let y = b[i];
            &&& x.leaf == y.leaf
            &&& x.leaf ==> x.value == y.value
            &&& !x.leaf ==> x.fidx == y.fidx && x.thr == y.thr && x.left == y.left && x.right
                == y.right && x.missing == y.missing
        }
}

proof fn lemma_agreeing_nodes(
    a: Seq<NodeModel>,
    b: Seq<NodeModel>,
    row: RowModel,
    rule: Rule,
    idx: int,
    fuel: nat,
)
    requires
        nodes_agree(a, b),
    ensures
        descend(a, 0, row, rule, idx, fuel) == descend(b, 0, row, rule, idx, fuel),
    decreases fuel,
{
    if 0 <= idx < a.len() {
        let x = a[idx];
        if !x.leaf && fuel > 0 {
            assert(next_node(a[idx], idx, row, rule) == next_node(b[idx], idx, row, rule));
            if let Ok(next) = next_node(x, idx, row, rule) {
                lemma_agreeing_nodes(a, b, row, rule, next, (fuel - 1) as nat);
            }
        }
    }
}

/// Whether every split and every child of a pack fits into the compact form.
pub open spec fn compact_in_range(p: PrefixView) -> bool {
    &&& p.node_count == p.nodes.len()
    &&& forall|i: int|
        0 <= i < p.nodes.len() && (#[trigger] p.nodes[i]).is_leaf == 0 ==> {
            &&& 0 <= p.nodes[i].fidx < 0x8000
            &&& p.nodes[i].left <= 0xffff
            &&& p.nodes[i].right <= 0xffff
            &&& p.nodes[i].missing <= 0xffff
        }
}

/// The compact form of a pack sends every row to the same leaf value over as many splits.
pub proof fn law_compiled_pack_lands_alike(
    p: PrefixView,
    row: RowModel,
    miss_aware: bool,
    root: int,
)
    requires
        compact_in_range(p),
    ensures
        land(models(compiled(p).nodes), 0, row, Rule { miss_aware, ranks: None }, root) == land(
            models(p.nodes),
            0,
            row,
            Rule { miss_aware, ranks: None },
            root,
        ),
{
    let a = models(compiled(p).nodes);
    let b = models(p.nodes);
    assert forall|i: int| 0 <= i < a.len() implies {
        let x = #[trigger] a[i];
        let y = b[i];
        &&& x.leaf == y.leaf
        &&& x.leaf ==> x.value == y.value
        &&& !x.leaf ==> x.fidx == y.fidx && x.thr == y.thr && x.left == y.left && x.right == y.right
            && x.missing == y.missing
    } by {
        let n = p.nodes[i];
        assert(b[i] == n.model());
        assert(a[i] == compiled_node(n).model());
    }
    lemma_agreeing_nodes(a, b, row, Rule { miss_aware, ranks: None }, root, a.len());
}

/// First bytes of a compact pack.
pub open spec fn magic_compiled() -> Seq<u8> {
    seq![76u8, 49, 80, 82, 70, 67, 49, 0]
}

/// The sixteen bytes of a compact node.
pub open spec fn hot_node_bytes(n: HotCompiledPrefixNode) -> Seq<u8> {
    u32_bytes(n.thr) + u32_bytes(n.leaf) + u16_bytes(n.left) + u16_bytes(n.right) + u16_bytes(
        n.missing,
    ) + u16_bytes(n.hot_fidx_flags)
}

/// The bytes of compact nodes, in order.
pub open spec fn hot_nodes_bytes(s: Seq<HotCompiledPrefixNode>) -> Seq<u8>
    decreases s.len(),
{
    if s.len() == 0 {
        Seq::empty()
    } else {
        hot_nodes_bytes(s.drop_last()) + hot_node_bytes(s.last())
    }
}

/// The compact node whose bytes start at `i`.
pub open spec fn hot_node_at(b: Seq<u8>, i: int) -> HotCompiledPrefixNode {
    HotCompiledPrefixNode {
        thr: u32_at(b, i),
        leaf: u32_at(b, i + 4),
        left: u16_at(b, i + 8),
        right: u16_at(b, i + 10),
        missing: u16_at(b, i + 12),
        hot_fidx_flags: u16_at(b, i + 14),
    }
}

/// `n` compact nodes, the first at `i`.
pub open spec fn hot_nodes_at(b: Seq<u8>, i: int, n: nat) -> Seq<HotCompiledPrefixNode> {
    Seq::new(n, |k: int| hot_node_at(b, i + 16 * k))
}

/// The bytes of the file that a compact pack is written as.
pub open spec fn compiled_bytes(c: CompiledView) -> Seq<u8> {
    magic_compiled() + u32_bytes(c.n_hot_features as u32) + u32_bytes(c.n_trees as u32) + u32_bytes(
        c.nodes.len() as u32,
    ) + u32s_bytes(c.hot_global_fidx) + u16s_bytes(c.tree_roots) + hot_nodes_bytes(c.nodes)
}

/// What the file `b` holds as a compact pack.
pub open spec fn parse_compiled(b: Seq<u8>) -> Result<CompiledView, LoadError> {
    let nh = u32_at(b, 8) as int;
    let nt = u32_at(b, 12) as int;
    let nn = u32_at(b, 16) as int;
    let roots_off = 20 + 4 * nh;
    let nodes_off = roots_off + 2 * nt;
    if b.len() < 20 {
        Err(LoadError::TooShort)
    } else if b.subrange(0, 8) != magic_compiled() {
        Err(LoadError::BadMagic)
    } else if roots_off > b.len() {
        Err(LoadError::Read(ReadError::U32))
    } else if nodes_off > b.len() {
        Err(LoadError::Read(ReadError::U16))
    } else if nodes_off + 16 * nn > b.len() {
        Err(
            LoadError::Read(
                if (b.len() - nodes_off) % 16 < 8 {
                    ReadError::Single
                } else {
                    ReadError::U16
                },
            ),
        )
    } else {
        Ok(
            CompiledView {
                n_hot_features: nh,
                n_trees: nt,
                hot_global_fidx: u32s_at(b, 20, nh as nat),
                tree_roots: u16s_at(b, roots_off, nt as nat),
                nodes: hot_nodes_at(b, nodes_off, nn as nat),
            },
        )
    }
}

/// Writes a compact pack.
pub fn save_compiled_hot_prefix_pack(pack: &HotCompiledPrefixPack) -> (out: Vec<u8>)
    ensures
        out@ == compiled_bytes(pack@),
{
    let mut out: Vec<u8> = Vec::new();
    let magic: [u8; 8] = [76, 49, 80, 82, 70, 67, 49, 0];
    assert(magic@ =~= magic_compiled());
    put_bytes(&mut out, magic.as_slice());
    assert(out@ =~= magic_compiled());
    put_u32(&mut out, pack.n_hot_features as u32);
    put_u32(&mut out, pack.n_trees as u32);
    put_u32(&mut out, pack.nodes.len() as u32);
    put_u32s(&mut out, pack.hot_global_fidx.as_slice());
    put_u16s(&mut out, pack.tree_roots.as_slice());
    let ghost before = out@;
    let mut k: usize = 0;
    assert(out@ =~= before + hot_nodes_bytes(pack.nodes@.take(0)));
    while k < pack.nodes.len()
        invariant
            k <= pack.nodes@.len(),
            out@ == before + hot_nodes_bytes(pack.nodes@.take(k as int)),
        decreases pack.nodes@.len() - k,
    {
        let n: HotCompiledPrefixNode = pack.nodes[k];
        put_u32(&mut out, n.thr);
        put_u32(&mut out, n.leaf);
        put_u16(&mut out, n.left);
        put_u16(&mut out, n.right);
        put_u16(&mut out, n.missing);
        put_u16(&mut out, n.hot_fidx_flags);
        proof {
            assert(pack.nodes@.take(k + 1).drop_last() =~= pack.nodes@.take(k as int));
            assert(out@ =~= before + (hot_nodes_bytes(pack.nodes@.take(k as int)) + hot_node_bytes(
                n,
            )));
        }
        k += 1;
    }
    assert(pack.nodes@.take(k as int) =~= pack.nodes@);
    out
}

/// Reads `n` compact nodes, the first at `i`.
fn get_hot_nodes(buf: &[u8], i: usize, n: usize) -> (v: Vec<HotCompiledPrefixNode>)
    requires
        i + 16 * n <= buf@.len(),
    ensures
        v@ == hot_nodes_at(buf@, i as int, n as nat),
{
    let len: usize = buf.len();
    let mut out: Vec<HotCompiledPrefixNode> = Vec::new();
    let mut k: usize = 0;
    while k < n
        invariant
            k <= n,
            i + 16 * n <= len,
            len == buf@.len(),
            out@ == hot_nodes_at(buf@, i as int, k as nat),
        decreases n - k,
    {
        let at: usize = i + 16 * k;
        out.push(
            HotCompiledPrefixNode {
                thr: get_u32(buf, at),
                leaf: get_u32(buf, at + 4),
                left: get_u16(buf, at + 8),
                right: get_u16(buf, at + 10),
                missing: get_u16(buf, at + 12),
                hot_fidx_flags: get_u16(buf, at + 14),
            },
        );
        k += 1;
        assert(out@ =~= hot_nodes_at(buf@, i as int, k as nat));
    }
    out
}

/// Reads a compact pack out of the bytes of its file.
pub fn load_compiled_hot_prefix_pack(buf: &[u8]) -> (r: Result<HotCompiledPrefixPack, LoadError>)
    ensures
        match r {
            Ok(c) => parse_compiled(buf@) == Ok::<CompiledView, LoadError>(c@),
            Err(e) => parse_compiled(buf@) == Err::<CompiledView, LoadError>(e),
        },
{
    let len: usize = buf.len();
    if len < 20 {
        return Err(LoadError::TooShort);
    }
    let magic: [u8; 8] = [76, 49, 80, 82, 70, 67, 49, 0];
    assert(magic@ =~= magic_compiled());
    if !begins_with(buf, magic.as_slice()) {
        return Err(LoadError::BadMagic);
    }
    let size: u64 = len as u64;
    let n_hot: u32 = get_u32(buf, 8);
    let n_trees: u32 = get_u32(buf, 12);
    let n_nodes: u32 = get_u32(buf, 16);
    let roots_off: u64 = 20 + 4 * (n_hot as u64);
    if roots_off > size {
        return Err(LoadError::Read(ReadError::U32));
    }
    let nodes_off: u64 = roots_off + 2 * (n_trees as u64);
    if nodes_off > size {
        return Err(LoadError::Read(ReadError::U16));
    }
    if nodes_off + 16 * (n_nodes as u64) > size {
        if (size - nodes_off) % 16 < 8 {
            return Err(LoadError::Read(ReadError::Single));
        }
        return Err(LoadError::Read(ReadError::U16));
    }
    Ok(
        HotCompiledPrefixPack {
            n_hot_features: n_hot as usize,
            n_trees: n_trees as usize,
            hot_global_fidx: get_u32s(buf, 20, n_hot as usize),
            tree_roots: get_u16s(buf, roots_off as usize, n_trees as usize),
            nodes: get_hot_nodes(buf, nodes_off as usize, n_nodes as usize),
        },
    )
}

proof fn lemma_hot_nodes_len(s: Seq<HotCompiledPrefixNode>)
    ensures
        hot_nodes_bytes(s).len() == 16 * s.len(),
    decreases s.len(),
{
    if s.len() > 0 {
        lemma_hot_nodes_len(s.drop_last());
    }
}

proof fn lemma_hot_nodes_back(b: Seq<u8>, i: int, s: Seq<HotCompiledPrefixNode>)
    requires
        holds_at(b, i, hot_nodes_bytes(s)),
    ensures
        hot_nodes_at(b, i, s.len()) == s,
    decreases s.len(),
{
    if s.len() > 0 {
        let head = s.drop_last();
        let n = s.last();
        lemma_hot_nodes_len(head);
        lemma_holds_part(b, i, hot_nodes_bytes(head), hot_node_bytes(n));
        lemma_hot_nodes_back(b, i, head);
        let at = i + 16 * head.len();
        let p1 = u32_bytes(n.thr);
        let p2 = p1 + u32_bytes(n.leaf);
        let p3 = p2 + u16_bytes(n.left);
        let p4 = p3 + u16_bytes(n.right);
        let p5 = p4 + u16_bytes(n.missing);
        lemma_holds_part(b, at, p5, u16_bytes(n.hot_fidx_flags));
        lemma_holds_part(b, at, p4, u16_bytes(n.missing));
        lemma_holds_part(b, at, p3, u16_bytes(n.right));
        lemma_holds_part(b, at, p2, u16_bytes(n.left));
        lemma_holds_part(b, at, p1, u32_bytes(n.leaf));
        lemma_u32_back(b, at, n.thr);
        lemma_u32_back(b, at + 4, n.leaf);
        lemma_u16_back(b, at + 8, n.left);
        lemma_u16_back(b, at + 10, n.right);
        lemma_u16_back(b, at + 12, n.missing);
        lemma_u16_back(b, at + 14, n.hot_fidx_flags);
        assert(hot_node_at(b, at) == n);
        assert forall|k: int| 0 <= k < s.len() implies hot_nodes_at(b, i, s.len())[k] == s[k] by {
            if k < head.len() {
                assert(hot_nodes_at(b, i, head.len())[k] == head[k]);
            }
        }
        assert(hot_nodes_at(b, i, s.len()) =~= s);
    } else {
        assert(hot_nodes_at(b, i, s.len()) =~= s);
    }
}

impl CompiledView {
    /// Whether the counts are those of the lists and fit into the file form.
    pub open spec fn consistent(self) -> bool {
        &&& self.n_hot_features == self.hot_global_fidx.len() <= u32::MAX
        &&& self.n_trees == self.tree_roots.len() <= u32::MAX
        &&& self.nodes.len() <= u32::MAX
    }
}

/// A compact pack that is written and read again is the pack that was written.
pub proof fn law_compiled_pack_round_trip(c: CompiledView)
    requires
        c.consistent(),
    ensures
        parse_compiled(compiled_bytes(c)) == Ok::<CompiledView, LoadError>(c),
{
    let b = compiled_bytes(c);
    let h0 = magic_compiled();
    let h1 = h0 + u32_bytes(c.n_hot_features as u32);
    let h2 = h1 + u32_bytes(c.n_trees as u32);
    let h3 = h2 + u32_bytes(c.nodes.len() as u32);
    let h4 = h3 + u32s_bytes(c.hot_global_fidx);
    let h5 = h4 + u16s_bytes(c.tree_roots);
    lemma_hot_nodes_len(c.nodes);
    lemma_holds_whole(b);
    lemma_holds_part(b, 0, h5, hot_nodes_bytes(c.nodes));
    lemma_holds_part(b, 0, h4, u16s_bytes(c.tree_roots));
    lemma_holds_part(b, 0, h3, u32s_bytes(c.hot_global_fidx));
    lemma_holds_part(b, 0, h2, u32_bytes(c.nodes.len() as u32));
    lemma_holds_part(b, 0, h1, u32_bytes(c.n_trees as u32));
    lemma_holds_part(b, 0, h0, u32_bytes(c.n_hot_features as u32));
    lemma_holds_is_subrange(b, 0, h0);
    lemma_u32_back(b, 8, c.n_hot_features as u32);
    lemma_u32_back(b, 12, c.n_trees as u32);
    lemma_u32_back(b, 16, c.nodes.len() as u32);
    lemma_u32s_back(b, 20, c.hot_global_fidx);
    lemma_u16s_back(b, 20 + 4 * c.n_hot_features, c.tree_roots);
    lemma_hot_nodes_back(b, 20 + 4 * c.n_hot_features + 2 * c.n_trees, c.nodes);
}

/// What a file is read as can be written back.
pub proof fn law_loaded_compiled_pack_is_consistent(b: Seq<u8>)
    requires
        parse_compiled(b) is Ok,
    ensures
        parse_compiled(b)->Ok_0.consistent(),
{
}

} // verus!
