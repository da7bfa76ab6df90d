//! Tree models with explicit nodes, and their file forms.

use crate::le::{
    begins_with, get_u32, get_u32s, u32_at, u32s_at, ReadError,
};
use vstd::prelude::*;

verus! {

/// A node: a leaf with a value, or a split on a feature.
#[derive(Clone, Copy, Debug, PartialEq, Eq, Structural)]
pub struct TreeNode {
    pub fidx: i32,
    pub left: u32,
    pub right: u32,
    pub missing: u32,
    pub thr: u32,
    pub leaf: u32,
    pub is_leaf: u8,
}

/// Why a file could not be read.
#[derive(Clone, Copy, Debug, PartialEq, Eq, Structural)]
pub enum LoadError {
    TooShort,
    BadMagic,
    Truncated,
    Read(ReadError),
}

/// A whole model.
#[derive(Debug)]
pub struct SoaModel {
    pub n_features: usize,
    pub n_trees: usize,
    pub node_count: usize,
    pub tree_roots: Vec<u32>,
    pub nodes: Vec<TreeNode>,
}

/// The first trees of a model, on features of their own.
#[derive(Debug)]
pub struct PrefixPack {
    pub n_hot_features: usize,
    pub n_trees: usize,
    pub node_count: usize,
    pub hot_global_fidx: Vec<u32>,
    pub tree_roots: Vec<u32>,
    pub nodes: Vec<TreeNode>,
}

/// For every number of trees, the least and the greatest sum that the rest can add.
#[derive(Debug)]
pub struct Bounds {
    pub n_trees: usize,
    pub suffix_min: Vec<u32>,
    pub suffix_max: Vec<u32>,
}

/// An order of the trees, with the bounds that belong to it.
#[derive(Debug)]
pub struct TreeOrder {
    pub n_trees: usize,
    pub order: Vec<u32>,
    pub suffix_min: Vec<u32>,
    pub suffix_max: Vec<u32>,
}

/// The thresholds of every feature in rising order, and for every split the place of its
/// threshold among them.
#[derive(Debug)]
pub struct RankPack {
    pub n_features: usize,
    pub node_thr_rank: Vec<i32>,
    pub feat_offset: Vec<u32>,
    pub feat_count: Vec<u32>,
    pub threshold_values: Vec<u32>,
}

/// What a model holds.
#[verifier::ext_equal]
pub struct SoaView {
    pub n_features: int,
    pub n_trees: int,
    pub node_count: int,
    pub tree_roots: Seq<u32>,
    pub nodes: Seq<TreeNode>,
}

/// What a prefix pack holds.
#[verifier::ext_equal]
pub struct PrefixView {
    pub n_hot_features: int,
    pub n_trees: int,
    pub node_count: int,
    pub hot_global_fidx: Seq<u32>,
    pub tree_roots: Seq<u32>,
    pub nodes: Seq<TreeNode>,
}

/// What bounds hold.
#[verifier::ext_equal]
pub struct BoundsView {
    pub n_trees: int,
    pub suffix_min: Seq<u32>,
    pub suffix_max: Seq<u32>,
}

/// What a tree order holds.
#[verifier::ext_equal]
pub struct OrderView {
    pub n_trees: int,
    pub order: Seq<u32>,
    pub suffix_min: Seq<u32>,
    pub suffix_max: Seq<u32>,
}

/// What a rank pack holds.
#[verifier::ext_equal]
pub struct RankView {
    pub n_features: int,
    pub node_thr_rank: Seq<i32>,
    pub feat_offset: Seq<u32>,
    pub feat_count: Seq<u32>,
    pub threshold_values: Seq<u32>,
}

impl View for SoaModel {
    type V = SoaView;

    open spec fn view(&self) -> SoaView {
        SoaView {
            n_features: self.n_features as int,
            n_trees: self.n_trees as int,
            node_count: self.node_count as int,
            tree_roots: self.tree_roots@,
            nodes: self.nodes@,
        }
    }
}

impl View for PrefixPack {
    type V = PrefixView;

    open spec fn view(&self) -> PrefixView {
        PrefixView {
            n_hot_features: self.n_hot_features as int,
            n_trees: self.n_trees as int,
            node_count: self.node_count as int,
            hot_global_fidx: self.hot_global_fidx@,
            tree_roots: self.tree_roots@,
            nodes: self.nodes@,
        }
    }
}

impl View for Bounds {
    type V = BoundsView;

    open spec fn view(&self) -> BoundsView {
        BoundsView {
            n_trees: self.n_trees as int,
            suffix_min: self.suffix_min@,
            suffix_max: self.suffix_max@,
        }
    }
}

impl View for TreeOrder {
    type V = OrderView;

    open spec fn view(&self) -> OrderView {
        OrderView {
            n_trees: self.n_trees as int,
            order: self.order@,
            suffix_min: self.suffix_min@,
            suffix_max: self.suffix_max@,
        }
    }
}

impl View for RankPack {
    type V = RankView;

    open spec fn view(&self) -> RankView {
        RankView {
            n_features: self.n_features as int,
            node_thr_rank: self.node_thr_rank@,
            feat_offset: self.feat_offset@,
            feat_count: self.feat_count@,
            threshold_values: self.threshold_values@,
        }
    }
}

impl BoundsView {
    /// Whether there is a bound after every number of trees.
    pub open spec fn complete(self) -> bool {
        &&& 0 <= self.n_trees
        &&& self.suffix_min.len() == self.n_trees + 1
        &&& self.suffix_max.len() == self.n_trees + 1
    }
}

impl OrderView {
    /// Whether every place of the order is filled and has its bounds.
    pub open spec fn complete(self) -> bool {
        &&& 0 <= self.n_trees
        &&& self.order.len() == self.n_trees
        &&& self.suffix_min.len() == self.n_trees + 1
        &&& self.suffix_max.len() == self.n_trees + 1
    }
}

/// First bytes of a model.
pub open spec fn magic_soa() -> Seq<u8> {
    seq![76u8, 49, 83, 79, 65, 118, 49, 0]
}

/// First bytes of bounds.
pub open spec fn magic_bounds() -> Seq<u8> {
    seq![76u8, 49, 66, 78, 68, 118, 49, 0]
}

/// First bytes of a tree order.
pub open spec fn magic_order() -> Seq<u8> {
    seq![76u8, 49, 79, 82, 68, 118, 49, 0]
}

/// First bytes of a prefix pack.
pub open spec fn magic_prefix() -> Seq<u8> {
    seq![76u8, 49, 80, 82, 70, 118, 49, 0]
}

/// First bytes of a rank pack.
pub open spec fn magic_rank() -> Seq<u8> {
    seq![76u8, 49, 82, 65, 78, 75, 118, 49, 0]
}

/// The node whose 28 bytes start at `i`; the last three are padding.
pub open spec fn node_at(b: Seq<u8>, i: int) -> TreeNode {
    TreeNode {
        fidx: u32_at(b, i) as i32,
        left: u32_at(b, i + 4),
        right: u32_at(b, i + 8),
        missing: u32_at(b, i + 12),
        thr: u32_at(b, i + 16),
        leaf: u32_at(b, i + 20),
        is_leaf: b[i + 24],
    }
}

/// `n` nodes, the first at `i`.
pub open spec fn nodes_at(b: Seq<u8>, i: int, n: nat) -> Seq<TreeNode> {
    Seq::new(n, |k: int| node_at(b, i + 28 * k))
}

/// What reading a node fails with when `rest` of its bytes are there.
pub open spec fn node_error(rest: int) -> LoadError {
    if rest < 16 {
        LoadError::Read(ReadError::U32)
    } else if rest < 24 {
        LoadError::Read(ReadError::Single)
    } else {
        LoadError::Truncated
    }
}

/// What the file `b` holds as a model.
pub open spec fn parse_soa(b: Seq<u8>) -> Result<SoaView, LoadError> {
    let nf = u32_at(b, 8) as int;
    let nt = u32_at(b, 12) as int;
    let nn = u32_at(b, 16) as int;
    let nodes_off = 20 + 4 * (nt + 1);
    if b.len() < 20 {
        Err(LoadError::TooShort)
    } else if b.subrange(0, 8) != magic_soa() {
        Err(LoadError::BadMagic)
    } else if nodes_off > b.len() {
        Err(LoadError::Read(ReadError::U32))
    } else if nodes_off + 28 * nn > b.len() {
        Err(node_error((b.len() - nodes_off) % 28))
    } else {
        Ok(
            SoaView {
                n_features: nf,
                n_trees: nt,
                node_count: nn,
                tree_roots: u32s_at(b, 20, nt as nat),
                nodes: nodes_at(b, nodes_off, nn as nat),
            },
        )
    }
}

/// What the file `b` holds as a prefix pack.
pub open spec fn parse_prefix_pack(b: Seq<u8>) -> Result<PrefixView, LoadError> {
    let nh = u32_at(b, 8) as int;
    let nt = u32_at(b, 12) as int;
    let nn = u32_at(b, 16) as int;
    let roots_off = 20 + 4 * nh;
    let nodes_off = roots_off + 4 * nt;
    if b.len() < 20 {
        Err(LoadError::TooShort)
    } else if b.subrange(0, 8) != magic_prefix() {
        Err(LoadError::BadMagic)
    } else if nodes_off > b.len() {
        Err(LoadError::Read(ReadError::U32))
    } else if nodes_off + 28 * nn > b.len() {
        Err(node_error((b.len() - nodes_off) % 28))
    } else {
        Ok(
            PrefixView {
                n_hot_features: nh,
                n_trees: nt,
                node_count: nn,
                hot_global_fidx: u32s_at(b, 20, nh as nat),
                tree_roots: u32s_at(b, roots_off, nt as nat),
                nodes: nodes_at(b, nodes_off, nn as nat),
            },
        )
    }
}

/// What the file `b` holds as bounds; the per-tree bounds that come first are passed over.
pub open spec fn parse_bounds(b: Seq<u8>) -> Result<BoundsView, LoadError> {
    let n = u32_at(b, 8) as int;
    let min_off = 12 + 8 * n;
    let max_off = min_off + 4 * (n + 1);
    if b.len() < 12 {
        Err(LoadError::TooShort)
    } else if b.subrange(0, 8) != magic_bounds() {
        Err(LoadError::BadMagic)
    } else if max_off + 4 * (n + 1) > b.len() {
        Err(LoadError::Read(ReadError::Single))
    } else {
        Ok(
            BoundsView {
                n_trees: n,
                suffix_min: u32s_at(b, min_off, (n + 1) as nat),
                suffix_max: u32s_at(b, max_off, (n + 1) as nat),
            },
        )
    }
}

/// What the file `b` holds as a tree order.
pub open spec fn parse_order(b: Seq<u8>) -> Result<OrderView, LoadError> {
    let n = u32_at(b, 8) as int;
    let min_off = 12 + 12 * n;
    let max_off = min_off + 4 * (n + 1);
    if b.len() < 12 {
        Err(LoadError::TooShort)
    } else if b.subrange(0, 8) != magic_order() {
        Err(LoadError::BadMagic)
    } else if 12 + 4 * n > b.len() {
        Err(LoadError::Read(ReadError::U32))
    } else if max_off + 4 * (n + 1) > b.len() {
        Err(LoadError::Read(ReadError::Single))
    } else {
        Ok(
            OrderView {
                n_trees: n,
                order: u32s_at(b, 12, n as nat),
                suffix_min: u32s_at(b, min_off, (n + 1) as nat),
                suffix_max: u32s_at(b, max_off, (n + 1) as nat),
            },
        )
    }
}

/// Four-byte numbers taken as signed.
pub open spec fn signed32(s: Seq<u32>) -> Seq<i32> {
    Seq::new(s.len(), |i: int| s[i] as i32)
}

/// What the file `b` holds as a rank pack.
pub open spec fn parse_rank_pack(b: Seq<u8>) -> Result<RankView, LoadError> {
    let nf = u32_at(b, 9) as int;
    let nn = u32_at(b, 13) as int;
    let nv = u32_at(b, 17) as int;
    let count_off = 21 + 4 * nf;
    let ranks_off = count_off + 4 * nf;
    let values_off = ranks_off + 4 * nn;
    if b.len() < 21 {
        Err(LoadError::TooShort)
    } else if b.subrange(0, 9) != magic_rank() {
        Err(LoadError::BadMagic)
    } else if values_off > b.len() {
        Err(LoadError::Read(ReadError::U32))
    } else if values_off + 4 * nv > b.len() {
        Err(LoadError::Read(ReadError::Single))
    } else {
        Ok(
            RankView {
                n_features: nf,
                node_thr_rank: signed32(u32s_at(b, ranks_off, nn as nat)),
                feat_offset: u32s_at(b, 21, nf as nat),
                feat_count: u32s_at(b, count_off, nf as nat),
                threshold_values: u32s_at(b, values_off, nv as nat),
            },
        )
    }
}

/// Reads `n` nodes, the first at `i`.
fn get_nodes(buf: &[u8], i: usize, n: usize) -> (v: Vec<TreeNode>)
    requires
        i + 28 * n <= buf@.len(),
    ensures
        v@ == nodes_at(buf@, i as int, n as nat),
{
    let len: usize = buf.len();
    let mut out: Vec<TreeNode> = Vec::new();
    let mut k: usize = 0;
    while k < n
        invariant
            k <= n,
            i + 28 * n <= len,
            len == buf@.len(),
            out@ == nodes_at(buf@, i as int, k as nat),
        decreases n - k,
    {
        let at: usize = i + 28 * k;
        out.push(
            TreeNode {
                fidx: get_u32(buf, at) as i32,
                left: get_u32(buf, at + 4),
                right: get_u32(buf, at + 8),
                missing: get_u32(buf, at + 12),
                thr: get_u32(buf, at + 16),
                leaf: get_u32(buf, at + 20),
                is_leaf: buf[at + 24],
            },
        );
        k += 1;
        assert(out@ =~= nodes_at(buf@, i as int, k as nat));
    }
    out
}

/// What reading a node fails with when `rest` of its bytes are there.
fn node_fault(rest: u64) -> (e: LoadError)
    ensures
        e == node_error(rest as int),
{
    if rest < 16 {
        LoadError::Read(ReadError::U32)
    } else if rest < 24 {
        LoadError::Read(ReadError::Single)
    } else {
        LoadError::Truncated
    }
}

/// Takes four-byte numbers as signed.
pub(crate) fn to_signed32(v: &Vec<u32>) -> (r: Vec<i32>)
    ensures
        r@ == signed32(v@),
{
    let mut out: Vec<i32> = Vec::new();
    let mut i: usize = 0;
    while i < v.len()
        invariant
            i <= v@.len(),
            out@ == signed32(v@.take(i as int)),
        decreases v@.len() - i,
    {
        out.push(v[i] as i32);
        i += 1;
        assert(out@ =~= signed32(v@.take(i as int)));
    }
    assert(v@.take(i as int) =~= v@);
    out
}

/// Reads a model out of the bytes of its file.
pub fn load_soa(buf: &[u8]) -> (r: Result<SoaModel, LoadError>)
    ensures
        match r {
            Ok(m) => parse_soa(buf@) == Ok::<SoaView, LoadError>(m@),
            Err(e) => parse_soa(buf@) == Err::<SoaView, LoadError>(e),
        },
{
    let len: usize = buf.len();
    if len < 20 {
        return Err(LoadError::TooShort);
    }
    let magic: [u8; 8] = [76, 49, 83, 79, 65, 118, 49, 0];
    assert(magic@ =~= magic_soa());
    if !begins_with(buf, magic.as_slice()) {
        return Err(LoadError::BadMagic);
    }
    let size: u64 = len as u64;
    let n_features: u32 = get_u32(buf, 8);
    let n_trees: u32 = get_u32(buf, 12);
    let n_nodes: u32 = get_u32(buf, 16);
    let nodes_off: u64 = 20 + 4 * (n_trees as u64 + 1);
    if nodes_off > size {
        return Err(LoadError::Read(ReadError::U32));
    }
    if nodes_off + 28 * (n_nodes as u64) > size {
        return Err(node_fault((size - nodes_off) % 28));
    }
    Ok(
        SoaModel {
            n_features: n_features as usize,
            n_trees: n_trees as usize,
            node_count: n_nodes as usize,
            tree_roots: get_u32s(buf, 20, n_trees as usize),
            nodes: get_nodes(buf, nodes_off as usize, n_nodes as usize),
        },
    )
}

/// Reads a prefix pack out of the bytes of its file.
pub fn load_prefix_pack(buf: &[u8]) -> (r: Result<PrefixPack, LoadError>)
    ensures
        match r {
            Ok(m) => parse_prefix_pack(buf@) == Ok::<PrefixView, LoadError>(m@),
            Err(e) => parse_prefix_pack(buf@) == Err::<PrefixView, LoadError>(e),
        },
{
    let len: usize = buf.len();
    if len < 20 {
        return Err(LoadError::TooShort);
    }
    let magic: [u8; 8] = [76, 49, 80, 82, 70, 118, 49, 0];
    assert(magic@ =~= magic_prefix());
    if !begins_with(buf, magic.as_slice()) {
        return Err(LoadError::BadMagic);
    }
    let size: u64 = len as u64;
    let n_hot: u32 = get_u32(buf, 8);
    let n_trees: u32 = get_u32(buf, 12);
    let n_nodes: u32 = get_u32(buf, 16);
    let roots_off: u64 = 20 + 4 * (n_hot as u64);
    let nodes_off: u64 = roots_off + 4 * (n_trees as u64);
    if nodes_off > size {
        return Err(LoadError::Read(ReadError::U32));
    }
    if nodes_off + 28 * (n_nodes as u64) > size {
        return Err(node_fault((size - nodes_off) % 28));
    }
    Ok(
        PrefixPack {
            n_hot_features: n_hot as usize,
            n_trees: n_trees as usize,
            node_count: n_nodes as usize,
            hot_global_fidx: get_u32s(buf, 20, n_hot as usize),
            tree_roots: get_u32s(buf, roots_off as usize, n_trees as usize),
            nodes: get_nodes(buf, nodes_off as usize, n_nodes as usize),
        },
    )
}

/// Reads bounds out of the bytes of their file.
pub fn load_bounds(buf: &[u8]) -> (r: Result<Bounds, LoadError>)
    ensures
        match r {
            Ok(m) => parse_bounds(buf@) == Ok::<BoundsView, LoadError>(m@),
            Err(e) => parse_bounds(buf@) == Err::<BoundsView, LoadError>(e),
        },
{
    let len: usize = buf.len();
    if len < 12 {
        return Err(LoadError::TooShort);
    }
    let magic: [u8; 8] = [76, 49, 66, 78, 68, 118, 49, 0];
    assert(magic@ =~= magic_bounds());
    if !begins_with(buf, magic.as_slice()) {
        return Err(LoadError::BadMagic);
    }
    let size: u64 = len as u64;
    let n: u32 = get_u32(buf, 8);
    let min_off: u64 = 12 + 8 * (n as u64);
    let max_off: u64 = min_off + 4 * (n as u64 + 1);
    if max_off + 4 * (n as u64 + 1) > size {
        return Err(LoadError::Read(ReadError::Single));
    }
    Ok(
        Bounds {
            n_trees: n as usize,
            suffix_min: get_u32s(buf, min_off as usize, n as usize + 1),
            suffix_max: get_u32s(buf, max_off as usize, n as usize + 1),
        },
    )
}

/// Reads a tree order out of the bytes of its file.
pub fn load_tree_order(buf: &[u8]) -> (r: Result<TreeOrder, LoadError>)
    ensures
        match r {
            Ok(m) => parse_order(buf@) == Ok::<OrderView, LoadError>(m@),
            Err(e) => parse_order(buf@) == Err::<OrderView, LoadError>(e),
        },
{
    let len: usize = buf.len();
    if len < 12 {
        return Err(LoadError::TooShort);
    }
    let magic: [u8; 8] = [76, 49, 79, 82, 68, 118, 49, 0];
    assert(magic@ =~= magic_order());
    if !begins_with(buf, magic.as_slice()) {
        return Err(LoadError::BadMagic);
    }
    let size: u64 = len as u64;
    let n: u32 = get_u32(buf, 8);
    if 12 + 4 * (n as u64) > size {
        return Err(LoadError::Read(ReadError::U32));
    }
    let min_off: u64 = 12 + 12 * (n as u64);
    let max_off: u64 = min_off + 4 * (n as u64 + 1);
    if max_off + 4 * (n as u64 + 1) > size {
        return Err(LoadError::Read(ReadError::Single));
    }
    Ok(
        TreeOrder {
            n_trees: n as usize,
            order: get_u32s(buf, 12, n as usize),
            suffix_min: get_u32s(buf, min_off as usize, n as usize + 1),
            suffix_max: get_u32s(buf, max_off as usize, n as usize + 1),
        },
    )
}

/// Reads a rank pack out of the bytes of its file.
pub fn load_rank_pack(buf: &[u8]) -> (r: Result<RankPack, LoadError>)
    ensures
        match r {
            Ok(m) => parse_rank_pack(buf@) == Ok::<RankView, LoadError>(m@),
            Err(e) => parse_rank_pack(buf@) == Err::<RankView, LoadError>(e),
        },
{
    let len: usize = buf.len();
    if len < 21 {
        return Err(LoadError::TooShort);
    }
    let magic: [u8; 9] = [76, 49, 82, 65, 78, 75, 118, 49, 0];
    assert(magic@ =~= magic_rank());
    if !begins_with(buf, magic.as_slice()) {
        return Err(LoadError::BadMagic);
    }
    let size: u64 = len as u64;
    let n_features: u32 = get_u32(buf, 9);
    let n_nodes: u32 = get_u32(buf, 13);
    let n_values: u32 = get_u32(buf, 17);
    let count_off: u64 = 21 + 4 * (n_features as u64);
    let ranks_off: u64 = count_off + 4 * (n_features as u64);
    let values_off: u64 = ranks_off + 4 * (n_nodes as u64);
    if values_off > size {
        return Err(LoadError::Read(ReadError::U32));
    }
    if values_off + 4 * (n_values as u64) > size {
        return Err(LoadError::Read(ReadError::Single));
    }
    let raw: Vec<u32> = get_u32s(buf, ranks_off as usize, n_nodes as usize);
    Ok(
        RankPack {
            n_features: n_features as usize,
            node_thr_rank: to_signed32(&raw),
            feat_offset: get_u32s(buf, 21, n_features as usize),
            feat_count: get_u32s(buf, count_off as usize, n_features as usize),
            threshold_values: get_u32s(buf, values_off as usize, n_values as usize),
        },
    )
}

/// How many trees a plan has when at most `max_trees` are wanted.
pub open spec fn plan_len(n: int, max_trees: Option<usize>) -> int {
    match max_trees {
        Some(m) => if m < n {
            m as int
        } else {
            n
        },
        None => n,
    }
}

/// The trees `0, 1, ..` in their own order.
pub open spec fn natural_order(n: int) -> Seq<u32> {
    Seq::new(n as nat, |i: int| i as u32)
}

/// The plan that bounds, an order and a limit give: the first trees of the order, or of the model
/// where there is no order, with the bounds that belong to them.
pub open spec fn planned(
    bounds: BoundsView,
    order: Option<OrderView>,
    max_trees: Option<usize>,
) -> Option<OrderView> {
    let n = plan_len(bounds.n_trees, max_trees);
    match order {
        Some(ord) => if ord.n_trees != bounds.n_trees {
            None
        } else {
            Some(
                OrderView {
                    n_trees: n,
                    order: ord.order.take(n),
                    suffix_min: ord.suffix_min.take(n + 1),
                    suffix_max: ord.suffix_max.take(n + 1),
                },
            )
        },
        None => Some(
            OrderView {
                n_trees: n,
                order: natural_order(n),
                suffix_min: bounds.suffix_min.take(n + 1),
                suffix_max: bounds.suffix_max.take(n + 1),
            },
        ),
    }
}

/// What an order that may be absent holds.
pub open spec fn order_view(order: Option<&TreeOrder>) -> Option<OrderView> {
    match order {
        Some(o) => Some(o@),
        None => None,
    }
}

/// The first `n` numbers.
fn head(s: &Vec<u32>, n: usize) -> (r: Vec<u32>)
    requires
        n <= s@.len(),
    ensures
        r@ == s@.take(n as int),
{
    let v: Vec<u32> = vstd::slice::slice_to_vec(vstd::slice::slice_subrange(s.as_slice(), 0, n));
    assert(v@ =~= s@.take(n as int));
    v
}

/// Fixes the order in which trees are visited. Nothing comes out where the order and the bounds
/// are for different numbers of trees.
pub fn materialize_tree_plan(
    bounds: &Bounds,
    tree_order: Option<&TreeOrder>,
    max_trees: Option<usize>,
) -> (r: Option<TreeOrder>)
    requires
        bounds@.complete(),
        tree_order matches Some(o) ==> o@.complete(),
    ensures
        match r {
            Some(p) => planned(bounds@, order_view(tree_order), max_trees) == Some(p@)
                && p@.complete(),
            None => planned(bounds@, order_view(tree_order), max_trees) is None,
        },
{
    let limit: usize = match max_trees {
        Some(m) => if m < bounds.n_trees {
            m
        } else {
            bounds.n_trees
        },
        None => bounds.n_trees,
    };
    assert(bounds.suffix_min@.len() == bounds.suffix_min.len());
    match tree_order {
        Some(ord) => {
            if ord.n_trees != bounds.n_trees {
                return None;
            }
            Some(
                TreeOrder {
                    n_trees: limit,
                    order: head(&ord.order, limit),
                    suffix_min: head(&ord.suffix_min, limit + 1),
                    suffix_max: head(&ord.suffix_max, limit + 1),
                },
            )
        },
        None => {
            let mut order: Vec<u32> = Vec::new();
            let mut i: usize = 0;
            while i < limit
                invariant
                    i <= limit,
                    order@ == natural_order(i as int),
                decreases limit - i,
            {
                order.push(i as u32);
                i += 1;
                assert(order@ =~= natural_order(i as int));
            }
            Some(
                TreeOrder {
                    n_trees: limit,
                    order,
                    suffix_min: head(&bounds.suffix_min, limit + 1),
                    suffix_max: head(&bounds.suffix_max, limit + 1),
                },
            )
        },
    }
}

/// What is read from files is complete.
pub proof fn law_loaded_bounds_and_orders_are_complete(b: Seq<u8>)
    ensures
        parse_bounds(b) matches Ok(m) ==> m.complete(),
        parse_order(b) matches Ok(m) ==> m.complete(),
{
}

} // verus!
