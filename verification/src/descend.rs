//! Walking one row down one tree.
//!
//! A split compares the row's value of its feature with its threshold, or the value's rank with
//! the rank of the threshold. A walk that leaves the nodes or the row, or finds no leaf in as many
//! moves as there are nodes, has gone astray.

use crate::forest::{RankPack, RankView, TreeNode};
use crate::rank::{lemma_rank_range, rank_of, upper_bound_auto};
use crate::single::{at_most, below, is_nan, lt, nan, rising};
use vstd::prelude::*;

verus! {

/// What a node says, whatever its layout.
pub struct NodeModel {
    pub leaf: bool,
    pub value: u32,
    pub fidx: int,
    pub thr: u32,
    pub left: int,
    pub right: int,
    pub missing: int,
}

/// Why a row could not be walked down a tree.
#[derive(Clone, Copy, Debug, PartialEq, Eq, Structural)]
pub enum TraverseError {
    /// A split has no threshold rank.
    MissingRank,
    /// The walk left the nodes or the row, or met no leaf.
    Stray,
}

/// A node in some layout.
pub trait RoutingNode: Sized {
    /// What the node says.
    spec fn model(&self) -> NodeModel;

    /// The value of a leaf.
    fn leaf_value(&self) -> (r: Option<u32>)
        ensures
            r == (if self.model().leaf {
                Some(self.model().value)
            } else {
                None
            }),
    ;

    /// Feature and threshold of a split.
    fn split(&self) -> (r: (i64, u32))
        ensures
            r.0 == self.model().fidx,
            r.1 == self.model().thr,
    ;

    /// Where a split leads: left, right, and on a missing value.
    fn children(&self) -> (r: (u32, u32, u32))
        ensures
            r.0 == self.model().left,
            r.1 == self.model().right,
            r.2 == self.model().missing,
    ;
}

impl RoutingNode for TreeNode {
    open spec fn model(&self) -> NodeModel {
        NodeModel {
            leaf: self.is_leaf != 0,
            value: self.leaf,
            fidx: self.fidx as int,
            thr: self.thr,
            left: self.left as int,
            right: self.right as int,
            missing: self.missing as int,
        }
    }

    fn leaf_value(&self) -> (r: Option<u32>) {
        if self.is_leaf != 0 {
            Some(self.leaf)
        } else {
            None
        }
    }

    fn split(&self) -> (r: (i64, u32)) {
        (self.fidx as i64, self.thr)
    }

    fn children(&self) -> (r: (u32, u32, u32)) {
        (self.left, self.right, self.missing)
    }
}

/// What nodes say.
pub open spec fn models<N: RoutingNode>(nodes: Seq<N>) -> Seq<NodeModel> {
    Seq::new(nodes.len(), |i: int| nodes[i].model())
}

/// The row's values by feature; nothing where the row has no such feature.
pub type RowModel = Seq<Option<u32>>;

/// A row that has every feature.
pub open spec fn full_row(feat: Seq<u32>) -> RowModel {
    Seq::new(feat.len(), |i: int| Some(feat[i]))
}

/// The row as seen through a choice of its features.
pub open spec fn chosen_row(map: Seq<u32>, feat: Seq<u32>) -> RowModel {
    Seq::new(
        map.len(),
        |h: int|
            if map[h] < feat.len() {
                Some(feat[map[h] as int])
            } else {
                None
            },
    )
}

/// The thresholds of feature `f`.
pub open spec fn thresholds(rp: RankView, f: int) -> Seq<u32> {
    rp.threshold_values.subrange(
        rp.feat_offset[f] as int,
        rp.feat_offset[f] + rp.feat_count[f],
    )
}

/// Whether the thresholds of feature `f` are there.
pub open spec fn thresholds_there(rp: RankView, f: int) -> bool {
    &&& 0 <= f < rp.feat_offset.len()
    &&& f < rp.feat_count.len()
    &&& rp.feat_offset[f] + rp.feat_count[f] <= rp.threshold_values.len()
}

/// How a walk decides.
pub struct Rule {
    /// Whether a missing value takes its own way; it goes right otherwise.
    pub miss_aware: bool,
    /// The ranks to compare in place of values.
    pub ranks: Option<RankView>,
}

/// Where the walk goes from a split.
pub open spec fn next_node(n: NodeModel, idx: int, row: RowModel, rule: Rule) -> Result<
    int,
    TraverseError,
> {
    if !(0 <= n.fidx < row.len()) || row[n.fidx] is None {
        Err(TraverseError::Stray)
    } else {
        let x = row[n.fidx]->Some_0;
        if rule.miss_aware && nan(x) {
            Ok(n.missing)
        } else {
            match rule.ranks {
                None => Ok(
                    if below(x, n.thr) {
                        n.left
                    } else {
                        n.right
                    },
                ),
                Some(rp) => if !(0 <= idx < rp.node_thr_rank.len()) {
                    Err(TraverseError::Stray)
                } else if rp.node_thr_rank[idx] < 0 {
                    Err(TraverseError::MissingRank)
                } else if !thresholds_there(rp, n.fidx) {
                    Err(TraverseError::Stray)
                } else {
                    Ok(
                        if rank_of(thresholds(rp, n.fidx), x) <= rp.node_thr_rank[idx] {
                            n.left
                        } else {
                            n.right
                        },
                    )
                },
            }
        }
    }
}

/// Where a walk ends: the leaf and the number of splits on the way.
pub struct Landing {
    pub value: u32,
    pub moves: int,
}

/// Where the walk from node `idx` ends, in at most `fuel` moves. Children are counted from `base`.
pub open spec fn descend(
    nodes: Seq<NodeModel>,
    base: int,
    row: RowModel,
    rule: Rule,
    idx: int,
    fuel: nat,
) -> Result<Landing, TraverseError>
    decreases fuel,
{
    if !(0 <= idx < nodes.len()) {
        Err(TraverseError::Stray)
    } else if nodes[idx].leaf {
        Ok(Landing { value: nodes[idx].value, moves: 0 })
    } else if fuel == 0 {
        Err(TraverseError::Stray)
    } else {
        match next_node(nodes[idx], idx, row, rule) {
            Err(e) => Err(e),
            Ok(next) => match descend(nodes, base, row, rule, base + next, (fuel - 1) as nat) {
                Err(e) => Err(e),
                Ok(l) => Ok(Landing { value: l.value, moves: l.moves + 1 }),
            },
        }
    }
}

/// Where the walk from a root ends.
pub open spec fn land(
    nodes: Seq<NodeModel>,
    base: int,
    row: RowModel,
    rule: Rule,
    root: int,
) -> Result<Landing, TraverseError> {
    descend(nodes, base, row, rule, root, nodes.len())
}

/// A source of a row's values.
pub trait RowSource: Sized {
    /// The values.
    spec fn row(&self) -> RowModel;

    /// Whether the source is in order.
    spec fn ready(&self) -> bool;

    /// The value of feature `f`.
    fn value(&mut self, f: i64) -> (r: Option<u32>)
        requires
            old(self).ready(),
        ensures
            final(self).ready(),
            final(self).row() == old(self).row(),
            r == (if 0 <= f < old(self).row().len() {
                old(self).row()[f as int]
            } else {
                None
            }),
    ;
}

/// A row in memory.
pub struct PlainRow<'a> {
    pub feat: &'a [u32],
}

impl<'a> RowSource for PlainRow<'a> {
    open spec fn row(&self) -> RowModel {
        full_row(self.feat@)
    }

    open spec fn ready(&self) -> bool {
        true
    }

    fn value(&mut self, f: i64) -> (r: Option<u32>) {
        if f < 0 || f as u64 >= self.feat.len() as u64 {
            return None;
        }
        Some(self.feat[f as usize])
    }
}

/// Walks a row down a tree by its values, in at most `limit` moves.
pub fn descend_within<N: RoutingNode, R: RowSource>(
    nodes: &Vec<N>,
    base: usize,
    row: &mut R,
    miss_aware: bool,
    root: usize,
    limit: usize,
) -> (r: Result<(u32, u64), TraverseError>)
    requires
        old(row).ready(),
    ensures
        final(row).ready(),
        final(row).row() == old(row).row(),
        ({
            let rule = Rule { miss_aware, ranks: None };
            match descend(
                models(nodes@),
                base as int,
                old(row).row(),
                rule,
                root as int,
                limit as nat,
            ) {
                Ok(l) => r == Ok::<(u32, u64), TraverseError>((l.value, l.moves as u64)) && 0
                    <= l.moves <= limit,
                Err(e) => r == Err::<(u32, u64), TraverseError>(e),
            }
        }),
{
    let ghost rule = Rule { miss_aware, ranks: None };
    let ghost ms = models(nodes@);
    let ghost rm = row.row();
    let ghost want = descend(ms, base as int, rm, rule, root as int, limit as nat);
    let n: usize = nodes.len();
    let mut idx: usize = root;
    let mut fuel: usize = limit;
    let mut moves: u64 = 0;
    proof {
        lemma_moves_bounded(ms, base as int, rm, rule, root as int, limit as nat);
    }
    loop
        invariant
            n == nodes@.len(),
            ms == models(nodes@),
            rule == (Rule { miss_aware, ranks: None }),
            rm == old(row).row(),
            row.row() == rm,
            row.ready(),
            fuel <= limit,
            moves == limit - fuel,
            want == descend(ms, base as int, rm, rule, root as int, limit as nat),
            match descend(ms, base as int, rm, rule, idx as int, fuel as nat) {
                Ok(l) => want == Ok::<Landing, TraverseError>(
                    Landing { value: l.value, moves: l.moves + moves },
                ) && 0 <= l.moves <= fuel,
                Err(e) => want == Err::<Landing, TraverseError>(e),
            },
        decreases fuel,
    {
        if idx >= n {
            return Err(TraverseError::Stray);
        }
        assert(ms[idx as int] == nodes@[idx as int].model());
        match nodes[idx].leaf_value() {
            Some(v) => {
                return Ok((v, moves));
            },
            None => {},
        }
        if fuel == 0 {
            return Err(TraverseError::Stray);
        }
        let (f, thr) = nodes[idx].split();
        let (left, right, missing) = nodes[idx].children();
        let x: u32 = match row.value(f) {
            None => {
                return Err(TraverseError::Stray);
            },
            Some(x) => x,
        };
        let next: u32 = if miss_aware && is_nan(x) {
            missing
        } else if lt(x, thr) {
            left
        } else {
            right
        };
        proof {
            lemma_moves_bounded(
                ms,
                base as int,
                rm,
                rule,
                base + next,
                (fuel - 1) as nat,
            );
        }
        fuel = fuel - 1;
        moves = moves + 1;
        match base.checked_add(next as usize) {
            Some(k) => {
                idx = k;
            },
            None => {
                return Err(TraverseError::Stray);
            },
        }
    }
}

/// Walks a row down a tree by its values.
pub fn descend_by_value<N: RoutingNode, R: RowSource>(
    nodes: &Vec<N>,
    base: usize,
    row: &mut R,
    miss_aware: bool,
    root: usize,
) -> (r: Result<(u32, u64), TraverseError>)
    requires
        old(row).ready(),
    ensures
        final(row).ready(),
        final(row).row() == old(row).row(),
        ({
            let rule = Rule { miss_aware, ranks: None };
            match land(models(nodes@), base as int, old(row).row(), rule, root as int) {
                Ok(l) => r == Ok::<(u32, u64), TraverseError>((l.value, l.moves as u64)) && 0
                    <= l.moves <= nodes@.len(),
                Err(e) => r == Err::<(u32, u64), TraverseError>(e),
            }
        }),
{
    descend_within(nodes, base, row, miss_aware, root, nodes.len())
}

/// A walk makes no more moves than its fuel.
pub proof fn lemma_moves_bounded(
    nodes: Seq<NodeModel>,
    base: int,
    row: RowModel,
    rule: Rule,
    idx: int,
    fuel: nat,
)
    ensures
        descend(nodes, base, row, rule, idx, fuel) matches Ok(l) ==> 0 <= l.moves <= fuel,
    decreases fuel,
{
    if 0 <= idx < nodes.len() && !nodes[idx].leaf && fuel > 0 {
        if let Ok(next) = next_node(nodes[idx], idx, row, rule) {
            lemma_moves_bounded(nodes, base, row, rule, base + next, (fuel - 1) as nat);
        }
    }
}

/// Ranks of a row's features, each computed at most once: an entry counts when its stamp is that
/// of the current row.
#[derive(Debug)]
pub struct RankCache {
    pub values: Vec<u32>,
    pub stamps: Vec<u32>,
    pub epoch: u32,
}

impl RankCache {
    /// Whether stamps lie in the past or the present.
    pub open spec fn well_formed(self) -> bool {
        &&& self.values@.len() == self.stamps@.len()
        &&& self.epoch >= 1
        &&& forall|i: int| 0 <= i < self.stamps@.len() ==> #[trigger] self.stamps@[i] <= self.epoch
    }

    /// Whether no entry counts.
    pub open spec fn clean(self) -> bool {
        forall|i: int| 0 <= i < self.stamps@.len() ==> #[trigger] self.stamps@[i] < self.epoch
    }

    /// Whether every entry that counts is the rank of that feature of the row.
    pub open spec fn agrees(self, rp: RankView, row: Seq<u32>) -> bool {
        forall|f: int|
            0 <= f < self.stamps@.len() && #[trigger] self.stamps@[f] == self.epoch ==> f
                < row.len() && self.values@[f] == rank_of(thresholds(rp, f), row[f])
    }

    /// An empty cache.
    pub fn new(n_features: usize) -> (r: RankCache)
        ensures
            r.well_formed(),
            r.clean(),
            r.stamps@.len() == n_features,
            r.epoch == 1,
    {
        RankCache { values: vec![0u32; n_features], stamps: vec![0u32; n_features], epoch: 1 }
    }

    /// Forgets the row at hand. When the stamps have run out they all start over.
    pub fn next_row(&mut self)
        requires
            old(self).well_formed(),
        ensures
            final(self).well_formed(),
            final(self).clean(),
            final(self).stamps@.len() == old(self).stamps@.len(),
            final(self).values@ == old(self).values@,
            final(self).epoch == (if old(self).epoch == u32::MAX {
                1
            } else {
                (old(self).epoch + 1) as u32
            }),
    {
        if self.epoch == u32::MAX {
            let n: usize = self.stamps.len();
            self.stamps = vec![0u32; n];
            self.epoch = 1;
        } else {
            self.epoch = self.epoch + 1;
        }
    }
}

/// A clean cache agrees with every row.
pub proof fn lemma_clean_agrees(c: RankCache, rp: RankView, row: Seq<u32>)
    requires
        c.clean(),
    ensures
        c.agrees(rp, row),
{
}

/// The rank of a feature of the row, from the cache where it counts.
pub fn cached_rank(pack: &RankPack, cache: &mut RankCache, feat: &[u32], fidx: usize) -> (r: u32)
    requires
        thresholds_there(pack@, fidx as int),
        fidx < feat@.len(),
        fidx < old(cache).stamps@.len(),
        old(cache).well_formed(),
        old(cache).agrees(pack@, feat@),
    ensures
        r == rank_of(thresholds(pack@, fidx as int), feat@[fidx as int]),
        final(cache).well_formed(),
        final(cache).agrees(pack@, feat@),
        final(cache).stamps@.len() == old(cache).stamps@.len(),
{
    if cache.stamps[fidx] == cache.epoch {
        return cache.values[fidx];
    }
    assert(pack.threshold_values@.len() == pack.threshold_values.len());
    let at: usize = pack.feat_offset[fidx] as usize;
    let n: usize = pack.feat_count[fidx] as usize;
    let own: &[u32] = vstd::slice::slice_subrange(pack.threshold_values.as_slice(), at, at + n);
    proof {
        lemma_rank_range(own@, feat@[fidx as int]);
    }
    let rank: u32 = upper_bound_auto(own, feat[fidx]) as u32;
    cache.values[fidx] = rank;
    cache.stamps[fidx] = cache.epoch;
    rank
}

/// Whether there is room for the rank of every feature, among the first `cols`, that a node splits
/// and that has thresholds.
pub open spec fn splits_have_room(
    nodes: Seq<NodeModel>,
    rp: RankView,
    cols: int,
    room: int,
) -> bool {
    forall|i: int|
        0 <= i < nodes.len() && !(#[trigger] nodes[i]).leaf && nodes[i].fidx < cols
            && thresholds_there(rp, nodes[i].fidx) ==> nodes[i].fidx < room
}

/// Walks a row down a tree by ranks.
pub fn descend_by_rank(
    nodes: &Vec<TreeNode>,
    pack: &RankPack,
    cache: &mut RankCache,
    feat: &[u32],
    miss_aware: bool,
    root: usize,
) -> (r: Result<(u32, u64), TraverseError>)
    requires
        old(cache).well_formed(),
        old(cache).agrees(pack@, feat@),
        splits_have_room(
            models(nodes@),
            pack@,
            feat@.len() as int,
            old(cache).stamps@.len() as int,
        ),
    ensures
        final(cache).well_formed(),
        final(cache).agrees(pack@, feat@),
        final(cache).stamps@.len() == old(cache).stamps@.len(),
        ({
            let rule = Rule { miss_aware, ranks: Some(pack@) };
            match land(models(nodes@), 0, full_row(feat@), rule, root as int) {
                Ok(l) => r == Ok::<(u32, u64), TraverseError>((l.value, l.moves as u64)) && 0
                    <= l.moves <= nodes@.len(),
                Err(e) => r == Err::<(u32, u64), TraverseError>(e),
            }
        }),
{
    let ghost rp = pack@;
    let ghost rule = Rule { miss_aware, ranks: Some(rp) };
    let ghost ms = models(nodes@);
    let ghost rm = full_row(feat@);
    let n: usize = nodes.len();
    let mut idx: usize = root;
    let mut fuel: usize = n;
    let mut moves: u64 = 0;
    proof {
        lemma_moves_bounded(ms, 0, rm, rule, root as int, n as nat);
    }
    loop
        invariant
            n == nodes@.len(),
            rp == pack@,
            ms == models(nodes@),
            rm == full_row(feat@),
            rule == (Rule { miss_aware, ranks: Some(rp) }),
            cache.well_formed(),
            cache.agrees(rp, feat@),
            cache.stamps@.len() == old(cache).stamps@.len(),
            splits_have_room(ms, rp, feat@.len() as int, cache.stamps@.len() as int),
            fuel <= n,
            moves == n - fuel,
            match descend(ms, 0, rm, rule, idx as int, fuel as nat) {
                Ok(l) => land(ms, 0, rm, rule, root as int) == Ok::<Landing, TraverseError>(
                    Landing { value: l.value, moves: l.moves + moves },
                ) && 0 <= l.moves <= fuel,
                Err(e) => land(ms, 0, rm, rule, root as int) == Err::<Landing, TraverseError>(e),
            },
        decreases fuel,
    {
        if idx >= n {
            return Err(TraverseError::Stray);
        }
        assert(ms[idx as int] == nodes@[idx as int].model());
        let node: TreeNode = nodes[idx];
        if node.is_leaf != 0 {
            return Ok((node.leaf, moves));
        }
        if fuel == 0 {
            return Err(TraverseError::Stray);
        }
        if node.fidx < 0 || node.fidx as u64 >= feat.len() as u64 {
            return Err(TraverseError::Stray);
        }
        let f: usize = node.fidx as usize;
        let x: u32 = feat[f];
        let next: u32 = if miss_aware && is_nan(x) {
            node.missing
        } else {
            if idx >= pack.node_thr_rank.len() {
                return Err(TraverseError::Stray);
            }
            let thr_rank: i32 = pack.node_thr_rank[idx];
            if thr_rank < 0 {
                return Err(TraverseError::MissingRank);
            }
            if f >= pack.feat_offset.len() || f >= pack.feat_count.len() || pack.feat_offset[f] as u64
                + pack.feat_count[f] as u64 > pack.threshold_values.len() as u64 {
                return Err(TraverseError::Stray);
            }
            let rank: u32 = cached_rank(pack, cache, feat, f);
            if rank <= thr_rank as u32 {
                node.left
            } else {
                node.right
            }
        };
        proof {
            lemma_moves_bounded(ms, 0, rm, rule, next as int, (fuel - 1) as nat);
        }
        fuel = fuel - 1;
        moves = moves + 1;
        idx = next as usize;
    }
}

/// Whether the place of every split's threshold among the thresholds of its feature is right.
pub open spec fn ranks_faithful(nodes: Seq<NodeModel>, rp: RankView) -> bool {
    forall|i: int|
        0 <= i < nodes.len() && !(#[trigger] nodes[i]).leaf ==> {
            let f = nodes[i].fidx;
            &&& i < rp.node_thr_rank.len()
            &&& thresholds_there(rp, f)
            &&& rising(thresholds(rp, f))
            &&& 0 <= rp.node_thr_rank[i] < thresholds(rp, f).len()
            &&& thresholds(rp, f)[rp.node_thr_rank[i] as int] == nodes[i].thr
            &&& forall|k: int|
                0 <= k < rp.node_thr_rank[i] ==> below(
                    #[trigger] thresholds(rp, f)[k],
                    nodes[i].thr,
                )
        }
}

/// Comparing ranks sends a row the same way as comparing values, where the ranks are faithful and
/// missing values take their own way.
pub proof fn law_ranks_route_like_values(
    nodes: Seq<NodeModel>,
    rp: RankView,
    row: RowModel,
    root: int,
)
    requires
        ranks_faithful(nodes, rp),
    ensures
        land(nodes, 0, row, Rule { miss_aware: true, ranks: Some(rp) }, root) == land(
            nodes,
            0,
            row,
            Rule { miss_aware: true, ranks: None },
            root,
        ),
{
    lemma_ranks_route(nodes, rp, row, root, nodes.len());
}

proof fn lemma_ranks_route(
    nodes: Seq<NodeModel>,
    rp: RankView,
    row: RowModel,
    idx: int,
    fuel: nat,
)
    requires
        ranks_faithful(nodes, rp),
    ensures
        descend(nodes, 0, row, Rule { miss_aware: true, ranks: Some(rp) }, idx, fuel) == descend(
            nodes,
            0,
            row,
            Rule { miss_aware: true, ranks: None },
            idx,
            fuel,
        ),
    decreases fuel,
{
    if 0 <= idx < nodes.len() && !nodes[idx].leaf && fuel > 0 {
        let n = nodes[idx];
        let by_rank = next_node(n, idx, row, Rule { miss_aware: true, ranks: Some(rp) });
        let by_value = next_node(n, idx, row, Rule { miss_aware: true, ranks: None });
        if 0 <= n.fidx < row.len() && row[n.fidx] is Some && !nan(row[n.fidx]->Some_0) {
            let x = row[n.fidx]->Some_0;
            let s = thresholds(rp, n.fidx);
            let k = rp.node_thr_rank[idx] as int;
            crate::rank::law_rank_counts_cuts(s, x);
            crate::rank::lemma_first_above_range(s, x, 0);
            let first = crate::rank::first_above(s, x, 0);
            assert(first == rank_of(s, x));
            assert(at_most(s[k], s[k]));
            if below(x, n.thr) {
                assert(below(x, s[k]));
                if first > k {
                    assert(!below(x, s[k]));
                }
            } else {
                if first < s.len() && first <= k {
                    assert(at_most(s[first], s[k]));
                    assert(below(x, s[first]));
                }
            }
        }
        assert(by_rank == by_value);
        if let Ok(next) = by_value {
            lemma_ranks_route(nodes, rp, row, next, (fuel - 1) as nat);
        }
    }
}

/// On a row without missing values it does not matter whether missing values take their own way.
pub proof fn law_complete_rows_need_no_missing_way(
    nodes: Seq<NodeModel>,
    base: int,
    row: RowModel,
    root: int,
)
    requires
        forall|f: int|
            0 <= f < row.len() ==> (#[trigger] row[f] matches Some(x) ==> !nan(x)),
    ensures
        land(nodes, base, row, Rule { miss_aware: true, ranks: None }, root) == land(
            nodes,
            base,
            row,
            Rule { miss_aware: false, ranks: None },
            root,
        ),
{
    lemma_no_missing_way(nodes, base, row, root, nodes.len());
}

proof fn lemma_no_missing_way(
    nodes: Seq<NodeModel>,
    base: int,
    row: RowModel,
    idx: int,
    fuel: nat,
)
    requires
        forall|f: int|
            0 <= f < row.len() ==> (#[trigger] row[f] matches Some(x) ==> !nan(x)),
    ensures
        descend(nodes, base, row, Rule { miss_aware: true, ranks: None }, idx, fuel) == descend(
            nodes,
            base,
            row,
            Rule { miss_aware: false, ranks: None },
            idx,
            fuel,
        ),
    decreases fuel,
{
    if 0 <= idx < nodes.len() && !nodes[idx].leaf && fuel > 0 {
        let n = nodes[idx];
        if let Ok(next) = next_node(n, idx, row, Rule { miss_aware: false, ranks: None }) {
            lemma_no_missing_way(nodes, base, row, base + next, (fuel - 1) as nat);
        }
    }
}

} // verus!
