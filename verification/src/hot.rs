//! The first trees of a model, evaluated node by node over the few features that they need.

use crate::descend::{
    chosen_row, descend_by_value, land, models, NodeModel, RoutingNode, RowModel, RowSource, Rule,
    TraverseError,
};
use crate::forest::{PrefixPack, TreeNode};
use crate::hot_pack::{HotCompiledPrefixNode, HotCompiledPrefixPack};
use crate::qs_score::{ScoreError, TreeOutcome, Walk, Walked};
use vstd::prelude::*;

verus! {

/// Most moves that a tree is reckoned to take: nodes are numbered in thirty-two bits.
pub const MAX_TREE_MOVES: u64 = 0xffff_ffff;

/// The values of the features that the first trees need.
#[derive(Debug)]
pub struct HotFeatureBuf {
    pub values: Vec<u32>,
}

/// The values after every feature of the choice was copied from the row.
pub open spec fn filled(values: Seq<u32>, map: Seq<u32>, feat: Seq<u32>) -> Seq<u32> {
    Seq::new(
        values.len(),
        |h: int|
            if h < map.len() {
                feat[map[h] as int]
            } else {
                values[h]
            },
    )
}

/// The values after the listed features of the choice were copied from the row.
pub open spec fn filled_subset(
    values: Seq<u32>,
    map: Seq<u32>,
    feat: Seq<u32>,
    ids: Seq<u16>,
) -> Seq<u32> {
    Seq::new(
        values.len(),
        |h: int|
            if exists|k: int| 0 <= k < ids.len() && #[trigger] ids[k] == h {
                feat[map[h] as int]
            } else {
                values[h]
            },
    )
}

/// Whether a choice names features of the row only.
pub open spec fn map_fits(map: Seq<u32>, feat: Seq<u32>) -> bool {
    forall|h: int| 0 <= h < map.len() ==> (#[trigger] map[h]) < feat.len()
}

impl HotFeatureBuf {
    /// A buffer of zeros.
    pub fn new(n_hot_features: usize) -> (r: HotFeatureBuf)
        ensures
            r.values@ == Seq::new(n_hot_features as nat, |i: int| 0u32),
    {
        let r: HotFeatureBuf = HotFeatureBuf { values: vec![0u32; n_hot_features] };
        assert(r.values@ =~= Seq::new(n_hot_features as nat, |i: int| 0u32));
        r
    }

    /// Copies every feature of the choice from the row.
    pub fn fill_from_global_u32(&mut self, hot_global_fidx: &[u32], feat: &[u32])
        requires
            hot_global_fidx@.len() <= old(self).values@.len(),
            map_fits(hot_global_fidx@, feat@),
        ensures
            final(self).values@ == filled(old(self).values@, hot_global_fidx@, feat@),
    {
        let ghost before = self.values@;
        let mut i: usize = 0;
        while i < hot_global_fidx.len()
            invariant
                i <= hot_global_fidx@.len(),
                hot_global_fidx@.len() <= before.len(),
                map_fits(hot_global_fidx@, feat@),
                self.values@ == filled(before, hot_global_fidx@.take(i as int), feat@),
            decreases hot_global_fidx@.len() - i,
        {
            assert(hot_global_fidx@[i as int] < feat@.len());
            let g: usize = hot_global_fidx[i] as usize;
            self.values[i] = feat[g];
            i += 1;
            assert(self.values@ =~= filled(before, hot_global_fidx@.take(i as int), feat@));
        }
        assert(hot_global_fidx@.take(i as int) =~= hot_global_fidx@);
        assert(self.values@ =~= filled(before, hot_global_fidx@, feat@));
    }

    /// Copies the listed features of the choice from the row.
    pub fn fill_subset_from_global_u32(
        &mut self,
        hot_global_fidx: &[u32],
        feat: &[u32],
        hot_ids: &[u16],
    )
        requires
            map_fits(hot_global_fidx@, feat@),
            forall|k: int|
                0 <= k < hot_ids@.len() ==> (#[trigger] hot_ids@[k]) < hot_global_fidx@.len()
                    && hot_ids@[k] < old(self).values@.len(),
        ensures
            final(self).values@ == filled_subset(
                old(self).values@,
                hot_global_fidx@,
                feat@,
                hot_ids@,
            ),
    {
        let ghost before = self.values@;
        let mut i: usize = 0;
        assert(self.values@ =~= filled_subset(
            before,
            hot_global_fidx@,
            feat@,
            hot_ids@.take(0),
        ));
        while i < hot_ids.len()
            invariant
                i <= hot_ids@.len(),
                map_fits(hot_global_fidx@, feat@),
                forall|k: int|
                    0 <= k < hot_ids@.len() ==> (#[trigger] hot_ids@[k]) < hot_global_fidx@.len()
                        && hot_ids@[k] < before.len(),
                self.values@ == filled_subset(
                    before,
                    hot_global_fidx@,
                    feat@,
                    hot_ids@.take(i as int),
                ),
            decreases hot_ids@.len() - i,
        {
            let h: usize = hot_ids[i] as usize;
            assert(hot_global_fidx@[h as int] < feat@.len());
            let g: usize = hot_global_fidx[h] as usize;
            self.values[h] = feat[g];
            proof {
                let was = hot_ids@.take(i as int);
                let now = hot_ids@.take(i + 1);
                let want = filled_subset(before, hot_global_fidx@, feat@, now);
                assert(now[i as int] == h);
                assert forall|x: int| 0 <= x < before.len() implies self.values@[x] == want[x] by {
                    if exists|k: int| 0 <= k < was.len() && #[trigger] was[k] == x {
                        let k = choose|k: int| 0 <= k < was.len() && #[trigger] was[k] == x;
                        assert(now[k] == x);
                    }
                    if exists|k: int| 0 <= k < now.len() && #[trigger] now[k] == x {
                        let k = choose|k: int| 0 <= k < now.len() && #[trigger] now[k] == x;
                        if k < i {
                            assert(was[k] == x);
                        }
                    }
                }
                assert(self.values@ =~= want);
            }
            i += 1;
        }
        assert(hot_ids@.take(i as int) =~= hot_ids@);
    }
}

/// Values of the features that the first trees need, each fetched at most once: an entry counts
/// when its stamp is that of the current row.
#[derive(Debug)]
pub struct LazyHotFeatureCache {
    pub values: Vec<u32>,
    pub stamps: Vec<u32>,
    pub epoch: u32,
}

impl LazyHotFeatureCache {
    /// Whether stamps lie in the past or the present.
    pub open spec fn well_formed(self) -> bool {
        &&& self.values@.len() == self.stamps@.len()
        &&& self.epoch >= 1
        &&& forall|i: int| 0 <= i < self.stamps@.len() ==> #[trigger] self.stamps@[i] <= self.epoch
    }

    /// Whether no entry counts.
    pub open spec fn clean(self) -> bool {
        forall|i: int| 0 <= i < self.stamps@.len() ==> #[trigger] self.stamps@[i] < self.epoch
    }

    /// Whether every entry that counts is that feature of the row.
    pub open spec fn agrees(self, map: Seq<u32>, feat: Seq<u32>) -> bool {
        forall|h: int|
            0 <= h < self.stamps@.len() && #[trigger] self.stamps@[h] == self.epoch ==> h
                < map.len() && map[h] < feat.len() && self.values@[h] == feat[map[h] as int]
    }

    /// An empty cache.
    pub fn new(n_hot_features: usize) -> (r: LazyHotFeatureCache)
        ensures
            r.well_formed(),
            r.clean(),
            r.stamps@.len() == n_hot_features,
            r.epoch == 1,
    {
        LazyHotFeatureCache {
            values: vec![0u32; n_hot_features],
            stamps: vec![0u32; n_hot_features],
            epoch: 1,
        }
    }

    /// Forgets the row at hand. When the stamps have run out they all start over.
    pub fn next_row(&mut self)
        requires
            old(self).well_formed(),
        ensures
            final(self).well_formed(),
            final(self).clean(),
            final(self).stamps@.len() == old(self).stamps@.len(),
            final(self).values@ == old(self).values@,
            final(self).epoch == (if old(self).epoch == u32::MAX {
                1
            } else {
                (old(self).epoch + 1) as u32
            }),
    {
        if self.epoch == u32::MAX {
            let n: usize = self.stamps.len();
            self.stamps = vec![0u32; n];
            self.epoch = 1;
        } else {
            self.epoch = self.epoch + 1;
        }
    }

    /// The value of a feature of the choice, from the cache where it counts.
    pub fn get(&mut self, map: &[u32], feat: &[u32], hot_fidx: usize) -> (r: u32)
        requires
            old(self).well_formed(),
            old(self).agrees(map@, feat@),
            hot_fidx < map@.len(),
            map@[hot_fidx as int] < feat@.len(),
        ensures
            r == feat@[map@[hot_fidx as int] as int],
            final(self).well_formed(),
            final(self).agrees(map@, feat@),
            final(self).stamps@.len() == old(self).stamps@.len(),
    {
        if hot_fidx < self.stamps.len() {
            if self.stamps[hot_fidx] == self.epoch {
                return self.values[hot_fidx];
            }
            let x: u32 = feat[map[hot_fidx] as usize];
            self.values[hot_fidx] = x;
            self.stamps[hot_fidx] = self.epoch;
            return x;
        }
        feat[map[hot_fidx] as usize]
    }
}

/// A row seen through a choice of its features and a cache.
pub struct LazyRow<'a> {
    pub cache: LazyHotFeatureCache,
    pub map: &'a [u32],
    pub feat: &'a [u32],
}

impl<'a> RowSource for LazyRow<'a> {
    open spec fn row(&self) -> RowModel {
        chosen_row(self.map@, self.feat@)
    }

    open spec fn ready(&self) -> bool {
        self.cache.well_formed() && self.cache.agrees(self.map@, self.feat@)
    }

    fn value(&mut self, f: i64) -> (r: Option<u32>) {
        if f < 0 || f as u64 >= self.map.len() as u64 {
            return None;
        }
        let h: usize = f as usize;
        let map: &[u32] = self.map;
        let feat: &[u32] = self.feat;
        if map[h] as u64 >= feat.len() as u64 {
            return None;
        }
        Some(self.cache.get(map, feat, h))
    }
}

/// A row seen through a choice of its features.
pub struct ChosenRow<'a> {
    pub map: &'a [u32],
    pub feat: &'a [u32],
}

impl<'a> RowSource for ChosenRow<'a> {
    open spec fn row(&self) -> RowModel {
        chosen_row(self.map@, self.feat@)
    }

    open spec fn ready(&self) -> bool {
        true
    }

    fn value(&mut self, f: i64) -> (r: Option<u32>) {
        if f < 0 || f as u64 >= self.map.len() as u64 {
            return None;
        }
        let h: usize = f as usize;
        if self.map[h] as u64 >= self.feat.len() as u64 {
            return None;
        }
        Some(self.feat[self.map[h] as usize])
    }
}

/// Trees that are evaluated node by node.
pub trait HotTrees: Sized {
    /// What the nodes say.
    spec fn nodes_model(&self) -> Seq<NodeModel>;

    /// Where the trees begin.
    spec fn starts(&self) -> Seq<int>;

    /// How many trees there are.
    spec fn count(&self) -> int;

    /// Tells how many trees there are.
    fn tree_count(&self) -> (r: usize)
        ensures
            r == self.count(),
    ;

    /// Walks a row down tree `pos`.
    fn fall<R: RowSource>(&self, pos: usize, row: &mut R, miss_aware: bool) -> (r: Result<
        (u32, u64),
        TraverseError,
    >)
        requires
            old(row).ready(),
        ensures
            final(row).ready(),
            final(row).row() == old(row).row(),
            match tree_landing(
                self.nodes_model(),
                self.starts(),
                old(row).row(),
                Rule { miss_aware, ranks: None },
                pos as int,
            ) {
                Ok(o) => r == Ok::<(u32, u64), TraverseError>((o.leaf, o.evals as u64)) && 0
                    <= o.evals <= self.nodes_model().len() && o.evals <= u64::MAX,
                Err(e) => r == Err::<(u32, u64), TraverseError>(e),
            },
    ;
}

/// What tree `pos` contributes.
pub open spec fn tree_landing(
    ns: Seq<NodeModel>,
    starts: Seq<int>,
    row: RowModel,
    rule: Rule,
    pos: int,
) -> Result<TreeOutcome, TraverseError> {
    if !(0 <= pos < starts.len()) {
        Err(TraverseError::Stray)
    } else {
        match land(ns, 0, row, rule, starts[pos]) {
            Err(e) => Err(e),
            Ok(l) => Ok(TreeOutcome { leaf: l.value, evals: l.moves, early: 0 }),
        }
    }
}

impl HotTrees for PrefixPack {
    open spec fn nodes_model(&self) -> Seq<NodeModel> {
        models(self.nodes@)
    }

    open spec fn starts(&self) -> Seq<int> {
        Seq::new(self.tree_roots@.len(), |i: int| self.tree_roots@[i] as int)
    }

    open spec fn count(&self) -> int {
        self.n_trees as int
    }

    fn tree_count(&self) -> (r: usize) {
        self.n_trees
    }

    fn fall<R: RowSource>(&self, pos: usize, row: &mut R, miss_aware: bool) -> (r: Result<
        (u32, u64),
        TraverseError,
    >) {
        if pos >= self.tree_roots.len() {
            return Err(TraverseError::Stray);
        }
        assert(self.nodes@.len() == self.nodes.len());
        descend_by_value::<TreeNode, R>(
            &self.nodes,
            0,
            row,
            miss_aware,
            self.tree_roots[pos] as usize,
        )
    }
}

impl HotTrees for HotCompiledPrefixPack {
    open spec fn nodes_model(&self) -> Seq<NodeModel> {
        models(self.nodes@)
    }

    open spec fn starts(&self) -> Seq<int> {
        Seq::new(self.tree_roots@.len(), |i: int| self.tree_roots@[i] as int)
    }

    open spec fn count(&self) -> int {
        self.n_trees as int
    }

    fn tree_count(&self) -> (r: usize) {
        self.n_trees
    }

    fn fall<R: RowSource>(&self, pos: usize, row: &mut R, miss_aware: bool) -> (r: Result<
        (u32, u64),
        TraverseError,
    >) {
        if pos >= self.tree_roots.len() {
            return Err(TraverseError::Stray);
        }
        assert(self.nodes@.len() == self.nodes.len());
        descend_by_value::<HotCompiledPrefixNode, R>(
            &self.nodes,
            0,
            row,
            miss_aware,
            self.tree_roots[pos] as usize,
        )
    }
}

/// What the trees from `a` up to `b` gather, or what the first tree that goes astray says.
pub open spec fn hot_walk(
    ns: Seq<NodeModel>,
    starts: Seq<int>,
    row: RowModel,
    rule: Rule,
    a: int,
    b: int,
) -> Result<Walk, ScoreError>
    decreases b - a,
{
    if a >= b {
        Ok(Walk::none())
    } else {
        match hot_walk(ns, starts, row, rule, a, b - 1) {
            Err(e) => Err(e),
            Ok(w) => match tree_landing(ns, starts, row, rule, b - 1) {
                Err(e) => Err(ScoreError::Astray(e)),
                Ok(o) => Ok(w.push(o)),
            },
        }
    }
}

proof fn lemma_hot_walk_fails_early(
    ns: Seq<NodeModel>,
    starts: Seq<int>,
    row: RowModel,
    rule: Rule,
    a: int,
    c: int,
    b: int,
)
    requires
        a <= c <= b,
        hot_walk(ns, starts, row, rule, a, c) is Err,
    ensures
        hot_walk(ns, starts, row, rule, a, b) == hot_walk(ns, starts, row, rule, a, c),
    decreases b - c,
{
    if c < b {
        lemma_hot_walk_fails_early(ns, starts, row, rule, a, c, b - 1);
    }
}

/// How many trees there are from `a` up to `b`.
pub open spec fn span_len(a: usize, b: usize) -> int {
    if a <= b {
        b - a
    } else {
        0
    }
}

/// Gathers the trees from `a` up to `b`, none where `b` does not lie past `a`.
pub fn hot_span<T: HotTrees, R: RowSource>(
    trees: &T,
    row: &mut R,
    miss_aware: bool,
    a: usize,
    b: usize,
) -> (r: Result<Walked, ScoreError>)
    requires
        old(row).ready(),
        trees.nodes_model().len() <= MAX_TREE_MOVES,
        b - a <= 0x1_0000_0000 || trees.starts().len() <= 0x1_0000_0000,
    ensures
        final(row).ready(),
        final(row).row() == old(row).row(),
        match hot_walk(
            trees.nodes_model(),
            trees.starts(),
            old(row).row(),
            Rule { miss_aware, ranks: None },
            a as int,
            b as int,
        ) {
            Ok(w) => r matches Ok(x) && x@ == w && x.block_evals <= MAX_TREE_MOVES * span_len(a, b)
                && x.resolved_early == 0,
            Err(e) => r == Err::<Walked, ScoreError>(e),
        },
{
    let ghost ns = trees.nodes_model();
    let ghost starts = trees.starts();
    let ghost rm = row.row();
    let ghost rule = Rule { miss_aware, ranks: None };
    let mut w: Walked = Walked::start(0, 0);
    assert(w@ =~= Walk::none());
    let mut pos: usize = a;
    while pos < b
        invariant
            a <= pos,
            pos <= b || pos == a,
            pos > a ==> pos <= starts.len(),
            b - a <= 0x1_0000_0000 || starts.len() <= 0x1_0000_0000,
            row.ready(),
            row.row() == rm,
            rm == old(row).row(),
            ns == trees.nodes_model(),
            starts == trees.starts(),
            ns.len() <= MAX_TREE_MOVES,
            rule == (Rule { miss_aware, ranks: None }),
            hot_walk(ns, starts, rm, rule, a as int, pos as int) == Ok::<Walk, ScoreError>(w@),
            w.block_evals <= MAX_TREE_MOVES * (pos - a),
            w.resolved_early == 0,
        decreases b - pos,
    {
        match trees.fall(pos, row, miss_aware) {
            Err(e) => {
                proof {
                    lemma_hot_walk_fails_early(
                        ns,
                        starts,
                        rm,
                        rule,
                        a as int,
                        pos + 1,
                        b as int,
                    );
                }
                return Err(ScoreError::Astray(e));
            },
            Ok((leaf, moves)) => {
                let ghost before = w@;
                assert(pos < starts.len());
                w.leaves.push(leaf);
                w.block_evals = w.block_evals + moves;
                proof {
                    let o = tree_landing(ns, starts, rm, rule, pos as int)->Ok_0;
                    assert(w@ =~= before.push(o));
                }
            },
        }
        pos += 1;
    }
    Ok(w)
}

/// Gathers every tree of a pack over the row itself; missing values take their own way.
pub fn hot_exact_score_full(hot_pack: &PrefixPack, feat: &[u32]) -> (r: Result<Walked, ScoreError>)
    requires
        hot_pack@.nodes.len() <= MAX_TREE_MOVES,
        hot_pack@.n_trees <= 0x1_0000_0000,
    ensures
        match hot_walk(
            hot_pack.nodes_model(),
            hot_pack.starts(),
            chosen_row(hot_pack@.hot_global_fidx, feat@),
            Rule { miss_aware: true, ranks: None },
            0,
            hot_pack@.n_trees,
        ) {
            Ok(w) => r matches Ok(x) && x@ == w && x.resolved_early == 0,
            Err(e) => r == Err::<Walked, ScoreError>(e),
        },
{
    let mut row: ChosenRow = ChosenRow { map: hot_pack.hot_global_fidx.as_slice(), feat };
    hot_span(hot_pack, &mut row, true, 0, hot_pack.n_trees)
}

/// Walking on from where a walk stopped is walking in one go.
pub proof fn law_hot_walk_continues(
    ns: Seq<NodeModel>,
    starts: Seq<int>,
    row: RowModel,
    rule: Rule,
    a: int,
    b: int,
    c: int,
)
    requires
        a <= b <= c,
    ensures
        hot_walk(ns, starts, row, rule, a, c) == (match hot_walk(ns, starts, row, rule, a, b) {
            Err(e) => Err::<Walk, ScoreError>(e),
            Ok(w) => match hot_walk(ns, starts, row, rule, b, c) {
                Err(e) => Err(e),
                Ok(v) => Ok(w.join(v)),
            },
        }),
    decreases c - b,
{
    if b < c {
        law_hot_walk_continues(ns, starts, row, rule, a, b, c - 1);
        if let Ok(w) = hot_walk(ns, starts, row, rule, a, b) {
            if let Ok(v) = hot_walk(ns, starts, row, rule, b, c - 1) {
                if let Ok(o) = tree_landing(ns, starts, row, rule, c - 1) {
                    assert(w.join(v).push(o) =~= w.join(v.push(o)));
                }
            }
        }
    } else {
        if let Ok(w) = hot_walk(ns, starts, row, rule, a, b) {
            assert(w.join(Walk::none()) =~= w);
        }
    }
}

} // verus!
