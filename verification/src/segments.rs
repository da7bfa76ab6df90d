//! Cutting the trees past the first ones into packs of their own.

use crate::layout::{HotCheckpointLayout, LayoutView};
use crate::online::late_begin;
use crate::prefix_runtime::{fewer, LoadedLateSegment};
use crate::qs_extract::{
    extract_tree_range_remapped, extracted, local_features, tree_copyable, ExtractError,
};
use crate::qs_features::{clamped, narrow};
use crate::qs_pack::{PackModel, QsPack};
use vstd::prelude::*;

verus! {

/// Whether segment `s` is late stretch `i` cut out of a pack.
pub open spec fn cut_right(
    s: LoadedLateSegment,
    p: PackModel,
    l: LayoutView,
    start: int,
    i: int,
) -> bool {
    let a = late_begin(l, start, i);
    let trees = clamped(p, a, l.late_values[i] as int);
    &&& s.checkpoint == l.late_values[i]
    &&& s.global_cp_idx == l.late_indices[i]
    &&& s.start_tree_idx == a
    &&& trees.len() > 0
    &&& s.pack@ == extracted(p, trees)
    &&& s.local_to_global_fid@ == narrow(local_features(p, trees))
}

/// Whether every tree of a pack can be copied.
pub open spec fn pack_copyable(p: PackModel) -> bool {
    forall|t: int| 0 <= t < p.n_trees ==> #[trigger] tree_copyable(p, t)
}

/// Cuts every late stretch out of a pack. A stretch without trees cannot be cut out.
pub fn cut_late_segments(pack: &QsPack, layout: &HotCheckpointLayout, hot_tree_count: usize) -> (r:
    Result<Vec<LoadedLateSegment>, ExtractError>)
    requires
        pack_copyable(pack@),
        layout@.late_indices.len() >= layout@.late_values.len(),
    ensures
        ({
            let start = fewer(hot_tree_count as int, pack@.n_trees);
            let l = layout@;
            match r {
                Ok(segs) => segs@.len() == l.late_values.len() && forall|i: int|
                    0 <= i < segs@.len() ==> cut_right(#[trigger] segs@[i], pack@, l, start, i),
                Err(e) => e == ExtractError::EmptyRange && exists|i: int|
                    0 <= i < l.late_values.len() && clamped(
                        pack@,
                        late_begin(l, start, i),
                        (#[trigger] l.late_values[i]) as int,
                    ).len() == 0,
            }
        }),
{
    let ghost p = pack@;
    let ghost l = layout@;
    let start: usize = if hot_tree_count <= pack.n_trees {
        hot_tree_count
    } else {
        pack.n_trees
    };
    let mut segs: Vec<LoadedLateSegment> = Vec::new();
    let mut from: usize = start;
    let mut i: usize = 0;
    while i < layout.late_values.len()
        invariant
            i <= l.late_values.len(),
            p == pack@,
            l == layout@,
            l.late_indices.len() >= l.late_values.len(),
            pack_copyable(p),
            from == late_begin(l, start as int, i as int),
            start == fewer(hot_tree_count as int, p.n_trees),
            segs@.len() == i,
            forall|k: int| 0 <= k < i ==> cut_right(#[trigger] segs@[k], p, l, start as int, k),
        decreases l.late_values.len() - i,
    {
        let cp: usize = layout.late_values[i];
        proof {
            let trees = clamped(p, from as int, cp as int);
            assert forall|k: int| 0 <= k < trees.len() implies tree_copyable(
                p,
                #[trigger] trees[k],
            ) by {
                assert(trees[k] == from + k);
            }
        }
        match extract_tree_range_remapped(pack, from, cp) {
            Err(e) => {
                assert(l.late_values[i as int] == cp);
                return Err(e);
            },
            Ok((part, map)) => {
                segs.push(
                    LoadedLateSegment {
                        checkpoint: cp,
                        global_cp_idx: layout.late_indices[i],
                        start_tree_idx: from,
                        local_to_global_fid: map,
                        pack: part,
                    },
                );
            },
        }
        from = cp;
        i += 1;
    }
    Ok(segs)
}

} // verus!
