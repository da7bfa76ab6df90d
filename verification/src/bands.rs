//! Calibrated bands: from the gap between threshold and score to the decision that is safe there.

use crate::arith::{answers, follows, SingleOp};
use crate::rank::{bisect_above, lemma_bisect_above_range};
use crate::single::{absolute, at_most, below, is_nan, le, lt, nan, unsigned, ONE};
use vstd::prelude::*;

verus! {

/// How many bins a table of bands has where it is kept per fold.
pub const BAND_BINS: usize = 256;

/// The pattern of a millionth.
pub const MILLIONTH: u32 = 0x3586_37bd;

/// Bit pattern of eight times the gap between one and the next value.
pub const EIGHT_STEPS: u32 = 0x3580_0000;

/// The bands of one checkpoint.
#[derive(Debug)]
pub struct LoadedPrefixCheckpoint {
    pub checkpoint: usize,
    pub gap_edges: Vec<u32>,
    pub global_ref_hi: Vec<u32>,
    pub global_rej_lo: Vec<u32>,
    pub tau_edges: Vec<u32>,
    pub fold_ids: Vec<i32>,
    pub fold_lut_base: i32,
    pub fold_slot_lut: Vec<i16>,
    pub fold_ref_hi: Vec<u32>,
    pub fold_rej_lo: Vec<u32>,
    pub tau_bin_count: usize,
    pub tau_fold_mask: Vec<u8>,
    pub tau_ref_hi: Vec<u32>,
    pub tau_rej_lo: Vec<u32>,
}

/// What the bands of one checkpoint hold.
#[verifier::ext_equal]
pub struct BandView {
    pub checkpoint: usize,
    pub gap_edges: Seq<u32>,
    pub global_ref_hi: Seq<u32>,
    pub global_rej_lo: Seq<u32>,
    pub tau_edges: Seq<u32>,
    pub fold_ids: Seq<i32>,
    pub fold_lut_base: i32,
    pub fold_slot_lut: Seq<i16>,
    pub fold_ref_hi: Seq<u32>,
    pub fold_rej_lo: Seq<u32>,
    pub tau_bin_count: usize,
    pub tau_fold_mask: Seq<u8>,
    pub tau_ref_hi: Seq<u32>,
    pub tau_rej_lo: Seq<u32>,
}

impl View for LoadedPrefixCheckpoint {
    type V = BandView;

    open spec fn view(&self) -> BandView {
        BandView {
            checkpoint: self.checkpoint,
            gap_edges: self.gap_edges@,
            global_ref_hi: self.global_ref_hi@,
            global_rej_lo: self.global_rej_lo@,
            tau_edges: self.tau_edges@,
            fold_ids: self.fold_ids@,
            fold_lut_base: self.fold_lut_base,
            fold_slot_lut: self.fold_slot_lut@,
            fold_ref_hi: self.fold_ref_hi@,
            fold_rej_lo: self.fold_rej_lo@,
            tau_bin_count: self.tau_bin_count,
            tau_fold_mask: self.tau_fold_mask@,
            tau_ref_hi: self.tau_ref_hi@,
            tau_rej_lo: self.tau_rej_lo@,
        }
    }
}

/// The bands of a model: one table for each checkpoint, in order.
#[derive(Debug)]
pub struct LoadedPrefixCal {
    pub variant_key: String,
    pub ref_q: u32,
    pub rej_q: u32,
    pub checkpoints: Vec<usize>,
    pub tables: Vec<LoadedPrefixCheckpoint>,
}

/// A difference that stops at zero.
pub open spec fn less_to_zero(a: int, b: int) -> int {
    if a >= b {
        a - b
    } else {
        0
    }
}

/// The smaller number.
pub open spec fn lesser(a: int, b: int) -> int {
    if a <= b {
        a
    } else {
        b
    }
}

/// The bin of a value between edges: the last edge that is not above it, the first bin for values
/// below all edges and the last for values above.
pub open spec fn bin_of(edges: Seq<u32>, x: u32) -> int {
    lesser(
        less_to_zero(bisect_above(edges, x, 0, edges.len() as int), 1),
        less_to_zero(edges.len() as int, 2),
    )
}

/// How many bins edges make.
pub open spec fn bins_of(edges: Seq<u32>) -> int {
    if edges.len() <= 2 {
        1
    } else {
        edges.len() - 1
    }
}

/// A bin is one of the bins.
pub proof fn lemma_bin_range(edges: Seq<u32>, x: u32)
    ensures
        0 <= bin_of(edges, x) < bins_of(edges),
{
    lemma_bisect_above_range(edges, x, 0, edges.len() as int);
}

/// Computes [`bin_of`].
pub fn prefix_gap_bin(edges: &[u32], gap: u32) -> (r: usize)
    ensures
        r == bin_of(edges@, gap),
        r < bins_of(edges@),
{
    let n: usize = edges.len();
    let mut lo: usize = 0;
    let mut hi: usize = n;
    while lo < hi
        invariant
            n == edges@.len(),
            lo <= hi <= n,
            bisect_above(edges@, gap, 0, n as int) == bisect_above(
                edges@,
                gap,
                lo as int,
                hi as int,
            ),
        decreases hi - lo,
    {
        let mid: usize = lo + (hi - lo) / 2;
        assert(mid == (lo + hi) / 2);
        if le(edges[mid], gap) {
            lo = mid + 1;
        } else {
            hi = mid;
        }
    }
    proof {
        lemma_bin_range(edges@, gap);
    }
    let at: usize = if lo >= 1 {
        lo - 1
    } else {
        0
    };
    let last: usize = if n >= 2 {
        n - 2
    } else {
        0
    };
    if at <= last {
        at
    } else {
        last
    }
}

/// How far rounding may move a gap: a millionth, or eight steps of rounding at the gap's size.
pub open spec fn tolerance(m: spec_fn(SingleOp) -> u32, gap: u32) -> u32 {
    greater_of(
        MILLIONTH,
        m(SingleOp::Product(EIGHT_STEPS, greater_of(unsigned(gap), ONE))),
    )
}

/// The bins that a gap could belong to: its own, and a neighbour whose edge is within tolerance.
pub open spec fn guarded(
    m: spec_fn(SingleOp) -> u32,
    edges: Seq<u32>,
    gap: u32,
    bin: int,
) -> (int, int) {
    let slack = tolerance(m, gap);
    (
        if bin > 0 && at_most(unsigned(m(SingleOp::Difference(gap, edges[bin]))), slack) {
            bin - 1
        } else {
            bin
        },
        if bin + 1 < edges.len() - 1 && at_most(
            unsigned(m(SingleOp::Difference(edges[bin + 1], gap))),
            slack,
        ) {
            bin + 1
        } else {
            bin
        },
    )
}

/// Computes [`guarded`].
pub fn prefix_gap_bin_guard<A: Fn(SingleOp) -> u32>(
    arith: &A,
    edges: &[u32],
    gap: u32,
    bin: usize,
) -> (r: (usize, usize))
    requires
        answers(*arith),
        bin < bins_of(edges@),
    ensures
        r.0 <= bin <= r.1 < bins_of(edges@),
        forall|m: spec_fn(SingleOp) -> u32| #[trigger]
            follows(*arith, m) ==> (r.0 as int, r.1 as int) == guarded(m, edges@, gap, bin as int),
{
    let n: usize = edges.len();
    let scaled: u32 = arith(SingleOp::Product(EIGHT_STEPS, max_of(absolute(gap), ONE)));
    let slack: u32 = max_of(MILLIONTH, scaled);
    let mut lo: usize = bin;
    let mut hi: usize = bin;
    if bin > 0 {
        let away: u32 = arith(SingleOp::Difference(gap, edges[bin]));
        if le(absolute(away), slack) {
            lo = bin - 1;
        }
    }
    if n >= 2 && bin < n - 2 {
        let away: u32 = arith(SingleOp::Difference(edges[bin + 1], gap));
        if le(absolute(away), slack) {
            hi = bin + 1;
        }
    }
    (lo, hi)
}

/// The greater value; a value that is no number gives way.
pub open spec fn greater_of(a: u32, b: u32) -> u32 {
    if nan(a) {
        b
    } else if nan(b) {
        a
    } else if below(a, b) {
        b
    } else {
        a
    }
}

/// The smaller value; a value that is no number gives way.
pub open spec fn smaller_of(a: u32, b: u32) -> u32 {
    if nan(a) {
        b
    } else if nan(b) {
        a
    } else if below(b, a) {
        b
    } else {
        a
    }
}

/// The greatest of the values from `lo` to `hi`.
pub open spec fn greatest(s: Seq<u32>, lo: int, hi: int) -> u32
    decreases hi - lo,
{
    if hi <= lo {
        s[lo]
    } else {
        greater_of(greatest(s, lo, hi - 1), s[hi])
    }
}

/// The smallest of the values from `lo` to `hi`.
pub open spec fn smallest(s: Seq<u32>, lo: int, hi: int) -> u32
    decreases hi - lo,
{
    if hi <= lo {
        s[lo]
    } else {
        smaller_of(smallest(s, lo, hi - 1), s[hi])
    }
}

/// Computes [`greater_of`].
pub fn max_of(a: u32, b: u32) -> (r: u32)
    ensures
        r == greater_of(a, b),
{
    if is_nan(a) {
        b
    } else if is_nan(b) {
        a
    } else if lt(a, b) {
        b
    } else {
        a
    }
}

fn min_of(a: u32, b: u32) -> (r: u32)
    ensures
        r == smaller_of(a, b),
{
    if is_nan(a) {
        b
    } else if is_nan(b) {
        a
    } else if lt(b, a) {
        b
    } else {
        a
    }
}

/// The band over the guarded bins of the row of a table that starts at `off`: the greatest bound
/// below which a row is referred and the smallest from which it is rejected.
pub open spec fn band_at(
    ref_hi: Seq<u32>,
    rej_lo: Seq<u32>,
    off: int,
    lo: int,
    hi: int,
) -> (u32, u32) {
    (greatest(ref_hi, off + lo, off + hi), smallest(rej_lo, off + lo, off + hi))
}

/// Computes [`band_at`].
pub fn lookup_prefix_bands_from_guarded_slices(
    ref_hi: &[u32],
    rej_lo: &[u32],
    off: usize,
    guard_lo: usize,
    guard_hi: usize,
) -> (r: (u32, u32))
    requires
        guard_lo <= guard_hi,
        off + guard_hi < ref_hi@.len(),
        off + guard_hi < rej_lo@.len(),
    ensures
        r == band_at(ref_hi@, rej_lo@, off as int, guard_lo as int, guard_hi as int),
{
    let n: usize = ref_hi.len();
    let first: usize = off + guard_lo;
    let mut ref_bound: u32 = ref_hi[first];
    let mut rej_bound: u32 = rej_lo[first];
    let mut i: usize = guard_lo;
    while i < guard_hi
        invariant
            guard_lo <= i <= guard_hi,
            n == ref_hi@.len(),
            off + guard_hi < n,
            off + guard_hi < rej_lo@.len(),
            ref_bound == greatest(ref_hi@, off + guard_lo, off + i),
            rej_bound == smallest(rej_lo@, off + guard_lo, off + i),
        decreases guard_hi - i,
    {
        i += 1;
        ref_bound = max_of(ref_bound, ref_hi[off + i]);
        rej_bound = min_of(rej_bound, rej_lo[off + i]);
    }
    (ref_bound, rej_bound)
}

/// The place of a fold in a list.
pub open spec fn place_of(ids: Seq<i32>, fold: i32, i: int) -> Option<int>
    decreases ids.len() - i,
{
    if i >= ids.len() {
        None
    } else if ids[i] == fold {
        Some(i)
    } else {
        place_of(ids, fold, i + 1)
    }
}

/// The slot of a fold: by the lookup table where there is one, else its place in the list.
pub open spec fn fold_slot(t: BandView, fold: i32) -> Option<int> {
    if t.fold_slot_lut.len() > 0 {
        let at = fold - t.fold_lut_base;
        if 0 <= at < t.fold_slot_lut.len() && t.fold_slot_lut[at] >= 0 {
            Some(t.fold_slot_lut[at] as int)
        } else {
            None
        }
    } else {
        place_of(t.fold_ids, fold, 0)
    }
}

/// A slot as a number.
pub open spec fn as_place(r: Option<usize>) -> Option<int> {
    match r {
        Some(s) => Some(s as int),
        None => None,
    }
}

/// Computes [`fold_slot`].
pub fn prefix_fold_slot(table: &LoadedPrefixCheckpoint, fold_id: i32) -> (r: Option<usize>)
    ensures
        as_place(r) == fold_slot(table@, fold_id),
{
    if table.fold_slot_lut.len() > 0 {
        let at: i64 = fold_id as i64 - table.fold_lut_base as i64;
        if at >= 0 && (at as u64) < table.fold_slot_lut.len() as u64 {
            let slot: i16 = table.fold_slot_lut[at as usize];
            if slot >= 0 {
                return Some(slot as usize);
            }
        }
        return None;
    }
    let mut i: usize = 0;
    while i < table.fold_ids.len()
        invariant
            i <= table.fold_ids@.len(),
            place_of(table.fold_ids@, fold_id, 0) == place_of(table.fold_ids@, fold_id, i as int),
            fold_slot(table@, fold_id) == place_of(table.fold_ids@, fold_id, 0),
        decreases table.fold_ids@.len() - i,
    {
        if table.fold_ids[i] == fold_id {
            return Some(i);
        }
        i += 1;
    }
    None
}

/// Whether the tables of a checkpoint hold everything that can be looked up in them.
pub open spec fn table_sound(t: BandView) -> bool {
    let bins = bins_of(t.gap_edges);
    let folds = t.fold_ids.len();
    &&& bins <= t.global_ref_hi.len()
    &&& bins <= t.global_rej_lo.len()
    &&& t.fold_ref_hi.len() > 0 || t.tau_ref_hi.len() > 0 ==> bins <= 256
    &&& t.fold_ref_hi.len() > 0 ==> folds * 256 <= t.fold_ref_hi.len() && folds * 256
        <= t.fold_rej_lo.len()
    &&& t.tau_bin_count > 0 && t.tau_ref_hi.len() > 0 ==> {
        &&& folds * t.tau_bin_count <= t.tau_fold_mask.len()
        &&& folds * t.tau_bin_count * 256 <= t.tau_ref_hi.len()
        &&& folds * t.tau_bin_count * 256 <= t.tau_rej_lo.len()
    }
    &&& forall|i: int|
        0 <= i < t.fold_slot_lut.len() ==> (#[trigger] t.fold_slot_lut[i] as int) < folds
}

/// Whether a product stays within a limit.
fn product_fits(a: usize, b: usize, limit: usize) -> (r: bool)
    ensures
        r == (a * b <= limit),
{
    if a == 0 || b == 0 {
        assert(a * b == 0) by (nonlinear_arith)
            requires
                a == 0 || b == 0,
        ;
        return true;
    }
    match a.checked_mul(b) {
        Some(p) => p <= limit,
        None => false,
    }
}

impl LoadedPrefixCheckpoint {
    /// Finds out whether the tables hold everything that can be looked up in them.
    pub fn sound(&self) -> (r: bool)
        ensures
            r == table_sound(self@),
    {
        let folds: usize = self.fold_ids.len();
        let bins: usize = if self.gap_edges.len() <= 2 {
            1
        } else {
            self.gap_edges.len() - 1
        };
        if bins > self.global_ref_hi.len() || bins > self.global_rej_lo.len() {
            return false;
        }
        if (self.fold_ref_hi.len() > 0 || self.tau_ref_hi.len() > 0) && bins > 256 {
            return false;
        }
        if self.fold_ref_hi.len() > 0 {
            if !product_fits(folds, 256, self.fold_ref_hi.len()) || !product_fits(
                folds,
                256,
                self.fold_rej_lo.len(),
            ) {
                return false;
            }
        }
        if self.tau_bin_count > 0 && self.tau_ref_hi.len() > 0 {
            if !product_fits(folds, self.tau_bin_count, self.tau_fold_mask.len()) {
                return false;
            }
            assert(self.tau_fold_mask@.len() == self.tau_fold_mask.len());
            let rows: usize = folds * self.tau_bin_count;
            if !product_fits(rows, 256, self.tau_ref_hi.len()) || !product_fits(
                rows,
                256,
                self.tau_rej_lo.len(),
            ) {
                return false;
            }
        }
        let mut i: usize = 0;
        while i < self.fold_slot_lut.len()
            invariant
                i <= self.fold_slot_lut@.len(),
                folds == self.fold_ids@.len(),
                forall|k: int|
                    0 <= k < i ==> (#[trigger] self.fold_slot_lut@[k] as int) < folds,
            decreases self.fold_slot_lut@.len() - i,
        {
            let slot: i16 = self.fold_slot_lut[i];
            if slot >= 0 && slot as usize >= folds {
                assert(!((self@.fold_slot_lut[i as int] as int) < self@.fold_ids.len()));
                return false;
            }
            i += 1;
        }
        true
    }
}

/// The place of a fold is a place of the list.
pub proof fn lemma_slot_range(t: BandView, fold: i32)
    requires
        table_sound(t),
    ensures
        fold_slot(t, fold) matches Some(s) ==> 0 <= s < t.fold_ids.len(),
{
    lemma_place_range(t.fold_ids, fold, 0);
}

proof fn lemma_place_range(ids: Seq<i32>, fold: i32, i: int)
    requires
        0 <= i,
    ensures
        place_of(ids, fold, i) matches Some(s) ==> i <= s < ids.len() && ids[s] == fold,
    decreases ids.len() - i,
{
    if i < ids.len() {
        lemma_place_range(ids, fold, i + 1);
    }
}

/// The band for a fold, a bin of the threshold and guarded bins of the gap: from the table of the
/// fold and bin where it is filled, else from that of the fold, else from the common one.
pub open spec fn band(
    t: BandView,
    slot: Option<int>,
    tau_bin: Option<int>,
    lo: int,
    hi: int,
) -> (u32, u32) {
    match slot {
        None => band_at(t.global_ref_hi, t.global_rej_lo, 0, lo, hi),
        Some(s) => {
            let tau_slot = s * t.tau_bin_count + lesser(tau_bin->Some_0, t.tau_bin_count - 1);
            if tau_bin is Some && t.tau_bin_count != 0 && t.tau_ref_hi.len() > 0
                && t.tau_fold_mask[tau_slot] != 0 {
                band_at(t.tau_ref_hi, t.tau_rej_lo, tau_slot * 256, lo, hi)
            } else if t.fold_ref_hi.len() > 0 {
                band_at(t.fold_ref_hi, t.fold_rej_lo, s * 256, lo, hi)
            } else {
                band_at(t.global_ref_hi, t.global_rej_lo, 0, lo, hi)
            }
        },
    }
}

/// Computes [`band`].
pub fn lookup_prefix_bands_dense(
    table: &LoadedPrefixCheckpoint,
    slot: Option<usize>,
    tau_bin: Option<usize>,
    guard_lo: usize,
    guard_hi: usize,
) -> (r: (u32, u32))
    requires
        table_sound(table@),
        slot matches Some(s) ==> s < table@.fold_ids.len(),
        guard_lo <= guard_hi < bins_of(table@.gap_edges),
    ensures
        r == band(table@, as_place(slot), as_place(tau_bin), guard_lo as int, guard_hi as int),
{
    let ghost t = table@;
    if let Some(s) = slot {
        if let Some(tb) = tau_bin {
            if table.tau_bin_count != 0 && table.tau_ref_hi.len() > 0 {
                let count: usize = table.tau_bin_count;
                let b: usize = if tb <= count - 1 {
                    tb
                } else {
                    count - 1
                };
                proof {
                    assert(s * count + b < t.fold_ids.len() * count) by (nonlinear_arith)
                        requires
                            s < t.fold_ids.len(),
                            b < count,
                    ;
                    assert(s * count >= 0 && s * count <= s * count + b) by (nonlinear_arith)
                        requires
                            s >= 0,
                            count >= 0,
                            b >= 0,
                    ;
                    assert(table.tau_fold_mask@.len() == table.tau_fold_mask.len());
                    assert(table.tau_ref_hi@.len() == table.tau_ref_hi.len());
                }
                let tau_slot: usize = s * count + b;
                if table.tau_fold_mask[tau_slot] != 0 {
                    return lookup_prefix_bands_from_guarded_slices(
                        table.tau_ref_hi.as_slice(),
                        table.tau_rej_lo.as_slice(),
                        tau_slot * BAND_BINS,
                        guard_lo,
                        guard_hi,
                    );
                }
            }
        }
        if table.fold_ref_hi.len() > 0 {
            assert(table.fold_ref_hi@.len() == table.fold_ref_hi.len());
            return lookup_prefix_bands_from_guarded_slices(
                table.fold_ref_hi.as_slice(),
                table.fold_rej_lo.as_slice(),
                s * BAND_BINS,
                guard_lo,
                guard_hi,
            );
        }
    }
    lookup_prefix_bands_from_guarded_slices(
        table.global_ref_hi.as_slice(),
        table.global_rej_lo.as_slice(),
        0,
        guard_lo,
        guard_hi,
    )
}

/// The band for a gap.
pub open spec fn band_for(
    m: spec_fn(SingleOp) -> u32,
    t: BandView,
    slot: Option<int>,
    tau_bin: int,
    gap: u32,
) -> (u32, u32) {
    let (lo, hi) = guarded(m, t.gap_edges, gap, bin_of(t.gap_edges, gap));
    band(
        t,
        slot,
        if t.tau_bin_count == 0 {
            None
        } else {
            Some(tau_bin)
        },
        lo,
        hi,
    )
}

/// Computes [`band_for`].
pub fn lookup_prefix_bands_with_tau_bin_slot<A: Fn(SingleOp) -> u32>(
    arith: &A,
    table: &LoadedPrefixCheckpoint,
    slot: Option<usize>,
    tau_bin: usize,
    gap: u32,
) -> (r: (u32, u32))
    requires
        answers(*arith),
        table_sound(table@),
        slot matches Some(s) ==> s < table@.fold_ids.len(),
    ensures
        forall|m: spec_fn(SingleOp) -> u32| #[trigger]
            follows(*arith, m) ==> r == band_for(m, table@, as_place(slot), tau_bin as int, gap),
{
    let bin: usize = prefix_gap_bin(table.gap_edges.as_slice(), gap);
    let (lo, hi) = prefix_gap_bin_guard(arith, table.gap_edges.as_slice(), gap, bin);
    lookup_prefix_bands_dense(
        table,
        slot,
        if table.tau_bin_count == 0 {
            None
        } else {
            Some(tau_bin)
        },
        lo,
        hi,
    )
}

/// The band for a gap of a fold, whatever the threshold.
pub fn lookup_prefix_bands<A: Fn(SingleOp) -> u32>(
    arith: &A,
    table: &LoadedPrefixCheckpoint,
    fold_id: i32,
    gap: u32,
) -> (r: (u32, u32))
    requires
        answers(*arith),
        table_sound(table@),
    ensures
        forall|m: spec_fn(SingleOp) -> u32| #[trigger]
            follows(*arith, m) ==> {
                let (lo, hi) = guarded(m, table@.gap_edges, gap, bin_of(table@.gap_edges, gap));
                r == band(table@, fold_slot(table@, fold_id), None, lo, hi)
            },
{
    let bin: usize = prefix_gap_bin(table.gap_edges.as_slice(), gap);
    let (lo, hi) = prefix_gap_bin_guard(arith, table.gap_edges.as_slice(), gap, bin);
    proof {
        lemma_slot_range(table@, fold_id);
    }
    lookup_prefix_bands_dense(table, prefix_fold_slot(table, fold_id), None, lo, hi)
}

/// The band for a gap of a fold at a threshold.
pub fn lookup_prefix_bands_with_tau<A: Fn(SingleOp) -> u32>(
    arith: &A,
    table: &LoadedPrefixCheckpoint,
    fold_id: i32,
    tau_used: u32,
    gap: u32,
) -> (r: (u32, u32))
    requires
        answers(*arith),
        table_sound(table@),
    ensures
        forall|m: spec_fn(SingleOp) -> u32| #[trigger]
            follows(*arith, m) ==> r == band_for(
                m,
                table@,
                fold_slot(table@, fold_id),
                bin_of(table@.tau_edges, tau_used),
                gap,
            ),
{
    let tau_bin: usize = prefix_gap_bin(table.tau_edges.as_slice(), tau_used);
    lookup_prefix_bands_with_tau_bin(arith, table, fold_id, tau_bin, gap)
}

/// The band for a gap of a fold at a bin of the threshold.
pub fn lookup_prefix_bands_with_tau_bin<A: Fn(SingleOp) -> u32>(
    arith: &A,
    table: &LoadedPrefixCheckpoint,
    fold_id: i32,
    tau_bin: usize,
    gap: u32,
) -> (r: (u32, u32))
    requires
        answers(*arith),
        table_sound(table@),
    ensures
        forall|m: spec_fn(SingleOp) -> u32| #[trigger]
            follows(*arith, m) ==> r == band_for(
                m,
                table@,
                fold_slot(table@, fold_id),
                tau_bin as int,
                gap,
            ),
{
    proof {
        lemma_slot_range(table@, fold_id);
    }
    lookup_prefix_bands_with_tau_bin_slot(
        arith,
        table,
        prefix_fold_slot(table, fold_id),
        tau_bin,
        gap,
    )
}

/// The bin of a threshold; the first where the edges make none.
pub open spec fn tau_bin_of(edges: Seq<u32>, tau: u32) -> int {
    if edges.len() < 2 {
        0
    } else {
        bin_of(edges, tau)
    }
}

/// Computes [`tau_bin_of`].
pub fn atlas_tau_bin(edges: &[u32], tau_used: u32) -> (r: usize)
    ensures
        r == tau_bin_of(edges@, tau_used),
        r < bins_of(edges@),
{
    if edges.len() < 2 {
        return 0;
    }
    prefix_gap_bin(edges, tau_used)
}

/// Computes [`tau_bin_of`] for the router and the packet policy, which cap the bin once more.
pub fn mlp_tau_bin(edges: &[u32], tau_used: u32) -> (r: usize)
    ensures
        r == tau_bin_of(edges@, tau_used),
        r < bins_of(edges@),
{
    atlas_tau_bin(edges, tau_used)
}

/// Widening the guarded bins never lets a band decide more: what a row is referred or rejected by
/// over more bins, it is over fewer.
pub proof fn law_guards_only_widen(ref_hi: Seq<u32>, rej_lo: Seq<u32>, lo: int, hi: int, k: int)
    requires
        0 <= lo <= k <= hi < ref_hi.len(),
        hi < rej_lo.len(),
        forall|i: int| lo <= i <= hi ==> !nan(#[trigger] ref_hi[i]),
        forall|i: int| lo <= i <= hi ==> !nan(#[trigger] rej_lo[i]),
    ensures
        at_most(ref_hi[k], greatest(ref_hi, lo, hi)),
        at_most(smallest(rej_lo, lo, hi), rej_lo[k]),
        !nan(greatest(ref_hi, lo, hi)),
        !nan(smallest(rej_lo, lo, hi)),
    decreases hi - lo,
{
    if lo < hi {
        if k < hi {
            law_guards_only_widen(ref_hi, rej_lo, lo, hi - 1, k);
        } else {
            law_guards_only_widen(ref_hi, rej_lo, lo, hi - 1, lo);
        }
    }
}

} // verus!
