//! Making the tables of a calibration out of what its file lists.

use crate::bands::{place_of, table_sound, BandView, LoadedPrefixCal, LoadedPrefixCheckpoint};
use crate::text::same_text;
use vstd::prelude::*;

verus! {

/// The bands of one fold.
#[derive(Debug)]
pub struct PrefixCalFoldFile {
    pub fold_id: i32,
    pub ref_hi: Vec<u32>,
    pub rej_lo: Vec<u32>,
}

/// The bands of one fold for one bin of the threshold.
#[derive(Debug)]
pub struct PrefixCalTauFoldFile {
    pub fold_id: i32,
    pub tau_bin: usize,
    pub ref_hi: Vec<u32>,
    pub rej_lo: Vec<u32>,
}

/// The bands of one checkpoint.
#[derive(Debug)]
pub struct PrefixCalTableFile {
    pub checkpoint: usize,
    pub gap_edges: Vec<u32>,
    pub global_ref_hi: Vec<u32>,
    pub global_rej_lo: Vec<u32>,
    pub tau_edges: Vec<u32>,
    pub fold_tables: Vec<PrefixCalFoldFile>,
    pub tau_fold_tables: Vec<PrefixCalTauFoldFile>,
}

/// One way of calibrating.
#[derive(Debug)]
pub struct PrefixCalVariantFile {
    pub key: String,
    pub ref_q: u32,
    pub rej_q: u32,
    pub tables: Vec<PrefixCalTableFile>,
}

/// A calibration.
#[derive(Debug)]
pub struct PrefixCalFile {
    pub format: String,
    pub checkpoints: Vec<usize>,
    pub variants: Vec<PrefixCalVariantFile>,
}

/// Why a calibration is not accepted.
#[derive(Clone, Copy, Debug, PartialEq, Eq, Structural)]
pub enum CalError {
    Format,
    NoCheckpoints,
    NoVariant,
    TableCount { checkpoints: usize, tables: usize },
    GapEdges { checkpoint: usize, got: usize },
    GlobalBands { checkpoint: usize, ref_len: usize, rej_len: usize },
    FoldBands { checkpoint: usize, fold: i32, ref_len: usize, rej_len: usize },
    TooLarge { checkpoint: usize },
    TauBands { checkpoint: usize, fold: i32, tau_bin: usize, ref_len: usize, rej_len: usize },
    UnknownFold { checkpoint: usize, fold: i32 },
    TauBin { checkpoint: usize, fold: i32, tau_bin: usize, bins: usize },
}

/// The numbers of the folds.
pub open spec fn fold_numbers(folds: Seq<PrefixCalFoldFile>) -> Seq<i32> {
    folds.map_values(|f: PrefixCalFoldFile| f.fold_id)
}

/// The smallest of the first `n` numbers.
pub open spec fn lowest(ids: Seq<i32>, n: int) -> i32
    decreases n,
{
    if n <= 1 {
        ids[0]
    } else if ids[n - 1] < lowest(ids, n - 1) {
        ids[n - 1]
    } else {
        lowest(ids, n - 1)
    }
}

/// The largest of the first `n` numbers.
pub open spec fn highest(ids: Seq<i32>, n: int) -> i32
    decreases n,
{
    if n <= 1 {
        ids[0]
    } else if ids[n - 1] > highest(ids, n - 1) {
        ids[n - 1]
    } else {
        highest(ids, n - 1)
    }
}

proof fn lemma_extremes(ids: Seq<i32>, n: int)
    requires
        1 <= n <= ids.len(),
    ensures
        forall|i: int| 0 <= i < n ==> lowest(ids, n) <= #[trigger] ids[i] <= highest(ids, n),
    decreases n,
{
    if n > 1 {
        lemma_extremes(ids, n - 1);
    }
}

/// The last of the first `n` folds that has a number.
pub open spec fn last_place(ids: Seq<i32>, fold: int, n: int) -> Option<int>
    decreases n,
{
    if n <= 0 {
        None
    } else if ids[n - 1] == fold {
        Some(n - 1)
    } else {
        last_place(ids, fold, n - 1)
    }
}

/// The slot of a number in a table of slots; minus one where no fold has it.
pub open spec fn lut_slot(ids: Seq<i32>, fold: int, n: int) -> i16 {
    match last_place(ids, fold, n) {
        Some(k) => k as i16,
        None => -1i16,
    }
}

/// The table of slots by number, and the number it starts at. There is none where the numbers lie
/// too far apart.
pub open spec fn slot_table(ids: Seq<i32>) -> (i32, Seq<i16>) {
    let n = ids.len() as int;
    if n == 0 {
        (0, Seq::empty())
    } else {
        let lo = lowest(ids, n);
        let span = highest(ids, n) - lo + 1;
        if span <= 4096 {
            (lo, Seq::new(span as nat, |i: int| lut_slot(ids, lo + i, n)))
        } else {
            (0, Seq::empty())
        }
    }
}

/// Makes the table of slots.
pub fn make_slot_table(ids: &Vec<i32>) -> (r: (i32, Vec<i16>))
    ensures
        (r.0, r.1@) == slot_table(ids@),
{
    let n: usize = ids.len();
    let empty: Vec<i16> = Vec::new();
    assert(empty@ =~= Seq::empty());
    if n == 0 {
        return (0, empty);
    }
    let mut lo: i32 = ids[0];
    let mut hi: i32 = ids[0];
    let mut i: usize = 1;
    while i < n
        invariant
            1 <= i <= n,
            n == ids@.len(),
            lo == lowest(ids@, i as int),
            hi == highest(ids@, i as int),
        decreases n - i,
    {
        if ids[i] < lo {
            lo = ids[i];
        }
        if ids[i] > hi {
            hi = ids[i];
        }
        i += 1;
    }
    proof {
        lemma_extremes(ids@, n as int);
    }
    let span: i64 = hi as i64 - lo as i64 + 1;
    if span > 4096 {
        return (0, empty);
    }
    assert(span >= 1) by {
        assert(lo <= ids@[0] <= hi);
    }
    let mut lut: Vec<i16> = vec![-1i16; span as usize];
    let mut k: usize = 0;
    while k < n
        invariant
            k <= n,
            n == ids@.len(),
            1 <= span <= 4096,
            span == hi - lo + 1,
            lut@.len() == span,
            forall|j: int| 0 <= j < n ==> lo <= #[trigger] ids@[j] <= hi,
            forall|j: int| 0 <= j < span ==> #[trigger] lut@[j] == lut_slot(ids@, lo + j, k as int),
        decreases n - k,
    {
        let at: usize = (ids[k] as i64 - lo as i64) as usize;
        lut.set(at, k as i16);
        k += 1;
    }
    assert(lut@ =~= slot_table(ids@).1);
    (lo, lut)
}

/// Values of bands one after the other, 256 of each.
pub open spec fn bands_in_a_row(n: nat, band: spec_fn(int) -> Seq<u32>) -> Seq<u32> {
    Seq::new(n * 256, |k: int| band(k / 256)[k % 256])
}

/// How many bins the edges of the threshold make.
pub open spec fn tau_bins(edges: nat) -> nat {
    if edges == 0 {
        0
    } else {
        (edges - 1) as nat
    }
}

/// The slot that the bands of a fold and a bin go to.
pub open spec fn tau_slot(ids: Seq<i32>, bins: nat, e: PrefixCalTauFoldFile) -> int {
    place_of(ids, e.fold_id, 0)->0 * bins + e.tau_bin
}

/// The last of the first `n` entries for a slot.
pub open spec fn last_in_slot(
    ids: Seq<i32>,
    bins: nat,
    es: Seq<PrefixCalTauFoldFile>,
    slot: int,
    n: int,
) -> Option<int>
    decreases n,
{
    if n <= 0 {
        None
    } else if tau_slot(ids, bins, es[n - 1]) == slot {
        Some(n - 1)
    } else {
        last_in_slot(ids, bins, es, slot, n - 1)
    }
}

/// The value of a slot: of the entry that went there, or zero.
pub open spec fn slot_value(
    es: Seq<PrefixCalTauFoldFile>,
    at: Option<int>,
    reject: bool,
    g: int,
) -> u32 {
    match at {
        Some(k) => if reject {
            es[k].rej_lo@[g]
        } else {
            es[k].ref_hi@[g]
        },
        None => 0,
    }
}

/// What is wrong with the first fold whose bands do not have 256 values.
pub open spec fn fold_fault(cp: usize, folds: Seq<PrefixCalFoldFile>, k: int) -> Option<CalError>
    decreases folds.len() - k,
{
    if k < 0 || k >= folds.len() {
        None
    } else if folds[k].ref_hi@.len() != 256 || folds[k].rej_lo@.len() != 256 {
        Some(
            CalError::FoldBands {
                checkpoint: cp,
                fold: folds[k].fold_id,
                ref_len: folds[k].ref_hi@.len() as usize,
                rej_len: folds[k].rej_lo@.len() as usize,
            },
        )
    } else {
        fold_fault(cp, folds, k + 1)
    }
}

/// What is wrong with one entry for a fold and a bin.
pub open spec fn tau_entry_fault(
    cp: usize,
    ids: Seq<i32>,
    bins: nat,
    e: PrefixCalTauFoldFile,
) -> Option<CalError> {
    if e.ref_hi@.len() != 256 || e.rej_lo@.len() != 256 {
        Some(
            CalError::TauBands {
                checkpoint: cp,
                fold: e.fold_id,
                tau_bin: e.tau_bin,
                ref_len: e.ref_hi@.len() as usize,
                rej_len: e.rej_lo@.len() as usize,
            },
        )
    } else if place_of(ids, e.fold_id, 0) is None {
        Some(CalError::UnknownFold { checkpoint: cp, fold: e.fold_id })
    } else if e.tau_bin >= bins {
        Some(
            CalError::TauBin {
                checkpoint: cp,
                fold: e.fold_id,
                tau_bin: e.tau_bin,
                bins: bins as usize,
            },
        )
    } else {
        None
    }
}

/// What is wrong with the first entry, from `k` on, for a fold and a bin.
pub open spec fn tau_fault(
    cp: usize,
    ids: Seq<i32>,
    bins: nat,
    es: Seq<PrefixCalTauFoldFile>,
    k: int,
) -> Option<CalError>
    decreases es.len() - k,
{
    if k < 0 || k >= es.len() {
        None
    } else {
        match tau_entry_fault(cp, ids, bins, es[k]) {
            Some(e) => Some(e),
            None => tau_fault(cp, ids, bins, es, k + 1),
        }
    }
}

/// What is wrong with the bands of a checkpoint, in the order in which it is noticed.
pub open spec fn table_fault(t: PrefixCalTableFile) -> Option<CalError> {
    let ids = fold_numbers(t.fold_tables@);
    let bins = tau_bins(t.tau_edges@.len());
    if t.gap_edges@.len() != 257 {
        Some(
            CalError::GapEdges { checkpoint: t.checkpoint, got: t.gap_edges@.len() as usize },
        )
    } else if t.global_ref_hi@.len() != 256 || t.global_rej_lo@.len() != 256 {
        Some(
            CalError::GlobalBands {
                checkpoint: t.checkpoint,
                ref_len: t.global_ref_hi@.len() as usize,
                rej_len: t.global_rej_lo@.len() as usize,
            },
        )
    } else {
        match fold_fault(t.checkpoint, t.fold_tables@, 0) {
            Some(e) => Some(e),
            None => if ids.len() * bins * 256 > usize::MAX {
                Some(CalError::TooLarge { checkpoint: t.checkpoint })
            } else {
                tau_fault(t.checkpoint, ids, bins, t.tau_fold_tables@, 0)
            },
        }
    }
}

/// The table that the bands of a checkpoint make.
pub open spec fn table_made(t: PrefixCalTableFile) -> BandView {
    let folds = t.fold_tables@;
    let ids = fold_numbers(folds);
    let bins = tau_bins(t.tau_edges@.len());
    let es = t.tau_fold_tables@;
    let n = es.len() as int;
    let slots = (ids.len() * bins) as nat;
    BandView {
        checkpoint: t.checkpoint,
        gap_edges: t.gap_edges@,
        global_ref_hi: t.global_ref_hi@,
        global_rej_lo: t.global_rej_lo@,
        tau_edges: t.tau_edges@,
        fold_ids: ids,
        fold_lut_base: slot_table(ids).0,
        fold_slot_lut: slot_table(ids).1,
        fold_ref_hi: bands_in_a_row(folds.len(), |f: int| folds[f].ref_hi@),
        fold_rej_lo: bands_in_a_row(folds.len(), |f: int| folds[f].rej_lo@),
        tau_bin_count: bins as usize,
        tau_fold_mask: Seq::new(
            slots,
            |s: int|
                if last_in_slot(ids, bins, es, s, n) is Some {
                    1u8
                } else {
                    0u8
                },
        ),
        tau_ref_hi: Seq::new(
            slots * 256,
            |k: int| slot_value(es, last_in_slot(ids, bins, es, k / 256, n), false, k % 256),
        ),
        tau_rej_lo: Seq::new(
            slots * 256,
            |k: int| slot_value(es, last_in_slot(ids, bins, es, k / 256, n), true, k % 256),
        ),
    }
}

/// Copies 256 values to a place.
fn copy_band(out: &mut Vec<u32>, slot: usize, band: &Vec<u32>)
    requires
        band@.len() == 256,
        slot * 256 + 256 <= old(out)@.len(),
    ensures
        final(out)@.len() == old(out)@.len(),
        forall|k: int|
            0 <= k < old(out)@.len() ==> #[trigger] final(out)@[k] == (if k / 256 == slot {
                band@[k % 256]
            } else {
                old(out)@[k]
            }),
{
    let ghost before = out@;
    assert(out@.len() == out.len());
    let mut g: usize = 0;
    while g < 256
        invariant
            g <= 256,
            band@.len() == 256,
            out@.len() == before.len(),
            slot * 256 + 256 <= before.len(),
            out@.len() <= usize::MAX,
            forall|k: int|
                0 <= k < before.len() ==> #[trigger] out@[k] == (if k / 256 == slot && k % 256 < g {
                    band@[k % 256]
                } else {
                    before[k]
                }),
        decreases 256 - g,
    {
        out.set(slot * 256 + g, band[g]);
        g += 1;
    }
}

/// A slot of a fold and a bin is one of the slots.
proof fn lemma_slot_fits(place: int, folds: nat, bins: nat, bin: int)
    requires
        0 <= place < folds,
        0 <= bin < bins,
    ensures
        0 <= place * bins + bin < folds * bins,
{
    assert(place * bins + bin < folds * bins) by (nonlinear_arith)
        requires
            0 <= place < folds,
            0 <= bin < bins,
    ;
    assert(place * bins >= 0) by (nonlinear_arith)
        requires
            0 <= place,
            0 <= bins,
    ;
}

proof fn lemma_place_range(ids: Seq<i32>, fold: i32, i: int)
    requires
        0 <= i,
    ensures
        place_of(ids, fold, i) matches Some(k) ==> i <= k < ids.len(),
    decreases ids.len() - i,
{
    if i < ids.len() {
        lemma_place_range(ids, fold, i + 1);
    }
}

/// The place of a fold.
fn find_place(ids: &Vec<i32>, fold: i32) -> (r: Option<usize>)
    ensures
        match r {
            Some(k) => k < ids@.len() && place_of(ids@, fold, 0) == Some(k as int),
            None => place_of(ids@, fold, 0) is None,
        },
{
    let mut i: usize = 0;
    while i < ids.len()
        invariant
            i <= ids@.len(),
            place_of(ids@, fold, 0) == place_of(ids@, fold, i as int),
        decreases ids@.len() - i,
    {
        if ids[i] == fold {
            return Some(i);
        }
        i += 1;
    }
    None
}

/// Makes the table of one checkpoint.
pub fn make_table(table: &PrefixCalTableFile) -> (r: Result<LoadedPrefixCheckpoint, CalError>)
    ensures
        match table_fault(*table) {
            Some(e) => r == Err::<LoadedPrefixCheckpoint, CalError>(e),
            None => r matches Ok(t) && t@ == table_made(*table) && table_sound(t@),
        },
{
    let cp: usize = table.checkpoint;
    if table.gap_edges.len() != 257 {
        return Err(CalError::GapEdges { checkpoint: cp, got: table.gap_edges.len() });
    }
    if table.global_ref_hi.len() != 256 || table.global_rej_lo.len() != 256 {
        return Err(
            CalError::GlobalBands {
                checkpoint: cp,
                ref_len: table.global_ref_hi.len(),
                rej_len: table.global_rej_lo.len(),
            },
        );
    }
    let folds: &Vec<PrefixCalFoldFile> = &table.fold_tables;
    let ghost ids = fold_numbers(folds@);
    let mut fold_ids: Vec<i32> = Vec::new();
    let mut fold_ref_hi: Vec<u32> = Vec::new();
    let mut fold_rej_lo: Vec<u32> = Vec::new();
    let mut i: usize = 0;
    while i < folds.len()
        invariant
            i <= folds@.len(),
            *folds == table.fold_tables,
            cp == table.checkpoint,
            ids == fold_numbers(folds@),
            table.gap_edges@.len() == 257,
            table.global_ref_hi@.len() == 256,
            table.global_rej_lo@.len() == 256,
            fold_fault(cp, folds@, 0) == fold_fault(cp, folds@, i as int),
            fold_ids@ == ids.take(i as int),
            fold_ref_hi@.len() == i * 256,
            fold_rej_lo@.len() == i * 256,
            forall|f: int|
                0 <= f < i ==> (#[trigger] folds@[f]).ref_hi@.len() == 256
                    && folds@[f].rej_lo@.len() == 256,
            forall|k: int|
                0 <= k < i * 256 ==> #[trigger] fold_ref_hi@[k] == folds@[k / 256].ref_hi@[k % 256],
            forall|k: int|
                0 <= k < i * 256 ==> #[trigger] fold_rej_lo@[k] == folds@[k / 256].rej_lo@[k % 256],
        decreases folds@.len() - i,
    {
        let f: &PrefixCalFoldFile = &folds[i];
        if f.ref_hi.len() != 256 || f.rej_lo.len() != 256 {
            return Err(
                CalError::FoldBands {
                    checkpoint: cp,
                    fold: f.fold_id,
                    ref_len: f.ref_hi.len(),
                    rej_len: f.rej_lo.len(),
                },
            );
        }
        fold_ids.push(f.fold_id);
        assert(fold_ids@ =~= ids.take(i + 1));
        let mut g: usize = 0;
        while g < 256
            invariant
                g <= 256,
                i < folds@.len(),
                *f == folds@[i as int],
                f.ref_hi@.len() == 256,
                f.rej_lo@.len() == 256,
                fold_ref_hi@.len() == i * 256 + g,
                fold_rej_lo@.len() == i * 256 + g,
                forall|k: int|
                    0 <= k < i * 256 + g ==> #[trigger] fold_ref_hi@[k] == folds@[k
                        / 256].ref_hi@[k % 256],
                forall|k: int|
                    0 <= k < i * 256 + g ==> #[trigger] fold_rej_lo@[k] == folds@[k
                        / 256].rej_lo@[k % 256],
            decreases 256 - g,
        {
            fold_ref_hi.push(f.ref_hi[g]);
            fold_rej_lo.push(f.rej_lo[g]);
            g += 1;
        }
        i += 1;
    }
    assert(fold_ids@ =~= ids);
    assert(fold_ref_hi@ =~= bands_in_a_row(folds@.len(), |f: int| folds@[f].ref_hi@));
    assert(fold_rej_lo@ =~= bands_in_a_row(folds@.len(), |f: int| folds@[f].rej_lo@));
    let lut: (i32, Vec<i16>) = make_slot_table(&fold_ids);
    let bins: usize = if table.tau_edges.len() == 0 {
        0
    } else {
        table.tau_edges.len() - 1
    };
    let n_folds: usize = fold_ids.len();
    proof {
        assert(n_folds * bins >= 0) by (nonlinear_arith);
    }
    let slots: usize = match n_folds.checked_mul(bins) {
        None => {
            assert(ids.len() * bins * 256 > usize::MAX);
            return Err(CalError::TooLarge { checkpoint: cp });
        },
        Some(s) => s,
    };
    let values: usize = match slots.checked_mul(256) {
        None => {
            return Err(CalError::TooLarge { checkpoint: cp });
        },
        Some(v) => v,
    };
    let es: &Vec<PrefixCalTauFoldFile> = &table.tau_fold_tables;
    let mut mask: Vec<u8> = vec![0u8; slots];
    let mut tau_ref_hi: Vec<u32> = vec![0u32; values];
    let mut tau_rej_lo: Vec<u32> = vec![0u32; values];
    let mut e: usize = 0;
    while e < es.len()
        invariant
            e <= es@.len(),
            *es == table.tau_fold_tables,
            cp == table.checkpoint,
            ids == fold_ids@,
            bins == tau_bins(table.tau_edges@.len()),
            slots == ids.len() * bins,
            values == slots * 256,
            ids == fold_numbers(table.fold_tables@),
            table.gap_edges@.len() == 257,
            table.global_ref_hi@.len() == 256,
            table.global_rej_lo@.len() == 256,
            fold_fault(cp, table.fold_tables@, 0) is None,
            ids.len() * bins * 256 <= usize::MAX,
            tau_fault(cp, ids, bins as nat, es@, 0) == tau_fault(
                cp,
                ids,
                bins as nat,
                es@,
                e as int,
            ),
            mask@.len() == slots,
            tau_ref_hi@.len() == values,
            tau_rej_lo@.len() == values,
            forall|s: int|
                0 <= s < slots ==> #[trigger] mask@[s] == (if last_in_slot(
                    ids,
                    bins as nat,
                    es@,
                    s,
                    e as int,
                ) is Some {
                    1u8
                } else {
                    0u8
                }),
            forall|k: int|
                0 <= k < values ==> #[trigger] tau_ref_hi@[k] == slot_value(
                    es@,
                    last_in_slot(ids, bins as nat, es@, k / 256, e as int),
                    false,
                    k % 256,
                ),
            forall|k: int|
                0 <= k < values ==> #[trigger] tau_rej_lo@[k] == slot_value(
                    es@,
                    last_in_slot(ids, bins as nat, es@, k / 256, e as int),
                    true,
                    k % 256,
                ),
        decreases es@.len() - e,
    {
        let x: &PrefixCalTauFoldFile = &es[e];
        if x.ref_hi.len() != 256 || x.rej_lo.len() != 256 {
            return Err(
                CalError::TauBands {
                    checkpoint: cp,
                    fold: x.fold_id,
                    tau_bin: x.tau_bin,
                    ref_len: x.ref_hi.len(),
                    rej_len: x.rej_lo.len(),
                },
            );
        }
        let place: usize = match find_place(&fold_ids, x.fold_id) {
            None => {
                return Err(CalError::UnknownFold { checkpoint: cp, fold: x.fold_id });
            },
            Some(p) => p,
        };
        if x.tau_bin >= bins {
            return Err(
                CalError::TauBin { checkpoint: cp, fold: x.fold_id, tau_bin: x.tau_bin, bins },
            );
        }
        proof {
            lemma_slot_fits(place as int, ids.len(), bins as nat, x.tau_bin as int);
            assert(place * bins >= 0) by (nonlinear_arith);
        }
        let slot: usize = place * bins + x.tau_bin;
        assert(slot == tau_slot(ids, bins as nat, es@[e as int]));
        mask.set(slot, 1);
        copy_band(&mut tau_ref_hi, slot, &x.ref_hi);
        copy_band(&mut tau_rej_lo, slot, &x.rej_lo);
        e += 1;
    }
    let made: LoadedPrefixCheckpoint = LoadedPrefixCheckpoint {
        checkpoint: cp,
        gap_edges: table.gap_edges.clone(),
        global_ref_hi: table.global_ref_hi.clone(),
        global_rej_lo: table.global_rej_lo.clone(),
        tau_edges: table.tau_edges.clone(),
        fold_ids,
        fold_lut_base: lut.0,
        fold_slot_lut: lut.1,
        fold_ref_hi,
        fold_rej_lo,
        tau_bin_count: bins,
        tau_fold_mask: mask,
        tau_ref_hi,
        tau_rej_lo,
    };
    proof {
        assert(made@ =~= table_made(*table));
        assert(table.tau_edges@.len() == table.tau_edges.len());
        lemma_made_is_sound(*table);
    }
    Ok(made)
}

proof fn lemma_last_place_range(ids: Seq<i32>, fold: int, n: int)
    requires
        n <= ids.len(),
    ensures
        last_place(ids, fold, n) matches Some(k) ==> 0 <= k < n,
    decreases n,
{
    if n > 0 {
        lemma_last_place_range(ids, fold, n - 1);
    }
}

/// Everything that can be looked up in a table that was made is there.
pub proof fn lemma_made_is_sound(t: PrefixCalTableFile)
    requires
        table_fault(t) is None,
        t.tau_edges@.len() <= usize::MAX,
    ensures
        table_sound(table_made(t)),
{
    let b = table_made(t);
    let ids = b.fold_ids;
    let bins = tau_bins(t.tau_edges@.len());
    assert(b.tau_bin_count == bins);
    assert(ids.len() * bins >= 0) by (nonlinear_arith);
    assert(b.tau_fold_mask.len() == ids.len() * bins);
    assert(b.fold_ref_hi.len() == ids.len() * 256);
    assert forall|i: int| 0 <= i < b.fold_slot_lut.len() implies (#[trigger] b.fold_slot_lut[i]
        as int) < ids.len() by {
        let lo = lowest(ids, ids.len() as int);
        lemma_last_place_range(ids, lo + i, ids.len() as int);
        assert(b.fold_slot_lut[i] == lut_slot(ids, lo + i, ids.len() as int));
    }
}

/// Whether a name is one of the known formats.
pub open spec fn cal_format(s: Seq<char>) -> bool {
    s == "L2PrefixCalV1"@ || s == "L2PrefixCalV2"@
}

/// The first way, from `k` on, that has a key.
pub open spec fn variant_place(vs: Seq<PrefixCalVariantFile>, key: Seq<char>, k: int) -> Option<int>
    decreases vs.len() - k,
{
    if k < 0 || k >= vs.len() {
        None
    } else if vs[k].key@ == key {
        Some(k)
    } else {
        variant_place(vs, key, k + 1)
    }
}

/// What is wrong with the first checkpoint, from `k` on, whose bands are not accepted.
pub open spec fn tables_fault(ts: Seq<PrefixCalTableFile>, k: int) -> Option<CalError>
    decreases ts.len() - k,
{
    if k < 0 || k >= ts.len() {
        None
    } else {
        match table_fault(ts[k]) {
            Some(e) => Some(e),
            None => tables_fault(ts, k + 1),
        }
    }
}

/// What is wrong with a calibration, in the order in which it is noticed.
pub open spec fn cal_fault(f: PrefixCalFile, key: Seq<char>) -> Option<CalError> {
    if !cal_format(f.format@) {
        Some(CalError::Format)
    } else if f.checkpoints@.len() == 0 {
        Some(CalError::NoCheckpoints)
    } else {
        match variant_place(f.variants@, key, 0) {
            None => Some(CalError::NoVariant),
            Some(v) => {
                let ts = f.variants@[v].tables@;
                if ts.len() != f.checkpoints@.len() {
                    Some(
                        CalError::TableCount {
                            checkpoints: f.checkpoints@.len() as usize,
                            tables: ts.len() as usize,
                        },
                    )
                } else {
                    tables_fault(ts, 0)
                }
            },
        }
    }
}

/// Makes a calibration: the tables of the first way that has the key.
pub fn load_prefix_calibration(raw: &PrefixCalFile, variant_key: &str) -> (r: Result<
    LoadedPrefixCal,
    CalError,
>)
    ensures
        match cal_fault(*raw, variant_key@) {
            Some(e) => r == Err::<LoadedPrefixCal, CalError>(e),
            None => {
                let v = raw.variants@[variant_place(raw.variants@, variant_key@, 0)->0];
                &&& r matches Ok(c)
                &&& c.variant_key@ == variant_key@
                &&& c.ref_q == v.ref_q
                &&& c.rej_q == v.rej_q
                &&& c.checkpoints@ == raw.checkpoints@
                &&& c.tables@.len() == c.checkpoints@.len()
                &&& forall|i: int|
                    0 <= i < c.tables@.len() ==> (#[trigger] c.tables@[i])@ == table_made(
                        v.tables@[i],
                    ) && table_sound(c.tables@[i]@)
            },
        },
{
    if !same_text(raw.format.as_str(), "L2PrefixCalV1") && !same_text(
        raw.format.as_str(),
        "L2PrefixCalV2",
    ) {
        return Err(CalError::Format);
    }
    if raw.checkpoints.len() == 0 {
        return Err(CalError::NoCheckpoints);
    }
    let mut v: usize = 0;
    while v < raw.variants.len()
        invariant
            v <= raw.variants@.len(),
            cal_format(raw.format@),
            raw.checkpoints@.len() > 0,
            variant_place(raw.variants@, variant_key@, 0) == variant_place(
                raw.variants@,
                variant_key@,
                v as int,
            ),
        decreases raw.variants@.len() - v,
    {
        let variant: &PrefixCalVariantFile = &raw.variants[v];
        if same_text(variant.key.as_str(), variant_key) {
            return make_variant(raw, variant, variant_key);
        }
        v += 1;
    }
    Err(CalError::NoVariant)
}

/// Makes the tables of one way.
fn make_variant(raw: &PrefixCalFile, variant: &PrefixCalVariantFile, variant_key: &str) -> (r:
    Result<LoadedPrefixCal, CalError>)
    ensures
        ({
            let ts = variant.tables@;
            if ts.len() != raw.checkpoints@.len() {
                r == Err::<LoadedPrefixCal, CalError>(
                    CalError::TableCount {
                        checkpoints: raw.checkpoints@.len() as usize,
                        tables: ts.len() as usize,
                    },
                )
            } else {
                match tables_fault(ts, 0) {
                    Some(e) => r == Err::<LoadedPrefixCal, CalError>(e),
                    None => {
                        &&& r matches Ok(c)
                        &&& c.variant_key@ == variant_key@
                        &&& c.ref_q == variant.ref_q
                        &&& c.rej_q == variant.rej_q
                        &&& c.checkpoints@ == raw.checkpoints@
                        &&& c.tables@.len() == ts.len()
                        &&& forall|i: int|
                            0 <= i < ts.len() ==> (#[trigger] c.tables@[i])@ == table_made(ts[i])
                                && table_sound(c.tables@[i]@)
                    },
                }
            }
        }),
{
    let ghost ts = variant.tables@;
    if variant.tables.len() != raw.checkpoints.len() {
        return Err(
            CalError::TableCount {
                checkpoints: raw.checkpoints.len(),
                tables: variant.tables.len(),
            },
        );
    }
    let mut tables: Vec<LoadedPrefixCheckpoint> = Vec::new();
    let mut i: usize = 0;
    while i < variant.tables.len()
        invariant
            i <= ts.len(),
            ts == variant.tables@,
            ts.len() == raw.checkpoints@.len(),
            tables_fault(ts, 0) == tables_fault(ts, i as int),
            tables@.len() == i,
            forall|k: int|
                0 <= k < i ==> (#[trigger] tables@[k])@ == table_made(ts[k]) && table_sound(
                    tables@[k]@,
                ),
        decreases ts.len() - i,
    {
        match make_table(&variant.tables[i]) {
            Err(e) => {
                return Err(e);
            },
            Ok(t) => {
                tables.push(t);
            },
        }
        i += 1;
    }
    Ok(
        LoadedPrefixCal {
            variant_key: variant_key.to_owned(),
            ref_q: variant.ref_q,
            rej_q: variant.rej_q,
            checkpoints: raw.checkpoints.clone(),
            tables,
        },
    )
}

/// The table of slots gives every fold that has one a slot with its number.
pub proof fn law_slot_table_finds_folds(ids: Seq<i32>, k: int)
    requires
        0 <= k < ids.len(),
        ids.len() <= 0x7fff,
        slot_table(ids).1.len() > 0,
    ensures
        ({
            let (base, lut) = slot_table(ids);
            let at = ids[k] - base;
            &&& 0 <= at < lut.len()
            &&& 0 <= lut[at] < ids.len()
            &&& ids[lut[at] as int] == ids[k]
        }),
{
    let n = ids.len() as int;
    lemma_extremes(ids, n);
    lemma_last_place_range(ids, ids[k] as int, n);
    lemma_last_place_is(ids, ids[k] as int, n, k);
    let lo = lowest(ids, n);
    assert(lo + (ids[k] - lo) == ids[k]);
}

proof fn lemma_last_place_is(ids: Seq<i32>, fold: int, n: int, k: int)
    requires
        0 <= k < n <= ids.len(),
        ids[k] == fold,
    ensures
        last_place(ids, fold, n) matches Some(j) && ids[j] == fold,
    decreases n,
{
    if ids[n - 1] != fold {
        lemma_last_place_is(ids, fold, n - 1, k);
    }
}

} // verus!
