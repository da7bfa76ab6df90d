//! Packed ensembles: the file form, ranks, scores, and parts cut out of a pack.

use riskanvil::features::{FeatureBatch, FeatureStorage};
use riskanvil::le::ReadError;
use riskanvil::qs_batch::{qs_exact_rows, run_qs_exact};
use riskanvil::qs_extract::{
    extract_tree_indices_remapped, extract_tree_range_remapped, ExtractError,
};
use riskanvil::qs_features::{append_tree_range_new_feature_ids, tree_range_feature_ids};
use riskanvil::qs_pack::{
    load_qs_pack, save_qs_pack_v2, Mask128, PackError, QsBlockHdr, QsPack, QsTreeHdr,
};
use riskanvil::qs_prefix::{
    check_checkpoints, prefix_until, prefix_until_from, prefix_until_from_nomiss,
    prefix_until_from_prequantized_nomiss,
};
use riskanvil::qs_rows::{
    interval_row, mask_bounds, prefix_checkpoints_row, prefix_checkpoints_row_from,
    score_all_trees_prequantized_nomiss, score_row, QsAgg,
};
use riskanvil::qs_score::{
    score_tree_indices_from_quantized, score_tree_indices_from_quantized_nomiss,
    score_tree_quantized, score_tree_quantized_nomiss, ScoreError,
};
use riskanvil::quantize::{
    quantize_feature_subset_nomiss, quantize_feature_subset_nomiss_mapped,
    quantize_feature_subset_nomiss_precomputed, quantize_into, quantize_into_nomiss,
};

fn bits(values: &[f32]) -> Vec<u32> {
    values.iter().map(|v| v.to_bits()).collect()
}

fn only(lo: u64) -> Mask128 {
    Mask128 { lo, hi: 0 }
}

fn table(buckets: &[u8]) -> Vec<u8> {
    let last = *buckets.last().unwrap();
    (0..129).map(|r| if r < buckets.len() { buckets[r] } else { last }).collect()
}

/// Two trees on two features. The first splits feature 0 at 0.5; the second splits feature 1 at
/// 2 and, above that, feature 0 at 1.5. A missing feature goes left in the first tree and right
/// in the second.
fn pack() -> QsPack {
    let mut luts = table(&[0, 1]);
    luts.extend(table(&[0, 1]));
    luts.extend(table(&[0, 0, 1]));
    QsPack {
        n_features: 2,
        n_trees: 2,
        n_blocks: 3,
        base_score: 0.25f32.to_bits(),
        cut_offsets: vec![0, 2, 3],
        cuts: bits(&[0.5, 1.5, 2.0]),
        tree_hdrs: vec![
            QsTreeHdr {
                block_off: 0,
                block_cnt: 1,
                leaf_cnt: 2,
                leaf_val_off: 0,
                init_lo: 0b11,
                init_hi: 0,
            },
            QsTreeHdr {
                block_off: 1,
                block_cnt: 2,
                leaf_cnt: 3,
                leaf_val_off: 2,
                init_lo: 0b111,
                init_hi: 0,
            },
        ],
        block_hdrs: vec![
            QsBlockHdr { fid: 0, bucket_cnt: 3, miss_bucket: 2, lut_off: 0, mask_off: 0 },
            QsBlockHdr { fid: 1, bucket_cnt: 3, miss_bucket: 2, lut_off: 129, mask_off: 3 },
            QsBlockHdr { fid: 0, bucket_cnt: 3, miss_bucket: 2, lut_off: 258, mask_off: 6 },
        ],
        luts,
        masks: vec![
            only(0b01),
            only(0b10),
            only(0b01),
            only(0b001),
            only(0b110),
            only(0b110),
            only(0b011),
            only(0b101),
            only(0b101),
        ],
        leaf_values: bits(&[1.0, 2.0, 10.0, 20.0, 40.0]),
        row_headers: true,
    }
}

fn rows() -> Vec<(Vec<u32>, Vec<u32>, u64)> {
    vec![
        (bits(&[0.0, 0.0]), bits(&[1.0, 10.0]), 2),
        (bits(&[1.0, 3.0]), bits(&[2.0, 20.0]), 3),
        (bits(&[2.0, 3.0]), bits(&[2.0, 40.0]), 3),
        (bits(&[0.5, 1.9]), bits(&[2.0, 10.0]), 2),
        (bits(&[f32::NAN, f32::NAN]), bits(&[1.0, 40.0]), 3),
    ]
}

#[test]
fn pack_is_read_as_it_was_written() {
    let p = pack();
    let b = save_qs_pack_v2(&p);
    assert_eq!(&b[..7], b"L2QSv2\0");
    let q = load_qs_pack(&b).unwrap();
    let p = QsPack { row_headers: false, ..p };
    assert_eq!(format!("{:?}", q), format!("{:?}", p));
    let mut v1 = b;
    v1[5] = b'1';
    assert!(load_qs_pack(&v1).unwrap().row_headers);
}

#[test]
fn counts_of_a_pack() {
    let p = pack();
    assert_eq!((p.n_features(), p.n_trees(), p.n_blocks()), (2, 2, 3));
    assert_eq!((p.cut_offset(0), p.cut_offset(1), p.cut_offset(2)), (0, 2, 3));
    assert_eq!(p.cuts_slice(), &bits(&[0.5, 1.5, 2.0])[..]);
}

#[test]
fn files_that_are_no_packs() {
    let good = save_qs_pack_v2(&pack());
    let load = |b: &[u8]| load_qs_pack(b).map(|_| ()).unwrap_err();
    let with = |at: usize, v: u64| {
        let mut b = good.clone();
        b[at..at + 8].copy_from_slice(&v.to_le_bytes());
        b
    };
    let offset = |at: usize| u64::from_le_bytes(good[at..at + 8].try_into().unwrap());
    assert_eq!(load(&good[..78]), PackError::TooShort);
    let mut b = good.clone();
    b[0] = b'X';
    assert_eq!(load(&b), PackError::BadMagic);
    assert_eq!(load(&with(23, 80)), PackError::CutOffsetsOffset);
    assert_eq!(load(&good[..80]), PackError::Read(ReadError::U32));
    assert_eq!(load(&with(31, 0)), PackError::CutsOffset);
    assert_eq!(load(&good[..offset(31) as usize]), PackError::Read(ReadError::Single));
    assert_eq!(load(&with(39, 0)), PackError::TreeHeadersOffset);
    assert_eq!(load(&good[..offset(39) as usize]), PackError::Read(ReadError::U32));
    assert_eq!(load(&good[..offset(39) as usize + 12]), PackError::Read(ReadError::U64));
    assert_eq!(load(&with(47, 0)), PackError::BlockHeadersOffset);
    assert_eq!(load(&good[..offset(47) as usize]), PackError::BlockHeaderTruncated);
    assert_eq!(load(&with(55, 0)), PackError::LutsOffset);
    assert_eq!(load(&with(63, offset(55))), PackError::LutSectionTooShort);
    assert_eq!(load(&with(63, good.len() as u64 + 1)), PackError::LutSectionOutsideFile);
    assert_eq!(load(&with(71, offset(63) + 16)), PackError::MaskSectionTooShort);
    assert_eq!(load(&good[..offset(63) as usize + 8]), PackError::Read(ReadError::U64));
    assert_eq!(load(&with(71, offset(71) + 4)), PackError::LeafsOffset);
    assert_eq!(load(&good[..good.len() - 1]), PackError::LeafSectionTooShort);
}

#[test]
fn features_are_ranked_and_missing_ones_marked() {
    let p = pack();
    let mut ranks = [9u8; 3];
    let mut missing = [9u8; 3];
    quantize_into(&p, &bits(&[1.5, f32::NAN]), &mut ranks, &mut missing);
    assert_eq!(ranks, [2, 0, 9]);
    assert_eq!(missing, [0, 1, 9]);
    // Where nothing is missing, taking nothing as missing gives the same ranks.
    let feat = bits(&[1.0, 2.0]);
    quantize_into(&p, &feat, &mut ranks, &mut missing);
    let mut plain = [9u8; 3];
    quantize_into_nomiss(&p, &feat, &mut plain);
    assert_eq!(ranks, plain);
    assert_eq!(ranks, [1, 1, 9]);
    assert_eq!(missing, [0, 0, 9]);
    // A missing value passes every cut where it is not taken as missing.
    quantize_into_nomiss(&p, &bits(&[f32::NAN, 0.0]), &mut plain);
    assert_eq!(plain, [2, 0, 9]);
}

#[test]
fn chosen_features_are_ranked() {
    let p = pack();
    let feat = bits(&[2.0, 2.0]);
    let mut ranks = [9u8; 2];
    quantize_feature_subset_nomiss(&p, &feat, &mut ranks, &[1]);
    assert_eq!(ranks, [9, 1]);
    // The spans of the pack itself rank alike.
    let mut spans = [9u8; 2];
    quantize_feature_subset_nomiss_precomputed(
        p.cuts_slice(),
        &feat,
        &mut spans,
        &[1, 0],
        &[2, 0],
        &[3, 2],
    );
    assert_eq!(spans, [2, 1]);
    // A value equal to a cut does not pass it when ranked through a map.
    let mut mapped = [9u8; 2];
    quantize_feature_subset_nomiss_mapped(&p, &bits(&[7.0, 7.0, 1.5]), &mut mapped, &[2]);
    assert_eq!(mapped, [1, 9]);
}

#[test]
fn rows_fall_into_their_leaves() {
    let p = pack();
    for (feat, leaves, evals) in rows() {
        let mut ranks = vec![0u8; 2];
        let mut missing = vec![0u8; 2];
        let w = score_row(&p, &feat, &mut ranks, &mut missing).unwrap();
        assert_eq!(w.leaves, leaves);
        assert_eq!(w.block_evals, evals);
        assert_eq!(w.resolved_early, 2);
        let i = interval_row(&p, &feat, &mut ranks, &mut missing).unwrap();
        assert_eq!((i.lower, i.upper), (leaves.clone(), leaves));
        assert_eq!((i.block_evals, i.resolved_early_trees), (evals, 2));
    }
}

#[test]
fn rows_without_headers_see_no_trees() {
    let p = QsPack { row_headers: false, ..pack() };
    let (mut ranks, mut missing) = (vec![0u8; 2], vec![0u8; 2]);
    let w = score_row(&p, &bits(&[0.0, 0.0]), &mut ranks, &mut missing).unwrap();
    assert_eq!(w.leaves, Vec::<u32>::new());
    assert_eq!(w.block_evals, 0);
}

#[test]
fn one_tree_at_a_time() {
    let p = pack();
    assert_eq!(score_tree_quantized(&p, 0, &[0, 0], &[0, 0]), Ok((1f32.to_bits(), 1, 1)));
    assert_eq!(score_tree_quantized(&p, 1, &[2, 1], &[0, 0]), Ok((40f32.to_bits(), 2, 1)));
    assert_eq!(score_tree_quantized(&p, 1, &[0, 0], &[1, 1]), Ok((40f32.to_bits(), 2, 1)));
    assert_eq!(score_tree_quantized_nomiss(&p, 1, &[2, 1]), Ok((40f32.to_bits(), 2, 1)));
    let w = score_tree_indices_from_quantized(&p, &[1, 0, 1], &[0, 1], &[0, 0]).unwrap();
    assert_eq!(w.leaves, bits(&[20.0, 1.0, 20.0]));
    assert_eq!((w.block_evals, w.resolved_early), (5, 3));
    let w = score_tree_indices_from_quantized_nomiss(&p, &[1], &[0, 1]).unwrap();
    assert_eq!(w.leaves, bits(&[20.0]));
    assert_eq!(
        score_tree_indices_from_quantized(&p, &[2], &[0, 1], &[0, 0]).map(|_| ()),
        Err(ScoreError::TreeOutside { tree: 2 })
    );
}

#[test]
fn trees_that_settle_nothing() {
    let mut p = pack();
    p.masks[0] = only(0b11);
    assert_eq!(score_tree_quantized(&p, 0, &[0, 0], &[0, 0]), Err(ScoreError::Unresolved));
    p.tree_hdrs[0].init_lo = 0b100;
    p.masks[0] = only(0b100);
    assert_eq!(
        score_tree_quantized(&p, 0, &[0, 0], &[0, 0]),
        Err(ScoreError::LeafOutside { leaf: 2, leaf_cnt: 2 })
    );
}

#[test]
fn intervals_hold_the_leaf() {
    let mut p = pack();
    // The last block no longer tells leaves 1 and 2 apart.
    p.masks[6] = only(0b111);
    let (mut ranks, mut missing) = (vec![0u8; 2], vec![0u8; 2]);
    let i = interval_row(&p, &bits(&[1.0, 3.0]), &mut ranks, &mut missing).unwrap();
    assert_eq!(i.lower, bits(&[2.0, 20.0]));
    assert_eq!(i.upper, bits(&[2.0, 40.0]));
    assert_eq!((i.block_evals, i.resolved_early_trees), (3, 1));
}

#[test]
fn bounds_of_a_set_of_leaves() {
    let values = bits(&[3.0, 1.0, 2.0]);
    assert_eq!(mask_bounds(only(0b101), &values, 3), Ok((2f32.to_bits(), 3f32.to_bits())));
    assert_eq!(mask_bounds(only(0b010), &values, 3), Ok((1f32.to_bits(), 1f32.to_bits())));
    assert_eq!(mask_bounds(only(0), &values, 3), Err(ScoreError::EmptySet));
    assert_eq!(
        mask_bounds(only(0b1001), &values, 3),
        Err(ScoreError::LeafOutside { leaf: 3, leaf_cnt: 3 })
    );
    assert_eq!(
        mask_bounds(Mask128 { lo: 0, hi: 1 }, &values, 3),
        Err(ScoreError::LeafOutside { leaf: 64, leaf_cnt: 3 })
    );
}

#[test]
fn checkpoints_have_to_rise() {
    assert_eq!(check_checkpoints(&[1, 2], 2), None);
    assert_eq!(check_checkpoints(&[], 2), Some(ScoreError::NoCheckpoints));
    assert_eq!(
        check_checkpoints(&[0, 2], 2),
        Some(ScoreError::InvalidCheckpoint { checkpoint: 0 })
    );
    assert_eq!(
        check_checkpoints(&[1, 3], 2),
        Some(ScoreError::InvalidCheckpoint { checkpoint: 3 })
    );
    assert_eq!(check_checkpoints(&[2, 2], 2), Some(ScoreError::CheckpointsNotIncreasing));
}

#[test]
fn run_stops_where_it_is_told_to() {
    let p = pack();
    let feat = bits(&[1.0, 3.0]);
    let (mut ranks, mut missing) = (vec![0u8; 2], vec![0u8; 2]);
    let stop = |cp: usize, leaves: &[u32], evals: u64, early: u64| {
        assert_eq!(leaves.len(), cp);
        assert!(early <= evals);
        leaves[0] == 2f32.to_bits()
    };
    let row = prefix_until(&p, &feat, &mut ranks, &mut missing, &[1, 2], &stop).unwrap();
    assert_eq!(row.leaves, bits(&[2.0]));
    assert_eq!((row.trees_used, row.block_evals, row.resolved_early_trees), (1, 1, 1));
    let on = |_: usize, _: &[u32], _: u64, _: u64| false;
    let row = prefix_until(&p, &feat, &mut ranks, &mut missing, &[1, 2], &on).unwrap();
    assert_eq!(row.leaves, bits(&[2.0, 20.0]));
    assert_eq!((row.trees_used, row.block_evals, row.resolved_early_trees), (2, 3, 2));
    let row =
        prefix_until_from(&p, &feat, &mut ranks, &mut missing, &[2], 1, 100, 10, &on).unwrap();
    assert_eq!(row.leaves, bits(&[20.0]));
    assert_eq!((row.trees_used, row.block_evals, row.resolved_early_trees), (2, 102, 11));
    let row = prefix_until_from_nomiss(&p, &feat, &mut ranks, &[2], 1, 0, 0, &on).unwrap();
    assert_eq!(row.leaves, bits(&[20.0]));
    let row = prefix_until_from_prequantized_nomiss(&p, &ranks, &[2], 0, 0, 0, &on).unwrap();
    assert_eq!(row.leaves, bits(&[2.0, 20.0]));
    assert_eq!(
        prefix_until_from_prequantized_nomiss(&p, &ranks, &[2], 3, 0, 0, &on).map(|_| ()),
        Err(ScoreError::StartOutside { start: 3 })
    );
}

#[test]
fn every_checkpoint_is_recorded() {
    let p = pack();
    let feat = bits(&[1.0, 3.0]);
    let (mut ranks, mut missing) = (vec![0u8; 2], vec![0u8; 2]);
    let row = prefix_checkpoints_row(&p, &feat, &mut ranks, &mut missing, &[1, 2]).unwrap();
    assert_eq!(row.leaves, bits(&[2.0, 20.0]));
    assert_eq!(row.checkpoint_block_evals, vec![1, 3]);
    assert_eq!(row.checkpoint_resolved_early_trees, vec![1, 2]);
    assert_eq!(row.resolved_early_trees, 2);
    assert_eq!(
        prefix_checkpoints_row_from(&p, &feat, &mut ranks, &mut missing, &[1, 2], 1, 0, 0)
            .map(|_| ()),
        Err(ScoreError::CheckpointNotReached { reached: 0 })
    );
    let all = score_all_trees_prequantized_nomiss(&p, &ranks, 5, 6).unwrap();
    assert_eq!(all.leaves, bits(&[2.0, 20.0]));
    assert_eq!((all.trees_used, all.block_evals, all.resolved_early_trees), (2, 8, 8));
}

fn batch() -> FeatureBatch {
    let x: Vec<u32> = rows().into_iter().flat_map(|(feat, _, _)| feat).collect();
    FeatureBatch {
        n_rows: 5,
        n_cols: 2,
        storage: FeatureStorage::Owned { x, ids: vec![1, 2, 3, 4, 5], y: vec![0; 5] },
        nan_free: false,
    }
}

#[test]
fn batches_can_be_cut_anywhere() {
    let p = pack();
    let b = batch();
    let (all, agg) = run_qs_exact(&p, &b, 5).unwrap();
    let want: Vec<Vec<u32>> = rows().into_iter().map(|(_, leaves, _)| leaves).collect();
    assert_eq!(all, want);
    assert_eq!(agg, QsAgg { total_block_evals: 13, resolved_early_trees: 10 });
    let (mut head, first) = qs_exact_rows(&p, &b, 0, 2).unwrap();
    let (tail, second) = qs_exact_rows(&p, &b, 2, 5).unwrap();
    head.extend(tail);
    assert_eq!(head, all);
    assert_eq!(QsAgg::merge(first, second), agg);
    assert_eq!(QsAgg::merge(QsAgg::zero(), agg), agg);
    let wide = FeatureBatch { n_cols: 3, ..batch() };
    assert_eq!(run_qs_exact(&p, &wide, 1).map(|_| ()), Err(ScoreError::FeatureCountMismatch));
}

#[test]
fn features_of_trees_in_order_of_first_use() {
    let p = pack();
    assert_eq!(tree_range_feature_ids(&p, 0, 1), vec![0]);
    assert_eq!(tree_range_feature_ids(&p, 1, 2), vec![1, 0]);
    assert_eq!(tree_range_feature_ids(&p, 0, 2), vec![0, 1]);
    let mut seen = [false, false];
    let mut out = Vec::new();
    append_tree_range_new_feature_ids(&p, 0, 1, &mut seen, &mut out);
    append_tree_range_new_feature_ids(&p, 1, 2, &mut seen, &mut out);
    assert_eq!(out, vec![0, 1]);
    assert_eq!(seen, [true, true]);
}

#[test]
fn parts_of_a_pack_score_alike() {
    let p = pack();
    let (part, map) = extract_tree_range_remapped(&p, 1, 2).unwrap();
    assert_eq!(map, vec![1, 0]);
    assert_eq!((part.n_features, part.n_trees, part.n_blocks), (2, 1, 2));
    assert_eq!(part.cuts, bits(&[2.0, 0.5, 1.5]));
    assert_eq!(part.cut_offsets, vec![0, 1, 3]);
    for (feat, leaves, _) in rows().into_iter().take(4) {
        let local: Vec<u32> = map.iter().map(|f| feat[*f as usize]).collect();
        let mut ranks = vec![0u8; 2];
        quantize_into_nomiss(&part, &local, &mut ranks);
        let (leaf, _, _) = score_tree_quantized_nomiss(&part, 0, &ranks).unwrap();
        assert_eq!(leaf, leaves[1]);
    }
    // The bucket of missing values does not matter where none is missing.
    let mut odd = pack();
    for b in odd.block_hdrs.iter_mut() {
        b.miss_bucket = b.bucket_cnt;
    }
    let (part, map) = extract_tree_range_remapped(&odd, 1, 2).unwrap();
    for (feat, leaves, _) in rows().into_iter().take(4) {
        let local: Vec<u32> = map.iter().map(|f| feat[*f as usize]).collect();
        let mut ranks = vec![0u8; 2];
        quantize_into_nomiss(&part, &local, &mut ranks);
        let (leaf, _, _) = score_tree_quantized_nomiss(&part, 0, &ranks).unwrap();
        assert_eq!(leaf, leaves[1]);
    }
    let (part, map) = extract_tree_indices_remapped(&p, &[0]).unwrap();
    assert_eq!(map, vec![0]);
    assert_eq!(part.leaf_values, bits(&[1.0, 2.0]));
    // A part is written and read again as it was.
    for trees in [vec![0], vec![1], vec![1, 0], vec![0, 0]] {
        let (part, _) = extract_tree_indices_remapped(&p, &trees).unwrap();
        let back = load_qs_pack(&save_qs_pack_v2(&part)).unwrap();
        assert_eq!(format!("{:?}", back), format!("{:?}", part));
    }
    assert_eq!(
        extract_tree_range_remapped(&p, 2, 2).map(|_| ()),
        Err(ExtractError::EmptyRange)
    );
    assert_eq!(
        extract_tree_indices_remapped(&p, &[]).map(|_| ()),
        Err(ExtractError::EmptyList)
    );
    assert_eq!(
        extract_tree_indices_remapped(&p, &[0, 7]).map(|_| ()),
        Err(ExtractError::TreeOutside { tree: 7 })
    );
}
