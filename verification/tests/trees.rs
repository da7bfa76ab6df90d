//! Explicit trees: their files, walks down them, the compact form of the first trees and the
//! stages over them.

use riskanvil::descend::{
    cached_rank, descend_by_rank, descend_by_value, descend_within, PlainRow, RankCache,
    TraverseError,
};
use riskanvil::features::{load_features, FeatureError};
use riskanvil::forest::{
    load_bounds, load_prefix_pack, load_rank_pack, load_soa, load_tree_order,
    materialize_tree_plan, LoadError, PrefixPack, RankPack, TreeNode, TreeOrder,
};
use riskanvil::hot::{hot_exact_score_full, hot_span, ChosenRow, HotFeatureBuf, LazyHotFeatureCache};
use riskanvil::hot_pack::{
    compile_hot_prefix_pack, load_compiled_hot_prefix_pack, save_compiled_hot_prefix_pack,
    CompileError,
};
use riskanvil::le::ReadError;
use riskanvil::row_meta::{load_dispatch_meta, load_route_meta};
use riskanvil::stage_plan::{build_hot_stage_plan, collect_tree_hot_features, StageError};

fn bits(values: &[f32]) -> Vec<u32> {
    values.iter().map(|v| v.to_bits()).collect()
}

fn leaf(value: f32) -> TreeNode {
    TreeNode {
        fidx: -1,
        left: 0,
        right: 0,
        missing: 0,
        thr: 0,
        leaf: value.to_bits(),
        is_leaf: 1,
    }
}

fn split(fidx: i32, thr: f32, left: u32, right: u32, missing: u32) -> TreeNode {
    TreeNode { fidx, left, right, missing, thr: thr.to_bits(), leaf: 0, is_leaf: 0 }
}

fn nodes() -> Vec<TreeNode> {
    vec![
        split(0, 0.5, 1, 2, 1),
        leaf(1.0),
        leaf(2.0),
        split(1, 2.0, 4, 5, 5),
        leaf(10.0),
        split(0, 1.5, 6, 7, 7),
        leaf(20.0),
        leaf(40.0),
    ]
}

fn prefix_pack() -> PrefixPack {
    PrefixPack {
        n_hot_features: 2,
        n_trees: 2,
        node_count: 8,
        hot_global_fidx: vec![0, 1],
        tree_roots: vec![0, 3],
        nodes: nodes(),
    }
}

fn rank_pack() -> RankPack {
    RankPack {
        n_features: 2,
        node_thr_rank: vec![0, -1, -1, 0, -1, 1, -1, -1],
        feat_offset: vec![0, 2],
        feat_count: vec![2, 1],
        threshold_values: bits(&[0.5, 1.5, 2.0]),
    }
}

fn put(out: &mut Vec<u8>, words: &[u32]) {
    for w in words {
        out.extend_from_slice(&w.to_le_bytes());
    }
}

fn put_nodes(out: &mut Vec<u8>) {
    for n in nodes() {
        put(out, &[n.fidx as u32, n.left, n.right, n.missing, n.thr, n.leaf]);
        out.extend_from_slice(&[n.is_leaf, 0, 0, 0]);
    }
}

#[test]
fn model_file() {
    let mut b = b"L1SOAv1\0".to_vec();
    put(&mut b, &[2, 2, 8]);
    put(&mut b, &[0, 3, 8]);
    put_nodes(&mut b);
    let m = load_soa(&b).unwrap();
    assert_eq!((m.n_features, m.n_trees, m.node_count), (2, 2, 8));
    assert_eq!(m.tree_roots, vec![0, 3]);
    assert_eq!(m.nodes, nodes());
    let fault = |b: &[u8]| load_soa(b).map(|_| ()).unwrap_err();
    assert_eq!(fault(&b[..19]), LoadError::TooShort);
    assert_eq!(fault(&b[..24]), LoadError::Read(ReadError::U32));
    assert_eq!(fault(&b[..32 + 8]), LoadError::Read(ReadError::U32));
    assert_eq!(fault(&b[..32 + 20]), LoadError::Read(ReadError::Single));
    assert_eq!(fault(&b[..32 + 26]), LoadError::Truncated);
    b[0] = b'M';
    assert_eq!(fault(&b), LoadError::BadMagic);
}

#[test]
fn prefix_pack_file() {
    let mut b = b"L1PRFv1\0".to_vec();
    put(&mut b, &[2, 2, 8]);
    put(&mut b, &[0, 1]);
    put(&mut b, &[0, 3]);
    put_nodes(&mut b);
    let p = load_prefix_pack(&b).unwrap();
    assert_eq!(format!("{:?}", p), format!("{:?}", prefix_pack()));
    assert_eq!(load_prefix_pack(&b[..10]).map(|_| ()), Err(LoadError::TooShort));
    b[1] = 0;
    assert_eq!(load_prefix_pack(&b).map(|_| ()), Err(LoadError::BadMagic));
}

fn order_file() -> Vec<u8> {
    let mut b = b"L1ORDv1\0".to_vec();
    put(&mut b, &[2]);
    put(&mut b, &[1, 0]);
    put(&mut b, &bits(&[10.0, 1.0, 40.0, 2.0]));
    put(&mut b, &bits(&[11.0, 1.0, 0.0]));
    put(&mut b, &bits(&[42.0, 2.0, 0.0]));
    b
}

fn bounds_file() -> Vec<u8> {
    let mut b = b"L1BNDv1\0".to_vec();
    put(&mut b, &[2]);
    put(&mut b, &bits(&[1.0, 10.0, 2.0, 40.0]));
    put(&mut b, &bits(&[11.0, 10.0, 0.0]));
    put(&mut b, &bits(&[42.0, 40.0, 0.0]));
    b
}

#[test]
fn plans_from_bounds_and_orders() {
    let bounds = load_bounds(&bounds_file()).unwrap();
    assert_eq!(bounds.suffix_min, bits(&[11.0, 10.0, 0.0]));
    assert_eq!(bounds.suffix_max, bits(&[42.0, 40.0, 0.0]));
    let order = load_tree_order(&order_file()).unwrap();
    assert_eq!(order.order, vec![1, 0]);
    assert_eq!(order.suffix_min, bits(&[11.0, 1.0, 0.0]));
    let plan = materialize_tree_plan(&bounds, Some(&order), None).unwrap();
    assert_eq!(format!("{:?}", plan), format!("{:?}", order));
    let plan = materialize_tree_plan(&bounds, None, Some(1)).unwrap();
    assert_eq!((plan.n_trees, plan.order), (1, vec![0]));
    assert_eq!(plan.suffix_min, bits(&[11.0, 10.0]));
    assert_eq!(plan.suffix_max, bits(&[42.0, 40.0]));
    let plan = materialize_tree_plan(&bounds, None, Some(9)).unwrap();
    assert_eq!(plan.order, vec![0, 1]);
    let other = TreeOrder {
        n_trees: 1,
        order: vec![0],
        suffix_min: vec![0, 0],
        suffix_max: vec![0, 0],
    };
    assert!(materialize_tree_plan(&bounds, Some(&other), None).is_none());
}

#[test]
fn broken_bounds_and_orders() {
    let b = bounds_file();
    assert_eq!(load_bounds(&b[..11]).map(|_| ()), Err(LoadError::TooShort));
    assert_eq!(load_bounds(&order_file()).map(|_| ()), Err(LoadError::BadMagic));
    assert_eq!(
        load_bounds(&b[..b.len() - 1]).map(|_| ()),
        Err(LoadError::Read(ReadError::Single))
    );
    let o = order_file();
    assert_eq!(load_tree_order(&o[..16]).map(|_| ()), Err(LoadError::Read(ReadError::U32)));
    assert_eq!(load_tree_order(&o[..20]).map(|_| ()), Err(LoadError::Read(ReadError::Single)));
}

#[test]
fn rank_pack_file() {
    let mut b = b"L1RANKv1\0".to_vec();
    put(&mut b, &[2, 8, 3]);
    put(&mut b, &[0, 2]);
    put(&mut b, &[2, 1]);
    let p = rank_pack();
    for r in p.node_thr_rank.iter() {
        put(&mut b, &[*r as u32]);
    }
    put(&mut b, &p.threshold_values);
    assert_eq!(format!("{:?}", load_rank_pack(&b).unwrap()), format!("{:?}", p));
    assert_eq!(
        load_rank_pack(&b[..b.len() - 2]).map(|_| ()),
        Err(LoadError::Read(ReadError::Single))
    );
    assert_eq!(load_rank_pack(&b[..30]).map(|_| ()), Err(LoadError::Read(ReadError::U32)));
}

#[test]
fn rows_walk_by_value_and_by_rank_alike() {
    let ns = nodes();
    let rp = rank_pack();
    let mut cache = RankCache::new(2);
    for (x, first, second) in [
        ([0.0f32, 0.0], 1.0f32, 10.0f32),
        ([0.5, 2.0], 2.0, 20.0),
        ([1.5, 2.0], 2.0, 40.0),
        ([9.0, -9.0], 2.0, 10.0),
    ] {
        let feat = bits(&x);
        let mut row = PlainRow { feat: &feat };
        let a = descend_by_value(&ns, 0, &mut row, true, 0).unwrap();
        let b = descend_by_value(&ns, 0, &mut row, true, 3).unwrap();
        assert_eq!((f32::from_bits(a.0), a.1), (first, 1));
        assert_eq!(f32::from_bits(b.0), second);
        // Without missing values it makes no difference whether they have a way of their own.
        assert_eq!(descend_by_value(&ns, 0, &mut row, false, 3), Ok(b));
        assert_eq!(descend_by_rank(&ns, &rp, &mut cache, &feat, true, 0), Ok(a));
        assert_eq!(descend_by_rank(&ns, &rp, &mut cache, &feat, false, 3), Ok(b));
        cache.next_row();
    }
}

#[test]
fn missing_values_take_their_own_way() {
    let ns = nodes();
    let feat = [f32::NAN.to_bits(), 0];
    let mut row = PlainRow { feat: &feat };
    assert_eq!(descend_by_value(&ns, 0, &mut row, true, 0), Ok((1f32.to_bits(), 1)));
    assert_eq!(descend_by_value(&ns, 0, &mut row, false, 0), Ok((2f32.to_bits(), 1)));
}

#[test]
fn walks_that_go_astray() {
    let ns = nodes();
    let feat = bits(&[1.0, 3.0]);
    let mut row = PlainRow { feat: &feat };
    let stray = Err(TraverseError::Stray);
    assert_eq!(descend_by_value(&ns, 0, &mut row, true, 8), stray);
    assert_eq!(descend_within(&ns, 0, &mut row, true, 3, 1), stray);
    assert_eq!(descend_within(&ns, 0, &mut row, true, 3, 2), Ok((20f32.to_bits(), 2)));
    let mut narrow = PlainRow { feat: &feat[..1] };
    assert_eq!(descend_by_value(&ns, 0, &mut narrow, true, 3), stray);
    let ring = vec![split(0, 0.0, 0, 0, 0)];
    assert_eq!(descend_by_value(&ring, 0, &mut row, true, 0), stray);
    let mut rp = rank_pack();
    rp.node_thr_rank[0] = -1;
    let mut cache = RankCache::new(2);
    assert_eq!(
        descend_by_rank(&ns, &rp, &mut cache, &feat, true, 0),
        Err(TraverseError::MissingRank)
    );
}

#[test]
fn cached_ranks_belong_to_one_row() {
    let rp = rank_pack();
    let mut cache = RankCache::new(2);
    assert_eq!(cached_rank(&rp, &mut cache, &bits(&[1.0, 0.0]), 0), 1);
    cache.next_row();
    assert_eq!(cached_rank(&rp, &mut cache, &bits(&[2.0, 0.0]), 0), 2);
    cache.epoch = u32::MAX;
    cache.next_row();
    assert_eq!(cache.epoch, 1);
    assert_eq!(cached_rank(&rp, &mut cache, &bits(&[0.0, 0.0]), 0), 0);
}

#[test]
fn compiled_trees_land_alike() {
    let p = prefix_pack();
    let c = compile_hot_prefix_pack(&p).unwrap();
    assert_eq!(c.tree_roots, vec![0, 3]);
    assert!(c.nodes[1].is_leaf());
    assert!(!c.nodes[3].is_leaf());
    assert_eq!(c.nodes[3].hot_fidx(), 1);
    for x in [[0.0f32, 0.0], [1.0, 3.0], [2.0, 3.0], [f32::NAN, f32::NAN]] {
        let feat = bits(&x);
        let mut row = ChosenRow { map: &p.hot_global_fidx, feat: &feat };
        let a = hot_span(&p, &mut row, true, 0, 2).unwrap();
        let b = hot_span(&c, &mut row, true, 0, 2).unwrap();
        assert_eq!(format!("{:?}", a), format!("{:?}", b));
        let full = hot_exact_score_full(&p, &feat).unwrap();
        assert_eq!(full.leaves, a.leaves);
        // The rest continues what came before.
        let head = hot_span(&c, &mut row, true, 0, 1).unwrap();
        let tail = hot_span(&c, &mut row, true, 1, 2).unwrap();
        assert_eq!([head.leaves, tail.leaves].concat(), a.leaves);
        assert_eq!(head.block_evals + tail.block_evals, a.block_evals);
    }
    let feat = bits(&[1.0, 3.0]);
    let w = hot_exact_score_full(&p, &feat).unwrap();
    assert_eq!(w.leaves, bits(&[2.0, 20.0]));
    assert_eq!((w.block_evals, w.resolved_early), (3, 0));
}

#[test]
fn compiled_pack_is_read_as_it_was_written() {
    let c = compile_hot_prefix_pack(&prefix_pack()).unwrap();
    let b = save_compiled_hot_prefix_pack(&c);
    assert_eq!(&b[..8], b"L1PRFC1\0");
    assert_eq!(b.len(), 20 + 8 + 4 + 8 * 16);
    let d = load_compiled_hot_prefix_pack(&b).unwrap();
    assert_eq!(format!("{:?}", c), format!("{:?}", d));
    let fault = |b: &[u8]| load_compiled_hot_prefix_pack(b).map(|_| ()).unwrap_err();
    assert_eq!(fault(&b[..5]), LoadError::TooShort);
    assert_eq!(fault(&b[..22]), LoadError::Read(ReadError::U32));
    assert_eq!(fault(&b[..30]), LoadError::Read(ReadError::U16));
    assert_eq!(fault(&b[..34]), LoadError::Read(ReadError::Single));
    assert_eq!(fault(&b[..32 + 8]), LoadError::Read(ReadError::U16));
}

#[test]
fn packs_too_large_to_compile() {
    let wide = PrefixPack { n_hot_features: 0x8000, ..prefix_pack() };
    assert_eq!(
        compile_hot_prefix_pack(&wide).map(|_| ()),
        Err(CompileError::Features { limit: 0x7fff, got: 0x8000 })
    );
    let wider = PrefixPack { n_hot_features: 0x1_0000, ..prefix_pack() };
    assert_eq!(
        compile_hot_prefix_pack(&wider).map(|_| ()),
        Err(CompileError::Features { limit: 0xffff, got: 0x1_0000 })
    );
    let long = PrefixPack {
        node_count: 0x1_0000,
        nodes: vec![leaf(0.0); 0x1_0000],
        ..prefix_pack()
    };
    assert_eq!(
        compile_hot_prefix_pack(&long).map(|_| ()),
        Err(CompileError::Nodes { limit: 0xffff, got: 0x1_0000 })
    );
}

#[test]
fn stages_list_what_no_earlier_stage_needed() {
    let c = compile_hot_prefix_pack(&prefix_pack()).unwrap();
    let plan = build_hot_stage_plan(&c, &[1, 2]).unwrap();
    assert_eq!(plan.checkpoints, vec![1, 2]);
    assert_eq!(plan.feature_offsets, vec![0, 1, 2]);
    assert_eq!(plan.hot_feature_ids, vec![0, 1]);
    let plan = build_hot_stage_plan(&c, &[2]).unwrap();
    assert_eq!((plan.feature_offsets, plan.hot_feature_ids), (vec![0, 2], vec![0, 1]));
    let mut seen = [false, false];
    let mut out = Vec::new();
    assert_eq!(collect_tree_hot_features(&c, 1, 2, &mut seen, &mut out), Ok(()));
    assert_eq!((out, seen), (vec![1, 0], [true, true]));
    assert_eq!(
        build_hot_stage_plan(&c, &[3]).map(|_| ()),
        Err(StageError::InvalidCheckpoint { checkpoint: 3 })
    );
    assert_eq!(
        build_hot_stage_plan(&c, &[2, 2]).map(|_| ()),
        Err(StageError::InvalidCheckpoint { checkpoint: 2 })
    );
    let mut rootless = compile_hot_prefix_pack(&prefix_pack()).unwrap();
    rootless.tree_roots.pop();
    assert_eq!(
        build_hot_stage_plan(&rootless, &[2]).map(|_| ()),
        Err(StageError::RootMissing { tree: 1 })
    );
}

#[test]
fn staged_rows_land_alike() {
    let c = compile_hot_prefix_pack(&prefix_pack()).unwrap();
    let plan = build_hot_stage_plan(&c, &[1, 2]).unwrap();
    let feat = bits(&[2.0, 3.0]);
    let mut whole = HotFeatureBuf::new(2);
    whole.fill_from_global_u32(&c.hot_global_fidx, &feat);
    let mut staged = HotFeatureBuf::new(2);
    staged.fill_subset_from_global_u32(&c.hot_global_fidx, &feat, &plan.hot_feature_ids[..1]);
    assert_eq!(staged.values, vec![2f32.to_bits(), 0]);
    let mut a = PlainRow { feat: &whole.values };
    let mut b = PlainRow { feat: &staged.values };
    let x = hot_span(&c, &mut a, false, 0, 1).unwrap();
    let y = hot_span(&c, &mut b, false, 0, 1).unwrap();
    assert_eq!(x.leaves, y.leaves);
}

#[test]
fn lazy_features_belong_to_one_row() {
    let map = [1u32, 0];
    let mut cache = LazyHotFeatureCache::new(2);
    assert_eq!(cache.get(&map, &[7, 8], 0), 8);
    assert_eq!(cache.get(&map, &[7, 8], 0), 8);
    cache.next_row();
    assert_eq!(cache.get(&map, &[3, 4], 0), 4);
    cache.epoch = u32::MAX;
    cache.next_row();
    assert_eq!(cache.epoch, 1);
    assert_eq!(cache.get(&map, &[5, 6], 1), 5);
}

fn batch_file() -> Vec<u8> {
    let mut b = b"L1FEATv1\0".to_vec();
    put(&mut b, &[2, 2]);
    put(&mut b, &bits(&[1.0, 2.0, 3.0, 4.0]));
    for id in [-7i64, 8] {
        b.extend_from_slice(&id.to_le_bytes());
    }
    b.extend_from_slice(&[0, 1]);
    b
}

#[test]
fn batch_whose_sections_follow_each_other() {
    let b = batch_file();
    let batch = load_features(&b).unwrap();
    assert_eq!((batch.n_rows, batch.n_cols, batch.nan_free), (2, 2, true));
    assert!(batch.has_row(1) && batch.has_features(1));
    assert!(!batch.has_row(2) && !batch.has_features(2));
    assert!(!batch.has_features(usize::MAX));
    assert_eq!(batch.row(1), bits(&[3.0, 4.0]));
    assert_eq!((batch.id(0), batch.id(1)), (-7, 8));
    assert_eq!((batch.label(0), batch.label(1)), (0, 1));
    let fault = |b: &[u8]| load_features(b).map(|_| ()).unwrap_err();
    assert_eq!(fault(&b[..16]), FeatureError::TooShort);
    assert_eq!(fault(&b[..20]), FeatureError::Read(ReadError::Single));
    assert_eq!(fault(&b[..40]), FeatureError::Read(ReadError::I64));
    assert_eq!(fault(&b[..50]), FeatureError::LabelsTruncated);
    let mut x = b.clone();
    x[0] = 0;
    assert_eq!(fault(&x), FeatureError::UnknownMagic);
}

#[test]
fn batch_that_is_read_in_place() {
    let mut b = b"L1FEATv2\0".to_vec();
    put(&mut b, &[1, 2]);
    for off in [41u64, 49, 57] {
        b.extend_from_slice(&off.to_le_bytes());
    }
    put(&mut b, &bits(&[5.0, 6.0]));
    b.extend_from_slice(&9i64.to_le_bytes());
    b.push(1);
    let batch = load_features(&b).unwrap();
    assert!(batch.has_row(0));
    assert_eq!(batch.row(0), bits(&[5.0, 6.0]));
    assert_eq!((batch.id(0), batch.label(0)), (9, 1));
    assert_ne!(batch.format_tag(), load_features(&batch_file()).unwrap().format_tag());
    assert_eq!(
        load_features(&b[..40]).map(|_| ()),
        Err(FeatureError::Read(ReadError::U64))
    );
}

fn meta_file(magic: &[u8]) -> Vec<u8> {
    let mut b = magic.to_vec();
    put(&mut b, &[2]);
    for id in [-7i64, 8] {
        b.extend_from_slice(&id.to_le_bytes());
    }
    put(&mut b, &[3, -1i32 as u32]);
    put(&mut b, &bits(&[0.5, 1.5]));
    b.extend_from_slice(&[1, 0, 0, 1]);
    b
}

#[test]
fn what_is_known_of_rows() {
    let b = meta_file(b"L2RMTv1\0");
    let m = load_route_meta(&b).unwrap();
    assert_eq!(m.n_rows, 2);
    assert_eq!((m.ids, m.fold_id), (vec![-7, 8], vec![3, -1]));
    assert_eq!(m.tau_used, bits(&[0.5, 1.5]));
    assert_eq!((m.active, m.exact_positive), (vec![1, 0], vec![0, 1]));
    let fault = |b: &[u8]| load_route_meta(b).map(|_| ()).unwrap_err();
    assert_eq!(fault(&b[..8]), LoadError::TooShort);
    assert_eq!(fault(&b[..20]), LoadError::Read(ReadError::I64));
    assert_eq!(fault(&b[..30]), LoadError::Read(ReadError::U32));
    assert_eq!(fault(&b[..40]), LoadError::Read(ReadError::Single));
    assert_eq!(fault(&b[..b.len() - 1]), LoadError::Truncated);
    assert_eq!(load_dispatch_meta(&b).map(|_| ()), Err(LoadError::BadMagic));
    let d = load_dispatch_meta(&meta_file(b"L2DSPv1\0")).unwrap();
    assert_eq!((d.n_rows, d.slot_id), (2, vec![3, -1]));
}
