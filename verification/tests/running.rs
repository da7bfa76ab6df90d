//! Whole models: putting them together from their parts, and the ways to run a row.

use riskanvil::arith::SingleOp;
use riskanvil::atlas_file::{load_prefix_atlas_json, PrefixAtlasCheckpointFile, PrefixAtlasFile};
use riskanvil::bands::LoadedPrefixCal;
use riskanvil::calibration::{
    load_prefix_calibration, PrefixCalFile, PrefixCalTableFile, PrefixCalVariantFile,
};
use riskanvil::certify::{LoadedPrefixAtlas, PrefixCertifierKind};
use riskanvil::continuation::{
    run_exact_continuation, run_exact_continuation_nomiss, Continuation,
};
use riskanvil::exp_v1::{
    ensure_local_ranks, load_from_manifest_dir, load_hot_stage_plan, predict_nomiss,
    repack_from_bundle_manifest, ExpV1SegmentPart, ExpV1TailPart, L2ExpV1Runtime, PackageError,
};
use riskanvil::forest::{Bounds, PrefixPack, SoaModel, TreeNode, TreeOrder};
use riskanvil::hot::{HotFeatureBuf, LazyHotFeatureCache};
use riskanvil::hot_pack::CompileError;
use riskanvil::kinds::{PrefixDirectKernel, RankMode, RescueAction};
use riskanvil::layout::{
    build_hot_checkpoint_layout, build_prefix_v2_hot_stage_plan, load_hot_checkpoint_layout,
    load_prefix_v2_hot_stage_plan, save_hot_checkpoint_layout, save_prefix_v2_hot_stage_plan,
    HotCheckpointLayout, PrefixV2HotStage, StageMatchError,
};
use riskanvil::minpack::{
    decode_dense_f32le, decode_dense_f32le_into, is_nan_free, ExperimentalL2KernelZen4,
    MinpackRuntime, OnlineError, OnlineL1Output, OnlineL2Output, OnlineScratch,
};
use riskanvil::network::LoadedMlpCertifier;
use riskanvil::online::{
    run_prefix_shadow_row_single_route_compiled_nomiss_online,
    run_prefix_shadow_row_single_route_prefix_v2_nomiss,
};
use riskanvil::packet_file::{
    load_packet_policy_json, load_packet_summary_tsv, load_v4_packet_scheduler, PacketError,
    CompiledPacket, PacketPolicyFileRow, PacketSchedulerPolicyFile,
};
use riskanvil::packets::{
    lookup_packet_policy_ranking, pick_packet, run_packet_continuation, run_packet_shadow_row,
    LoadedPacketScheduler,
};
use riskanvil::policy::{complete_approx_policy, ApproxPolicy};
use riskanvil::prefix_runtime::{
    fallback_checkpoint, has_compiled_route, run_prefix_shadow_row,
    run_prefix_shadow_row_single_route_compiled, LoadedPrefixRuntime, PrefixRowShadow,
};
use riskanvil::prefix_v2::{maybe_prepare_prefix_v2, Preparation};
use riskanvil::qs_extract::ExtractError;
use riskanvil::qs_pack::{Mask128, QsBlockHdr, QsPack, QsTreeHdr};
use riskanvil::qs_score::ScoreError;
use riskanvil::rescue::{
    load_rescue_router, lookup_rescue_action, run_anchor_rescue_shadow_row,
    run_rescue_continuation, LoadedAnchorRescueRuntime, RescueRouterDefault, RescueRouterRow,
    RouterError,
};
use riskanvil::runtime_load::{
    fit_atlas, load_prefix_runtime, pack_is_copyable, same_values, Made, PrefixChoices,
    PrefixParts, RuntimeError,
};
use riskanvil::stage_plan::StageError;

fn arith(op: SingleOp) -> u32 {
    let f = f32::from_bits;
    match op {
        SingleOp::Sum(a, b) => (f(a) + f(b)).to_bits(),
        SingleOp::Difference(a, b) => (f(a) - f(b)).to_bits(),
        SingleOp::Product(a, b) => (f(a) * f(b)).to_bits(),
        SingleOp::Fused(a, b, c) => f(a).mul_add(f(b), f(c)).to_bits(),
        SingleOp::ComparesFused => 0,
        SingleOp::Quotient(a, b) => (f(a) / f(b)).to_bits(),
        SingleOp::Exponential(a) => f(a).exp().to_bits(),
        SingleOp::Nearest(n) => (n as f32).to_bits(),
        SingleOp::Reaches(a, b, c) => (f(a) as f64 + f(b) as f64 >= f(c) as f64) as u32,
        SingleOp::FallsShort(a, b, c) => ((f(a) as f64 + f(b) as f64) < f(c) as f64) as u32,
    }
}

fn bits(values: &[f32]) -> Vec<u32> {
    values.iter().map(|v| v.to_bits()).collect()
}

fn leaf(value: f32) -> TreeNode {
    TreeNode {
        fidx: -1,
        left: 0,
        right: 0,
        missing: 0,
        thr: 0,
        leaf: value.to_bits(),
        is_leaf: 1,
    }
}

fn split(fidx: i32, thr: f32, left: u32, right: u32, missing: u32) -> TreeNode {
    TreeNode { fidx, left, right, missing, thr: thr.to_bits(), leaf: 0, is_leaf: 0 }
}

fn nodes() -> Vec<TreeNode> {
    vec![
        split(0, 0.5, 1, 2, 1),
        leaf(1.0),
        leaf(2.0),
        split(1, 2.0, 4, 5, 5),
        leaf(10.0),
        split(0, 1.5, 6, 7, 7),
        leaf(20.0),
        leaf(40.0),
    ]
}

fn model() -> SoaModel {
    SoaModel {
        n_features: 2,
        n_trees: 2,
        node_count: 8,
        tree_roots: vec![0, 3],
        nodes: nodes(),
    }
}

fn only(lo: u64) -> Mask128 {
    Mask128 { lo, hi: 0 }
}

fn table(buckets: &[u8]) -> Vec<u8> {
    let last = *buckets.last().unwrap();
    (0..129).map(|r| if r < buckets.len() { buckets[r] } else { last }).collect()
}

/// The trees of [`model`] in packed form.
fn pack() -> QsPack {
    let mut luts = table(&[0, 1]);
    luts.extend(table(&[0, 1]));
    luts.extend(table(&[0, 0, 1]));
    QsPack {
        n_features: 2,
        n_trees: 2,
        n_blocks: 3,
        base_score: 0.25f32.to_bits(),
        cut_offsets: vec![0, 2, 3],
        cuts: bits(&[0.5, 1.5, 2.0]),
        tree_hdrs: vec![
            QsTreeHdr {
                block_off: 0,
                block_cnt: 1,
                leaf_cnt: 2,
                leaf_val_off: 0,
                init_lo: 0b11,
                init_hi: 0,
            },
            QsTreeHdr {
                block_off: 1,
                block_cnt: 2,
                leaf_cnt: 3,
                leaf_val_off: 2,
                init_lo: 0b111,
                init_hi: 0,
            },
        ],
        block_hdrs: vec![
            QsBlockHdr { fid: 0, bucket_cnt: 3, miss_bucket: 2, lut_off: 0, mask_off: 0 },
            QsBlockHdr { fid: 1, bucket_cnt: 3, miss_bucket: 2, lut_off: 129, mask_off: 3 },
            QsBlockHdr { fid: 0, bucket_cnt: 3, miss_bucket: 2, lut_off: 258, mask_off: 6 },
        ],
        luts,
        masks: vec![
            only(0b01),
            only(0b10),
            only(0b01),
            only(0b001),
            only(0b110),
            only(0b110),
            only(0b011),
            only(0b101),
            only(0b101),
        ],
        leaf_values: bits(&[1.0, 2.0, 10.0, 20.0, 40.0]),
        row_headers: true,
    }
}

fn calibration(checkpoints: &[usize], first: f32, last: f32) -> LoadedPrefixCal {
    let n = checkpoints.len();
    let tables = (0..n)
        .map(|i| {
            let bound = if i + 1 == n { last } else { first };
            PrefixCalTableFile {
                checkpoint: checkpoints[i],
                gap_edges: (0..257).map(|i| (i as f32 - 128.0).to_bits()).collect(),
                global_ref_hi: vec![bound.to_bits(); 256],
                global_rej_lo: vec![(-bound).to_bits(); 256],
                tau_edges: bits(&[0.0, 100.0]),
                fold_tables: vec![],
                tau_fold_tables: vec![],
            }
        })
        .collect();
    let f = PrefixCalFile {
        format: "L2PrefixCalV2".to_string(),
        checkpoints: checkpoints.to_vec(),
        variants: vec![PrefixCalVariantFile {
            key: "a".to_string(),
            ref_q: 0,
            rej_q: 0,
            tables,
        }],
    };
    load_prefix_calibration(&f, "a").unwrap()
}

/// An atlas whose cells decide nothing.
fn atlas(checkpoints: &[usize]) -> LoadedPrefixAtlas {
    let f = PrefixAtlasFile {
        format: "L2PrefixAtlasV1".to_string(),
        feature_schema_version: 1,
        variant_key: "a".to_string(),
        tau_edges: bits(&[0.0, 100.0]),
        cluster_count: 1,
        min_cell_count: 1,
        safe_ref_max_reject_rate: 0,
        safe_rej_min_reject_rate: 1f32.to_bits(),
        checkpoints: checkpoints
            .iter()
            .map(|cp| PrefixAtlasCheckpointFile {
                checkpoint: *cp,
                gap_edges: vec![],
                feature_mean: bits(&[0.0; 4]),
                feature_inv_std: bits(&[1.0; 4]),
                centroids: vec![bits(&[0.0; 4])],
                cells: vec![],
            })
            .collect(),
    };
    load_prefix_atlas_json(&arith, &f).unwrap()
}

fn hot_pack() -> PrefixPack {
    PrefixPack {
        n_hot_features: 1,
        n_trees: 1,
        node_count: 3,
        hot_global_fidx: vec![0],
        tree_roots: vec![0],
        nodes: nodes()[..3].to_vec(),
    }
}

fn bounds() -> Bounds {
    Bounds {
        n_trees: 2,
        suffix_min: bits(&[11.0, 10.0, 0.0]),
        suffix_max: bits(&[42.0, 40.0, 0.0]),
    }
}

fn order() -> TreeOrder {
    TreeOrder {
        n_trees: 2,
        order: vec![0, 1],
        suffix_min: bits(&[11.0, 10.0, 0.0]),
        suffix_max: bits(&[42.0, 40.0, 0.0]),
    }
}

fn parts(first: f32, last: f32) -> PrefixParts {
    PrefixParts {
        pack: pack(),
        calibration: calibration(&[1, 2], first, last),
        atlas: Some(atlas(&[1, 2])),
        mlp: None,
        hot_pack: Some(hot_pack()),
        compiled_hot_pack: None,
        tree_order: order(),
        layout: None,
        certify_plan: None,
        late_segments: None,
    }
}

fn choices(kernel: PrefixDirectKernel, kind: PrefixCertifierKind) -> PrefixChoices {
    PrefixChoices {
        direct_kernel: kernel,
        certifier_kind: kind,
        atlas_bin: true,
        hot_exact_prefix_limit: None,
        telemetry_schema_version: 2,
    }
}

fn qs_runtime(first: f32, last: f32) -> LoadedPrefixRuntime {
    let c = choices(PrefixDirectKernel::Qs, PrefixCertifierKind::TableV1);
    load_prefix_runtime(c, parts(first, last), &bounds(), 2).unwrap().0
}

fn hot_runtime(first: f32, last: f32) -> LoadedPrefixRuntime {
    let c = choices(PrefixDirectKernel::HotExact96, PrefixCertifierKind::AtlasV1);
    load_prefix_runtime(c, parts(first, last), &bounds(), 2).unwrap().0
}

fn run(rt: &LoadedPrefixRuntime, feat: &[f32], tau: f32, trace: bool) -> PrefixRowShadow {
    let (mut ranks, mut missing) = (vec![0u8; 2], vec![0u8; 2]);
    let mut cache = LazyHotFeatureCache::new(1);
    run_prefix_shadow_row(
        &arith,
        rt,
        &bits(feat),
        tau.to_bits(),
        0,
        &mut ranks,
        &mut missing,
        &mut cache,
        trace,
    )
    .unwrap()
}

const ROWS: [[f32; 2]; 4] = [[0.0, 0.0], [1.0, 3.0], [2.0, 3.0], [0.7, 1.0]];

const TAUS: [f32; 5] = [4.0, 12.0, 15.0, 23.0, 60.0];

#[test]
fn parts_are_put_together() {
    let p = parts(3.0, 3.0);
    let c = choices(PrefixDirectKernel::HotExact96, PrefixCertifierKind::AtlasV1);
    assert!(p.ready(c));
    let (rt, made) = load_prefix_runtime(c, p, &bounds(), 2).unwrap();
    let all =
        Made { compiled_hot_pack: true, layout: true, certify_plan: true, late_segments: true };
    assert_eq!(made, all);
    let layout = rt.hot_checkpoint_layout.as_ref().unwrap();
    assert_eq!((layout.hot_values.clone(), layout.hot_indices.clone()), (vec![1], vec![0]));
    assert_eq!((layout.late_values.clone(), layout.late_indices.clone()), (vec![2], vec![1]));
    assert_eq!(layout.late_feature_ids, vec![1, 0]);
    assert_eq!((layout.late_cut_starts.clone(), layout.late_cut_ends.clone()), (vec![2, 0], vec![3, 2]));
    let stages = rt.hot_stage_plan.as_ref().unwrap();
    assert_eq!((stages.feature_offsets.clone(), stages.hot_feature_ids.clone()), (vec![0, 1], vec![0]));
    let segs = rt.late_segments.as_ref().unwrap();
    assert_eq!(segs.len(), 1);
    assert_eq!((segs[0].checkpoint, segs[0].global_cp_idx, segs[0].start_tree_idx), (2, 1, 1));
    assert_eq!(segs[0].local_to_global_fid, vec![1, 0]);
    assert_eq!(rt.certify_plan.as_ref().unwrap().checkpoints.len(), 2);
    // An atlas without edges of its own takes those of the bands.
    assert!(rt.atlas_certifier.as_ref().unwrap().checkpoints[0].shared_gap_edges);
    assert_eq!(rt.telemetry_schema_version, 2);
    assert_eq!(fallback_checkpoint(&rt.calibration), 2);
    assert!(has_compiled_route(&rt));
    assert!(!has_compiled_route(&qs_runtime(3.0, 3.0)));
}

fn network(key: &str) -> LoadedMlpCertifier {
    LoadedMlpCertifier {
        feature_schema_version: 1,
        variant_key: key.to_string(),
        checkpoint_values: vec![],
        fold_values: vec![],
        tau_edges: vec![],
        checkpoint_limit: 0,
        mean: vec![0; 9],
        inv_std: vec![0; 9],
        w1: vec![],
        b1: vec![],
        w2: vec![],
        b2: vec![],
        w3: vec![],
        b3: 0,
        thresholds: vec![],
    }
}

fn layout(hot: Vec<usize>, late: Vec<usize>) -> HotCheckpointLayout {
    HotCheckpointLayout {
        hot_indices: (0..hot.len()).collect(),
        hot_values: hot,
        late_indices: (0..late.len()).collect(),
        late_values: late,
        late_feature_ids: vec![],
        late_feature_offsets: vec![],
        late_cut_starts: vec![],
        late_cut_ends: vec![],
    }
}

#[test]
fn parts_that_make_no_model() {
    let hot = choices(PrefixDirectKernel::HotExact96, PrefixCertifierKind::AtlasV1);
    let qs = |kind| choices(PrefixDirectKernel::Qs, kind);
    let fault = |c, p, features| {
        load_prefix_runtime(c, p, &bounds(), features).map(|_| ()).unwrap_err()
    };
    let p = PrefixParts { atlas: None, ..parts(3.0, 3.0) };
    assert_eq!(fault(hot, p, 2), RuntimeError::AtlasMissing);
    let mut p = parts(3.0, 3.0);
    p.atlas.as_mut().unwrap().variant_key = "b".to_string();
    assert_eq!(fault(hot, p, 2), RuntimeError::AtlasVariant);
    let p = PrefixParts { atlas: Some(atlas(&[1])), ..parts(3.0, 3.0) };
    assert_eq!(fault(hot, p, 2), RuntimeError::AtlasCount { calibration: 2, atlas: 1 });
    let p = PrefixParts { atlas: Some(atlas(&[1, 3])), ..parts(3.0, 3.0) };
    assert_eq!(
        fault(hot, p, 2),
        RuntimeError::AtlasCheckpoint { slot: 1, calibration: 2, atlas: 3 }
    );
    assert_eq!(
        fault(qs(PrefixCertifierKind::MlpV1), parts(3.0, 3.0), 2),
        RuntimeError::MlpMissing
    );
    let p = PrefixParts { hot_pack: None, ..parts(3.0, 3.0) };
    assert_eq!(fault(hot, p, 2), RuntimeError::HotPackMissing);
    let mut p = parts(3.0, 3.0);
    p.mlp = Some(network("b"));
    assert_eq!(fault(qs(PrefixCertifierKind::MlpV1), p, 2), RuntimeError::MlpVariant);
    let mut p = parts(3.0, 3.0);
    p.hot_pack.as_mut().unwrap().n_hot_features = 0x8000;
    assert_eq!(
        fault(hot, p, 2),
        RuntimeError::Compile(CompileError::Features { limit: 0x7fff, got: 0x8000 })
    );
    let p = PrefixParts { layout: Some(layout(vec![9], vec![])), ..parts(3.0, 3.0) };
    assert_eq!(
        fault(hot, p, 2),
        RuntimeError::Stage(StageError::InvalidCheckpoint { checkpoint: 9 })
    );
    let p = PrefixParts { layout: Some(layout(vec![], vec![1])), ..parts(3.0, 3.0) };
    assert_eq!(fault(hot, p, 2), RuntimeError::Segment(ExtractError::EmptyRange));
    let mut p = parts(3.0, 3.0);
    p.tree_order = TreeOrder {
        n_trees: 1,
        order: vec![0],
        suffix_min: bits(&[1.0, 0.0]),
        suffix_max: bits(&[2.0, 0.0]),
    };
    assert_eq!(fault(qs(PrefixCertifierKind::TableV1), p, 2), RuntimeError::TreePlan);
    assert_eq!(
        fault(qs(PrefixCertifierKind::TableV1), parts(3.0, 3.0), 5),
        RuntimeError::Features { model: 5, pack: 2 }
    );
    let mut broken = parts(3.0, 3.0);
    broken.pack.masks.truncate(2);
    assert!(!broken.ready(hot));
    // Without first trees nothing is cut out of the pack.
    assert!(broken.ready(qs(PrefixCertifierKind::TableV1)));
    // Nor where no checkpoint lies past them.
    broken.calibration.checkpoints = vec![1, 1];
    assert!(broken.ready(hot));
    let mut broken = parts(3.0, 3.0);
    broken.pack.cut_offsets.truncate(2);
    assert!(!broken.ready(hot));
    let mut broken = parts(3.0, 3.0);
    broken.pack.n_features = 1;
    assert!(!broken.ready(hot));
    broken.calibration.checkpoints = vec![1, 1];
    assert!(broken.ready(hot));
    // Tables need to reach only as far as they are copied.
    assert!(pack_is_copyable(&pack()));
    let mut short = pack();
    short.luts.truncate(386);
    assert!(!pack_is_copyable(&short));
    assert!(short.sound());
}

#[test]
fn edges_that_are_no_numbers_are_never_shared() {
    assert!(same_values(&bits(&[0.0, 1.0]), &bits(&[-0.0, 1.0])));
    assert!(!same_values(&bits(&[f32::NAN]), &bits(&[f32::NAN])));
    assert!(!same_values(&bits(&[1.0]), &bits(&[1.0, 2.0])));
    let cal = calibration(&[1, 2], 3.0, 3.0);
    let mut a = atlas(&[1, 2]);
    a.checkpoints[0].gap_edges = bits(&[f32::NAN, 1.0]);
    let a = fit_atlas(a, &cal).unwrap();
    assert!(!a.checkpoints[0].shared_gap_edges);
    assert!(a.checkpoints[1].shared_gap_edges);
}

#[test]
fn row_stops_at_the_first_checkpoint_that_decides() {
    let rt = qs_runtime(3.0, 3.0);
    let r = run(&rt, &[1.0, 3.0], 15.0, false);
    assert_eq!((r.prefix_score, r.shadow_route_score), (2.25f32.to_bits(), 5.25f32.to_bits()));
    assert_eq!((r.trees_used, r.work_evals, r.resolved_early_trees), (1, 1, 1));
    assert_eq!((r.shadow_reject, r.fallback_used, r.direct_checkpoint), (false, false, 1));
    let r = run(&rt, &[1.0, 3.0], 4.0, true);
    assert_eq!((r.prefix_score, r.shadow_route_score), (22.25f32.to_bits(), 19.25f32.to_bits()));
    assert_eq!((r.trees_used, r.work_evals, r.resolved_early_trees), (2, 3, 2));
    assert_eq!((r.shadow_reject, r.fallback_used, r.direct_checkpoint), (true, false, 2));
    assert_eq!(r.checkpoint_scores, bits(&[2.25, 22.25]));
    assert_eq!(r.checkpoint_deltas, bits(&[2.0, 20.0]));
    assert_eq!(r.checkpoint_work_evals, vec![1, 3]);
    assert_eq!(r.checkpoint_resolved_early, vec![1, 2]);
}

#[test]
fn undecided_row_falls_back() {
    let rt = qs_runtime(100.0, 3.0);
    let r = run(&rt, &[0.0, 0.0], 12.0, false);
    assert_eq!((r.prefix_score, r.shadow_route_score), (11.25f32.to_bits(), 11.25f32.to_bits()));
    assert_eq!((r.trees_used, r.shadow_reject), (2, false));
    assert!(r.fallback_used);
    assert_eq!((r.direct_checkpoint, r.fallback_entry_checkpoint), (0, 2));
}

#[test]
fn every_route_comes_to_the_same_verdict() {
    for (first, last) in [(3.0f32, 3.0f32), (100.0, 3.0), (100.0, 100.0)] {
        let qs = qs_runtime(first, last);
        let mut hot = hot_runtime(first, last);
        hot.prefix_v2 = match maybe_prepare_prefix_v2(true, &hot, false) {
            Preparation::Made(p) => Some(p),
            other => panic!("{:?}", other),
        };
        let exp = package(&hot);
        for feat in ROWS {
            for tau in TAUS {
                let want = run(&qs, &feat, tau, false);
                let direct = run(&hot, &feat, tau, false);
                let (mut ranks, mut missing) = (vec![0u8; 2], vec![0u8; 2]);
                let mut cache = LazyHotFeatureCache::new(1);
                let mut buf = HotFeatureBuf::new(1);
                let f = bits(&feat);
                let t = tau.to_bits();
                let compiled = run_prefix_shadow_row_single_route_compiled(
                    &arith, &hot, &f, t, 0, true, &mut ranks, &mut missing, &mut buf, &mut cache,
                )
                .unwrap();
                let online = run_prefix_shadow_row_single_route_compiled_nomiss_online(
                    &arith, &hot, &f, t, 0, &mut buf, &mut ranks,
                )
                .unwrap()
                .unwrap();
                let prepared = run_prefix_shadow_row_single_route_prefix_v2_nomiss(
                    &arith, &hot, &f, t, 0, &mut buf, &mut ranks,
                )
                .unwrap()
                .unwrap();
                for r in [direct, compiled, online, prepared] {
                    assert_eq!(r.prefix_score, want.prefix_score);
                    assert_eq!(r.shadow_reject, want.shadow_reject);
                    assert_eq!(r.shadow_route_score, want.shadow_route_score);
                    assert_eq!(r.fallback_used, want.fallback_used);
                    assert_eq!(r.trees_used, want.trees_used);
                }
                let out =
                    predict_nomiss(&arith, &exp, &hot, &f, t, 0, &mut buf, &mut ranks).unwrap();
                assert_eq!(out.used_fallback, want.fallback_used);
                if !want.fallback_used {
                    assert_eq!(out.reject, want.shadow_reject);
                    assert_eq!(out.score, want.shadow_route_score);
                }
            }
        }
    }
}

#[test]
fn recording_changes_the_record_alone() {
    for rt in [qs_runtime(3.0, 3.0), hot_runtime(100.0, 3.0), hot_runtime(100.0, 100.0)] {
        let slots = rt.calibration.checkpoints.len();
        for feat in ROWS {
            for tau in TAUS {
                let mut a = run(&rt, &feat, tau, true);
                let b = run(&rt, &feat, tau, false);
                assert_eq!(a.checkpoint_work_evals.len(), slots);
                assert_eq!(a.checkpoint_deltas.len(), slots);
                assert_eq!(a.checkpoint_resolved_early.len(), slots);
                assert_eq!(a.checkpoint_scores.len(), slots);
                for (at, score) in rt.calibration.checkpoints.iter().zip(&a.checkpoint_scores) {
                    assert_eq!(*at > a.trees_used, f32::from_bits(*score).is_nan());
                }
                a.checkpoint_scores.clear();
                a.checkpoint_work_evals.clear();
                a.checkpoint_deltas.clear();
                a.checkpoint_resolved_early.clear();
                assert_eq!(format!("{:?}", a), format!("{:?}", b));
            }
        }
    }
}

#[test]
fn complete_rows_need_no_hint() {
    let hot = hot_runtime(100.0, 3.0);
    for feat in ROWS {
        for tau in TAUS {
            let by = |hint: bool| {
                let (mut ranks, mut missing) = (vec![0u8; 2], vec![0u8; 2]);
                let mut cache = LazyHotFeatureCache::new(1);
                let mut buf = HotFeatureBuf::new(1);
                run_prefix_shadow_row_single_route_compiled(
                    &arith,
                    &hot,
                    &bits(&feat),
                    tau.to_bits(),
                    0,
                    hint,
                    &mut ranks,
                    &mut missing,
                    &mut buf,
                    &mut cache,
                )
                .unwrap()
            };
            assert_eq!(format!("{:?}", by(true)), format!("{:?}", by(false)));
        }
    }
}

#[test]
fn routes_need_their_means() {
    let qs = qs_runtime(3.0, 3.0);
    let mut buf = HotFeatureBuf::new(1);
    let mut ranks = vec![0u8; 2];
    let f = bits(&[0.0, 0.0]);
    assert!(run_prefix_shadow_row_single_route_compiled_nomiss_online(
        &arith, &qs, &f, 0, 0, &mut buf, &mut ranks
    )
    .unwrap()
    .is_none());
    assert!(run_prefix_shadow_row_single_route_prefix_v2_nomiss(
        &arith, &qs, &f, 0, 0, &mut buf, &mut ranks
    )
    .unwrap()
    .is_none());
    assert!(ExperimentalL2KernelZen4::new(&qs).is_none());
    assert!(ExperimentalL2KernelZen4::new(&hot_runtime(3.0, 3.0)).is_some());
    assert!(matches!(maybe_prepare_prefix_v2(true, &qs, false), Preparation::Unfit));
    let hot = hot_runtime(3.0, 3.0);
    assert!(matches!(maybe_prepare_prefix_v2(false, &hot, false), Preparation::Unfit));
    assert!(matches!(maybe_prepare_prefix_v2(true, &hot, true), Preparation::OnFile));
}

fn package(rt: &LoadedPrefixRuntime) -> L2ExpV1Runtime {
    let p = repack_from_bundle_manifest(rt, &rt.plan.order).unwrap();
    assert_eq!(p.final_checkpoint, 2);
    let segments = p
        .late_segments
        .into_iter()
        .map(|s| ExpV1SegmentPart {
            checkpoint: s.checkpoint,
            global_cp_idx: s.global_cp_idx,
            pack: s.pack,
            local_to_global_fid: s.local_to_global_fid,
        })
        .collect();
    let tree_count = p.tail_tree_count;
    let tail = p.tail.map(|(pack, local_to_global_fid)| ExpV1TailPart {
        pack,
        local_to_global_fid,
        tree_count,
    });
    let hot = rt.compiled_hot_pack.as_ref().unwrap();
    load_from_manifest_dir(
        "L2ExpV1",
        riskanvil::hot_pack::load_compiled_hot_prefix_pack(
            &riskanvil::hot_pack::save_compiled_hot_prefix_pack(hot),
        )
        .unwrap(),
        load_hot_checkpoint_layout(&save_hot_checkpoint_layout(
            rt.hot_checkpoint_layout.as_ref().unwrap(),
        ))
        .unwrap(),
        p.hot_stage_plan,
        segments,
        tail,
        p.final_checkpoint,
    )
    .unwrap()
}

#[test]
fn packages_and_stages_on_file() {
    let hot = hot_runtime(3.0, 3.0);
    let exp = package(&hot);
    assert_eq!(exp.hot_feature_count(), 1);
    assert_eq!(exp.late_segments.len(), 1);
    assert!(exp.tail.is_none());
    assert_eq!(
        repack_from_bundle_manifest(&qs_runtime(3.0, 3.0), &vec![0, 1]).map(|_| ()),
        Err(PackageError::NoHotPack)
    );
    let mut bare = hot_runtime(3.0, 3.0);
    bare.hot_checkpoint_layout = None;
    assert_eq!(
        repack_from_bundle_manifest(&bare, &vec![0, 1]).map(|_| ()),
        Err(PackageError::NoLayout)
    );
    let mut ranks = vec![7u8; 1];
    ensure_local_ranks(&mut ranks, 3);
    assert!(ranks.len() >= 3);
    let mut buf = HotFeatureBuf::new(4);
    buf.ensure_len(2);
    assert_eq!(buf.values, vec![0, 0]);
    assert!(load_hot_stage_plan(vec![1], vec![0, 1], vec![0]).is_some());
    assert!(load_hot_stage_plan(vec![1], vec![0], vec![0]).is_none());
    let layout = hot.hot_checkpoint_layout.as_ref().unwrap();
    let b = save_hot_checkpoint_layout(layout);
    let back = load_hot_checkpoint_layout(&b).unwrap();
    assert_eq!(back.late_feature_ids, layout.late_feature_ids);
    assert_eq!(back.late_feature_offsets, layout.late_feature_offsets);
    assert!(load_hot_checkpoint_layout(&b[..3]).is_err());
    let plan =
        build_prefix_v2_hot_stage_plan(hot.hot_stage_plan.as_ref().unwrap(), &[0]).unwrap();
    assert_eq!(
        plan.stages,
        vec![PrefixV2HotStage {
            checkpoint: 1,
            global_cp_idx: 0,
            feature_start: 0,
            feature_end: 1
        }]
    );
    let b = save_prefix_v2_hot_stage_plan(&plan);
    let back = load_prefix_v2_hot_stage_plan(&b).unwrap();
    assert_eq!(format!("{:?}", back), format!("{:?}", plan));
    assert!(load_prefix_v2_hot_stage_plan(&b[..b.len() - 1]).is_err());
    assert_eq!(
        build_prefix_v2_hot_stage_plan(hot.hot_stage_plan.as_ref().unwrap(), &[0, 1])
            .map(|_| ()),
        Err(StageMatchError::Slots { checkpoints: 1, slots: 2 })
    );
    let none =
        build_hot_checkpoint_layout(&hot.calibration, Some(1), &hot.pack, PrefixDirectKernel::Qs);
    assert!(none.is_none());
}

#[test]
fn stages_need_not_rise() {
    let hot = hot_runtime(100.0, 100.0);
    let once = package(&hot);
    let mut twice = package(&hot);
    twice.hot_stage_plan.checkpoints.push(1);
    twice.hot_stage_plan.feature_offsets.push(1);
    twice.hot_checkpoint_layout.hot_indices.push(0);
    assert!(twice.ready(&hot, 2));
    let mut whole = 0;
    for row in ROWS {
        for tau in TAUS {
            let run = |exp: &L2ExpV1Runtime| {
                let (mut buf, mut ranks) = (HotFeatureBuf::new(1), vec![0u8; 2]);
                let tau = tau.to_bits();
                predict_nomiss(&arith, exp, &hot, &bits(&row), tau, 0, &mut buf, &mut ranks)
                    .unwrap()
            };
            let (a, b) = (run(&once), run(&twice));
            if a.used_fallback && b.used_fallback {
                assert_eq!((a.score, a.reject), (b.score, b.reject));
                whole += 1;
            }
        }
    }
    assert!(whole > 0);
    // A stage that asks for trees that are not there fails once a row reaches it.
    let mut past = package(&hot);
    past.hot_stage_plan.checkpoints.push(9);
    past.hot_stage_plan.feature_offsets.push(1);
    past.hot_checkpoint_layout.hot_indices.push(1);
    assert!(past.ready(&hot, 2));
    let (mut buf, mut ranks) = (HotFeatureBuf::new(1), vec![0u8; 2]);
    let f = bits(&ROWS[0]);
    let tau = TAUS[1].to_bits();
    let got = predict_nomiss(&arith, &past, &hot, &f, tau, 0, &mut buf, &mut ranks);
    assert!(got.is_err());
}

fn policy() -> ApproxPolicy {
    complete_approx_policy(ApproxPolicy {
        checkpoints: vec![],
        tau_ref: vec![],
        tau_pass: vec![],
        tau_reject: vec![],
        used_checkpoints: vec![1],
        used_tau_ref: vec![Some((-18.75f32).to_bits())],
        used_tau_pass: vec![None],
        used_tau_reject: vec![],
        used_tau_ref_dense: vec![],
        used_tau_positive_dense: vec![],
        k_hot: 0,
        rank_mode: RankMode::Float,
        checkpoint_exit_counts: vec![],
        compacted: false,
    })
    .unwrap()
}

fn minpack(first: f32, last: f32) -> MinpackRuntime {
    let rt = hot_runtime(first, last);
    let exp = package(&rt);
    MinpackRuntime::load(
        model(),
        order(),
        policy(),
        20f32.to_bits(),
        0.25f32.to_bits(),
        2,
        model(),
        rt,
        Some(exp),
        None,
        2,
        "/bundle".to_string(),
    )
    .unwrap()
}

#[test]
fn models_that_hold_together() {
    assert!(model().fits());
    assert!(order().lists_trees_of(2));
    assert!(!order().lists_trees_of(1));
    let mut astray = model();
    astray.tree_roots[1] = 8;
    assert!(!astray.fits());
    let mut astray = model();
    astray.nodes[3].right = 8;
    assert!(!astray.fits());
    let mut astray = model();
    astray.nodes[0].fidx = -1;
    assert!(!astray.fits());
    assert!(hot_runtime(3.0, 3.0).sound());
    let mut rt = hot_runtime(3.0, 3.0);
    rt.calibration.checkpoints.pop();
    assert!(!rt.sound());
    let mut rt = hot_runtime(3.0, 3.0);
    rt.hot_checkpoint_layout.as_mut().unwrap().late_indices[0] = 2;
    assert!(!rt.sound());

    assert!(minpack(3.0, 3.0).ready());
    let mut m = minpack(3.0, 3.0);
    m.l2_dim = 1;
    assert!(!m.ready());
    let mut m = minpack(3.0, 3.0);
    m.l1.approx_policy.used_tau_ref_dense.clear();
    assert!(!m.ready());
    let mut m = minpack(3.0, 3.0);
    m.l1.plan.suffix_max.pop();
    assert!(!m.ready());
    let mut m = minpack(3.0, 3.0);
    m.l2.runtime.compiled_hot_pack.as_mut().unwrap().hot_global_fidx[0] = 2;
    assert!(!m.ready());
    let mut m = minpack(3.0, 3.0);
    m.l2.runtime.late_segments.as_mut().unwrap()[0].global_cp_idx = 2;
    assert!(!m.ready());
    let mut m = minpack(3.0, 3.0);
    m.l2.exp_v1.as_mut().unwrap().late_segments[0].local_to_global_fid[0] = 2;
    assert!(!m.ready());
}

#[test]
fn first_stage_online() {
    let m = minpack(3.0, 3.0);
    assert_eq!(m.backend_name(), "rust_quickscorer_zen4");
    assert_eq!((m.bundle_dir(), m.l1_dim(), m.l2_dim()), ("/bundle", 2, 2));
    assert_eq!(m.l1_threshold(), 20f32.to_bits());
    let mut scratch = OnlineScratch::new();
    let mut bytes = Vec::new();
    for v in [1.0f32, 3.0] {
        bytes.extend_from_slice(&v.to_le_bytes());
    }
    let want = OnlineL1Output { score: 22.25f32.to_bits(), passed: true, visited_trees: 2 };
    assert_eq!(m.predict_l1_bytes(&arith, &bytes, &mut scratch), Ok(want));
    assert_eq!(m.predict_l1_bytes_nomiss(&arith, &bytes, &mut scratch), Ok(want));
    assert_eq!(m.predict_l1_feat(&arith, &bits(&[1.0, 3.0])), Ok(want));
    assert_eq!(m.predict_l1_feat_nomiss(&arith, &bits(&[1.0, 3.0])), Ok(want));
    let refer = OnlineL1Output { score: 1.25f32.to_bits(), passed: false, visited_trees: 1 };
    assert_eq!(m.predict_l1_feat(&arith, &bits(&[0.0, 0.0])), Ok(refer));
    // A missing value takes its own way, past the compact trees.
    let gap = m.predict_l1_feat(&arith, &bits(&[f32::NAN, 3.0])).unwrap();
    assert_eq!((gap.score, gap.visited_trees), (1.25f32.to_bits(), 1));
    assert_eq!(
        m.predict_l1_feat(&arith, &[0]),
        Err(OnlineError::L1Len { got: 1, expected: 2 })
    );
    assert_eq!(
        m.predict_l1_bytes(&arith, &bytes[..7], &mut scratch),
        Err(OnlineError::BytesLen { got: 7, expected: 8 })
    );
}

#[test]
fn second_stage_online() {
    let m = minpack(100.0, 3.0);
    let qs = qs_runtime(100.0, 3.0);
    let mut scratch = OnlineScratch::new();
    for feat in ROWS {
        for tau in TAUS {
            let want = run(&qs, &feat, tau, false);
            let f = bits(&feat);
            let t = tau.to_bits();
            let a = m.predict_l2_row(&arith, &f, t, 0, &mut scratch).unwrap();
            // A row without missing values needs no hint.
            assert_eq!(m.predict_l2_row_nomiss(&arith, &f, t, 0, &mut scratch), Ok(a));
            assert_eq!(a.used_fallback, want.fallback_used);
            if want.fallback_used {
                // Every tree has been added up by then.
                assert_eq!(a.score, want.prefix_score);
                assert_eq!(a.reject, f32::from_bits(want.prefix_score) >= tau);
            } else {
                assert_eq!(
                    a,
                    OnlineL2Output {
                        score: want.shadow_route_score,
                        reject: want.shadow_reject,
                        used_fallback: false,
                        trees_used: want.trees_used as i32,
                    }
                );
            }
            let z = m
                .predict_l2_row_nomiss_experimental_zen4(&arith, &f, t, 0, &mut scratch)
                .unwrap();
            assert_eq!((z.score, z.reject), (a.score, a.reject));
        }
    }
    assert_eq!(
        m.predict_l2_row(&arith, &[0], 0, 0, &mut scratch),
        Err(OnlineError::L2Len { got: 1, expected: 2 })
    );
}

#[test]
fn dense_rows_as_bytes() {
    assert_eq!(decode_dense_f32le(&[0, 0, 0x80, 0x3f], 1), Ok(vec![1f32.to_bits()]));
    assert_eq!(
        decode_dense_f32le(&[0, 0, 0x80], 1),
        Err(OnlineError::BytesLen { got: 3, expected: 4 })
    );
    assert_eq!(
        decode_dense_f32le(&[], usize::MAX),
        Err(OnlineError::DimTooLarge { dim: usize::MAX })
    );
    let mut out = vec![7];
    assert!(decode_dense_f32le_into(&[1], 1, &mut out).is_err());
    assert_eq!(out, vec![7]);
    assert_eq!(decode_dense_f32le_into(&[1, 0, 0, 0], 1, &mut out), Ok(()));
    assert_eq!(out, vec![1]);
    assert!(is_nan_free(&bits(&[1.0, f32::INFINITY])));
    assert!(!is_nan_free(&bits(&[1.0, f32::NAN])));
}

fn router(action: &str) -> riskanvil::rescue::LoadedRescueRouter {
    load_rescue_router(
        "L2AnchorRescueRouterV2",
        bits(&[0.0, 50.0, 100.0]),
        bits(&[-100.0, 0.0, 100.0]),
        &vec![RescueRouterRow {
            anchor_checkpoint: 1,
            tau_bin: 0,
            fold_id: 7,
            shadow_side: -1,
            gap_bin: 1,
            action: "run_refer_rescue".to_string(),
        }],
        &vec![RescueRouterDefault {
            anchor_checkpoint: 1,
            tau_bin: 0,
            shadow_side: -1,
            action: action.to_string(),
        }],
    )
    .unwrap()
}

#[test]
fn rescues_are_looked_up() {
    let r = router("run_reject_rescue");
    let ask = |cp: usize, tau: f32, fold: i32, score: f32| {
        lookup_rescue_action(&arith, &r, cp, tau.to_bits(), fold, score.to_bits())
    };
    assert_eq!(ask(1, 12.0, 7, 2.0), RescueAction::ReferRescue);
    assert_eq!(ask(1, 12.0, 0, 2.0), RescueAction::RejectRescue);
    assert_eq!(ask(1, 12.0, 7, 13.0), RescueAction::Fallback);
    assert_eq!(ask(1, 60.0, 7, 2.0), RescueAction::Fallback);
    assert_eq!(ask(2, 12.0, 7, 2.0), RescueAction::Fallback);
    let load = |format: &str, row: &str, default: &str| {
        load_rescue_router(
            format,
            vec![],
            vec![],
            &vec![RescueRouterRow {
                anchor_checkpoint: 1,
                tau_bin: 0,
                fold_id: 0,
                shadow_side: 1,
                gap_bin: 0,
                action: row.to_string(),
            }],
            &vec![RescueRouterDefault {
                anchor_checkpoint: 1,
                tau_bin: 0,
                shadow_side: 1,
                action: default.to_string(),
            }],
        )
    };
    assert_eq!(load("x", "fallback", "fallback").map(|_| ()), Err(RouterError::Format));
    assert_eq!(
        load("L2AnchorRescueRouterV1", "go", "fallback").map(|_| ()),
        Err(RouterError::RowAction { row: 0 })
    );
    assert_eq!(
        load("L2AnchorRescueRouterV1", "fallback", "go").map(|_| ()),
        Err(RouterError::DefaultAction { row: 0 })
    );
    // The first version of the format knows no checkpoints.
    let v1 = load("L2AnchorRescueRouterV1", "run_refer_rescue", "fallback").unwrap();
    assert_eq!(v1.actions[0].anchor_checkpoint, 0);
}

/// An anchor that looks at the first tree only, and models over the trees in the other order.
fn rescue(action: &str) -> LoadedAnchorRescueRuntime {
    let mut anchor = qs_runtime(100.0, 100.0);
    anchor.calibration = calibration(&[1], 100.0, 100.0);
    let other = || {
        let mut p = pack();
        p.tree_hdrs.swap(0, 1);
        let mut parts = parts(3.0, 3.0);
        parts.pack = p;
        parts.calibration = calibration(&[1], 3.0, 3.0);
        parts.tree_order.order = vec![1, 0];
        let c = choices(PrefixDirectKernel::Qs, PrefixCertifierKind::TableV1);
        load_prefix_runtime(c, parts, &bounds(), 2).unwrap().0
    };
    LoadedAnchorRescueRuntime {
        anchor,
        reject_rescue: other(),
        refer_rescue: other(),
        router: router(action),
        anchor_limit: 1,
        rescue_limit: 1,
    }
}

#[test]
fn rescued_rows_are_decided_on_their_own_side() {
    let r = rescue("run_reject_rescue");
    let (mut ranks, mut missing) = (vec![0u8; 2], vec![0u8; 2]);
    let mut cache = LazyHotFeatureCache::new(1);
    let feat = bits(&[1.0, 3.0]);
    let tau = 12f32.to_bits();
    // The anchor stands at 2.25; the other model adds 20 and rejects.
    let row = run_anchor_rescue_shadow_row(
        &arith, &r, &feat, tau, 0, &mut ranks, &mut missing, &mut cache, false,
    )
    .unwrap();
    assert!(row.shadow_reject && !row.fallback_used);
    assert_eq!((row.anchor_trees_used, row.rescue_trees_used, row.trees_used), (1, 1, 2));
    assert_eq!((row.rescue_route, row.rescue_direct_checkpoint), (2, 1));
    // Fold 7 asks whether to refer; a rejection does not count there.
    let row = run_anchor_rescue_shadow_row(
        &arith, &r, &feat, tau, 7, &mut ranks, &mut missing, &mut cache, false,
    )
    .unwrap();
    assert!(row.fallback_used);
    assert_eq!((row.rescue_route, row.direct_checkpoint), (3, 0));
    // No tree is left over, and none is counted twice.
    let (score, reject, left) =
        run_rescue_continuation(&arith, &r, &feat, tau, &row, &mut ranks, &mut missing).unwrap();
    assert_eq!((score, reject, left), (row.prefix_score, true, 0));
    let r = rescue("fallback");
    let row = run_anchor_rescue_shadow_row(
        &arith, &r, &feat, tau, 0, &mut ranks, &mut missing, &mut cache, false,
    )
    .unwrap();
    assert_eq!((row.rescue_route, row.trees_used, row.fallback_used), (1, 1, true));
    let how = Continuation::Rescue(&r);
    let (score, reject, left) = run_exact_continuation(
        &arith, &how, &model(), &feat, tau, &row, true, &mut ranks, &mut missing,
    )
    .unwrap();
    assert_eq!((score, reject, left), (22.25f32.to_bits(), true, 1));
}

#[test]
fn undecided_rows_are_taken_on() {
    let mut rt = qs_runtime(100.0, 100.0);
    rt.calibration = calibration(&[1], 100.0, 100.0);
    let row = run(&rt, &[1.0, 3.0], 12.0, false);
    assert!(row.fallback_used);
    let feat = bits(&[1.0, 3.0]);
    let (mut ranks, mut missing) = (vec![0u8; 2], vec![0u8; 2]);
    let how = Continuation::Plain(&rt);
    let tau = 12f32.to_bits();
    let a = run_exact_continuation(
        &arith, &how, &model(), &feat, tau, &row, true, &mut ranks, &mut missing,
    )
    .unwrap();
    assert_eq!((a.0, a.1), (22.25f32.to_bits(), true));
    ranks = vec![1, 1];
    let b =
        run_exact_continuation_nomiss(&arith, &how, &feat, tau, &row, &mut ranks).unwrap();
    assert_eq!((b.0, b.1), (a.0, a.1));
}

fn scheduler() -> LoadedPacketScheduler {
    let text = "packet_id\tpacket_bank\ttree_count\tblock_cost\ttree_pos_list\n\
                1\treject\t1\t7\t1\n0\tscout\t1\t5\t0\n";
    let cost = |s: &[char]| s.iter().collect::<String>().parse::<u64>().ok();
    let packets = load_packet_summary_tsv(&cost, text).unwrap();
    let policy = load_packet_policy_json(policy_file()).unwrap();
    load_v4_packet_scheduler("L2PrefixPacketManifestV1", 2, 2, packets, vec![], policy).unwrap()
}

fn policy_file() -> PacketSchedulerPolicyFile {
    PacketSchedulerPolicyFile {
        format: "L2PacketSchedulerPolicyV1".to_string(),
        n_packets: 2,
        max_steps: 2,
        tau_edges: bits(&[0.0, 100.0]),
        gap_edges_by_step: vec![bits(&[-100.0, 100.0]), bits(&[-100.0, 100.0])],
        delta_edges_by_step: vec![bits(&[-100.0, 100.0]), bits(&[-100.0, 100.0])],
        policy_rows: vec![
            PacketPolicyFileRow {
                step: 0,
                tau_bin: 0,
                gap_regime: 0,
                delta_regime: 0,
                row_count: 3,
                ranking: vec![1, 0],
            },
            PacketPolicyFileRow {
                step: 1,
                tau_bin: 4,
                gap_regime: 4,
                delta_regime: 4,
                row_count: 3,
                ranking: vec![1],
            },
        ],
    }
}

#[test]
fn packets_are_picked_by_rank() {
    let s = scheduler();
    assert_eq!(
        lookup_packet_policy_ranking(&s.policy, 0, 0, 0, 0),
        Some(&vec![1u16, 0])
    );
    // A state without a row of its own goes by the default of its step.
    assert_eq!(lookup_packet_policy_ranking(&s.policy, 1, 0, 0, 0), Some(&vec![1u16]));
    assert_eq!(lookup_packet_policy_ranking(&s.policy, 2, 0, 0, 0), None);
    let ranking = vec![1u16, 0];
    assert_eq!(pick_packet(&s.packets, &vec![false, false], Some(&ranking)), Some(1));
    assert_eq!(pick_packet(&s.packets, &vec![false, true], Some(&ranking)), Some(0));
    assert_eq!(pick_packet(&s.packets, &vec![false, true], None), Some(0));
    assert_eq!(pick_packet(&s.packets, &vec![true, true], Some(&ranking)), None);
}

#[test]
fn rows_run_packet_by_packet() {
    let rt = qs_runtime(100.0, 3.0);
    let s = scheduler();
    let (mut ranks, mut missing) = (vec![0u8; 2], vec![0u8; 2]);
    let feat = bits(&[1.0, 3.0]);
    let r = run_packet_shadow_row(
        &arith,
        &rt,
        &s,
        &feat,
        30f32.to_bits(),
        0,
        &mut ranks,
        &mut missing,
        true,
    )
    .unwrap();
    assert_eq!(r.selected_packets, vec![1, 0]);
    assert_eq!(r.checkpoint_scores, bits(&[20.25, 22.25]));
    assert_eq!(r.checkpoint_deltas, bits(&[20.0, 2.0]));
    assert_eq!((r.trees_used, r.work_evals), (2, 3));
    // A gap of 7.75 is referred at the second step.
    assert_eq!((r.shadow_reject, r.direct_checkpoint), (false, 2));
    assert_eq!(r.shadow_route_score, 25.25f32.to_bits());
    let left = run_packet_continuation(
        &arith,
        &rt,
        &s,
        &feat,
        30f32.to_bits(),
        &PrefixRowShadow { selected_packets: vec![1], prefix_score: 20.25f32.to_bits(), ..r },
        &ranks,
        None,
    )
    .unwrap();
    assert_eq!((left.0, left.1), (22.25f32.to_bits(), false));
    let mut short = qs_runtime(100.0, 3.0);
    short.calibration = calibration(&[1], 3.0, 3.0);
    assert_eq!(
        run_packet_shadow_row(
            &arith,
            &short,
            &s,
            &feat,
            0,
            0,
            &mut ranks,
            &mut missing,
            false
        )
        .map(|_| ()),
        Err(ScoreError::StepCount { tables: 1, max_steps: 2 })
    );
}

#[test]
fn schedulers_that_do_not_fit() {
    let fault = |f| load_packet_policy_json(f).map(|_| ()).unwrap_err();
    let mut f = policy_file();
    f.format.clear();
    assert_eq!(fault(f), PacketError::Format);
    let mut f = policy_file();
    f.policy_rows[0].ranking = vec![2];
    assert_eq!(fault(f), PacketError::Ranking { packet: 2, packets: 2 });
    let s = scheduler();
    assert_eq!(
        load_v4_packet_scheduler(
            "L2PrefixPacketManifestV1",
            3,
            2,
            s.packets,
            vec![],
            s.policy
        )
        .map(|_| ()),
        Err(PacketError::Count { manifest: 3, loaded: 2 })
    );
    let s = scheduler();
    assert_eq!(
        load_v4_packet_scheduler(
            "L2PrefixPacketManifestV1",
            2,
            9,
            s.packets,
            vec![],
            s.policy
        )
        .map(|_| ()),
        Err(PacketError::PolicySteps { manifest: 9, policy: 2 })
    );
    let s = scheduler();
    let forms = vec![CompiledPacket { packet_id: 5, pack: hot_pack() }];
    let made =
        load_v4_packet_scheduler("L2PrefixPacketManifestV1", 2, 2, s.packets, forms, s.policy);
    assert_eq!(made.map(|_| ()), Err(PacketError::Compiled { packet: 5, packets: 2 }));
    let mut s = scheduler();
    s.policy.n_packets = 3;
    let made =
        load_v4_packet_scheduler("L2PrefixPacketManifestV1", 2, 2, s.packets, vec![], s.policy);
    assert_eq!(made.map(|_| ()), Err(PacketError::PolicyCount { manifest: 2, policy: 3 }));
    let s = scheduler();
    assert_eq!(
        load_v4_packet_scheduler("x", 2, 2, s.packets, vec![], s.policy).map(|_| ()),
        Err(PacketError::Format)
    );
    let s = scheduler();
    let forms = vec![CompiledPacket { packet_id: 1, pack: hot_pack() }];
    let made =
        load_v4_packet_scheduler("L2PrefixPacketManifestV1", 2, 2, s.packets, forms, s.policy);
    assert!(made.unwrap().packets[1].compiled_pack.is_some());
}

#[test]
fn packs_are_as_sound_as_their_trees_need() {
    assert!(pack().sound() && pack().takes_gaps());
    // A feature that no block names may have any number of cuts.
    let mut p = pack();
    p.n_features = 3;
    p.cuts.extend((0..200).map(|i| (i as f32).to_bits()));
    p.cut_offsets.push(203);
    assert!(p.sound());
    assert!(p.names_below(2) && !p.names_below(1));
    // Feature 0 has two cuts, so its last table is read up to its third entry.
    let mut p = pack();
    p.luts.truncate(261);
    assert!(p.sound());
    assert!(p.feature_takes(0, 2) && !p.feature_takes(0, 3) && p.feature_takes(1, 9));
    p.luts.truncate(260);
    assert!(!p.sound());
    // The last mask is that of a missing value of feature 0.
    let mut p = pack();
    p.masks.truncate(8);
    assert!(p.sound() && !p.takes_gaps());
    assert!(p.takes_row(&bits(&[0.0, 0.0])));
    assert!(p.takes_row(&bits(&[0.0, f32::NAN])));
    assert!(!p.takes_row(&bits(&[f32::NAN, 0.0])));
    p.masks.truncate(7);
    assert!(!p.sound());
}

/// The pack with more features than a byte can name. Those past the second have no cuts.
fn wide_parts(first: f32, last: f32) -> PrefixParts {
    let mut p = parts(first, last);
    p.pack.n_features = 300;
    p.pack.cut_offsets.resize(301, 3);
    p
}

#[test]
fn wide_packs_are_run() {
    let hot = choices(PrefixDirectKernel::HotExact96, PrefixCertifierKind::AtlasV1);
    let qs = choices(PrefixDirectKernel::Qs, PrefixCertifierKind::TableV1);
    for (c, narrow) in [(qs, qs_runtime(100.0, 3.0)), (hot, hot_runtime(100.0, 3.0))] {
        let p = wide_parts(100.0, 3.0);
        assert!(p.pack.sound() && p.ready(c));
        let (rt, _) = load_prefix_runtime(c, p, &bounds(), 300).unwrap();
        assert!(rt.sound());
        for feat in ROWS {
            for tau in TAUS {
                let mut f = bits(&feat);
                f.resize(300, f32::NAN.to_bits());
                let (mut ranks, mut missing) = (vec![0u8; 300], vec![0u8; 300]);
                let mut cache = LazyHotFeatureCache::new(1);
                let got = run_prefix_shadow_row(
                    &arith,
                    &rt,
                    &f,
                    tau.to_bits(),
                    0,
                    &mut ranks,
                    &mut missing,
                    &mut cache,
                    false,
                )
                .unwrap();
                let want = run(&narrow, &feat, tau, false);
                assert_eq!(format!("{:?}", got), format!("{:?}", want));
            }
        }
    }
    let (rt, _) = load_prefix_runtime(hot, wide_parts(100.0, 3.0), &bounds(), 300).unwrap();
    let wide = MinpackRuntime::load(
        model(),
        order(),
        policy(),
        20f32.to_bits(),
        0.25f32.to_bits(),
        2,
        model(),
        rt,
        None,
        None,
        300,
        "/bundle".to_string(),
    )
    .unwrap();
    assert!(wide.ready());
    let narrow = minpack(100.0, 3.0);
    let (mut a, mut b) = (OnlineScratch::new(), OnlineScratch::new());
    for feat in ROWS {
        for tau in TAUS {
            let t = tau.to_bits();
            let mut f = bits(&feat);
            let want = narrow.predict_l2_row(&arith, &f, t, 0, &mut a);
            f.resize(300, 0);
            assert_eq!(wide.predict_l2_row(&arith, &f, t, 0, &mut b), want);
            assert_eq!(wide.predict_l2_row_nomiss(&arith, &f, t, 0, &mut b), want);
        }
    }
}

#[test]
fn earlier_rows_leave_no_trace() {
    let mut plain = minpack(100.0, 3.0);
    plain.l2.runtime.late_segments = None;
    for m in [minpack(100.0, 3.0), plain] {
        assert!(m.ready());
        for feat in [[0.0, 0.0], [1.0, 3.0], [2.0, 3.0], [f32::NAN, 3.0], [1.0, f32::NAN]] {
            for tau in TAUS {
                let (f, t) = (bits(&feat), tau.to_bits());
                let mut fresh = OnlineScratch::new();
                let want = m.predict_l2_row(&arith, &f, t, 0, &mut fresh).unwrap();
                let mut used = OnlineScratch::new();
                used.l2_ranks = vec![1, 2];
                used.l2_missing = vec![1, 1];
                used.l2_hot_buf.values = bits(&[9.0]);
                assert_eq!(m.predict_l2_row(&arith, &f, t, 0, &mut used), Ok(want));
                if is_nan_free(&f) {
                    let mut used = OnlineScratch::new();
                    used.l2_ranks = vec![2, 0, 1];
                    let got = m.predict_l2_row_nomiss(&arith, &f, t, 0, &mut used);
                    assert_eq!(got, Ok(want));
                }
            }
        }
    }
}

#[test]
fn places_that_are_not_reached_stay_blank() {
    // The checkpoints are recorded in each other's place.
    let mut rt = hot_runtime(3.0, 3.0);
    let layout = rt.hot_checkpoint_layout.as_mut().unwrap();
    layout.hot_indices = vec![1];
    layout.late_indices = vec![0];
    assert!(rt.sound());
    for feat in ROWS {
        for tau in TAUS {
            let mut a = run(&rt, &feat, tau, true);
            let b = run(&rt, &feat, tau, false);
            assert_eq!(a.checkpoint_scores.len(), 2);
            assert!(!f32::from_bits(a.checkpoint_scores[1]).is_nan());
            assert_eq!(f32::from_bits(a.checkpoint_scores[0]).is_nan(), a.trees_used < 2);
            a.checkpoint_scores.clear();
            a.checkpoint_work_evals.clear();
            a.checkpoint_deltas.clear();
            a.checkpoint_resolved_early.clear();
            assert_eq!(format!("{:?}", a), format!("{:?}", b));
        }
    }
}
