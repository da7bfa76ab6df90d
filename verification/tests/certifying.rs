//! Calibrated bands, atlases and networks: how a row is decided before all its trees are added.

use riskanvil::arith::SingleOp;
use riskanvil::atlas_file::{
    build_loaded_atlas_checkpoint, load_prefix_atlas_bin, load_prefix_atlas_json, AtlasBinError,
    AtlasError, PrefixAtlasCellFile, PrefixAtlasCheckpointFile, PrefixAtlasFile,
};
use riskanvil::bands::{
    atlas_tau_bin, lookup_prefix_bands, lookup_prefix_bands_with_tau, max_of, mlp_tau_bin,
    prefix_fold_slot, prefix_gap_bin, prefix_gap_bin_guard, LoadedPrefixCheckpoint,
};
use riskanvil::calibration::{
    load_prefix_calibration, make_slot_table, make_table, CalError, PrefixCalFile,
    PrefixCalFoldFile, PrefixCalTableFile, PrefixCalTauFoldFile, PrefixCalVariantFile,
};
use riskanvil::certify::{
    atlas_cluster_id, lookup_prefix_atlas, maybe_prefix_certify, maybe_prefix_certify_atlas_fast,
    maybe_prefix_certify_plan_fast, Certifier, LoadedPrefixAtlas, LoadedPrefixAtlasCheckpoint,
    LoadedPrefixCertifyCheckpoint, LoadedPrefixCertifyPlan, PrefixCertifierKind, NO_CLUSTER,
};
use riskanvil::certify_file::{load_prefix_certify_plan, save_prefix_certify_plan};
use riskanvil::forest::LoadError;
use riskanvil::le::ReadError;
use riskanvil::network::{
    build_mlp_input, load_mlp_certifier, mlp_forward, LoadedMlpCertifier, LoadedMlpCheckpoint,
    MlpCertifierFile, MlpError,
};

fn arith(op: SingleOp) -> u32 {
    let f = f32::from_bits;
    match op {
        SingleOp::Sum(a, b) => (f(a) + f(b)).to_bits(),
        SingleOp::Difference(a, b) => (f(a) - f(b)).to_bits(),
        SingleOp::Product(a, b) => (f(a) * f(b)).to_bits(),
        SingleOp::Fused(a, b, c) => f(a).mul_add(f(b), f(c)).to_bits(),
        SingleOp::ComparesFused => 0,
        SingleOp::Quotient(a, b) => (f(a) / f(b)).to_bits(),
        SingleOp::Exponential(a) => f(a).exp().to_bits(),
        SingleOp::Nearest(n) => (n as f32).to_bits(),
        SingleOp::Reaches(a, b, c) => (f(a) as f64 + f(b) as f64 >= f(c) as f64) as u32,
        SingleOp::FallsShort(a, b, c) => ((f(a) as f64 + f(b) as f64) < f(c) as f64) as u32,
    }
}

fn bits(values: &[f32]) -> Vec<u32> {
    values.iter().map(|v| v.to_bits()).collect()
}

fn same(value: f32) -> Vec<u32> {
    vec![value.to_bits(); 256]
}

fn edges() -> Vec<u32> {
    (0..257).map(|i| (i as f32 - 128.0).to_bits()).collect()
}

/// Rows whose gap exceeds 3 are referred, rows whose gap is at most -3 rejected; fold 5 is decided
/// from half as far, and at thresholds from 10 on from 2 on.
fn table_file() -> PrefixCalTableFile {
    PrefixCalTableFile {
        checkpoint: 8,
        gap_edges: edges(),
        global_ref_hi: same(3.0),
        global_rej_lo: same(-3.0),
        tau_edges: bits(&[0.0, 10.0, 20.0]),
        fold_tables: vec![
            PrefixCalFoldFile { fold_id: 5, ref_hi: same(0.5), rej_lo: same(-0.5) },
            PrefixCalFoldFile { fold_id: -2, ref_hi: same(0.25), rej_lo: same(-0.25) },
        ],
        tau_fold_tables: vec![PrefixCalTauFoldFile {
            fold_id: 5,
            tau_bin: 1,
            ref_hi: same(2.0),
            rej_lo: same(-2.0),
        }],
    }
}

fn table() -> LoadedPrefixCheckpoint {
    make_table(&table_file()).unwrap()
}

fn cal_file() -> PrefixCalFile {
    PrefixCalFile {
        format: "L2PrefixCalV1".to_string(),
        checkpoints: vec![8],
        variants: vec![PrefixCalVariantFile {
            key: "a".to_string(),
            ref_q: 1f32.to_bits(),
            rej_q: 2f32.to_bits(),
            tables: vec![table_file()],
        }],
    }
}

#[test]
fn bins_between_edges() {
    let e = bits(&[0.0, 1.0, 2.0, 4.0]);
    for (x, want) in [(-5.0f32, 0), (0.0, 0), (0.5, 0), (1.0, 1), (3.9, 2), (4.0, 2), (99.0, 2)] {
        assert_eq!(prefix_gap_bin(&e, x.to_bits()), want);
        assert_eq!(atlas_tau_bin(&e, x.to_bits()), want);
        assert_eq!(mlp_tau_bin(&e, x.to_bits()), want);
    }
    assert_eq!(atlas_tau_bin(&bits(&[7.0]), 9f32.to_bits()), 0);
    assert_eq!(prefix_gap_bin(&[], 0), 0);
    assert_eq!(max_of(1f32.to_bits(), f32::NAN.to_bits()), 1f32.to_bits());
    assert_eq!(max_of(1f32.to_bits(), 2f32.to_bits()), 2f32.to_bits());
}

#[test]
fn gaps_close_to_an_edge_count_for_both_bins() {
    let e = bits(&[0.0, 1.0, 2.0, 4.0]);
    let near = 1.0000005f32.to_bits();
    assert_eq!(prefix_gap_bin(&e, near), 1);
    assert_eq!(prefix_gap_bin_guard(&arith, &e, near, 1), (0, 1));
    let under = 1.9999995f32.to_bits();
    assert_eq!(prefix_gap_bin_guard(&arith, &e, under, 1), (1, 2));
    assert_eq!(prefix_gap_bin_guard(&arith, &e, 1.5f32.to_bits(), 1), (1, 1));
    // The outer edges have no neighbour.
    assert_eq!(prefix_gap_bin_guard(&arith, &e, 4f32.to_bits(), 2), (2, 2));
    assert_eq!(prefix_gap_bin_guard(&arith, &e, 0f32.to_bits(), 0), (0, 0));
}

#[test]
fn guards_only_widen_the_band() {
    let mut f = table_file();
    f.fold_tables = vec![];
    f.tau_fold_tables = vec![];
    f.global_ref_hi[128] = 7f32.to_bits();
    f.global_rej_lo[128] = (-7f32).to_bits();
    let t = make_table(&f).unwrap();
    assert_eq!(
        lookup_prefix_bands(&arith, &t, 0, 1.5f32.to_bits()),
        (3f32.to_bits(), (-3f32).to_bits())
    );
    // Bin 128 starts at zero; just above one the bin before counts too.
    assert_eq!(
        lookup_prefix_bands(&arith, &t, 0, 1.0f32.to_bits()),
        (7f32.to_bits(), (-7f32).to_bits())
    );
}

#[test]
fn folds_are_found_by_their_number() {
    assert_eq!(make_slot_table(&vec![5, -2, 1]), (-2, vec![1, -1, -1, 2, -1, -1, -1, 0]));
    assert_eq!(make_slot_table(&vec![]), (0, vec![]));
    assert_eq!(make_slot_table(&vec![0, 5000]), (0, vec![]));
    assert_eq!(make_slot_table(&vec![3, 3]), (3, vec![1]));
    let t = table();
    assert_eq!(prefix_fold_slot(&t, 5), Some(0));
    assert_eq!(prefix_fold_slot(&t, -2), Some(1));
    assert_eq!(prefix_fold_slot(&t, 0), None);
    assert_eq!(prefix_fold_slot(&t, 99), None);
    let mut far = table_file();
    far.fold_tables[1].fold_id = 100_000;
    let far = make_table(&far).unwrap();
    assert!(far.fold_slot_lut.is_empty());
    assert_eq!(prefix_fold_slot(&far, 100_000), Some(1));
}

#[test]
fn bands_by_fold_and_threshold() {
    let t = table();
    let gap = 1.5f32.to_bits();
    let band = |fold: i32, tau: f32| {
        let (a, b) = lookup_prefix_bands_with_tau(&arith, &t, fold, tau.to_bits(), gap);
        (f32::from_bits(a), f32::from_bits(b))
    };
    assert_eq!(band(0, 5.0), (3.0, -3.0));
    assert_eq!(band(5, 5.0), (0.5, -0.5));
    assert_eq!(band(5, 10.0), (2.0, -2.0));
    assert_eq!(band(-2, 10.0), (0.25, -0.25));
}

#[test]
fn calibration_files() {
    let c = load_prefix_calibration(&cal_file(), "a").unwrap();
    assert_eq!((c.variant_key.as_str(), c.checkpoints.clone()), ("a", vec![8]));
    assert_eq!((c.ref_q, c.rej_q), (1f32.to_bits(), 2f32.to_bits()));
    assert_eq!(c.tables.len(), 1);
    assert!(c.tables[0].sound());
    let fault = |f: &PrefixCalFile| load_prefix_calibration(f, "a").map(|_| ()).unwrap_err();
    let mut f = cal_file();
    f.format = "L2PrefixCalV3".to_string();
    assert_eq!(fault(&f), CalError::Format);
    let mut f = cal_file();
    f.checkpoints.clear();
    assert_eq!(fault(&f), CalError::NoCheckpoints);
    let f = cal_file();
    assert_eq!(
        load_prefix_calibration(&f, "b").map(|_| ()).unwrap_err(),
        CalError::NoVariant
    );
    let mut f = cal_file();
    f.checkpoints.push(9);
    assert_eq!(fault(&f), CalError::TableCount { checkpoints: 2, tables: 1 });
}

#[test]
fn tables_that_do_not_fit() {
    let fault = |f: &PrefixCalTableFile| make_table(f).map(|_| ()).unwrap_err();
    let mut f = table_file();
    f.gap_edges.pop();
    assert_eq!(fault(&f), CalError::GapEdges { checkpoint: 8, got: 256 });
    let mut f = table_file();
    f.global_rej_lo.pop();
    assert_eq!(
        fault(&f),
        CalError::GlobalBands { checkpoint: 8, ref_len: 256, rej_len: 255 }
    );
    let mut f = table_file();
    f.fold_tables[1].ref_hi.pop();
    assert_eq!(
        fault(&f),
        CalError::FoldBands { checkpoint: 8, fold: -2, ref_len: 255, rej_len: 256 }
    );
    let mut f = table_file();
    f.tau_fold_tables[0].rej_lo.pop();
    assert_eq!(
        fault(&f),
        CalError::TauBands { checkpoint: 8, fold: 5, tau_bin: 1, ref_len: 256, rej_len: 255 }
    );
    let mut f = table_file();
    f.tau_fold_tables[0].fold_id = 6;
    assert_eq!(fault(&f), CalError::UnknownFold { checkpoint: 8, fold: 6 });
    let mut f = table_file();
    f.tau_fold_tables[0].tau_bin = 2;
    assert_eq!(fault(&f), CalError::TauBin { checkpoint: 8, fold: 5, tau_bin: 2, bins: 2 });
}

/// Two clusters, told apart by the gap alone: near zero and near ten. The first refers and the
/// second rejects, at the second bin of the threshold.
fn atlas_table() -> PrefixAtlasCheckpointFile {
    PrefixAtlasCheckpointFile {
        checkpoint: 8,
        gap_edges: edges(),
        feature_mean: bits(&[0.0; 4]),
        feature_inv_std: bits(&[1.0, 0.0, 0.0, 0.0]),
        centroids: vec![bits(&[0.0, 0.0, 0.0, 0.0]), bits(&[10.0, 0.0, 0.0, 0.0])],
        cells: vec![
            PrefixAtlasCellFile {
                tau_bin: 1,
                cluster_id: 0,
                reject_rate: same(0.01),
                counts: vec![100; 256],
            },
            PrefixAtlasCellFile {
                tau_bin: 1,
                cluster_id: 1,
                reject_rate: same(0.99),
                counts: vec![100; 256],
            },
        ],
    }
}

fn atlas_file() -> PrefixAtlasFile {
    PrefixAtlasFile {
        format: "L2PrefixAtlasV1".to_string(),
        feature_schema_version: 3,
        variant_key: "a".to_string(),
        tau_edges: bits(&[0.0, 10.0, 20.0]),
        cluster_count: 2,
        min_cell_count: 50,
        safe_ref_max_reject_rate: 0.02f32.to_bits(),
        safe_rej_min_reject_rate: 0.98f32.to_bits(),
        checkpoints: vec![atlas_table()],
    }
}

fn atlas() -> LoadedPrefixAtlas {
    load_prefix_atlas_json(&arith, &atlas_file()).unwrap()
}

#[test]
fn atlas_makes_weights_of_its_centroids() {
    let a = atlas();
    assert_eq!((a.feature_schema_version, a.variant_key.as_str()), (3, "a"));
    let t = &a.checkpoints[0];
    assert_eq!((t.cluster_count, t.tau_bin_count), (2, 2));
    assert_eq!(t.centroid_w0, bits(&[0.0, 20.0]));
    assert_eq!(t.centroid_bias, bits(&[-0.0, -100.0]));
    assert!(!t.centroids16);
    assert_eq!(t.decision_grid.len(), 1024);
    assert_eq!((t.decision_grid[0], t.decision_grid[512], t.decision_grid[768]), (0, 1, 2));
    let d = build_loaded_atlas_checkpoint(
        &arith,
        8,
        edges(),
        [0; 4],
        [1f32.to_bits(), 0, 0, 0],
        &atlas_table().centroids,
        2,
        t.decision_grid.clone(),
    );
    assert_eq!(format!("{:?}", d), format!("{:?}", t));
}

#[test]
fn cells_decide_only_where_they_are_safe() {
    let mut f = atlas_file();
    f.checkpoints[0].cells[0].counts[3] = 49;
    f.checkpoints[0].cells[0].reject_rate[4] = 0.5f32.to_bits();
    f.checkpoints[0].cells[0].reject_rate[5] = 0.02f32.to_bits();
    f.checkpoints[0].cells[0].reject_rate[6] = 0.98f32.to_bits();
    let a = load_prefix_atlas_json(&arith, &f).unwrap();
    assert_eq!(&a.checkpoints[0].decision_grid[512 + 2..512 + 7], &[1, 0, 0, 1, 2]);
}

#[test]
fn nearest_cluster_decides() {
    let a = atlas();
    let t = &a.checkpoints[0];
    assert!(t.sound());
    let cluster = |gap: f32| atlas_cluster_id(&arith, t, gap.to_bits(), 0, 0);
    assert_eq!(cluster(4.0), Some(0));
    assert_eq!(cluster(6.0), Some(1));
    // The first of two that fit alike.
    assert_eq!(cluster(5.0), Some(0));
    let at = |tau_bin: usize, gap: f32| {
        lookup_prefix_atlas(&arith, t, tau_bin, prefix_gap_bin(&t.gap_edges, gap.to_bits()), gap.to_bits(), 0, 0)
    };
    assert_eq!(at(1, 1.0), Some(false));
    assert_eq!(at(1, 9.0), Some(true));
    assert_eq!(at(0, 9.0), None);
    assert_eq!(at(7, 9.0), Some(true));
}

#[test]
fn sixteen_clusters_need_sixteen_weights() {
    let mut f = atlas_file();
    f.checkpoints[0].centroids = (0..16).map(|k| bits(&[k as f32, 0.0, 0.0, 0.0])).collect();
    let mut a = load_prefix_atlas_json(&arith, &f).unwrap();
    let t = &mut a.checkpoints[0];
    assert!(t.centroids16);
    assert_eq!(atlas_cluster_id(&arith, t, 6.2f32.to_bits(), 0, 0), Some(6));
    t.centroids16 = false;
    assert_eq!(atlas_cluster_id(&arith, t, 6.2f32.to_bits(), 0, 0), None);
}

fn fused(op: SingleOp) -> u32 {
    match op {
        SingleOp::ComparesFused => 1,
        _ => arith(op),
    }
}

#[test]
fn sixteen_clusters_by_fused_operations() {
    let mut f = atlas_file();
    f.checkpoints[0].centroids = (0..16).map(|k| bits(&[k as f32, 0.0, 0.0, 0.0])).collect();
    let mut a = load_prefix_atlas_json(&arith, &f).unwrap();
    let t = &mut a.checkpoints[0];
    for gap in [0.2f32, 6.2, 8.4, 15.0] {
        let want = atlas_cluster_id(&arith, t, gap.to_bits(), 0, 0);
        assert_eq!(atlas_cluster_id(&fused, t, gap.to_bits(), 0, 0), want);
    }
    // Where nothing fits, there is no cluster to look up; without fused operations the first is.
    let nan = f32::NAN.to_bits();
    assert_eq!(atlas_cluster_id(&fused, t, nan, 0, 0), Some(NO_CLUSTER));
    assert_eq!(atlas_cluster_id(&arith, t, nan, 0, 0), Some(0));
    assert_eq!(lookup_prefix_atlas(&fused, t, 0, 0, nan, 0, 0), None);
    // A value that is no number hides the one eight places before it.
    t.centroid_bias[14] = nan;
    assert_eq!(atlas_cluster_id(&fused, t, 6.2f32.to_bits(), 0, 0), Some(7));
    assert_eq!(atlas_cluster_id(&arith, t, 6.2f32.to_bits(), 0, 0), Some(6));
}

#[test]
fn atlases_that_do_not_fit() {
    let fault = |f: &PrefixAtlasFile| load_prefix_atlas_json(&arith, f).map(|_| ()).unwrap_err();
    let mut f = atlas_file();
    f.format.push('x');
    assert_eq!(fault(&f), AtlasError::Format);
    let mut f = atlas_file();
    f.tau_edges.truncate(1);
    assert_eq!(fault(&f), AtlasError::TauEdges);
    let mut f = atlas_file();
    f.checkpoints[0].feature_mean.pop();
    assert_eq!(fault(&f), AtlasError::Normalization { checkpoint: 8, mean: 3, inv_std: 4 });
    let mut f = atlas_file();
    f.checkpoints[0].centroids[1].pop();
    assert_eq!(fault(&f), AtlasError::Centroid { checkpoint: 8, got: 3 });
    let mut f = atlas_file();
    f.checkpoints[0].cells[1].counts.pop();
    assert_eq!(
        fault(&f),
        AtlasError::CellLength { checkpoint: 8, tau_bin: 1, cluster: 1, rates: 256, counts: 255 }
    );
    let mut f = atlas_file();
    f.checkpoints[0].cells[0].tau_bin = 2;
    assert_eq!(fault(&f), AtlasError::TauBin { checkpoint: 8, tau_bin: 2, bins: 2 });
    let mut f = atlas_file();
    f.checkpoints[0].cells[0].cluster_id = 2;
    assert_eq!(fault(&f), AtlasError::Cluster { checkpoint: 8, cluster: 2, clusters: 2 });
}

fn put(out: &mut Vec<u8>, words: &[u32]) {
    for w in words {
        out.extend_from_slice(&w.to_le_bytes());
    }
}

fn atlas_bytes(a: &LoadedPrefixAtlas) -> Vec<u8> {
    let mut b = b"L2ATLSV2".to_vec();
    put(&mut b, &[2, a.feature_schema_version]);
    put(&mut b, &[a.variant_key.len() as u32]);
    b.extend_from_slice(a.variant_key.as_bytes());
    put(&mut b, &[a.tau_edges.len() as u32]);
    put(&mut b, &a.tau_edges);
    put(&mut b, &[a.cluster_count as u32, a.min_cell_count]);
    put(&mut b, &[a.safe_ref_max_reject_rate, a.safe_rej_min_reject_rate]);
    put(&mut b, &[a.checkpoints.len() as u32]);
    for t in a.checkpoints.iter() {
        put(&mut b, &[t.checkpoint as u32, t.cluster_count as u32, t.gap_edges.len() as u32]);
        put(&mut b, &t.feature_mean);
        put(&mut b, &t.feature_inv_std);
        put(&mut b, &t.gap_edges);
        for w in [&t.centroid_w0, &t.centroid_w1, &t.centroid_w2, &t.centroid_w3] {
            put(&mut b, w);
        }
        put(&mut b, &t.centroid_bias);
        put(&mut b, &[t.decision_grid.len() as u32]);
        b.extend_from_slice(&t.decision_grid);
    }
    b
}

#[test]
fn binary_atlas() {
    let a = atlas();
    let b = atlas_bytes(&a);
    let c = load_prefix_atlas_bin(&b).unwrap();
    assert_eq!(format!("{:?}", c), format!("{:?}", a));
    let fault = |b: &[u8]| load_prefix_atlas_bin(b).map(|_| ()).unwrap_err();
    assert_eq!(fault(&b[..4]), AtlasBinError::Load(LoadError::TooShort));
    let mut x = b.clone();
    x[0] = 0;
    assert_eq!(fault(&x), AtlasBinError::Load(LoadError::BadMagic));
    let mut x = b.clone();
    x[8] = 9;
    assert_eq!(fault(&x), AtlasBinError::Version(9));
    let mut x = b.clone();
    x.push(0);
    assert_eq!(fault(&x), AtlasBinError::Trailing { off: b.len(), len: b.len() + 1 });
    assert_eq!(
        fault(&b[..b.len() - 1]),
        AtlasBinError::Load(LoadError::Read(ReadError::Bytes))
    );
    let mut short = atlas();
    short.tau_edges.truncate(1);
    assert_eq!(fault(&atlas_bytes(&short)), AtlasBinError::TauEdges);
    let mut odd = atlas();
    odd.checkpoints[0].decision_grid.pop();
    assert_eq!(fault(&atlas_bytes(&odd)), AtlasBinError::Grid { checkpoint: 8, got: 1023 });
}

fn one_network() -> MlpCertifierFile {
    // Checkpoints 8 and 16, fold 5, two bins of the threshold, eight measures. The first layer
    // picks out the gap and its opposite.
    let inputs = 2 + 1 + 2 + 8;
    let mut up = vec![0u32; inputs];
    up[6] = 1f32.to_bits();
    let mut down = vec![0u32; inputs];
    down[6] = (-1f32).to_bits();
    MlpCertifierFile {
        format: "L2PrefixCalMlpV1".to_string(),
        feature_schema_version: 1,
        variant_key: "a".to_string(),
        checkpoint_values: vec![8, 16],
        fold_values: vec![5],
        tau_edges: bits(&[0.0, 10.0, 20.0]),
        checkpoint_limit: 8,
        mean: vec![0; inputs],
        inv_std: vec![1f32.to_bits(); inputs],
        w1: vec![up, down],
        b1: bits(&[0.0, 0.0]),
        w2: vec![bits(&[1.0, 0.0]), bits(&[0.0, 1.0])],
        b2: bits(&[0.0, 0.0]),
        w3: bits(&[-1.0, 1.0]),
        b3: 0,
        thresholds: vec![
            LoadedMlpCheckpoint { checkpoint: 8, tau_ref: 0, tau_rej: 0 },
            LoadedMlpCheckpoint {
                checkpoint: 8,
                tau_ref: 0.2f32.to_bits(),
                tau_rej: 0.8f32.to_bits(),
            },
            LoadedMlpCheckpoint { checkpoint: 16, tau_ref: 0, tau_rej: 0 },
        ],
    }
}

fn network() -> LoadedMlpCertifier {
    load_mlp_certifier(one_network()).unwrap()
}

#[test]
fn network_is_told_marks_and_measures() {
    let n = network();
    assert!(n.fits());
    let x = build_mlp_input(
        &arith,
        &n,
        16,
        5,
        15f32.to_bits(),
        1f32.to_bits(),
        (-2f32).to_bits(),
        3f32.to_bits(),
        4f32.to_bits(),
        5f32.to_bits(),
        1024,
        6f32.to_bits(),
    );
    assert_eq!(
        x,
        bits(&[0.0, 1.0, 1.0, 0.0, 1.0, 1.0, -2.0, 2.0, 3.0, 4.0, 5.0, 0.5, 6.0])
    );
}

#[test]
fn network_gives_a_chance() {
    let n = network();
    let mut x = vec![0u32; 13];
    assert_eq!(mlp_forward(&arith, &n, &x), 0.5f32.to_bits());
    x[6] = 2f32.to_bits();
    let want = 1.0f32 / (1.0 + (2.0f32).exp());
    assert_eq!(mlp_forward(&arith, &n, &x), want.to_bits());
}

#[test]
fn last_threshold_of_a_checkpoint_counts() {
    let n = network();
    assert_eq!(n.threshold(8).map(|t| t.tau_ref), Some(0.2f32.to_bits()));
    // Checkpoint 16 lies past the limit.
    assert_eq!(n.threshold(16), None);
    assert_eq!(n.threshold(7), None);
}

#[test]
fn networks_whose_layers_do_not_fit() {
    let fault = |f: MlpCertifierFile| load_mlp_certifier(f).map(|_| ()).unwrap_err();
    let mut f = one_network();
    f.format.clear();
    assert_eq!(fault(f), MlpError::Format);
    let mut f = one_network();
    f.inv_std.pop();
    assert_eq!(fault(f), MlpError::Normalization);
    let mut f = one_network();
    f.b1.pop();
    assert_eq!(fault(f), MlpError::HiddenShape);
    let mut f = one_network();
    f.w1[1].pop();
    assert_eq!(fault(f), MlpError::FirstLayer { expected: 13, got: 12 });
    let mut f = one_network();
    f.w2[0].push(0);
    assert_eq!(fault(f), MlpError::SecondLayer { expected: 2, got: 3 });
    let mut f = one_network();
    f.w3.pop();
    assert_eq!(fault(f), MlpError::LastLayer { expected: 2, got: 1 });
}

fn ask(kind: PrefixCertifierKind, fold: i32, tau: f32, score: f32) -> Option<(bool, f32)> {
    let t = table();
    let a = atlas();
    let n = network();
    let certifier = Certifier { kind, atlas: Some(&a), mlp: Some(&n) };
    let tau_bits = tau.to_bits();
    maybe_prefix_certify(
        &arith,
        &certifier,
        &t,
        0,
        8,
        fold,
        prefix_fold_slot(&t, fold),
        tau_bits,
        atlas_tau_bin(&a.tau_edges, tau_bits),
        prefix_gap_bin(&t.tau_edges, tau_bits),
        score.to_bits(),
        4,
        2,
        1,
        0,
        0,
    )
    .map(|(reject, route)| (reject, f32::from_bits(route)))
}

#[test]
fn bands_come_first() {
    let kinds =
        [PrefixCertifierKind::TableV1, PrefixCertifierKind::AtlasV1, PrefixCertifierKind::MlpV1];
    for kind in kinds {
        assert_eq!(ask(kind, 0, 15.0, 5.0), Some((false, 8.0)));
        assert_eq!(ask(kind, 0, 15.0, 18.0), Some((true, 15.0)));
        assert_eq!(ask(kind, -2, 15.0, 14.0), Some((false, 14.25)));
        // The bound itself rejects, and does not refer.
        assert_eq!(ask(kind, 5, 15.0, 17.0), Some((true, 15.0)));
    }
    assert_eq!(ask(PrefixCertifierKind::TableV1, 0, 15.0, 13.5), None);
}

#[test]
fn atlas_and_network_come_after() {
    let just = |tau: f32, up: bool| if up { tau + 1e-6 } else { tau - 1e-6 };
    assert_eq!(
        ask(PrefixCertifierKind::AtlasV1, 0, 15.0, 13.5),
        Some((false, just(15.0, false)))
    );
    assert_eq!(ask(PrefixCertifierKind::AtlasV1, 0, 5.0, 3.5), None);
    // A gap of 2.5 gives the network a chance of about 0.08, one of -2.5 of about 0.92.
    assert_eq!(
        ask(PrefixCertifierKind::MlpV1, 0, 5.0, 2.5),
        Some((false, just(5.0, false)))
    );
    assert_eq!(ask(PrefixCertifierKind::MlpV1, 0, 5.0, 7.5), Some((true, just(5.0, true))));
    assert_eq!(ask(PrefixCertifierKind::MlpV1, 0, 5.0, 4.5), None);
}

#[test]
fn plan_of_pairs_decides_like_the_atlas() {
    let t = table();
    let pair = LoadedPrefixCertifyCheckpoint { table: table(), atlas: atlas().checkpoints.remove(0) };
    for (tau, score) in [(15.0f32, 13.5f32), (15.0, 5.0), (5.0, 3.5), (15.0, 18.0)] {
        let (tau, score) = (tau.to_bits(), score.to_bits());
        let bin = atlas_tau_bin(&bits(&[0.0, 10.0, 20.0]), tau);
        let by_plan = maybe_prefix_certify_plan_fast(&arith, &pair, 0, 5, tau, bin, score, 0, 0);
        let by_atlas = maybe_prefix_certify_atlas_fast(
            &arith,
            &t,
            &pair.atlas,
            0,
            prefix_fold_slot(&t, 5),
            tau,
            bin,
            prefix_gap_bin(&t.tau_edges, tau),
            score,
            0,
            0,
        );
        assert_eq!(by_plan, by_atlas);
    }
}

#[test]
fn plan_is_read_as_it_was_written() {
    let plan = LoadedPrefixCertifyPlan {
        tau_edges: bits(&[0.0, 10.0, 20.0]),
        checkpoints: vec![LoadedPrefixCertifyCheckpoint {
            table: table(),
            atlas: atlas().checkpoints.remove(0),
        }],
    };
    let b = save_prefix_certify_plan(&plan);
    let back = load_prefix_certify_plan(&b).unwrap();
    assert_eq!(format!("{:?}", back), format!("{:?}", plan));
    assert_eq!(load_prefix_certify_plan(&b[..6]).map(|_| ()), Err(LoadError::TooShort));
    let mut x = b.clone();
    x[0] = 0;
    assert_eq!(load_prefix_certify_plan(&x).map(|_| ()), Err(LoadError::BadMagic));
    assert!(load_prefix_certify_plan(&b[..b.len() - 1]).is_err());
}

#[test]
fn tables_that_lack_what_is_looked_up() {
    let mut t = table();
    t.global_ref_hi.truncate(3);
    assert!(!t.sound());
    let mut a: LoadedPrefixAtlasCheckpoint = atlas().checkpoints.remove(0);
    a.decision_grid.truncate(3);
    assert!(!a.sound());
}
