//! Scoring rows of explicit trees: policies, bounds, batches and the compact first trees.

use riskanvil::arith::SingleOp;
use riskanvil::compact::{compile_hot_approx_l1_compact_pack, CompactFirst};
use riskanvil::descend::TraverseError;
use riskanvil::features::{FeatureBatch, FeatureStorage};
use riskanvil::forest::{PrefixPack, RankPack, SoaModel, TreeNode, TreeOrder};
use riskanvil::kernel::{choose_hot_pack, make_approx_course, Kernel, KernelError};
use riskanvil::kernel_batch::{
    histogram_from_visits, pct_from_hist, run_kernel, run_kernel_fast_approx,
    run_kernel_fast_rows, run_kernel_rows, FastAgg, KernelRows,
};
use riskanvil::kinds::{
    decision_col_name, is_approx_mode, is_l2_route_mode, is_route_mode, negative_label,
    positive_label, score_col_name, InferMode, RankMode,
};
use riskanvil::policy::{complete_approx_policy, ApproxPolicy, PolicyError};
use riskanvil::row_meta::RouteMeta;
use riskanvil::tail::{run_tail, traverse_float_nomiss_from, traverse_generic_from};
use riskanvil::traverse::{traverse_course, ByValue, RowMeta, RowResult};

fn arith(op: SingleOp) -> u32 {
    let f = f32::from_bits;
    match op {
        SingleOp::Sum(a, b) => (f(a) + f(b)).to_bits(),
        SingleOp::Difference(a, b) => (f(a) - f(b)).to_bits(),
        SingleOp::Product(a, b) => (f(a) * f(b)).to_bits(),
        SingleOp::Fused(a, b, c) => f(a).mul_add(f(b), f(c)).to_bits(),
        SingleOp::ComparesFused => 0,
        SingleOp::Quotient(a, b) => (f(a) / f(b)).to_bits(),
        SingleOp::Exponential(a) => f(a).exp().to_bits(),
        SingleOp::Nearest(n) => (n as f32).to_bits(),
        SingleOp::Reaches(a, b, c) => (f(a) as f64 + f(b) as f64 >= f(c) as f64) as u32,
        SingleOp::FallsShort(a, b, c) => ((f(a) as f64 + f(b) as f64) < f(c) as f64) as u32,
    }
}

fn bits(values: &[f32]) -> Vec<u32> {
    values.iter().map(|v| v.to_bits()).collect()
}

fn leaf(value: f32) -> TreeNode {
    TreeNode {
        fidx: -1,
        left: 0,
        right: 0,
        missing: 0,
        thr: 0,
        leaf: value.to_bits(),
        is_leaf: 1,
    }
}

fn split(fidx: i32, thr: f32, left: u32, right: u32, missing: u32) -> TreeNode {
    TreeNode { fidx, left, right, missing, thr: thr.to_bits(), leaf: 0, is_leaf: 0 }
}

fn nodes() -> Vec<TreeNode> {
    vec![
        split(0, 0.5, 1, 2, 1),
        leaf(1.0),
        leaf(2.0),
        split(1, 2.0, 4, 5, 5),
        leaf(10.0),
        split(0, 1.5, 6, 7, 7),
        leaf(20.0),
        leaf(40.0),
    ]
}

fn model() -> SoaModel {
    SoaModel {
        n_features: 2,
        n_trees: 2,
        node_count: 8,
        tree_roots: vec![0, 3],
        nodes: nodes(),
    }
}

fn plan() -> TreeOrder {
    TreeOrder {
        n_trees: 2,
        order: vec![0, 1],
        suffix_min: bits(&[11.0, 10.0, 0.0]),
        suffix_max: bits(&[42.0, 40.0, 0.0]),
    }
}

fn empty_policy() -> ApproxPolicy {
    ApproxPolicy {
        checkpoints: vec![],
        tau_ref: vec![],
        tau_pass: vec![],
        tau_reject: vec![],
        used_checkpoints: vec![],
        used_tau_ref: vec![],
        used_tau_pass: vec![],
        used_tau_reject: vec![],
        used_tau_ref_dense: vec![],
        used_tau_positive_dense: vec![],
        k_hot: 0,
        rank_mode: RankMode::Float,
        checkpoint_exit_counts: vec![],
        compacted: false,
    }
}

fn policy(refer: Option<f32>, pass: Option<f32>) -> ApproxPolicy {
    complete_approx_policy(ApproxPolicy {
        used_checkpoints: vec![1],
        used_tau_ref: vec![refer.map(f32::to_bits)],
        used_tau_pass: vec![pass.map(f32::to_bits)],
        ..empty_policy()
    })
    .unwrap()
}

fn kernel<'a>(model: &'a SoaModel, plan: &'a TreeOrder, mode: InferMode) -> Kernel<'a> {
    Kernel {
        model,
        plan,
        meta: None,
        rank_pack: None,
        policy: None,
        hot_pack: None,
        threshold: 20f32.to_bits(),
        base_score: 0.25f32.to_bits(),
        mode,
        eps: 0,
        guard: 0,
        every: 1,
    }
}

fn batch() -> FeatureBatch {
    FeatureBatch {
        n_rows: 3,
        n_cols: 2,
        storage: FeatureStorage::Owned {
            x: bits(&[0.0, 0.0, 1.0, 3.0, 2.0, 3.0]),
            ids: vec![1, 2, 3],
            y: vec![0, 1, 1],
        },
        nan_free: true,
    }
}

#[test]
fn policies_are_filled_in() {
    let p = complete_approx_policy(ApproxPolicy {
        checkpoints: vec![4, 9, 2],
        tau_ref: vec![None, Some(1), Some(2)],
        tau_reject: vec![Some(5), None, Some(6)],
        ..empty_policy()
    })
    .unwrap();
    assert_eq!(p.used_checkpoints, vec![4, 9, 2]);
    assert_eq!(p.k_hot, 9);
    assert_eq!(p.used_tau_positive(), &[Some(5), None, Some(6)]);
    assert_eq!(p.used_tau_ref_dense, vec![0x7fc0_0000, 1, 2]);
    let p = policy(None, Some(2.0));
    assert_eq!(p.k_hot, 1);
    assert_eq!(p.used_tau_positive_dense, bits(&[2.0]));
    assert_eq!(
        complete_approx_policy(ApproxPolicy { checkpoints: vec![4], ..empty_policy() })
            .map(|_| ()),
        Err(PolicyError::Length)
    );
    assert_eq!(
        complete_approx_policy(ApproxPolicy { used_checkpoints: vec![4], ..empty_policy() })
            .map(|_| ()),
        Err(PolicyError::CompactedLength)
    );
}

#[test]
fn exact_rows_visit_every_tree() {
    let (m, p) = (model(), plan());
    let k = kernel(&m, &p, InferMode::MarginExact);
    let r = run_kernel(&arith, k, None, None, &batch(), 3).unwrap();
    assert_eq!(r.scores, bits(&[11.25, 22.25, 42.25]));
    assert_eq!(r.passes, vec![false, true, true]);
    assert_eq!(r.visits, vec![2, 2, 2]);
}

#[test]
fn routed_rows_stop_when_the_side_is_settled() {
    let (m, p) = (model(), plan());
    let mut k = kernel(&m, &p, InferMode::RouteFast);
    k.threshold = 12f32.to_bits();
    let r = run_kernel_rows(&arith, &k, &batch(), 0, 3).unwrap();
    // 2.25 and at least 10 more pass at once; 1.25 is undecided.
    assert_eq!(r.visits, vec![2, 1, 1]);
    assert_eq!(r.scores, bits(&[11.25, 2.25, 2.25]));
    assert_eq!(r.passes, vec![false, true, true]);
    k.threshold = 42f32.to_bits();
    k.guard = 0.5f32.to_bits();
    let r = run_kernel_rows(&arith, &k, &batch(), 0, 3).unwrap();
    // 1.25 and at most 40 more fall short of 41.5.
    assert_eq!(r.visits, vec![1, 2, 2]);
    assert_eq!(r.passes, vec![false, false, true]);
}

#[test]
fn policies_stop_rows_at_their_checkpoints() {
    let (m, p) = (model(), plan());
    let pol = policy(Some(-18.75), Some(-17.75));
    let mut k = kernel(&m, &p, InferMode::RouteApprox);
    k.policy = Some(&pol);
    let r = run_kernel(&arith, k, None, None, &batch(), 3).unwrap();
    // After one tree the rows stand at -18.75, -17.75 and -17.75 from the threshold.
    assert_eq!(r.visits, vec![1, 1, 1]);
    assert_eq!(r.passes, vec![false, true, true]);
    assert_eq!((r.approx_pass_cnt, r.approx_ref_cnt), (2, 1));
    assert_eq!(r.checkpoint_counts, vec![3]);
    // The margin is added up and the threshold put back for the report.
    assert_eq!(r.scores, bits(&[1.25, 2.25, 2.25]));
    let quiet = policy(None, None);
    let mut k = kernel(&m, &p, InferMode::L2RouteApprox);
    k.policy = Some(&quiet);
    let r = run_kernel(&arith, k, None, None, &batch(), 3).unwrap();
    assert_eq!(r.visits, vec![2, 2, 2]);
    assert_eq!(r.checkpoint_counts, vec![0]);
    let k = kernel(&m, &p, InferMode::RouteApprox);
    assert_eq!(
        run_kernel(&arith, k, None, None, &batch(), 1).map(|_| ()),
        Err(KernelError::NoPolicy)
    );
}

#[test]
fn rows_of_a_batch_can_be_cut() {
    let (m, p) = (model(), plan());
    let k = kernel(&m, &p, InferMode::RouteFast);
    let all = run_kernel_rows(&arith, &k, &batch(), 0, 3).unwrap();
    let head = run_kernel_rows(&arith, &k, &batch(), 0, 1).unwrap();
    let tail = run_kernel_rows(&arith, &k, &batch(), 1, 3).unwrap();
    assert_eq!(format!("{:?}", KernelRows::merge(head, tail)), format!("{:?}", all));
    let pol = policy(Some(-18.75), Some(-17.75));
    let mut k = kernel(&m, &p, InferMode::RouteApprox);
    k.policy = Some(&pol);
    let all = run_kernel_fast_approx(&arith, k, None, None, &batch(), 3).unwrap();
    let mut k = kernel(&m, &p, InferMode::RouteApprox);
    k.policy = Some(&pol);
    let head = run_kernel_fast_rows(&arith, &k, &batch(), 0, 1).unwrap();
    let tail = run_kernel_fast_rows(&arith, &k, &batch(), 1, 3).unwrap();
    assert_eq!(format!("{:?}", FastAgg::merge(head, tail)), format!("{:?}", all));
    assert_eq!((all.pass_cnt, all.active_cnt, all.visit_sum, all.full_cnt), (2, 3, 3, 0));
    assert_eq!(all.visit_hist, vec![0, 3, 0]);
    // The totals are the sums over the rows.
    let mut k = kernel(&m, &p, InferMode::RouteApprox);
    k.policy = Some(&pol);
    let rows = run_kernel(&arith, k, None, None, &batch(), 3).unwrap();
    assert_eq!(all.pass_cnt as usize, rows.passes.iter().filter(|p| **p).count());
    assert_eq!(all.visit_sum as i32, rows.visits.iter().sum::<i32>());
    assert_eq!(all.approx_pass_cnt, rows.approx_pass_cnt);
    assert_eq!(all.approx_ref_cnt, rows.approx_ref_cnt);
    assert_eq!(all.checkpoint_counts, rows.checkpoint_counts);
    assert_eq!(all.visit_hist, histogram_from_visits(&rows.visits, 2));
}

#[test]
fn rows_are_scored_by_their_own_thresholds() {
    let (m, p) = (model(), plan());
    let meta = RouteMeta {
        n_rows: 3,
        ids: vec![1, 2, 3],
        fold_id: vec![0, 0, 0],
        tau_used: bits(&[10.0, 30.0, 30.0]),
        active: vec![1, 0, 1],
        exact_positive: vec![0, 0, 0],
    };
    let mut k = kernel(&m, &p, InferMode::MarginExact);
    k.meta = Some(&meta);
    let r = run_kernel(&arith, k, None, None, &batch(), 3).unwrap();
    assert_eq!(r.passes, vec![true, false, true]);
    assert_eq!(r.visits, vec![2, 0, 2]);
    assert!(f32::from_bits(r.scores[1]).is_nan());
}

#[test]
fn ranks_score_like_values() {
    let (m, p) = (model(), plan());
    let ranks = RankPack {
        n_features: 2,
        node_thr_rank: vec![0, -1, -1, 0, -1, 1, -1, -1],
        feat_offset: vec![0, 2],
        feat_count: vec![2, 1],
        threshold_values: bits(&[0.5, 1.5, 2.0]),
    };
    let mut k = kernel(&m, &p, InferMode::MarginExact);
    k.rank_pack = Some(&ranks);
    let r = run_kernel(&arith, k, None, None, &batch(), 3).unwrap();
    assert_eq!(r.scores, bits(&[11.25, 22.25, 42.25]));
}

#[test]
fn rows_that_leave_the_model() {
    let mut m = model();
    m.nodes[0].left = 99;
    let p = plan();
    let k = kernel(&m, &p, InferMode::MarginExact);
    assert_eq!(
        run_kernel(&arith, k, None, None, &batch(), 3).map(|_| ()),
        Err(KernelError::Astray(TraverseError::Stray))
    );
}

#[test]
fn hot_packs_serve_early_checkpoints() {
    let hot = PrefixPack {
        n_hot_features: 1,
        n_trees: 1,
        node_count: 3,
        hot_global_fidx: vec![0],
        tree_roots: vec![0],
        nodes: nodes()[..3].to_vec(),
    };
    let mut pol = policy(Some(-18.75), None);
    assert!(choose_hot_pack(&pol, Some(&hot), None).is_some());
    pol.used_checkpoints = vec![17];
    assert!(choose_hot_pack(&pol, Some(&hot), None).is_none());
    assert!(choose_hot_pack(&pol, None, Some(&hot)).is_some());
    pol.used_checkpoints = vec![33];
    assert!(choose_hot_pack(&pol, Some(&hot), Some(&hot)).is_none());
    pol.used_checkpoints = vec![1];
    pol.rank_mode = RankMode::RankPack;
    assert!(choose_hot_pack(&pol, Some(&hot), None).is_none());
    pol.rank_mode = RankMode::Float;
    let (m, p) = (model(), plan());
    let mut k = kernel(&m, &p, InferMode::RouteApprox);
    k.policy = Some(&pol);
    let with = run_kernel(&arith, k, Some(&hot), None, &batch(), 3).unwrap();
    assert_eq!(with.passes, vec![false, true, true]);
    assert_eq!(with.visits, vec![1, 2, 2]);
    assert_eq!(with.scores, bits(&[1.25, 22.25, 42.25]));
}

#[test]
fn compact_trees_give_the_same_leaves() {
    let (m, p) = (model(), plan());
    let mut pol = policy(Some(-18.75), None);
    pol.k_hot = 2;
    let pack = compile_hot_approx_l1_compact_pack(&m, &p, &pol).unwrap().unwrap();
    assert_eq!(pack.n_trees, 2);
    assert_eq!(pack.tree_node_offs.len(), 2);
    let course = make_approx_course(&p, &pol, 20f32.to_bits(), 0, 0, 1, true);
    for i in 0..3 {
        let feat = batch().row(i);
        let mut a = ByValue { model: &m, order: &p.order, feat: &feat, miss_aware: false };
        let mut b = CompactFirst { pack: &pack, model: &m, order: &p.order, feat: &feat };
        let base = 0.25f32.to_bits();
        let x = traverse_course(&arith, &mut a, &course, base, 0).unwrap();
        let y = traverse_course(&arith, &mut b, &course, base, 0).unwrap();
        assert_eq!(x, y);
    }
    pol.k_hot = 0;
    assert!(compile_hot_approx_l1_compact_pack(&m, &p, &pol).unwrap().is_none());
    pol.k_hot = 2;
    let wide = SoaModel { n_features: 0x8000, ..model() };
    assert!(compile_hot_approx_l1_compact_pack(&wide, &p, &pol).unwrap().is_none());
}

#[test]
fn rest_of_a_row() {
    let (m, p) = (model(), plan());
    let feat = bits(&[1.0, 3.0]);
    let t = 20f32.to_bits();
    let init = 2.25f32.to_bits();
    let want = RowResult {
        score: 22.25f32.to_bits(),
        pass: true,
        visited: 2,
        meta: RowMeta::default(),
    };
    let mode = InferMode::MarginExact;
    let a = traverse_float_nomiss_from(&arith, &m, &feat, t, init, mode, &p, None, 0, 0, 1, 1);
    assert_eq!(a, Ok(want));
    let b = traverse_generic_from(&arith, &m, &feat, t, init, mode, &p, None, 0, 0, 1, 1);
    assert_eq!(b, Ok(want));
    assert_eq!(run_tail(&arith, &m, &p, &feat, t, true, init, 1), Ok(want));
    let gap = [f32::NAN.to_bits(), 3f32.to_bits()];
    let c = traverse_generic_from(&arith, &m, &gap, t, init, mode, &p, None, 0, 0, 1, 1).unwrap();
    assert_eq!(c.score, 42.25f32.to_bits());
}

#[test]
fn shares_of_visits() {
    let hist = histogram_from_visits(&[1, 2, 2, 9, -4, 0], 3);
    assert_eq!(hist, vec![2, 1, 2, 1]);
    assert_eq!(pct_from_hist(&hist, 0, 6), 0);
    assert_eq!(pct_from_hist(&hist, 2, 6), 1);
    assert_eq!(pct_from_hist(&hist, 4, 6), 2);
    assert_eq!(pct_from_hist(&hist, 5, 6), 3);
    assert_eq!(pct_from_hist(&hist, 99, 6), 3);
    assert_eq!(pct_from_hist(&hist, 3, 0), 0);
}

#[test]
fn words_of_the_modes() {
    let routed = [
        InferMode::RouteFast,
        InferMode::RouteExactReordered,
        InferMode::L2RouteExactReordered,
    ];
    for m in routed {
        assert!(is_route_mode(m));
        assert!(!is_approx_mode(m));
    }
    assert!(is_approx_mode(InferMode::RouteApprox));
    assert!(is_l2_route_mode(InferMode::L2RouteApprox));
    assert!(!is_l2_route_mode(InferMode::RouteApprox));
    assert_eq!(score_col_name(InferMode::MarginExact), "l1_score");
    assert_eq!(score_col_name(InferMode::RouteFast), "prefix_margin");
    assert_eq!(score_col_name(InferMode::L2RouteApprox), "route_score");
    assert_eq!(decision_col_name(InferMode::RouteFast), "l1_decision");
    assert_eq!(decision_col_name(InferMode::L2RouteApprox), "l2_decision");
    assert_eq!(positive_label(InferMode::RouteFast), "PASS");
    assert_eq!(positive_label(InferMode::L2RouteApprox), "REJECT");
    assert_eq!(negative_label(InferMode::RouteFast), "REFER");
}

#[test]
fn rows_are_scored_by_their_features_alone() {
    let (m, p) = (model(), plan());
    let x = bits(&[0.0, 0.0, 1.0, 3.0, 2.0, 3.0]);
    let bare = FeatureBatch {
        n_rows: 3,
        n_cols: 2,
        storage: FeatureStorage::Owned { x, ids: vec![], y: vec![] },
        nan_free: true,
    };
    assert!(bare.has_features(2) && !bare.has_features(3) && !bare.has_row(0));
    let k = kernel(&m, &p, InferMode::MarginExact);
    let r = run_kernel(&arith, k, None, None, &bare, 3).unwrap();
    assert_eq!(r.scores, bits(&[11.25, 22.25, 42.25]));
    let pol = policy(Some(-18.75), Some(-17.75));
    let mut k = kernel(&m, &p, InferMode::RouteApprox);
    k.policy = Some(&pol);
    let fast = run_kernel_fast_approx(&arith, k, None, None, &bare, 3).unwrap();
    assert_eq!((fast.pass_cnt, fast.active_cnt, fast.visit_sum), (2, 3, 3));
}

#[test]
fn features_without_ranks_may_follow() {
    let (m, p) = (model(), plan());
    let ranks = RankPack {
        n_features: 2,
        node_thr_rank: vec![0, -1, -1, 0, -1, 1, -1, -1],
        feat_offset: vec![0, 2],
        feat_count: vec![2, 1],
        threshold_values: bits(&[0.5, 1.5, 2.0]),
    };
    let wide = FeatureBatch {
        n_rows: 3,
        n_cols: 3,
        storage: FeatureStorage::Owned {
            x: bits(&[0.0, 0.0, 7.0, 1.0, 3.0, 7.0, 2.0, 3.0, 7.0]),
            ids: vec![1, 2, 3],
            y: vec![0, 1, 1],
        },
        nan_free: true,
    };
    let mut k = kernel(&m, &p, InferMode::MarginExact);
    k.rank_pack = Some(&ranks);
    let r = run_kernel(&arith, k, None, None, &wide, 3).unwrap();
    assert_eq!(r.scores, bits(&[11.25, 22.25, 42.25]));
}
