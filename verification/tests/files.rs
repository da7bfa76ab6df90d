//! Finding the files of a model, what their texts list, and models that rows are sent to.

use riskanvil::arith::SingleOp;
use riskanvil::base_score::{
    any_base_score_of_text, base_score_of_text, get_member, load_threshold, parse_base_score,
    parse_base_score_from_any_json, threshold_of_text, BaseScoreError, ThresholdError,
};
use riskanvil::bundle::{
    absolutize_resolved_bundle, direct_kernel_limit, resolve_prefix_cal_bundle,
    PrefixCalBundleManifest, QsL2PrefixCalArgs, ResolvedPrefixCalBundle,
};
use riskanvil::certify::PrefixCertifierKind;
use riskanvil::descend::TraverseError;
use riskanvil::dispatch::{
    bucket_rows, check_dispatch_meta, expert_head, load_dispatch_slot, run_dispatch_exact_slot,
    run_dispatch_l2_exact, DispatchError, LoadedDispatchSlot,
};
use riskanvil::features::{FeatureBatch, FeatureStorage};
use riskanvil::forest::{Bounds, SoaModel, TreeNode, TreeOrder};
use riskanvil::json::{count_feature_names, read_json, Json, Member};
use riskanvil::kinds::{
    is_hot_kernel, parse_dispatch_threshold_mode, parse_packet_bank, parse_prefix_certifier_kind,
    parse_prefix_direct_kernel, parse_prefix_v4_mode, parse_rescue_action,
    prefix_certifier_kind_str, prefix_direct_kernel_str, rescue_route_code, DispatchThresholdMode,
    PrefixDirectKernel, PrefixV4Mode, RescueAction,
};
use riskanvil::packet_file::{
    cut_lines, load_packet_summary_tsv, split_at_each, Column, TsvError,
};
use riskanvil::paths::{
    bundle_abspath, default_certify_plan_path, default_compiled_hot_pack_path,
    default_hot_checkpoint_layout_path, default_late_segment_manifest_path,
    default_late_segment_pack_path, default_prefix_v2_hot_stage_plan_path,
    default_prefix_v2_manifest_path, default_qs_pack_v2_path, directory_of, field_name,
    file_name_string, in_directory, late_segment_file_name, missing_asset_text,
    missing_field_text, package_dir, path_seen_from, require_path,
    resolve_bundle_path, resolve_bundle_path_optional, resolve_relative_compat,
    resolve_relative_to, with_suffix, BundleError, BundleField,
};
use riskanvil::row_meta::DispatchMeta;
use riskanvil::scan::chars_of;
use riskanvil::v4::{
    child_args, find_listed, load_v4_order_router, plan_anchor_rescue, plan_rescues,
    select_variant, v4_field_name, PrefixAnchorRescueManifestFile, PrefixOrderRouterEntry,
    PrefixOrderRouterFile, V4Error, V4Field, V4Manifest,
};

fn some(s: &str) -> Option<String> {
    Some(s.to_string())
}

fn no_args() -> QsL2PrefixCalArgs {
    QsL2PrefixCalArgs {
        bundle_manifest: None,
        qs_pack: None,
        calibration_json: None,
        variant_key: None,
        feat_bin: None,
        route_meta: None,
        soa: None,
        bounds: None,
        tree_order: None,
        model_json: None,
        direct_kernel: None,
        certifier_kind: None,
        certifier_json: None,
    }
}

fn manifest() -> PrefixCalBundleManifest {
    PrefixCalBundleManifest {
        format: "L2PrefixCalBundleV1".to_string(),
        pack_path: some("qs.pack"),
        calibration_json: some("cal.json"),
        feat_bin: some("feat.bin"),
        route_meta: some("/abs/route.bin"),
        soa_bin: some("soa.bin"),
        bounds_bin: some("bounds.bin"),
        tree_order_bin: some("order.bin"),
        model_json: some("model.json"),
        selected_variant: some("plain"),
        selected_exact_variant: None,
        direct_kernel: some("hot_exact_128"),
        certifier_kind: some("atlas_v1"),
        certifier_json: some("atlas.json"),
        atlas_bin: some("atlas.bin"),
        atlas_format: some("bin_v2"),
        hot_exact_prefix_limit: Some(128),
        telemetry_schema_version: Some(4),
        hot_exact_prefix_96_pack: some("p96"),
        hot_exact_prefix_128_pack: some("p128"),
        hot_exact_prefix_192_pack: None,
        hot_exact_prefix_256_pack: None,
        hot_exact_prefix_384_pack: None,
    }
}

#[test]
fn files_beside_files() {
    assert_eq!(default_compiled_hot_pack_path("/m/hot.bin"), "/m/hot.bin.compiled.bin");
    assert_eq!(default_qs_pack_v2_path("/m/qs.pack"), "/m/qs.pack.v2.bin");
    assert_eq!(default_hot_checkpoint_layout_path("/m/hot.bin"), "/m/hot.bin.hot_layout.bin");
    assert_eq!(default_late_segment_manifest_path("/m/qs.pack"), "/m/qs.pack.late_segments.json");
    assert_eq!(default_late_segment_pack_path("/m/qs.pack", 192), "/m/qs.pack.late_cp_192.v2.bin");
    assert_eq!(default_late_segment_pack_path("/m//x/qs", 19), "/m//x/qs.late_cp_19.v2.bin");
    assert_eq!(directory_of(&default_late_segment_pack_path("/m//x/qs", 19)), "/m//x");
    assert_eq!(late_segment_file_name(192), "late_cp_192.v2.bin");
    assert_eq!(default_certify_plan_path("a/atlas.bin"), "a/atlas.bin.certify.bin");
    assert_eq!(default_prefix_v2_manifest_path("/m/qs.pack"), "/m/qs.pack.prefix_v2.json");
    assert_eq!(
        default_prefix_v2_hot_stage_plan_path("/m/qs.pack"),
        "/m/qs.pack.prefix_v2.hot_stage.bin"
    );
    // A path that ends in no name gets one.
    assert_eq!(default_certify_plan_path(".."), "../l2_certify.bin");
    assert_eq!(with_suffix(some("a"), ".b", "c"), "a.b");
    assert_eq!(with_suffix(None, ".b", "c"), "c");
}

#[test]
fn paths_seen_from_other_paths() {
    assert_eq!(file_name_string("/m/hot.bin"), "hot.bin");
    assert_eq!(file_name_string("/"), "/");
    assert_eq!(path_seen_from("/m/x/hot.bin", "/m"), "x/hot.bin");
    assert_eq!(path_seen_from("/m/x/hot.bin", "/n"), "hot.bin");
    assert_eq!(directory_of("/m/x.bin"), "/m");
    assert_eq!(directory_of("/"), ".");
    assert_eq!(in_directory("/m/x.bin", "y.bin"), "/m/y.bin");
    assert_eq!(package_dir("/m/qs.pack", false), "/m/l2_exp_v1");
    assert_eq!(package_dir("/m/qs.pack", true), "/m/l2_kernel_zen4_v1");
    assert_eq!(resolve_relative_to("/m/bundle.json", "a.bin"), "/m/a.bin");
    assert_eq!(resolve_relative_to("/m/bundle.json", "/a.bin"), "/a.bin");
    assert_eq!(resolve_relative_to("/", "a.bin"), "a.bin");
    assert_eq!(bundle_abspath("/root", "a/b"), "/root/a/b");
    assert_eq!(bundle_abspath("/root", "/a/b"), "/a/b");
}

#[test]
fn files_are_looked_for_beside_the_manifest() {
    let there = |p: &str| p.starts_with("/m/");
    let nowhere = |_: &str| false;
    assert_eq!(resolve_relative_compat(&there, "/m/bundle.json", "a.bin"), "/m/a.bin");
    assert_eq!(resolve_relative_compat(&nowhere, "/m/bundle.json", "a.bin"), "a.bin");
    let m = some("/m/bundle.json");
    assert_eq!(
        resolve_bundle_path_optional(&there, &some("given"), &some("a.bin"), &m),
        some("given")
    );
    assert_eq!(resolve_bundle_path_optional(&there, &None, &some("a.bin"), &m), some("/m/a.bin"));
    assert_eq!(resolve_bundle_path_optional(&there, &None, &None, &m), None);
    assert_eq!(
        resolve_bundle_path(&there, &None, &None, &m, BundleField::SoaBin),
        Err(BundleError::Missing { field: BundleField::SoaBin })
    );
    assert_eq!(
        missing_field_text(field_name(BundleField::SoaBin)),
        "missing required prefix-cal field: soa_bin"
    );
    assert_eq!(v4_field_name(V4Field::OrderRouter), "order_router_json");
    assert_eq!(missing_asset_text("/m/a"), "required bundle asset missing: /m/a");
    assert_eq!(bundle_abspath("", "a"), "a");
    assert_eq!(bundle_abspath("m/", "a"), "m/a");
    assert_eq!(bundle_abspath("m", ""), "m/");
    assert_eq!(require_path(&there, "/m", "x"), Ok("/m/x".to_string()));
    assert_eq!(require_path(&nowhere, "/m", "x"), Err("/m/x".to_string()));
}

fn resolved() -> ResolvedPrefixCalBundle {
    let there = |p: &str| p.starts_with("/m/");
    let args = QsL2PrefixCalArgs {
        bundle_manifest: some("/m/bundle.json"),
        feat_bin: some("own.bin"),
        ..no_args()
    };
    resolve_prefix_cal_bundle(&there, &args, &Some(manifest())).unwrap()
}

#[test]
fn bundles_are_resolved() {
    let b = resolved();
    assert_eq!(b.qs_pack, "/m/qs.pack");
    assert_eq!(b.feat_bin, "own.bin");
    assert_eq!(b.route_meta, "/abs/route.bin");
    assert_eq!(b.variant_key, "plain");
    assert_eq!(b.direct_kernel, PrefixDirectKernel::HotExact128);
    assert_eq!(b.certifier_kind, PrefixCertifierKind::AtlasV1);
    assert_eq!(b.hot_exact_prefix_pack, some("/m/p128"));
    assert_eq!(b.atlas_bin, some("/m/atlas.bin"));
    assert_eq!((b.hot_exact_prefix_limit, b.telemetry_schema_version), (Some(128), 4));
    let b = absolutize_resolved_bundle("/root", b);
    assert_eq!((b.qs_pack.as_str(), b.feat_bin.as_str()), ("/m/qs.pack", "/root/own.bin"));
    // Paths that are absolute stay.
    let once = format!("{:?}", b);
    assert_eq!(format!("{:?}", absolutize_resolved_bundle("/other", b)), once);
}

#[test]
fn bundles_that_cannot_be_resolved() {
    let there = |_: &str| true;
    let fault = |args: &QsL2PrefixCalArgs, m: PrefixCalBundleManifest| {
        resolve_prefix_cal_bundle(&there, args, &Some(m)).map(|_| ()).unwrap_err()
    };
    let m = PrefixCalBundleManifest { format: "x".to_string(), ..manifest() };
    assert_eq!(fault(&no_args(), m), BundleError::Format);
    let m = PrefixCalBundleManifest { selected_variant: None, ..manifest() };
    assert_eq!(fault(&no_args(), m), BundleError::NoVariant);
    let m = PrefixCalBundleManifest { direct_kernel: some("hot"), ..manifest() };
    assert_eq!(fault(&no_args(), m), BundleError::DirectKernel);
    let m = PrefixCalBundleManifest { certifier_kind: some("guess"), ..manifest() };
    assert_eq!(fault(&no_args(), m), BundleError::CertifierKind);
    let m = PrefixCalBundleManifest { bounds_bin: None, ..manifest() };
    assert_eq!(fault(&no_args(), m), BundleError::Missing { field: BundleField::BoundsBin });
    let none = resolve_prefix_cal_bundle(
        &there,
        &QsL2PrefixCalArgs { variant_key: some("v"), ..no_args() },
        &None,
    );
    assert_eq!(
        none.map(|_| ()),
        Err(BundleError::Missing { field: BundleField::PackPath })
    );
}

#[test]
fn names_are_read_back() {
    let kernels = [
        PrefixDirectKernel::Qs,
        PrefixDirectKernel::HotExact96,
        PrefixDirectKernel::HotExact128,
        PrefixDirectKernel::HotExact192,
        PrefixDirectKernel::HotExact256,
        PrefixDirectKernel::HotExact384,
    ];
    for k in kernels {
        assert_eq!(parse_prefix_direct_kernel(prefix_direct_kernel_str(k)), Some(k));
        assert_eq!(is_hot_kernel(k), k != PrefixDirectKernel::Qs);
    }
    assert_eq!(parse_prefix_direct_kernel("QS"), None);
    assert_eq!(direct_kernel_limit(PrefixDirectKernel::Qs), None);
    assert_eq!(direct_kernel_limit(PrefixDirectKernel::HotExact192), Some(192));
    let kinds =
        [PrefixCertifierKind::TableV1, PrefixCertifierKind::AtlasV1, PrefixCertifierKind::MlpV1];
    for k in kinds {
        assert_eq!(parse_prefix_certifier_kind(prefix_certifier_kind_str(k)), Some(k));
    }
    assert_eq!(parse_prefix_certifier_kind(""), None);
    assert_eq!(parse_prefix_v4_mode("anchor_rescue_lossy_v1"), Some(PrefixV4Mode::AnchorRescueLossyV1));
    assert_eq!(parse_prefix_v4_mode("anchor"), None);
    assert_eq!((parse_packet_bank("scout"), parse_packet_bank("other")), (2, -1));
    assert_eq!(parse_rescue_action("run_reject_rescue"), Some(RescueAction::RejectRescue));
    assert_eq!(parse_rescue_action("run"), None);
    assert_eq!(rescue_route_code(RescueAction::ReferRescue), 3);
    assert_eq!(parse_dispatch_threshold_mode("zero"), Some(DispatchThresholdMode::Zero));
    assert_eq!(parse_dispatch_threshold_mode("one"), None);
}

fn v4() -> V4Manifest {
    V4Manifest {
        packet_manifest_json: None,
        anchor_manifest_json: some("anchor.json"),
        rescue_manifest_json: some("rescue.json"),
        rescue_router_json: some("router.json"),
        order_router_json: None,
    }
}

#[test]
fn anchors_and_rescues_are_found() {
    let there = |_: &str| true;
    let p = plan_anchor_rescue(&there, &no_args(), "/m/bundle.json", &manifest(), &v4()).unwrap();
    assert_eq!(p.variant, "plain");
    assert_eq!(p.anchor.bundle_manifest, some("/m/anchor.json"));
    assert_eq!(p.anchor.variant_key, some("plain"));
    assert_eq!((p.rescue_manifest.as_str(), p.rescue_router.as_str()), ("/m/rescue.json", "/m/router.json"));
    let fault = |v4: V4Manifest| {
        plan_anchor_rescue(&there, &no_args(), "/m/bundle.json", &manifest(), &v4)
            .map(|_| ())
            .unwrap_err()
    };
    let lacking = V4Manifest { rescue_router_json: None, ..v4() };
    assert_eq!(fault(lacking), V4Error::Missing { field: V4Field::RescueRouter });
    let plain = PrefixCalBundleManifest { selected_variant: None, ..manifest() };
    assert_eq!(
        plan_anchor_rescue(&there, &no_args(), "/m/bundle.json", &plain, &v4()).map(|_| ()),
        Err(V4Error::NoVariant)
    );
    assert_eq!(
        find_listed(&there, "/m/bundle.json", &v4(), V4Field::PacketManifest),
        Err(V4Error::Missing { field: V4Field::PacketManifest })
    );
    let mut f = PrefixAnchorRescueManifestFile {
        format: "L2AnchorRescueManifestV1".to_string(),
        reject_bundle_manifest: "reject.json".to_string(),
        refer_bundle_manifest: "/refer.json".to_string(),
        anchor_limit: 96,
        rescue_limit: 64,
    };
    let (reject, refer) = plan_rescues(&there, "/m/r/rescue.json", &f, "plain").unwrap();
    assert_eq!(reject.bundle_manifest, some("/m/r/reject.json"));
    assert_eq!(refer.bundle_manifest, some("/refer.json"));
    f.format.clear();
    assert_eq!(plan_rescues(&there, "/m", &f, "plain").map(|_| ()), Err(V4Error::Format));
}

#[test]
fn variants_are_selected() {
    let exact = PrefixCalBundleManifest { selected_exact_variant: some("exact"), ..manifest() };
    assert_eq!(select_variant(&no_args(), &exact), some("exact"));
    assert_eq!(select_variant(&no_args(), &manifest()), some("plain"));
    let given = QsL2PrefixCalArgs { variant_key: some("own"), ..no_args() };
    assert_eq!(select_variant(&given, &exact), some("own"));
    let c = child_args("/m/x.json".to_string(), "v");
    assert_eq!((c.bundle_manifest, c.variant_key, c.qs_pack), (some("/m/x.json"), some("v"), None));
}

#[test]
fn routes_come_in_the_order_of_their_bins() {
    let entry = |tau_bin: usize, label: Option<&str>| PrefixOrderRouterEntry {
        tau_bin,
        label: label.map(|l| l.to_string()),
        bundle_manifest: format!("b{}.json", tau_bin),
    };
    let mut f = PrefixOrderRouterFile {
        format: "L2PrefixOrderRouterV1".to_string(),
        tau_edges: vec![],
        bundles: vec![entry(2, Some("late")), entry(0, None), entry(2, Some("later"))],
    };
    let p = load_v4_order_router(&no_args(), "/m/router.json", &manifest(), &f).unwrap();
    let labels: Vec<&str> = p.routes.iter().map(|r| r.label.as_str()).collect();
    assert_eq!(labels, vec!["tau_bin_0", "late", "later"]);
    assert_eq!(p.routes[1].bundle.bundle_manifest, some("/m/b2.json"));
    assert_eq!((p.variant.as_str(), p.telemetry_schema_version), ("plain", 4));
    let silent = PrefixCalBundleManifest { telemetry_schema_version: None, ..manifest() };
    let p = load_v4_order_router(&no_args(), "/m/router.json", &silent, &f).unwrap();
    assert_eq!(p.telemetry_schema_version, 3);
    f.format.clear();
    assert_eq!(
        load_v4_order_router(&no_args(), "/m/router.json", &manifest(), &f).map(|_| ()),
        Err(V4Error::Format)
    );
}

fn object(members: Vec<(&str, Json)>) -> Json {
    Json::Object {
        text: "{}".to_string(),
        members: members
            .into_iter()
            .map(|(name, value)| Member { name: name.to_string(), value })
            .collect(),
    }
}

fn read(s: &[char]) -> Option<u32> {
    s.iter().collect::<String>().parse::<f32>().ok().map(|v| v.to_bits())
}

#[test]
fn base_scores_in_descriptions() {
    let model = |score: &str| {
        object(vec![(
            "learner",
            object(vec![(
                "learner_model_param",
                object(vec![("base_score", Json::Text(score.to_string()))]),
            )]),
        )])
    };
    assert_eq!(parse_base_score(&read, &model("0.5")), Ok(0.5f32.to_bits()));
    assert_eq!(parse_base_score(&read, &model(" [5E-1] ")), Ok(0.5f32.to_bits()));
    assert_eq!(parse_base_score(&read, &model("[a]")), Err(BaseScoreError::Unreadable));
    assert_eq!(parse_base_score(&read, &object(vec![])), Err(BaseScoreError::Missing));
    let deep = Json::List {
        text: "[]".to_string(),
        items: vec![
            Json::Plain("true".to_string()),
            object(vec![("x", object(vec![("base_score", Json::Number("2".to_string()))]))]),
        ],
    };
    assert_eq!(parse_base_score_from_any_json(&read, &deep), Ok(2f32.to_bits()));
    assert_eq!(
        parse_base_score_from_any_json(&read, &Json::Text("1".to_string())),
        Err(BaseScoreError::Missing)
    );
    let v = model("1");
    assert!(get_member(&v, "learner").is_some());
    assert!(get_member(&v, "base_score").is_none());
}

#[test]
fn thresholds_in_descriptions() {
    let v = object(vec![(
        "decision",
        object(vec![("threshold", Json::Number("0.75".to_string()))]),
    )]);
    assert_eq!(load_threshold(&read, None, &v), Some(0.75f32.to_bits()));
    assert_eq!(load_threshold(&read, Some(7), &v), Some(7));
    assert_eq!(load_threshold(&read, None, &object(vec![])), None);
    let text = object(vec![(
        "decision",
        object(vec![("threshold", Json::Text("0.75".to_string()))]),
    )]);
    assert_eq!(load_threshold(&read, None, &text), None);
}

#[test]
fn texts_of_descriptions() {
    let text = r#"{"learner": {"learner_model_param": {"base_score": "[5E-1]", "n": 3}}}"#;
    assert_eq!(base_score_of_text(&read, text), Ok(0.5f32.to_bits()));
    assert_eq!(any_base_score_of_text(&read, text), Ok(0.5f32.to_bits()));
    let listed = r#"{"learner": {"learner_model_param": {"base_score": [0.25]}}}"#;
    assert_eq!(base_score_of_text(&read, listed), Ok(0.25f32.to_bits()));
    let number = r#"[null, true, {"x": [{"base_score": 2}]}]"#;
    assert_eq!(base_score_of_text(&read, number), Err(BaseScoreError::Missing));
    assert_eq!(any_base_score_of_text(&read, number), Ok(2f32.to_bits()));
    let odd = r#"{"learner": {"learner_model_param": {"base_score": {}}}}"#;
    assert_eq!(base_score_of_text(&read, odd), Err(BaseScoreError::Unreadable));
    assert_eq!(any_base_score_of_text(&read, odd), Err(BaseScoreError::Missing));
    assert_eq!(base_score_of_text(&read, "{"), Err(BaseScoreError::NotJson));
    assert_eq!(any_base_score_of_text(&read, ""), Err(BaseScoreError::NotJson));

    let policy = r#"{"decision": {"threshold": 0.75, "mode": "x"}}"#;
    assert_eq!(threshold_of_text(&read, None, policy), Ok(0.75f32.to_bits()));
    assert_eq!(threshold_of_text(&read, Some(7), "{"), Ok(7));
    assert_eq!(threshold_of_text(&read, None, "{"), Err(ThresholdError::NotJson));
    assert_eq!(threshold_of_text(&read, None, text), Err(ThresholdError::Missing));
    let quoted = r#"{"decision": {"threshold": "0.75"}}"#;
    assert_eq!(threshold_of_text(&read, None, quoted), Err(ThresholdError::Missing));

    assert_eq!(count_feature_names(r#"["a", "b", "a"]"#), Some(3));
    assert_eq!(count_feature_names("[]"), Some(0));
    assert_eq!(count_feature_names(r#"["a", 1]"#), None);
    assert_eq!(count_feature_names(r#"{"a": "b"}"#), None);

    match read_json(r#"{"a": [1, "x", null]}"#) {
        Some(Json::Object { text, members }) => {
            assert_eq!((text.as_str(), members.len()), (r#"{"a":[1,"x",null]}"#, 1));
            assert_eq!(members[0].name, "a");
            match &members[0].value {
                Json::List { text, items } => {
                    assert_eq!((text.as_str(), items.len()), (r#"[1,"x",null]"#, 3));
                    assert!(matches!(&items[0], Json::Number(n) if n == "1"));
                    assert!(matches!(&items[1], Json::Text(t) if t == "x"));
                    assert!(matches!(&items[2], Json::Plain(p) if p == "null"));
                }
                other => panic!("{:?}", other),
            }
        }
        other => panic!("{:?}", other),
    }
}

fn cost(s: &[char]) -> Option<u64> {
    s.iter().collect::<String>().parse::<f64>().ok().map(|v| v as u64)
}

#[test]
fn packets_on_file() {
    let text = "tree_pos_list\tpacket_id\tpacket_bank\ttree_count\tblock_cost\n\
                4,2\t1\trefer\t2\t7.9\n\n7\t0\twhatever\t1\t5\n";
    let p = load_packet_summary_tsv(&cost, text).unwrap();
    assert_eq!(p.len(), 2);
    assert_eq!((p[0].packet_id, p[0].bank_id, p[0].tree_indices.clone()), (0, -1, vec![7]));
    assert_eq!((p[1].packet_id, p[1].tree_indices.clone()), (1, vec![4, 2]));
    assert_eq!((p[1].tree_count, p[1].block_proxy), (2, 7));
    assert!(p[1].compiled_pack.is_none());
}

#[test]
fn packets_that_cannot_be_read() {
    let head = "packet_id\tpacket_bank\ttree_count\tblock_cost\ttree_pos_list\n";
    let fault = |text: &str| load_packet_summary_tsv(&cost, text).map(|_| ()).unwrap_err();
    assert_eq!(fault(""), TsvError::NoHeader);
    assert_eq!(fault("packet_id\n"), TsvError::NoColumn { column: Column::PacketBank });
    assert!(matches!(
        fault(&format!("{}0\tscout\n", head)),
        TsvError::Missing { column: Column::TreeCount, .. }
    ));
    assert!(matches!(
        fault(&format!("{}x\tscout\t1\t1\t0\n", head)),
        TsvError::Unreadable { column: Column::PacketId, .. }
    ));
    assert!(matches!(
        fault(&format!("{}0\tscout\t1\t1\t0,y\n", head)),
        TsvError::Unreadable { column: Column::TreePosList, .. }
    ));
}

#[test]
fn splitting_is_undone_by_joining() {
    for text in ["", "a", "a,b", ",,", "a,,b,"] {
        let parts = split_at_each(&chars_of(text), ',');
        let parts: Vec<String> = parts.iter().map(|p| p.iter().collect()).collect();
        assert_eq!(parts.join(","), text);
        assert_eq!(parts, text.split(',').collect::<Vec<_>>());
    }
    for text in ["", "a", "a\nb", "a\r\nb\n", "\n\n", "a\r", "a\r\n"] {
        let lines = cut_lines(&chars_of(text));
        let lines: Vec<String> = lines.iter().map(|p| p.iter().collect()).collect();
        assert_eq!(lines, text.lines().collect::<Vec<_>>());
    }
}

fn arith(op: SingleOp) -> u32 {
    let f = f32::from_bits;
    match op {
        SingleOp::Sum(a, b) => (f(a) + f(b)).to_bits(),
        SingleOp::Difference(a, b) => (f(a) - f(b)).to_bits(),
        SingleOp::Product(a, b) => (f(a) * f(b)).to_bits(),
        SingleOp::Fused(a, b, c) => f(a).mul_add(f(b), f(c)).to_bits(),
        SingleOp::ComparesFused => 0,
        SingleOp::Quotient(a, b) => (f(a) / f(b)).to_bits(),
        SingleOp::Exponential(a) => f(a).exp().to_bits(),
        SingleOp::Nearest(n) => (n as f32).to_bits(),
        SingleOp::Reaches(a, b, c) => (f(a) as f64 + f(b) as f64 >= f(c) as f64) as u32,
        SingleOp::FallsShort(a, b, c) => ((f(a) as f64 + f(b) as f64) < f(c) as f64) as u32,
    }
}

fn bits(values: &[f32]) -> Vec<u32> {
    values.iter().map(|v| v.to_bits()).collect()
}

fn leaf(value: f32) -> TreeNode {
    TreeNode {
        fidx: -1,
        left: 0,
        right: 0,
        missing: 0,
        thr: 0,
        leaf: value.to_bits(),
        is_leaf: 1,
    }
}

/// One tree: `high` where feature 0 is at least one, `low` elsewhere.
fn slot(number: i32, mode: DispatchThresholdMode, low: f32, high: f32) -> LoadedDispatchSlot {
    let node = TreeNode {
        fidx: 0,
        left: 1,
        right: 2,
        missing: 1,
        thr: 1f32.to_bits(),
        leaf: 0,
        is_leaf: 0,
    };
    load_dispatch_slot(
        number,
        format!("slot{}", number),
        mode,
        SoaModel {
            n_features: 1,
            n_trees: 1,
            node_count: 3,
            tree_roots: vec![0],
            nodes: vec![node, leaf(low), leaf(high)],
        },
        &Bounds {
            n_trees: 1,
            suffix_min: bits(&[low, 0.0]),
            suffix_max: bits(&[high, 0.0]),
        },
        &TreeOrder {
            n_trees: 1,
            order: vec![0],
            suffix_min: bits(&[low, 0.0]),
            suffix_max: bits(&[high, 0.0]),
        },
        0.5f32.to_bits(),
    )
    .unwrap()
}

fn slots() -> Vec<LoadedDispatchSlot> {
    vec![
        slot(0, DispatchThresholdMode::Tau, 1.0, 4.0),
        slot(1, DispatchThresholdMode::Zero, -3.0, 3.0),
    ]
}

fn rows() -> FeatureBatch {
    FeatureBatch {
        n_rows: 4,
        n_cols: 1,
        storage: FeatureStorage::Owned {
            x: bits(&[0.0, 2.0, 0.0, 2.0]),
            ids: vec![10, 11, 12, 13],
            y: vec![0; 4],
        },
        nan_free: true,
    }
}

fn known() -> DispatchMeta {
    DispatchMeta {
        n_rows: 4,
        ids: vec![10, 11, 12, 13],
        slot_id: vec![0, 0, 1, 1],
        tau_used: bits(&[4.0, 4.0, 9.0, 9.0]),
        active: vec![1, 1, 1, 0],
        exact_positive: vec![0; 4],
    }
}

#[test]
fn rows_go_to_their_models() {
    let (s, b, m) = (slots(), rows(), known());
    assert_eq!(check_dispatch_meta(&b, &m), Ok(()));
    assert_eq!(bucket_rows(&s, &m, 4), Ok((vec![vec![0, 1], vec![2]], 3)));
    let r = run_dispatch_l2_exact(&arith, &s, &b, &m, None).unwrap();
    assert_eq!(&r.scores[..3], &bits(&[1.5, 4.5, -2.5])[..]);
    assert!(f32::from_bits(r.scores[3]).is_nan());
    assert_eq!(r.passes, vec![false, true, false, false]);
    assert_eq!(r.visits, vec![1, 1, 1, 0]);
    assert_eq!((r.active_cnt, r.total_reject), (3, 1));
    assert_eq!(r.visit_hist, vec![0, 3]);
    assert_eq!(r.details.len(), 2);
    assert_eq!((r.details[0].place, r.details[0].rows, r.details[0].reject_cnt), (0, 2, 1));
    let one = run_dispatch_exact_slot(&arith, &s[1], &b, &m, &vec![3]).unwrap();
    assert_eq!((one.scores, one.passes, one.reject_cnt), (bits(&[3.5]), vec![true], 1));
    let head = run_dispatch_l2_exact(&arith, &s, &b, &m, Some(1)).unwrap();
    assert_eq!((head.active_cnt, head.details.len()), (1, 1));
    assert_eq!(expert_head(3, "eu"), (4, "seg:eu".to_string()));
}

#[test]
fn rows_that_have_no_model() {
    let (s, b) = (slots(), rows());
    let mut m = known();
    m.slot_id[1] = 9;
    assert_eq!(
        run_dispatch_l2_exact(&arith, &s, &b, &m, None).map(|_| ()),
        Err(DispatchError::UnknownSlot { slot: 9 })
    );
    let mut m = known();
    m.ids[2] = 0;
    assert_eq!(check_dispatch_meta(&b, &m), Err(DispatchError::RowId { row: 2 }));
    let short = DispatchMeta {
        n_rows: 1,
        ids: vec![10],
        slot_id: vec![0],
        tau_used: vec![0],
        active: vec![1],
        exact_positive: vec![0],
    };
    assert_eq!(
        check_dispatch_meta(&b, &short),
        Err(DispatchError::RowCount { meta: 1, batch: 4 })
    );
    let mut broken = slots();
    broken[0].model.nodes[0].left = 9;
    assert_eq!(
        run_dispatch_l2_exact(&arith, &broken, &b, &known(), None).map(|_| ()),
        Err(DispatchError::Astray(TraverseError::Stray))
    );
    let odd = load_dispatch_slot(
        0,
        String::new(),
        DispatchThresholdMode::Tau,
        SoaModel { n_features: 1, n_trees: 0, node_count: 0, tree_roots: vec![], nodes: vec![] },
        &Bounds { n_trees: 0, suffix_min: vec![0], suffix_max: vec![0] },
        &TreeOrder { n_trees: 1, order: vec![0], suffix_min: vec![0, 0], suffix_max: vec![0, 0] },
        0,
    );
    assert_eq!(odd.map(|_| ()), Err(DispatchError::TreePlan));
}
