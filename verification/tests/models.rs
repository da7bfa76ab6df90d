//! Tensors, manifests, and running a sequence model.

use riskanvil::mamba::{
    check_manifest, dispatch_candidates, dispatch_label, math_label, memory_advice,
    pick_dispatch, prefetch_blob, pretouch_blob, pretouch_buf, resolve_dispatch,
    resolve_math, Advice, AlignedBuf, CircuitBreaker, CircuitBreakerConfig, CpuDispatch,
    FallbackMode, FeatureSchema, HugepagePolicy, InputFault, KernelOutput, LoadChoices,
    MambaError, MambaRuntime, ManifestFault, MathBackend, MemoryPolicy, ScratchGuard, Turn,
};
use riskanvil::tensors::{
    build_weights, check_tensor_sha, derive_dims, find_first_tensor, find_tensor, hex_text,
    list_parts, parse_prior_source, parse_state_surgery, sha256_hex, shape_volume, slice_tensor,
    tensors_in_range, validate_manifest_shapes, zero_bias, DerivedDims, DimsError, EmbSumMode,
    ForwardKind, GeluKind, HeadInputKind, LoadFault, LogitsKind, Manifest, ManifestConfig,
    PadPolicy, PartFault, PriorSource, SoftplusKind, StateSurgery, TensorFault, TensorSpec,
    WeightsError,
};

const SCHEMA: &[u8] = b"{\"features\": 1}";

fn config() -> ManifestConfig {
    ManifestConfig {
        forward_kind: "full_stateless".to_string(),
        n_layers: 1,
        seq_len: 128,
        feature_dim: 1,
        vocab_size: 4097,
        pad_id: 0,
        missing_id: 1,
        static_dim_total: 386,
        micro_state_dim: None,
        d_model: 1,
        d_inner: 2,
        d_mlp: 3,
        d_state: 1,
        conv_kernel: 2,
        ln_eps: 0,
        gelu_kind: "erf".to_string(),
        softplus_kind: "beta_threshold".to_string(),
        softplus_beta: 0,
        softplus_threshold: 0,
        pad_policy: None,
        n_class: 2,
        state_surgery: "none".to_string(),
        prior_source: "none".to_string(),
    }
}

const DIMS: DerivedDims = DerivedDims { dt_rank: 1, d_state_pad: 8, emb_vocab: 4098 };

fn model() -> (Manifest, Vec<u8>) {
    let cfg = config();
    let mut blob = Vec::new();
    let mut tensors = Vec::new();
    for p in list_parts(&cfg, DIMS) {
        let shape: Vec<usize> = p.shape.iter().map(|d| *d as usize).collect();
        let count: usize = shape.iter().product();
        let offset = blob.len();
        for i in 0..count {
            let v = if p.name == "emb.weight" && i == 4097 { 0.0 } else { i as f32 };
            blob.extend_from_slice(&v.to_le_bytes());
        }
        tensors.push(TensorSpec {
            name: p.name,
            dtype: "f32".to_string(),
            shape,
            offset,
            nbytes: 4 * count,
            sha256: sha256_hex(&blob[offset..]),
        });
    }
    let m = Manifest {
        format: "fraud_full_stateless_bundle_v1_mainline".to_string(),
        schema_version: 2,
        schema_hash: Some(sha256_hex(SCHEMA)),
        feature_schema_sha256: Some(sha256_hex(SCHEMA)),
        weights_sha256: sha256_hex(&blob),
        weights_endianness: "little".to_string(),
        weights_file: "weights.bin".to_string(),
        alignment_bytes: 4,
        model_config: cfg,
        tensors,
    };
    (m, blob)
}

fn schema() -> FeatureSchema {
    FeatureSchema { input_ids_len: 128, static_total_dim: 386, missing_id: Some(1) }
}

fn choices() -> LoadChoices<'static> {
    LoadChoices {
        dispatch_name: "auto",
        measured: CpuDispatch::Avx2,
        math_name: "fast",
        strict_emb_row: true,
        pool_size: 2,
        scratch_len: 16,
        breaker: CircuitBreakerConfig { max_errors: 2, error_rate: 0, window_ms: 10, trip_ms: 5 },
        fallback: FallbackMode::Exact,
    }
}

fn never(_: u64, _: u64) -> bool {
    false
}

#[test]
fn fingerprints() {
    assert_eq!(
        sha256_hex(b"abc"),
        "ba7816bf8f01cfea414140de5dae2223b00361a396177a9cb410ff61f20015ad"
    );
    assert_eq!(
        sha256_hex(b""),
        "e3b0c44298fc1c149afbf4c8996fb92427ae41e4649b934ca495991b7852b855"
    );
    assert_eq!(hex_text(&[0, 0x1f, 0xab]), "001fab");
}

#[test]
fn models_are_loaded() {
    let (m, blob) = model();
    assert_eq!(check_manifest(&m, schema()), None);
    assert_eq!(derive_dims(&m), Ok(DIMS));
    assert_eq!(validate_manifest_shapes(&m, DIMS), Ok(()));
    assert!(tensors_in_range(&m.tensors, blob.len()));
    assert!(!tensors_in_range(&m.tensors, blob.len() - 1));
    let mut rt = MambaRuntime::load(&m, schema(), SCHEMA, &blob, choices(), 0).unwrap();
    assert_eq!((rt.dispatch_label(), rt.math_label()), ("avx2", "fast"));
    assert_eq!(rt.schema_hash(), sha256_hex(SCHEMA));
    assert_eq!((rt.input_ids_len(), rt.static_dim_total()), (128, 386));
    assert_eq!(rt.scratch_pool.len(), 2);
    assert_eq!(rt.mlp_impl_label(true, true), "fused_streamed");
    let d_mlp = rt.weights.cfg.d_mlp;
    rt.weights.cfg.d_mlp = 64;
    assert_eq!(rt.mlp_impl_label(false, true), "unfused_packed");
    assert_eq!(rt.mlp_impl_label(false, false), "unfused_unpacked");
    rt.weights.cfg.d_mlp = 65;
    assert_eq!(rt.mlp_impl_label(false, true), "unfused_unpacked");
    rt.weights.cfg.d_mlp = d_mlp;
    rt.weights.cfg.seq_len = 1;
    assert_eq!(rt.mlp_impl_label(false, true), "unfused_m1");
    rt.weights.cfg.seq_len = 128;
    let w = build_weights(&m, DIMS, &blob).unwrap();
    assert_eq!(w.cfg.state_surgery, StateSurgery::Off);
    assert_eq!(w.cfg.d_state_pad, 8);
    let first = w.tensors[0].as_ref().unwrap();
    assert_eq!((first.len(), first[3]), (4098, 3f32.to_bits()));
    assert_eq!(rt.score(&[0; 127], &[0; 386], 0).map(|_| ()), Err(InputFault::InputIds));
    assert_eq!(rt.score(&[0; 128], &[0; 385], 0).map(|_| ()), Err(InputFault::StaticTotal));
}

fn fault(m: &Manifest, blob: &[u8]) -> MambaError {
    MambaRuntime::load(m, schema(), SCHEMA, blob, choices(), 0).map(|_| ()).unwrap_err()
}

#[test]
fn models_that_cannot_be_loaded() {
    let (mut m, blob) = model();
    m.format.clear();
    assert!(matches!(fault(&m, &blob), MambaError::Manifest(ManifestFault::Format)));
    let (mut m, blob) = model();
    m.schema_hash = None;
    assert!(matches!(fault(&m, &blob), MambaError::NoSchemaHash));
    let (mut m, blob) = model();
    m.feature_schema_sha256 = None;
    assert!(matches!(fault(&m, &blob), MambaError::NoFeatureSchemaSha));
    let (mut m, blob) = model();
    m.feature_schema_sha256 = Some(String::new());
    assert!(matches!(fault(&m, &blob), MambaError::FeatureSchemaSha));
    let (mut m, blob) = model();
    m.schema_hash = Some(String::new());
    assert!(matches!(fault(&m, &blob), MambaError::SchemaHash));
    let (mut m, blob) = model();
    m.tensors[0].shape[0] = 5;
    let dims = DimsError::EmbRows { rows: 5, vocab: 4097 };
    assert!(matches!(fault(&m, &blob), MambaError::Dims(d) if d == dims));
    let (mut m, blob) = model();
    m.tensors[1].nbytes -= 4;
    match fault(&m, &blob) {
        MambaError::Shape { name, fault } => {
            assert_eq!((name.as_str(), fault), ("pos.weight", PartFault::Bytes));
        }
        other => panic!("{:?}", other),
    }
    let (mut m, blob) = model();
    m.weights_sha256.clear();
    assert!(matches!(fault(&m, &blob), MambaError::WeightsSha));
    let (mut m, blob) = model();
    m.model_config.state_surgery = "some".to_string();
    assert!(matches!(fault(&m, &blob), MambaError::Weights(WeightsError::StateSurgery)));
    let (mut m, blob) = model();
    m.model_config.prior_source = "some".to_string();
    assert!(matches!(fault(&m, &blob), MambaError::Weights(WeightsError::PriorSource)));
    let (mut m, blob) = model();
    m.tensors[2].sha256.clear();
    match fault(&m, &blob) {
        MambaError::Weights(WeightsError::Tensor { name, fault }) => {
            assert_eq!(name, "static_proj.weight");
            assert_eq!(fault, LoadFault::Tensor(TensorFault::Sha));
        }
        other => panic!("{:?}", other),
    }
    let (mut m, blob) = model();
    m.tensors[0].dtype = "f64".to_string();
    assert!(matches!(fault(&m, &blob), MambaError::EmbRow(TensorFault::Dtype)));
    let (m, blob) = model();
    let c = LoadChoices { math_name: "slow", ..choices() };
    let e = MambaRuntime::load(&m, schema(), SCHEMA, &blob, c, 0).map(|_| ()).unwrap_err();
    assert!(matches!(e, MambaError::Math));
    let c = LoadChoices { dispatch_name: "sse", ..choices() };
    let e = MambaRuntime::load(&m, schema(), SCHEMA, &blob, c, 0).map(|_| ()).unwrap_err();
    assert!(matches!(e, MambaError::Dispatch));
}

#[test]
fn row_past_the_vocabulary_has_to_be_zero() {
    let (mut m, mut blob) = model();
    let at = 4 * 4097;
    blob[at..at + 4].copy_from_slice(&(-0.5f32).to_le_bytes());
    m.tensors[0].sha256 = sha256_hex(&blob[..4 * 4098]);
    m.weights_sha256 = sha256_hex(&blob);
    let half = 0.5f32.to_bits();
    assert!(matches!(fault(&m, &blob), MambaError::EmbRowNotZero { max_abs } if max_abs == half));
    let c = LoadChoices { strict_emb_row: false, ..choices() };
    assert!(MambaRuntime::load(&m, schema(), SCHEMA, &blob, c, 0).is_ok());
}

#[test]
fn manifests_that_are_not_accepted() {
    let check = |change: &dyn Fn(&mut Manifest)| {
        let (mut m, _) = model();
        change(&mut m);
        check_manifest(&m, schema()).unwrap()
    };
    assert_eq!(
        check(&|m| m.model_config.forward_kind.clear()),
        ManifestFault::ForwardKind
    );
    assert_eq!(check(&|m| m.schema_version = 1), ManifestFault::SchemaVersion);
    assert_eq!(check(&|m| m.weights_endianness.clear()), ManifestFault::Endianness);
    assert_eq!(check(&|m| m.model_config.gelu_kind.clear()), ManifestFault::GeluKind);
    assert_eq!(check(&|m| m.model_config.softplus_kind.clear()), ManifestFault::SoftplusKind);
    assert_eq!(check(&|m| m.model_config.static_dim_total = 1), ManifestFault::StaticDim);
    assert_eq!(check(&|m| m.model_config.micro_state_dim = Some(1)), ManifestFault::MicroStateDim);
    assert_eq!(check(&|m| m.model_config.seq_len = 1), ManifestFault::SeqLen);
    assert_eq!(check(&|m| m.model_config.vocab_size = 1), ManifestFault::VocabSize);
    assert_eq!(check(&|m| m.model_config.feature_dim = 2), ManifestFault::FeatureDim);
    assert_eq!(check(&|m| m.model_config.missing_id = 2), ManifestFault::SchemaMissingId);
    assert_eq!(check(&|m| m.model_config.pad_id = -1), ManifestFault::PadId);
    let named = || Some(PadPolicy::Named("some".to_string()));
    assert_eq!(check(&|m| m.model_config.pad_policy = named()), ManifestFault::PadPolicy);
    let values = |a: f32, b: f32, c: f32| {
        Some(PadPolicy::Values {
            a_log_pad_value: a.to_bits(),
            bc_pad_value: b.to_bits(),
            state_pad_value: c.to_bits(),
        })
    };
    assert_eq!(check(&|m| m.model_config.pad_policy = values(0.0, 0.0, 0.0)), ManifestFault::ALogPad);
    assert_eq!(check(&|m| m.model_config.pad_policy = values(-30.0, 1.0, 0.0)), ManifestFault::BcPad);
    assert_eq!(
        check(&|m| m.model_config.pad_policy = values(-30.0, -0.0, 1.0)),
        ManifestFault::StatePad
    );
    let (m, _) = model();
    let other = FeatureSchema { static_total_dim: 1, ..schema() };
    assert_eq!(check_manifest(&m, other), Some(ManifestFault::SchemaStaticDim));
    let other = FeatureSchema { input_ids_len: 1, ..schema() };
    assert_eq!(check_manifest(&m, other), Some(ManifestFault::SchemaInputIdsLen));
    let (mut m, _) = model();
    m.model_config.missing_id = 9999;
    let other = FeatureSchema { missing_id: None, ..schema() };
    assert_eq!(check_manifest(&m, other), Some(ManifestFault::MissingId));
}

#[test]
fn dimensions_told_by_tensors() {
    let derive = |change: &dyn Fn(&mut Vec<TensorSpec>)| {
        let (mut m, _) = model();
        change(&mut m.tensors);
        derive_dims(&m).unwrap_err()
    };
    let drop = |name: &'static str| move |ts: &mut Vec<TensorSpec>| ts.retain(|t| t.name != name);
    let rank = |name: &'static str| {
        move |ts: &mut Vec<TensorSpec>| {
            ts.iter_mut().filter(|t| t.name == name).for_each(|t| t.shape = vec![1])
        }
    };
    assert_eq!(derive(&drop("emb.weight")), DimsError::NoEmb);
    assert_eq!(derive(&rank("emb.weight")), DimsError::EmbRank);
    assert_eq!(derive(&|ts| ts[0].shape[1] = 2), DimsError::EmbModel);
    assert_eq!(derive(&drop("layers.0.mamba.dt_proj.weight")), DimsError::NoDtProj);
    assert_eq!(derive(&rank("layers.0.mamba.dt_proj.weight")), DimsError::DtProjRank);
    assert_eq!(derive(&drop("layers.0.mamba.A_log")), DimsError::NoALog);
    assert_eq!(derive(&rank("layers.0.mamba.A_log")), DimsError::ALogRank);
    let short = |ts: &mut Vec<TensorSpec>| {
        ts.iter_mut()
            .filter(|t| t.name == "layers.0.mamba.A_log")
            .for_each(|t| t.shape = vec![2, 0])
    };
    assert_eq!(derive(&short), DimsError::StatePad);
}

#[test]
fn tensors_in_a_file() {
    let spec = |name: &str, offset: usize, nbytes: usize| TensorSpec {
        name: name.to_string(),
        dtype: "f32".to_string(),
        shape: vec![nbytes / 4],
        offset,
        nbytes,
        sha256: sha256_hex(b"abcd"),
    };
    let blob = b"xabcdy";
    assert_eq!(check_tensor_sha(blob, &spec("t", 1, 4)), Ok(()));
    assert_eq!(check_tensor_sha(blob, &spec("t", 0, 4)), Err(TensorFault::Sha));
    assert_eq!(slice_tensor(blob, &spec("t", 0, 4)), Ok(vec![u32::from_le_bytes(*b"xabc")]));
    assert_eq!(slice_tensor(blob, &spec("t", 1, 4)), Err(TensorFault::Misaligned));
    assert_eq!(slice_tensor(blob, &spec("t", 1, 3)), Err(TensorFault::Ragged));
    assert_eq!(slice_tensor(blob, &spec("t", 4, 4)), Err(TensorFault::OutOfRange));
    let odd = TensorSpec { dtype: "u8".to_string(), ..spec("t", 0, 4) };
    assert_eq!(slice_tensor(blob, &odd), Err(TensorFault::Dtype));
    let ts = vec![spec("a", 0, 4), spec("b", 0, 4), spec("a", 1, 4)];
    // Of several tensors of a name, the last counts.
    assert_eq!(find_tensor(&ts, "a").unwrap().offset, 1);
    assert_eq!(find_first_tensor(&ts, "a").unwrap().offset, 0);
    assert!(find_tensor(&ts, "c").is_none());
    assert_eq!(shape_volume(&vec![2, 3, 4]), Some(24));
    assert_eq!(shape_volume(&vec![]), Some(1));
    assert_eq!(shape_volume(&vec![usize::MAX, 2]), None);
    assert_eq!(shape_volume(&vec![usize::MAX, 2, 0]), Some(0));
    assert_eq!(zero_bias(&None::<u32>, 2), Some(vec![0, 0]));
    assert_eq!(zero_bias(&Some(vec![7]), 2), None);
}

#[test]
fn zeros_stand_in_for_biases() {
    let (m, blob) = model();
    let w = build_weights(&m, DIMS, &blob).unwrap();
    assert_eq!(w.in_proj_b_zero, vec![None; m.model_config.n_layers]);
    assert_eq!(w.out_proj_b_zero, vec![None; m.model_config.n_layers]);
    assert_eq!(w.cfg.forward_kind, ForwardKind::FullStateless);
    assert_eq!((w.cfg.gelu_kind, w.cfg.softplus_kind), (GeluKind::Erf, SoftplusKind::Exact));
    assert_eq!(w.cfg.logits_kind, LogitsKind::NativeTwoClass);
    assert_eq!(w.cfg.head_input_kind, HeadInputKind::HeadIn);
    assert_eq!((w.cfg.emb_sum_mode, f32::from_bits(w.cfg.prior_alpha)), (EmbSumMode::Fast, 1.0));
    // A layer whose biases are not listed gets as many zeros as they would have values.
    let (mut m, blob) = model();
    let (d_inner, d_model) = (m.model_config.d_inner, m.model_config.d_model);
    m.tensors.retain(|t| t.name != "layers.0.mamba.in_proj.bias");
    let w = build_weights(&m, DIMS, &blob).unwrap();
    assert_eq!(w.in_proj_b_zero[0], Some(vec![0; 2 * d_inner]));
    assert_eq!(w.out_proj_b_zero[0], None);
    m.tensors.retain(|t| t.name != "layers.0.mamba.out_proj.bias");
    let rt = MambaRuntime::load(&m, schema(), SCHEMA, &blob, choices(), 0).unwrap();
    assert_eq!(rt.weights.in_proj_b_zero[0], Some(vec![0; 2 * d_inner]));
    assert_eq!(rt.weights.out_proj_b_zero[0], Some(vec![0; d_model]));
}

#[test]
fn parts_have_to_be_listed() {
    let check = |change: &dyn Fn(&mut TensorSpec)| {
        let (mut m, _) = model();
        change(&mut m.tensors[1]);
        validate_manifest_shapes(&m, DIMS).unwrap_err().1
    };
    assert_eq!(check(&|t| t.name.clear()), PartFault::Missing);
    assert_eq!(check(&|t| t.offset += 2), PartFault::Offset);
    assert_eq!(check(&|t| t.shape[0] = 1), PartFault::Shape);
    assert_eq!(check(&|t| t.nbytes = 4), PartFault::Bytes);
    assert_eq!(parse_state_surgery("gate_all"), Some(StateSurgery::GateAll));
    assert_eq!(parse_state_surgery("x"), None);
    assert_eq!(parse_prior_source("uid"), Some(PriorSource::Uid));
    assert_eq!(parse_prior_source("x"), None);
}

#[test]
fn failed_runs_are_replaced() {
    let (m, blob) = model();
    let mut rt = MambaRuntime::load(&m, schema(), SCHEMA, &blob, choices(), 0).unwrap();
    let out = |margin: f32| {
        Ok(KernelOutput { logits: (0, 0), margin: margin.to_bits() })
    };
    let (dispatch, math) = match rt.score(&[0; 128], &[0; 386], 0).unwrap() {
        Turn::Run { dispatch, math, reason: None } => (dispatch, math),
        other => panic!("{:?}", other),
    };
    match rt.ran(dispatch, math, None, out(1.5), 1, &never).unwrap() {
        Turn::Done(o) => {
            assert_eq!((o.margin, o.dispatch.as_str(), o.math.as_str()), (1.5f32.to_bits(), "avx2", "fast"));
            assert_eq!(o.fallback_reason, None);
        }
        other => panic!("{:?}", other),
    }
    let reason = match rt.ran(dispatch, math, None, out(f32::NAN), 2, &never).unwrap() {
        Turn::Run { dispatch: CpuDispatch::Scalar, math: MathBackend::Exact, reason } => reason,
        other => panic!("{:?}", other),
    };
    assert_eq!(reason, Some("fallback_exact:nan_or_inf".to_string()));
    // A replacement that fails is the end.
    let end = rt.ran(CpuDispatch::Scalar, MathBackend::Exact, reason, Err("dead".to_string()), 3, &never);
    assert_eq!(end.map(|_| ()), Err("dead".to_string()));
    assert_eq!((rt.cb.errors, rt.cb.total, rt.cb.consecutive_errors), (1, 2, 1));
    // The second failure in a row trips the breaker, and requests are replaced at once.
    rt.ran(dispatch, math, None, Err("dead".to_string()), 4, &never).unwrap();
    match rt.score(&[0; 128], &[0; 386], 5).unwrap() {
        Turn::Run { reason, .. } => assert_eq!(reason, Some("fallback_exact:cb_trip".to_string())),
        other => panic!("{:?}", other),
    }
    rt.fallback = FallbackMode::DefaultZero;
    match rt.score(&[0; 128], &[0; 386], 5).unwrap() {
        Turn::Done(o) => assert_eq!(o.fallback_reason, Some("fallback_zero:cb_trip".to_string())),
        other => panic!("{:?}", other),
    }
    // After five milliseconds the trip is over.
    match rt.score(&[0; 128], &[0; 386], 5_000_004).unwrap() {
        Turn::Run { reason: None, .. } => {}
        other => panic!("{:?}", other),
    }
}

#[test]
fn breakers_trip_and_recover() {
    let cfg = CircuitBreakerConfig { max_errors: 3, error_rate: 0, window_ms: 10, trip_ms: 5 };
    let mut b = CircuitBreaker::new(cfg, 0);
    let half = |e: u64, n: u64| n >= 4 && 2 * e >= n;
    b.record(false, 1, &half);
    b.record(false, 2, &half);
    b.record(true, 3, &half);
    assert_eq!((b.total, b.errors, b.consecutive_errors), (3, 2, 0));
    assert!(!b.is_tripped(3));
    b.record(false, 4, &half);
    // Three of four failed.
    assert!(b.is_tripped(5));
    assert_eq!((b.total, b.errors), (0, 0));
    assert!(b.is_tripped(5_000_003));
    assert!(!b.is_tripped(5_000_004));
    assert_eq!(b.tripped_until, None);
    // A window that is over is forgotten.
    b.record(false, 5_000_005, &half);
    b.record(false, 20_000_005, &half);
    assert_eq!((b.total, b.errors, b.window_start), (1, 1, 20_000_005));
}

#[test]
fn names_of_arithmetic() {
    for d in [CpuDispatch::Scalar, CpuDispatch::Avx2, CpuDispatch::Avx512] {
        assert_eq!(resolve_dispatch(dispatch_label(d)), Some(d));
    }
    assert_eq!(resolve_dispatch("auto"), Some(CpuDispatch::Scalar));
    assert_eq!(resolve_dispatch("neon"), None);
    for m in [MathBackend::Approx, MathBackend::FastWild, MathBackend::Exact, MathBackend::FastBf16] {
        assert_eq!(resolve_math(math_label(m)), Some(m));
    }
    assert_eq!(resolve_math(math_label(MathBackend::Sleef)), None);
    assert_eq!(dispatch_candidates(false, false), vec![CpuDispatch::Scalar]);
    assert_eq!(dispatch_candidates(true, true), vec![CpuDispatch::Avx2, CpuDispatch::Avx512]);
    assert_eq!(pick_dispatch(&vec![]), CpuDispatch::Scalar);
    assert_eq!(
        pick_dispatch(&vec![(CpuDispatch::Avx2, 7), (CpuDispatch::Avx512, 7)]),
        CpuDispatch::Avx2
    );
    assert_eq!(
        pick_dispatch(&vec![(CpuDispatch::Avx2, 7), (CpuDispatch::Avx512, 6)]),
        CpuDispatch::Avx512
    );
}

#[test]
fn memory_is_touched_and_comes_back() {
    let mut blob = vec![1u8; 10_000];
    blob[4096] = 5;
    blob[4097] = 9;
    // The first bytes of three pages.
    assert_eq!(pretouch_blob(&blob), 7);
    assert_eq!(prefetch_blob(&blob), 7);
    assert_eq!(pretouch_blob(&[]), 0);
    let buf = AlignedBuf::new(5000);
    assert_eq!((buf.bytes.len(), pretouch_buf(&buf)), (5000, 0));
    let mut pool = vec![AlignedBuf::new(8), AlignedBuf::new(16)];
    let mut guard = ScratchGuard::new(&mut pool).unwrap();
    assert_eq!(pool.len(), 1);
    guard.as_mut_slice()[0] = 3;
    guard.release(&mut pool);
    assert_eq!(pool.len(), 2);
    assert_eq!(ScratchGuard::new(&mut vec![]).unwrap_err(), "scratch_pool empty");
    let all = MemoryPolicy { pretouch: true, hugepage: HugepagePolicy::Madvise, willneed: true };
    assert_eq!(memory_advice(all), vec![Advice::WillNeed, Advice::HugePage]);
    let none = MemoryPolicy { pretouch: true, hugepage: HugepagePolicy::Never, willneed: false };
    assert_eq!(memory_advice(none), vec![]);
}
