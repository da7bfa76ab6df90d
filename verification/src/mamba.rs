//! The sequence model: what its files must say, how a request is run, and what is done when the
//! kernel fails.

use crate::single::{absolute, below, is_finite, lt, magnitude, unsigned};
use crate::tensors::{
    build_weights, bytes_there, derive_dims, dims_told, find_first_tensor, fingerprint, first_fault,
    first_named, first_unloaded, law_right_shapes_leave_countable_zeros, loaded, model_config,
    parts, prior_named, sha256_hex, slice_tensor, stand_ins, surgery_named, tensor_values,
    validate_manifest_shapes, values_of, DerivedDims, DimsError, LoadFault, Manifest,
    ManifestConfig, ModelConfig, PadPolicy, PartFault, TensorFault, TensorSpec, Weights,
    WeightsError,
};
use crate::text::{same_text, text_of};
use vstd::prelude::*;

verus! {

/// Whether large pages are asked for.
#[derive(Clone, Copy, Debug, PartialEq, Eq, Structural)]
pub enum HugepagePolicy {
    Never,
    Madvise,
}

/// How memory is treated once it is filled.
#[derive(Clone, Copy, Debug, PartialEq, Eq, Structural)]
pub struct MemoryPolicy {
    pub pretouch: bool,
    pub hugepage: HugepagePolicy,
    pub willneed: bool,
}

impl Default for MemoryPolicy {
    fn default() -> (r: Self)
        ensures
            r == (MemoryPolicy {
                pretouch: false,
                hugepage: HugepagePolicy::Never,
                willneed: false,
            }),
    {
        MemoryPolicy { pretouch: false, hugepage: HugepagePolicy::Never, willneed: false }
    }
}

/// What the system is told about a stretch of memory.
#[derive(Clone, Copy, Debug, PartialEq, Eq, Structural)]
pub enum Advice {
    WillNeed,
    HugePage,
}

/// What a policy says about a stretch of memory, in order.
pub open spec fn advice_of(p: MemoryPolicy) -> Seq<Advice> {
    (if p.willneed {
        seq![Advice::WillNeed]
    } else {
        Seq::empty()
    }) + (if p.hugepage == HugepagePolicy::Madvise {
        seq![Advice::HugePage]
    } else {
        Seq::empty()
    })
}

/// Lists what a policy says.
pub fn memory_advice(policy: MemoryPolicy) -> (r: Vec<Advice>)
    ensures
        r@ == advice_of(policy),
{
    let mut out: Vec<Advice> = Vec::new();
    if policy.willneed {
        out.push(Advice::WillNeed);
    }
    match policy.hugepage {
        HugepagePolicy::Madvise => {
            out.push(Advice::HugePage);
        },
        HugepagePolicy::Never => {},
    }
    assert(out@ =~= advice_of(policy));
    out
}

/// How many bytes a page has.
pub const PAGE_BYTES: usize = 4096;

/// The first bytes of the first `n` pages, added up.
pub open spec fn page_sum(b: Seq<u8>, n: int) -> u64
    decreases n,
{
    if n <= 0 {
        0
    } else {
        page_sum(b, n - 1).wrapping_add(b[(n - 1) * 4096] as u64)
    }
}

/// How many pages bytes reach into.
pub open spec fn page_count(len: int) -> int {
    (len + 4095) / 4096
}

/// Reads the first byte of every page.
fn touch_pages(b: &[u8]) -> (r: u64)
    ensures
        r == page_sum(b@, page_count(b@.len() as int)),
{
    let mut sum: u64 = 0;
    let mut at: usize = 0;
    let ghost mut n: int = 0;
    let len: usize = b.len();
    let mut over: bool = len == 0;
    while !over
        invariant
            len == b@.len(),
            n >= 0,
            sum == page_sum(b@, n),
            !over ==> at == n * 4096 && at < len,
            over ==> n == page_count(len as int),
        decreases if over {
            0
        } else {
            1 + len - at
        },
    {
        sum = sum.wrapping_add(b[at] as u64);
        proof {
            n = n + 1;
        }
        if len - at > PAGE_BYTES {
            at = at + PAGE_BYTES;
        } else {
            over = true;
        }
    }
    sum
}

/// Reads a file that was just loaded, page by page.
pub fn prefetch_blob(blob: &[u8]) -> (r: u64)
    ensures
        r == page_sum(blob@, page_count(blob@.len() as int)),
{
    touch_pages(blob)
}

/// Touches every page of a file.
pub fn pretouch_blob(blob: &[u8]) -> (r: u64)
    ensures
        r == page_sum(blob@, page_count(blob@.len() as int)),
{
    touch_pages(blob)
}

/// Memory that the kernel works in.
#[derive(Debug)]
pub struct AlignedBuf {
    pub bytes: Vec<u8>,
}

impl AlignedBuf {
    /// Memory of a length, all zero.
    pub fn new(len: usize) -> (r: Self)
        ensures
            r.bytes@ == Seq::new(len as nat, |i: int| 0u8),
    {
        let bytes: Vec<u8> = vec![0u8; len];
        assert(bytes@ =~= Seq::new(len as nat, |i: int| 0u8));
        AlignedBuf { bytes }
    }
}

/// Touches every page of working memory.
pub fn pretouch_buf(buf: &AlignedBuf) -> (r: u64)
    ensures
        r == page_sum(buf.bytes@, page_count(buf.bytes@.len() as int)),
{
    touch_pages(buf.bytes.as_slice())
}

/// Working memory taken out of a pool.
#[derive(Debug)]
pub struct ScratchGuard {
    pub buf: AlignedBuf,
}

impl ScratchGuard {
    /// Takes memory out of a pool. There is none when all of it is in use.
    pub fn new(pool: &mut Vec<AlignedBuf>) -> (r: Result<ScratchGuard, String>)
        ensures
            match r {
                Err(e) => old(pool)@.len() == 0 && final(pool)@ == old(pool)@ && e@
                    == "scratch_pool empty"@,
                Ok(g) => old(pool)@.len() > 0 && final(pool)@ == old(pool)@.drop_last() && g.buf
                    == old(pool)@.last(),
            },
    {
        match pool.pop() {
            None => Err("scratch_pool empty".to_owned()),
            Some(buf) => Ok(ScratchGuard { buf }),
        }
    }

    /// The memory, to be worked in.
    pub fn as_mut_slice(&mut self) -> (r: &mut [u8])
        ensures
            r@ == old(self).buf.bytes@,
            final(self).buf.bytes@ == final(r)@,
    {
        self.buf.bytes.as_mut_slice()
    }

    /// Gives the memory back.
    pub fn release(self, pool: &mut Vec<AlignedBuf>)
        ensures
            final(pool)@ == old(pool)@.push(self.buf),
    {
        pool.push(self.buf);
    }
}

/// Memory given back unused leaves a pool as it was.
pub proof fn law_memory_comes_back(pool: Seq<AlignedBuf>)
    requires
        pool.len() > 0,
    ensures
        pool.drop_last().push(pool.last()) == pool,
{
    assert(pool.drop_last().push(pool.last()) =~= pool);
}

/// What the features of a model are.
#[derive(Clone, Copy, Debug, PartialEq, Eq, Structural)]
pub struct FeatureSchema {
    pub input_ids_len: usize,
    pub static_total_dim: usize,
    pub missing_id: Option<i64>,
}

/// Why a manifest is not accepted.
#[derive(Clone, Copy, Debug, PartialEq, Eq, Structural)]
pub enum ManifestFault {
    Format,
    ForwardKind,
    SchemaVersion,
    Endianness,
    GeluKind,
    SoftplusKind,
    StaticDim,
    MicroStateDim,
    SeqLen,
    VocabSize,
    FeatureDim,
    SchemaStaticDim,
    SchemaInputIdsLen,
    SchemaMissingId,
    MissingId,
    PadId,
    PadPolicy,
    ALogPad,
    BcPad,
    StatePad,
}

/// Whether an identifier is one of the vocabulary.
pub open spec fn in_vocab(id: i64, vocab: usize) -> bool {
    0 <= id && id < vocab
}

/// Computes [`in_vocab`].
fn is_in_vocab(id: i64, vocab: usize) -> (r: bool)
    ensures
        r == in_vocab(id, vocab),
{
    id >= 0 && (id as u64) < (vocab as u64)
}

/// What is wrong with a policy for padding. A number equals zero whatever its sign.
pub open spec fn pad_fault(p: Option<PadPolicy>) -> Option<ManifestFault> {
    match p {
        None => None,
        Some(PadPolicy::Named(name)) => if name@ != "none"@ {
            Some(ManifestFault::PadPolicy)
        } else {
            None
        },
        Some(PadPolicy::Values { a_log_pad_value, bc_pad_value, state_pad_value }) =>
            if a_log_pad_value != 0xc1f0_0000 {
            Some(ManifestFault::ALogPad)
        } else if bc_pad_value != 0 && bc_pad_value != 0x8000_0000 {
            Some(ManifestFault::BcPad)
        } else if state_pad_value != 0 && state_pad_value != 0x8000_0000 {
            Some(ManifestFault::StatePad)
        } else {
            None
        },
    }
}

/// Computes [`pad_fault`].
fn find_pad_fault(p: &Option<PadPolicy>) -> (r: Option<ManifestFault>)
    ensures
        r == pad_fault(*p),
{
    match p {
        None => None,
        Some(PadPolicy::Named(name)) => if !same_text(name.as_str(), "none") {
            Some(ManifestFault::PadPolicy)
        } else {
            None
        },
        Some(PadPolicy::Values { a_log_pad_value, bc_pad_value, state_pad_value }) =>
            if *a_log_pad_value != 0xc1f0_0000 {
            Some(ManifestFault::ALogPad)
        } else if *bc_pad_value != 0 && *bc_pad_value != 0x8000_0000 {
            Some(ManifestFault::BcPad)
        } else if *state_pad_value != 0 && *state_pad_value != 0x8000_0000 {
            Some(ManifestFault::StatePad)
        } else {
            None
        },
    }
}

/// What is wrong with a manifest, in the order in which it is noticed.
pub open spec fn manifest_fault(m: Manifest, fs: FeatureSchema) -> Option<ManifestFault> {
    let cfg = m.model_config;
    let micro = match cfg.micro_state_dim {
        Some(n) => n,
        None => 0usize,
    };
    if m.format@ != "fraud_full_stateless_bundle_v1_mainline"@ {
        Some(ManifestFault::Format)
    } else if cfg.forward_kind@ != "full_stateless"@ {
        Some(ManifestFault::ForwardKind)
    } else if m.schema_version != 2 {
        Some(ManifestFault::SchemaVersion)
    } else if m.weights_endianness@ != "little"@ {
        Some(ManifestFault::Endianness)
    } else if cfg.gelu_kind@ != "erf"@ {
        Some(ManifestFault::GeluKind)
    } else if cfg.softplus_kind@ != "beta_threshold"@ {
        Some(ManifestFault::SoftplusKind)
    } else if cfg.static_dim_total != 386 {
        Some(ManifestFault::StaticDim)
    } else if micro != 0 {
        Some(ManifestFault::MicroStateDim)
    } else if cfg.seq_len != 128 {
        Some(ManifestFault::SeqLen)
    } else if cfg.vocab_size != 4097 {
        Some(ManifestFault::VocabSize)
    } else if cfg.feature_dim != 1 {
        Some(ManifestFault::FeatureDim)
    } else if fs.static_total_dim != cfg.static_dim_total {
        Some(ManifestFault::SchemaStaticDim)
    } else if fs.input_ids_len != cfg.seq_len {
        Some(ManifestFault::SchemaInputIdsLen)
    } else if fs.missing_id is Some && fs.missing_id->0 != cfg.missing_id {
        Some(ManifestFault::SchemaMissingId)
    } else if !in_vocab(cfg.missing_id, cfg.vocab_size) {
        Some(ManifestFault::MissingId)
    } else if !in_vocab(cfg.pad_id, cfg.vocab_size) {
        Some(ManifestFault::PadId)
    } else {
        pad_fault(cfg.pad_policy)
    }
}

/// Finds out what is wrong with a manifest.
pub fn check_manifest(manifest: &Manifest, feature_schema: FeatureSchema) -> (r: Option<
    ManifestFault,
>)
    ensures
        r == manifest_fault(*manifest, feature_schema),
{
    let cfg: &ManifestConfig = &manifest.model_config;
    let micro: usize = match cfg.micro_state_dim {
        Some(n) => n,
        None => 0,
    };
    let other_missing: bool = match feature_schema.missing_id {
        Some(id) => id != cfg.missing_id,
        None => false,
    };
    if !same_text(manifest.format.as_str(), "fraud_full_stateless_bundle_v1_mainline") {
        Some(ManifestFault::Format)
    } else if !same_text(cfg.forward_kind.as_str(), "full_stateless") {
        Some(ManifestFault::ForwardKind)
    } else if manifest.schema_version != 2 {
        Some(ManifestFault::SchemaVersion)
    } else if !same_text(manifest.weights_endianness.as_str(), "little") {
        Some(ManifestFault::Endianness)
    } else if !same_text(cfg.gelu_kind.as_str(), "erf") {
        Some(ManifestFault::GeluKind)
    } else if !same_text(cfg.softplus_kind.as_str(), "beta_threshold") {
        Some(ManifestFault::SoftplusKind)
    } else if cfg.static_dim_total != 386 {
        Some(ManifestFault::StaticDim)
    } else if micro != 0 {
        Some(ManifestFault::MicroStateDim)
    } else if cfg.seq_len != 128 {
        Some(ManifestFault::SeqLen)
    } else if cfg.vocab_size != 4097 {
        Some(ManifestFault::VocabSize)
    } else if cfg.feature_dim != 1 {
        Some(ManifestFault::FeatureDim)
    } else if feature_schema.static_total_dim != cfg.static_dim_total {
        Some(ManifestFault::SchemaStaticDim)
    } else if feature_schema.input_ids_len != cfg.seq_len {
        Some(ManifestFault::SchemaInputIdsLen)
    } else if other_missing {
        Some(ManifestFault::SchemaMissingId)
    } else if !is_in_vocab(cfg.missing_id, cfg.vocab_size) {
        Some(ManifestFault::MissingId)
    } else if !is_in_vocab(cfg.pad_id, cfg.vocab_size) {
        Some(ManifestFault::PadId)
    } else {
        find_pad_fault(&cfg.pad_policy)
    }
}

/// Where arithmetic is done.
#[derive(Clone, Copy, Debug, PartialEq, Eq, Structural)]
pub enum CpuDispatch {
    Scalar,
    Avx2,
    Avx512,
}

/// How arithmetic is done.
#[derive(Clone, Copy, Debug, PartialEq, Eq, Structural)]
pub enum MathBackend {
    Approx,
    FastWild,
    Exact,
    Sleef,
    FastBf16,
}

/// The arithmetic that a name stands for.
pub open spec fn math_named(s: Seq<char>) -> Option<MathBackend> {
    if s == "fast"@ {
        Some(MathBackend::Approx)
    } else if s == "fast_wild"@ {
        Some(MathBackend::FastWild)
    } else if s == "exact"@ {
        Some(MathBackend::Exact)
    } else if s == "fast3_bf16"@ {
        Some(MathBackend::FastBf16)
    } else {
        None
    }
}

/// Computes [`math_named`].
pub fn resolve_math(name: &str) -> (r: Option<MathBackend>)
    ensures
        r == math_named(name@),
{
    if same_text(name, "fast") {
        Some(MathBackend::Approx)
    } else if same_text(name, "fast_wild") {
        Some(MathBackend::FastWild)
    } else if same_text(name, "exact") {
        Some(MathBackend::Exact)
    } else if same_text(name, "fast3_bf16") {
        Some(MathBackend::FastBf16)
    } else {
        None
    }
}

/// The name of an arithmetic.
pub open spec fn math_name(m: MathBackend) -> Seq<char> {
    match m {
        MathBackend::Approx => "fast"@,
        MathBackend::FastWild => "fast_wild"@,
        MathBackend::Exact => "exact"@,
        MathBackend::Sleef => "sleef"@,
        MathBackend::FastBf16 => "fast3_bf16"@,
    }
}

/// Computes [`math_name`].
pub fn math_label(backend: MathBackend) -> (r: &'static str)
    ensures
        r@ == math_name(backend),
{
    match backend {
        MathBackend::Approx => "fast",
        MathBackend::FastWild => "fast_wild",
        MathBackend::Exact => "exact",
        MathBackend::Sleef => "sleef",
        MathBackend::FastBf16 => "fast3_bf16",
    }
}

/// The processor features that a name stands for. `auto` on its own means none.
pub open spec fn dispatch_named(s: Seq<char>) -> Option<CpuDispatch> {
    if s == "scalar"@ {
        Some(CpuDispatch::Scalar)
    } else if s == "avx2"@ {
        Some(CpuDispatch::Avx2)
    } else if s == "avx512"@ {
        Some(CpuDispatch::Avx512)
    } else if s == "auto"@ {
        Some(CpuDispatch::Scalar)
    } else {
        None
    }
}

/// Computes [`dispatch_named`].
pub fn resolve_dispatch(name: &str) -> (r: Option<CpuDispatch>)
    ensures
        r == dispatch_named(name@),
{
    if same_text(name, "scalar") {
        Some(CpuDispatch::Scalar)
    } else if same_text(name, "avx2") {
        Some(CpuDispatch::Avx2)
    } else if same_text(name, "avx512") {
        Some(CpuDispatch::Avx512)
    } else if same_text(name, "auto") {
        Some(CpuDispatch::Scalar)
    } else {
        None
    }
}

/// The name of processor features.
pub open spec fn dispatch_name(d: CpuDispatch) -> Seq<char> {
    match d {
        CpuDispatch::Scalar => "scalar"@,
        CpuDispatch::Avx2 => "avx2"@,
        CpuDispatch::Avx512 => "avx512"@,
    }
}

/// Computes [`dispatch_name`].
pub fn dispatch_label(dispatch: CpuDispatch) -> (r: &'static str)
    ensures
        r@ == dispatch_name(dispatch),
{
    match dispatch {
        CpuDispatch::Scalar => "scalar",
        CpuDispatch::Avx2 => "avx2",
        CpuDispatch::Avx512 => "avx512",
    }
}

/// The name of a processor's features is read back as these features.
pub proof fn law_dispatch_names_are_read_back(d: CpuDispatch)
    ensures
        dispatch_named(dispatch_name(d)) == Some(d),
{
    reveal_strlit("scalar");
    reveal_strlit("avx2");
    reveal_strlit("avx512");
    assert("scalar"@.len() == 6 && "avx2"@.len() == 4 && "avx512"@.len() == 6);
    assert("scalar"@[0] == 's' && "avx512"@[0] == 'a');
}

/// The features to try, those a processor has; none at all where it has neither.
pub open spec fn candidates(avx2_fma: bool, avx512: bool) -> Seq<CpuDispatch> {
    if !avx2_fma && !avx512 {
        seq![CpuDispatch::Scalar]
    } else {
        (if avx2_fma {
            seq![CpuDispatch::Avx2]
        } else {
            Seq::empty()
        }) + (if avx512 {
            seq![CpuDispatch::Avx512]
        } else {
            Seq::empty()
        })
    }
}

/// Lists the features to try.
pub fn dispatch_candidates(avx2_fma: bool, avx512: bool) -> (r: Vec<CpuDispatch>)
    ensures
        r@ == candidates(avx2_fma, avx512),
{
    let mut out: Vec<CpuDispatch> = Vec::new();
    if avx2_fma {
        out.push(CpuDispatch::Avx2);
    }
    if avx512 {
        out.push(CpuDispatch::Avx512);
    }
    if out.len() == 0 {
        out.push(CpuDispatch::Scalar);
    }
    assert(out@ =~= candidates(avx2_fma, avx512));
    out
}

/// The fastest of the features that were tried; of several, the first.
pub open spec fn fastest(tried: Seq<(CpuDispatch, u64)>, d: CpuDispatch) -> bool {
    if tried.len() == 0 {
        d == CpuDispatch::Scalar
    } else {
        exists|k: int|
            0 <= k < tried.len() && (#[trigger] tried[k]).0 == d && (forall|j: int|
                0 <= j < tried.len() ==> tried[k].1 <= (#[trigger] tried[j]).1) && (forall|j: int|
                0 <= j < k ==> tried[k].1 < (#[trigger] tried[j]).1)
    }
}

/// Picks the fastest of the features that were tried.
pub fn pick_dispatch(tried: &Vec<(CpuDispatch, u64)>) -> (r: CpuDispatch)
    ensures
        fastest(tried@, r),
{
    if tried.len() == 0 {
        return CpuDispatch::Scalar;
    }
    let mut k: usize = 0;
    let mut i: usize = 1;
    while i < tried.len()
        invariant
            k < i <= tried@.len(),
            forall|j: int| 0 <= j < i ==> tried@[k as int].1 <= (#[trigger] tried@[j]).1,
            forall|j: int| 0 <= j < k ==> tried@[k as int].1 < (#[trigger] tried@[j]).1,
        decreases tried@.len() - i,
    {
        if tried[i].1 < tried[k].1 {
            k = i;
        }
        i += 1;
    }
    assert(tried@[k as int].0 == tried@[k as int].0);
    tried[k].0
}

/// When a run of failures stops the kernel from being used. The rate is a double.
#[derive(Clone, Copy, Debug, PartialEq, Eq, Structural)]
pub struct CircuitBreakerConfig {
    pub max_errors: u64,
    pub error_rate: u64,
    pub window_ms: u64,
    pub trip_ms: u64,
}

/// Keeps count of failures. Times are in nanoseconds.
#[derive(Clone, Copy, Debug, PartialEq, Eq, Structural)]
pub struct CircuitBreaker {
    pub cfg: CircuitBreakerConfig,
    pub window_start: u64,
    pub total: u64,
    pub errors: u64,
    pub consecutive_errors: u64,
    pub tripped_until: Option<u64>,
}

/// Whether the counts of failures agree with each other.
pub open spec fn counts_agree(b: CircuitBreaker) -> bool {
    b.consecutive_errors <= b.errors <= b.total
}

/// A breaker that has just started.
pub open spec fn fresh_breaker(cfg: CircuitBreakerConfig, now: u64) -> CircuitBreaker {
    CircuitBreaker {
        cfg,
        window_start: now,
        total: 0,
        errors: 0,
        consecutive_errors: 0,
        tripped_until: None,
    }
}

/// Whether a breaker is tripped, and what is left of it: a trip that is over is forgotten.
pub open spec fn looked_at(b: CircuitBreaker, now: u64) -> (CircuitBreaker, bool) {
    match b.tripped_until {
        None => (b, false),
        Some(until) => if now < until {
            (b, true)
        } else {
            (CircuitBreaker { tripped_until: None, ..b }, false)
        },
    }
}

/// How many whole milliseconds have passed since a time.
pub open spec fn millis_since(now: u64, start: u64) -> int {
    if now >= start {
        (now - start) / 1_000_000
    } else {
        0
    }
}

/// A breaker whose window has started anew, if the old one is over.
pub open spec fn in_window(b: CircuitBreaker, now: u64) -> CircuitBreaker {
    if millis_since(now, b.window_start) > b.cfg.window_ms {
        CircuitBreaker { window_start: now, total: 0, errors: 0, consecutive_errors: 0, ..b }
    } else {
        b
    }
}

/// A breaker that has counted one more run.
pub open spec fn counted_run(b: CircuitBreaker, ok: bool) -> CircuitBreaker {
    if ok {
        CircuitBreaker { total: (b.total + 1) as u64, consecutive_errors: 0, ..b }
    } else {
        CircuitBreaker {
            total: (b.total + 1) as u64,
            errors: (b.errors + 1) as u64,
            consecutive_errors: (b.consecutive_errors + 1) as u64,
            ..b
        }
    }
}

/// A breaker after a run, when `rate` tells whether so many failures of so many runs reach the rate
/// of its configuration.
pub open spec fn recorded(
    b: CircuitBreaker,
    ok: bool,
    now: u64,
    rate: spec_fn(u64, u64) -> bool,
) -> CircuitBreaker {
    let c = counted_run(in_window(b, now), ok);
    if c.consecutive_errors >= c.cfg.max_errors || rate(c.errors, c.total) {
        CircuitBreaker {
            tripped_until: Some((now + c.cfg.trip_ms * 1_000_000) as u64),
            consecutive_errors: 0,
            total: 0,
            errors: 0,
            ..c
        }
    } else {
        c
    }
}

/// Whether what the caller says of rates agrees with `m`.
pub open spec fn rates<R: Fn(u64, u64) -> bool>(reached: R, m: spec_fn(u64, u64) -> bool) -> bool {
    forall|e: u64, n: u64, b: bool| #[trigger]
        call_ensures(reached, (e, n), b) ==> b == m(e, n)
}

/// Whether the caller can be asked about every rate.
pub open spec fn rates_known<R: Fn(u64, u64) -> bool>(reached: R) -> bool {
    forall|e: u64, n: u64| #[trigger] call_requires(reached, (e, n))
}

/// Whether a trip that starts now ends at a time that can be told, and one more run can be counted.
pub open spec fn can_record(b: CircuitBreaker, now: u64) -> bool {
    &&& counts_agree(b)
    &&& b.total < u64::MAX
    &&& now + b.cfg.trip_ms * 1_000_000 <= u64::MAX
}

impl CircuitBreaker {
    /// A breaker that starts now.
    pub fn new(cfg: CircuitBreakerConfig, now: u64) -> (r: Self)
        ensures
            r == fresh_breaker(cfg, now),
            counts_agree(r),
    {
        CircuitBreaker {
            cfg,
            window_start: now,
            total: 0,
            errors: 0,
            consecutive_errors: 0,
            tripped_until: None,
        }
    }

    /// Finds out whether it is tripped.
    pub fn is_tripped(&mut self, now: u64) -> (r: bool)
        ensures
            (*final(self), r) == looked_at(*old(self), now),
    {
        match self.tripped_until {
            None => false,
            Some(until) => {
                if now < until {
                    return true;
                }
                self.tripped_until = None;
                false
            },
        }
    }

    /// Counts a run. `reached` tells whether so many failures of so many runs reach the rate of the
    /// configuration.
    pub fn record<R: Fn(u64, u64) -> bool>(&mut self, ok: bool, now: u64, reached: &R)
        requires
            can_record(*old(self), now),
            rates_known(*reached),
        ensures
            counts_agree(*final(self)),
            final(self).cfg == old(self).cfg,
            forall|m: spec_fn(u64, u64) -> bool| #[trigger]
                rates(*reached, m) ==> *final(self) == recorded(*old(self), ok, now, m),
    {
        let elapsed: u64 = if now >= self.window_start {
            (now - self.window_start) / 1_000_000
        } else {
            0
        };
        if elapsed > self.cfg.window_ms {
            self.window_start = now;
            self.total = 0;
            self.errors = 0;
            self.consecutive_errors = 0;
        }
        self.total = self.total + 1;
        if ok {
            self.consecutive_errors = 0;
        } else {
            self.errors = self.errors + 1;
            self.consecutive_errors = self.consecutive_errors + 1;
        }
        let over: bool = reached(self.errors, self.total);
        if self.consecutive_errors >= self.cfg.max_errors || over {
            self.tripped_until = Some(now + self.cfg.trip_ms * 1_000_000);
            self.consecutive_errors = 0;
            self.total = 0;
            self.errors = 0;
        }
    }
}

/// A breaker that a failure trips stays tripped until its time is over, and not longer.
pub proof fn law_trip_lasts(b: CircuitBreaker, now: u64, later: u64, rate: spec_fn(u64, u64) -> bool)
    requires
        can_record(b, now),
        ({
            let c = counted_run(in_window(b, now), false);
            c.consecutive_errors >= c.cfg.max_errors || rate(c.errors, c.total)
        }),
    ensures
        looked_at(recorded(b, false, now, rate), later).1 <==> later < now + b.cfg.trip_ms
            * 1_000_000,
{
}

/// Runs are counted: within a window each adds one, a failure one more to the failures and to those
/// in a row, which a success breaks off; a window that is over is forgotten first. A run that
/// neither makes too many failures in a row nor reaches the rate trips nothing.
pub proof fn law_runs_are_counted(
    b: CircuitBreaker,
    ok: bool,
    now: u64,
    rate: spec_fn(u64, u64) -> bool,
)
    requires
        can_record(b, now),
        b.cfg.max_errors > b.consecutive_errors + 1,
        ({
            let over = now > b.window_start && (now - b.window_start) / 1_000_000 > b.cfg.window_ms;
            let failed = if ok {
                0int
            } else {
                1int
            };
            !rate(
                (failed + if over {
                    0
                } else {
                    b.errors as int
                }) as u64,
                (1 + if over {
                    0
                } else {
                    b.total as int
                }) as u64,
            )
        }),
    ensures
        ({
            let after = recorded(b, ok, now, rate);
            let over = now > b.window_start && (now - b.window_start) / 1_000_000 > b.cfg.window_ms;
            let failed = if ok {
                0int
            } else {
                1int
            };
            &&& after.cfg == b.cfg
            &&& after.tripped_until == b.tripped_until
            &&& over ==> after.window_start == now && after.total == 1 && after.errors == failed
            &&& !over ==> after.window_start == b.window_start && after.total == b.total + 1
                && after.errors == b.errors + failed
            &&& ok ==> after.consecutive_errors == 0
            &&& !ok && over ==> after.consecutive_errors == 1
            &&& !ok && !over ==> after.consecutive_errors == b.consecutive_errors + 1
        }),
{
}

/// A breaker whose failures reach the rate is tripped and starts counting anew.
pub proof fn law_rates_trip(
    b: CircuitBreaker,
    ok: bool,
    now: u64,
    rate: spec_fn(u64, u64) -> bool,
)
    requires
        can_record(b, now),
        millis_since(now, b.window_start) <= b.cfg.window_ms,
        rate(
            if ok {
                b.errors
            } else {
                (b.errors + 1) as u64
            },
            (b.total + 1) as u64,
        ),
    ensures
        ({
            let after = recorded(b, ok, now, rate);
            &&& after.tripped_until == Some((now + b.cfg.trip_ms * 1_000_000) as u64)
            &&& after.total == 0 && after.errors == 0 && after.consecutive_errors == 0
        }),
{
}

/// As many failures in a row as the configuration allows, within one window, trip a breaker for as
/// long as it says, and what was counted is forgotten.
pub proof fn law_failures_in_a_row_trip(b: CircuitBreaker, now: u64, rate: spec_fn(u64, u64) -> bool)
    requires
        can_record(b, now),
        millis_since(now, b.window_start) <= b.cfg.window_ms,
        b.consecutive_errors + 1 >= b.cfg.max_errors,
    ensures
        recorded(b, false, now, rate).tripped_until is Some,
        ({
            let after = recorded(b, false, now, rate);
            &&& after.tripped_until == Some((now + b.cfg.trip_ms * 1_000_000) as u64)
            &&& after.total == 0 && after.errors == 0 && after.consecutive_errors == 0
            &&& after.cfg == b.cfg
        }),
{
}

/// What takes the place of a kernel that fails.
#[derive(Clone, Copy, Debug, PartialEq, Eq, Structural)]
pub enum FallbackMode {
    Exact,
    DefaultZero,
}

/// What the model says of a request.
#[derive(Debug)]
pub struct MambaOutcome {
    pub logits: (u32, u32),
    pub margin: u32,
    pub dispatch: String,
    pub math: String,
    pub fallback_reason: Option<String>,
}

/// What the kernel gives.
#[derive(Clone, Copy, Debug)]
pub struct KernelOutput {
    pub logits: (u32, u32),
    pub margin: u32,
}

/// Whether a value is neither infinite nor not a number.
pub open spec fn finite(bits: u32) -> bool {
    magnitude(bits) < 0x7f80_0000
}

/// Whether everything that the kernel gave is finite.
pub open spec fn all_finite(k: KernelOutput) -> bool {
    finite(k.margin) && finite(k.logits.0) && finite(k.logits.1)
}

/// What the model says of a request, with text as sequences of characters.
#[verifier::ext_equal]
pub struct OutcomeView {
    pub logits: (u32, u32),
    pub margin: u32,
    pub dispatch: Seq<char>,
    pub math: Seq<char>,
    pub fallback_reason: Option<Seq<char>>,
}

impl View for MambaOutcome {
    type V = OutcomeView;

    open spec fn view(&self) -> OutcomeView {
        OutcomeView {
            logits: self.logits,
            margin: self.margin,
            dispatch: self.dispatch@,
            math: self.math@,
            fallback_reason: text_of(self.fallback_reason),
        }
    }
}

/// What to do next with a request.
#[derive(Debug)]
pub enum Turn {
    /// The kernel must run; a reason says why it is not the usual one.
    Run { dispatch: CpuDispatch, math: MathBackend, reason: Option<String> },
    /// The request is answered.
    Done(MambaOutcome),
}

/// What to do next with a request, with text as sequences of characters.
pub enum TurnView {
    Run { dispatch: CpuDispatch, math: MathBackend, reason: Option<Seq<char>> },
    Done(OutcomeView),
}

impl View for Turn {
    type V = TurnView;

    open spec fn view(&self) -> TurnView {
        match *self {
            Turn::Run { dispatch, math, reason } => TurnView::Run {
                dispatch,
                math,
                reason: text_of(reason),
            },
            Turn::Done(o) => TurnView::Done(o@),
        }
    }
}

/// What takes the place of a kernel that was not used or failed.
pub open spec fn in_place(mode: FallbackMode, reason: Seq<char>) -> TurnView {
    match mode {
        FallbackMode::Exact => TurnView::Run {
            dispatch: CpuDispatch::Scalar,
            math: MathBackend::Exact,
            reason: Some("fallback_exact:"@ + reason),
        },
        FallbackMode::DefaultZero => TurnView::Done(
            OutcomeView {
                logits: (0, 0),
                margin: 0,
                dispatch: "scalar"@,
                math: "exact"@,
                fallback_reason: Some("fallback_zero:"@ + reason),
            },
        ),
    }
}

/// Computes [`in_place`].
fn run_with_fallback(mode: FallbackMode, reason: &str) -> (r: Turn)
    ensures
        r@ == in_place(mode, reason@),
{
    match mode {
        FallbackMode::Exact => Turn::Run {
            dispatch: CpuDispatch::Scalar,
            math: MathBackend::Exact,
            reason: Some("fallback_exact:".to_owned().concat(reason)),
        },
        FallbackMode::DefaultZero => Turn::Done(
            MambaOutcome {
                logits: (0, 0),
                margin: 0,
                dispatch: "scalar".to_owned(),
                math: "exact".to_owned(),
                fallback_reason: Some("fallback_zero:".to_owned().concat(reason)),
            },
        ),
    }
}

/// What a run of the kernel comes to: its error, or one for values that are not finite.
pub open spec fn run_error(r: Result<KernelOutput, String>) -> Option<Seq<char>> {
    match r {
        Err(e) => Some(e@),
        Ok(k) => if all_finite(k) {
            None
        } else {
            Some("nan_or_inf"@)
        },
    }
}

/// What a run of the kernel that went well says.
pub open spec fn run_outcome(
    k: KernelOutput,
    dispatch: CpuDispatch,
    math: MathBackend,
    reason: Option<Seq<char>>,
) -> OutcomeView {
    OutcomeView {
        logits: k.logits,
        margin: k.margin,
        dispatch: dispatch_name(dispatch),
        math: math_name(math),
        fallback_reason: reason,
    }
}

/// Why a request is not run at all.
#[derive(Clone, Copy, Debug, PartialEq, Eq, Structural)]
pub enum InputFault {
    InputIds,
    StaticTotal,
}

/// A model that is ready to run.
#[derive(Debug)]
pub struct MambaRuntime {
    pub weights: Weights,
    pub dispatch: CpuDispatch,
    pub math_backend: MathBackend,
    pub math_label: String,
    pub schema_hash: String,
    pub scratch_pool: Vec<AlignedBuf>,
    pub cb: CircuitBreaker,
    pub fallback: FallbackMode,
}

/// How many identifiers a request must have.
pub open spec fn ids_needed(cfg: ModelConfig) -> int {
    cfg.seq_len * cfg.feature_dim
}

impl MambaRuntime {
    /// The hash of the features that the model was made for.
    pub fn schema_hash(&self) -> (r: &str)
        ensures
            r@ == self.schema_hash@,
    {
        self.schema_hash.as_str()
    }

    /// The name of the processor features in use.
    pub fn dispatch_label(&self) -> (r: &'static str)
        ensures
            r@ == dispatch_name(self.dispatch),
    {
        dispatch_label(self.dispatch)
    }

    /// Which form of the inner layers the model runs.
    ///
    /// The kernel says whether it fuses them, and whether it packed those of the first layer.
    pub fn mlp_impl_label(&self, fused: bool, packed: bool) -> (r: &'static str)
        ensures
            r@ == if fused {
                "fused_streamed"@
            } else if self.weights.cfg.seq_len == 1 {
                "unfused_m1"@
            } else if packed && self.weights.cfg.d_mlp % 16 == 0 {
                "unfused_packed"@
            } else {
                "unfused_unpacked"@
            },
    {
        if fused {
            "fused_streamed"
        } else if self.weights.cfg.seq_len == 1 {
            "unfused_m1"
        } else if packed && self.weights.cfg.d_mlp % 16 == 0 {
            "unfused_packed"
        } else {
            "unfused_unpacked"
        }
    }

    /// The name of the arithmetic in use.
    pub fn math_label(&self) -> (r: &str)
        ensures
            r@ == self.math_label@,
    {
        self.math_label.as_str()
    }

    /// How many identifiers a request must have.
    pub fn input_ids_len(&self) -> (r: usize)
        requires
            ids_needed(self.weights.cfg) <= usize::MAX,
        ensures
            r == ids_needed(self.weights.cfg),
    {
        self.weights.cfg.seq_len * self.weights.cfg.feature_dim
    }

    /// How many other values a request must have.
    pub fn static_dim_total(&self) -> (r: usize)
        ensures
            r == self.weights.cfg.static_dim_total,
    {
        self.weights.cfg.static_dim_total
    }

    /// Takes a request: the kernel runs unless the breaker is tripped.
    pub fn score(&mut self, input_ids: &[i64], static_total: &[u32], now: u64) -> (r: Result<
        Turn,
        InputFault,
    >)
        requires
            ids_needed(old(self).weights.cfg) <= usize::MAX,
        ensures
            if input_ids@.len() != ids_needed(old(self).weights.cfg) {
                r == Err::<Turn, InputFault>(InputFault::InputIds) && *final(self) == *old(self)
            } else if static_total@.len() != old(self).weights.cfg.static_dim_total {
                r == Err::<Turn, InputFault>(InputFault::StaticTotal) && *final(self) == *old(self)
            } else {
                let (cb, tripped) = looked_at(old(self).cb, now);
                &&& *final(self) == (MambaRuntime { cb, ..*old(self) })
                &&& r matches Ok(t)
                &&& t@ == if tripped {
                    in_place(old(self).fallback, "cb_trip"@)
                } else {
                    TurnView::Run {
                        dispatch: old(self).dispatch,
                        math: old(self).math_backend,
                        reason: None,
                    }
                }
            },
    {
        if input_ids.len() != self.input_ids_len() {
            return Err(InputFault::InputIds);
        }
        if static_total.len() != self.static_dim_total() {
            return Err(InputFault::StaticTotal);
        }
        if self.cb.is_tripped(now) {
            return Ok(run_with_fallback(self.fallback, "cb_trip"));
        }
        Ok(Turn::Run { dispatch: self.dispatch, math: self.math_backend, reason: None })
    }

    /// Takes in what a run of the kernel gave.
    ///
    /// The first run is counted, and replaced where it failed; a replacement that fails is the
    /// end of the request.
    pub fn ran<R: Fn(u64, u64) -> bool>(
        &mut self,
        dispatch: CpuDispatch,
        math: MathBackend,
        reason: Option<String>,
        output: Result<KernelOutput, String>,
        now: u64,
        reached: &R,
    ) -> (r: Result<Turn, String>)
        requires
            can_record(old(self).cb, now),
            rates_known(*reached),
        ensures
            reason is Some ==> *final(self) == *old(self),
            reason is None ==> forall|m: spec_fn(u64, u64) -> bool| #[trigger]
                rates(*reached, m) ==> *final(self) == (MambaRuntime {
                    cb: recorded(old(self).cb, run_error(output) is None, now, m),
                    ..*old(self)
                }),
            output matches Ok(k) ==> (finite(k.margin) && finite(k.logits.0) && finite(k.logits.1)
                ==> (r matches Ok(Turn::Done(o)) && o.logits.0 == k.logits.0 && o.logits.1
                == k.logits.1 && o.margin == k.margin)),
            match run_error(output) {
                None => r matches Ok(t) && t@ == TurnView::Done(
                    run_outcome(output->Ok_0, dispatch, math, text_of(reason)),
                ),
                Some(e) => match reason {
                    None => r matches Ok(t) && t@ == in_place(old(self).fallback, e),
                    Some(_) => r matches Err(x) && x@ == e,
                },
            },
            turned(r) == run_turn(old(self).fallback, dispatch, math, text_of(reason), output),
    {
        let judged: Result<KernelOutput, String> = match output {
            Err(e) => Err(e),
            Ok(k) => if is_finite(k.margin) && is_finite(k.logits.0) && is_finite(k.logits.1) {
                Ok(k)
            } else {
                Err("nan_or_inf".to_owned())
            },
        };
        if reason.is_none() {
            self.cb.record(judged.is_ok(), now, reached);
        }
        match judged {
            Ok(k) => Ok(
                Turn::Done(
                    MambaOutcome {
                        logits: k.logits,
                        margin: k.margin,
                        dispatch: dispatch_label(dispatch).to_owned(),
                        math: math_label(math).to_owned(),
                        fallback_reason: reason,
                    },
                ),
            ),
            Err(e) => match reason {
                None => Ok(run_with_fallback(self.fallback, e.as_str())),
                Some(_) => Err(e),
            },
        }
    }
}

/// What was returned, as a value of [`run_turn`].
pub open spec fn turned(r: Result<Turn, String>) -> Result<TurnView, Seq<char>> {
    match r {
        Ok(t) => Ok(t@),
        Err(e) => Err(e@),
    }
}

/// What a run of the kernel comes to for a request.
pub open spec fn run_turn(
    fallback: FallbackMode,
    dispatch: CpuDispatch,
    math: MathBackend,
    reason: Option<Seq<char>>,
    output: Result<KernelOutput, String>,
) -> Result<TurnView, Seq<char>> {
    match run_error(output) {
        None => Ok(TurnView::Done(run_outcome(output->Ok_0, dispatch, math, reason))),
        Some(e) => match reason {
            None => Ok(in_place(fallback, e)),
            Some(_) => Err(e),
        },
    }
}

/// An answered request carries exactly what the kernel gave: its two logits, each in its place, and
/// its margin, with the features and the arithmetic that it ran with and the reason why they were
/// not the usual ones.
pub proof fn law_answers_are_the_kernels(
    fallback: FallbackMode,
    dispatch: CpuDispatch,
    math: MathBackend,
    reason: Option<Seq<char>>,
    output: Result<KernelOutput, String>,
)
    requires
        output is Ok,
        finite(output->Ok_0.logits.0),
        finite(output->Ok_0.logits.1),
        finite(output->Ok_0.margin),
    ensures
        run_turn(fallback, dispatch, math, reason, output) matches Ok(TurnView::Done(o)) && {
            let k = output->Ok_0;
            &&& o.logits.0 == k.logits.0
            &&& o.logits.1 == k.logits.1
            &&& o.margin == k.margin
            &&& o.dispatch == dispatch_name(dispatch)
            &&& o.math == math_name(math)
            &&& o.fallback_reason == reason
        },
{
}

/// A kernel that fails, or gives anything that is not finite, answers no request: the usual run is
/// replaced once, by exact arithmetic on any processor or by zeros, with the reason told; and a
/// replacement that fails is the end.
pub proof fn law_failed_runs_are_replaced_once(
    fallback: FallbackMode,
    dispatch: CpuDispatch,
    math: MathBackend,
    reason: Option<Seq<char>>,
    output: Result<KernelOutput, String>,
)
    requires
        output matches Ok(k) ==> !finite(k.logits.0) || !finite(k.logits.1) || !finite(k.margin),
    ensures
        ({
            let said = match output {
                Err(e) => e@,
                Ok(_) => "nan_or_inf"@,
            };
            match run_turn(fallback, dispatch, math, reason, output) {
                Err(e) => reason is Some && e == said,
                Ok(TurnView::Run { dispatch: d, math: a, reason: why }) => {
                    &&& reason is None
                    &&& fallback == FallbackMode::Exact
                    &&& d == CpuDispatch::Scalar
                    &&& a == MathBackend::Exact
                    &&& why == Some("fallback_exact:"@ + said)
                },
                Ok(TurnView::Done(o)) => {
                    &&& reason is None
                    &&& fallback == FallbackMode::DefaultZero
                    &&& o.logits.0 == 0 && o.logits.1 == 0 && o.margin == 0
                    &&& o.fallback_reason == Some("fallback_zero:"@ + said)
                },
            }
        }),
{
}

/// Why a model cannot be loaded.
#[derive(Debug)]
pub enum MambaError {
    Manifest(ManifestFault),
    NoSchemaHash,
    NoFeatureSchemaSha,
    FeatureSchemaSha,
    SchemaHash,
    Dims(DimsError),
    Shape { name: String, fault: PartFault },
    WeightsSha,
    EmbRow(TensorFault),
    EmbRowNotZero { max_abs: u32 },
    Math,
    Weights(WeightsError),
    Dispatch,
}

/// The largest magnitude of the first `n` values.
pub open spec fn largest(row: Seq<u32>, n: int) -> u32
    decreases n,
{
    if n <= 0 {
        0
    } else if below(largest(row, n - 1), unsigned(row[n - 1])) {
        unsigned(row[n - 1])
    } else {
        largest(row, n - 1)
    }
}

/// Finds the largest magnitude of some values.
fn find_largest(v: &Vec<u32>, from: usize, to: usize) -> (r: u32)
    requires
        from <= to <= v@.len(),
    ensures
        r == largest(v@.subrange(from as int, to as int), to - from),
{
    let ghost row = v@.subrange(from as int, to as int);
    let mut r: u32 = 0;
    let mut i: usize = from;
    while i < to
        invariant
            from <= i <= to <= v@.len(),
            row == v@.subrange(from as int, to as int),
            r == largest(row, i - from),
        decreases to - i,
    {
        assert(row[i - from] == v@[i as int]);
        let a: u32 = absolute(v[i]);
        if lt(r, a) {
            r = a;
        }
        i += 1;
    }
    r
}

/// One millionth.
pub const TOLERANCE: u32 = 0x3586_37bd;

/// What the row behind the last of the vocabulary holds, where there is one: nothing that matters,
/// or its largest magnitude.
pub open spec fn extra_row(m: Manifest, dims: DerivedDims, blob: Seq<u8>) -> Result<
    Option<u32>,
    TensorFault,
> {
    let d = m.model_config.d_model;
    let emb = first_named(m.tensors@, "emb.weight"@, 0);
    if dims.emb_vocab != m.model_config.vocab_size + 1 || emb is None {
        Ok(None)
    } else {
        match tensor_values(blob, m.tensors@[emb->0]) {
            Err(e) => Err(e),
            Ok(v) => {
                let start = (dims.emb_vocab - 1) * d;
                let top = largest(v.subrange(start, start + d), d as int);
                if v.len() < start + d {
                    Err(TensorFault::OutOfRange)
                } else if below(TOLERANCE, top) {
                    Ok(Some(top))
                } else {
                    Ok(None)
                }
            },
        }
    }
}

/// Looks at the row behind the last of the vocabulary.
fn check_extra_row(manifest: &Manifest, dims: DerivedDims, blob: &[u8]) -> (r: Result<
    Option<u32>,
    TensorFault,
>)
    ensures
        r == extra_row(*manifest, dims, blob@),
{
    let d: usize = manifest.model_config.d_model;
    if dims.emb_vocab == 0 || dims.emb_vocab - 1 != manifest.model_config.vocab_size {
        return Ok(None);
    }
    let emb: &TensorSpec = match find_first_tensor(&manifest.tensors, "emb.weight") {
        None => {
            return Ok(None);
        },
        Some(t) => t,
    };
    let v: Vec<u32> = match slice_tensor(blob, emb) {
        Err(e) => {
            return Err(e);
        },
        Ok(v) => v,
    };
    proof {
        assert((dims.emb_vocab - 1) * d >= 0) by (nonlinear_arith)
            requires
                dims.emb_vocab >= 1,
                d >= 0,
        ;
    }
    assert(v@.len() == v.len());
    let start: usize = match (dims.emb_vocab - 1).checked_mul(d) {
        None => {
            return Err(TensorFault::OutOfRange);
        },
        Some(x) => x,
    };
    if v.len() < start || v.len() - start < d {
        return Err(TensorFault::OutOfRange);
    }
    let top: u32 = find_largest(&v, start, start + d);
    if lt(TOLERANCE, top) {
        Ok(Some(top))
    } else {
        Ok(None)
    }
}

/// Whether a manifest goes with its schema, so that the shapes of its tensors are looked at.
pub open spec fn shapes_looked_at(m: Manifest, fs: FeatureSchema, schema: Seq<u8>) -> bool {
    &&& manifest_fault(m, fs) is None
    &&& text_of(m.schema_hash) == Some(fingerprint(schema))
    &&& text_of(m.feature_schema_sha256) == Some(fingerprint(schema))
    &&& dims_told(m) is Ok
}

/// Whether nothing is wrong with a model before its tensors are looked at.
pub open spec fn tensors_looked_at(
    m: Manifest,
    fs: FeatureSchema,
    schema: Seq<u8>,
    blob: Seq<u8>,
    strict: bool,
    math: Seq<char>,
) -> bool {
    let cfg = m.model_config;
    &&& shapes_looked_at(m, fs, schema)
    &&& first_fault(
        m.tensors@,
        parts(cfg, dims_told(m)->Ok_0),
        m.alignment_bytes as int,
        0,
    ) is None
    &&& fingerprint(blob) == m.weights_sha256@
    &&& extra_row(m, dims_told(m)->Ok_0, blob) matches Ok(top) && !(top is Some && strict)
    &&& math_named(math) is Some
    &&& surgery_named(cfg.state_surgery@) is Some
    &&& prior_named(cfg.prior_source@) is Some
}

/// Whether `e` is what keeps a model from being loaded: the first thing that is noticed.
pub open spec fn load_fault(
    m: Manifest,
    fs: FeatureSchema,
    schema: Seq<u8>,
    blob: Seq<u8>,
    strict: bool,
    math: Seq<char>,
    dispatch: Seq<char>,
    e: MambaError,
) -> bool {
    let own = fingerprint(schema);
    let cfg = m.model_config;
    match manifest_fault(m, fs) {
        Some(f) => e == MambaError::Manifest(f),
        None => if m.schema_hash is None {
            e == MambaError::NoSchemaHash
        } else if m.feature_schema_sha256 is None {
            e == MambaError::NoFeatureSchemaSha
        } else if own != m.feature_schema_sha256->0@ {
            e == MambaError::FeatureSchemaSha
        } else if own != m.schema_hash->0@ {
            e == MambaError::SchemaHash
        } else {
            match dims_told(m) {
                Err(x) => e == MambaError::Dims(x),
                Ok(dims) => match first_fault(
                    m.tensors@,
                    parts(cfg, dims),
                    m.alignment_bytes as int,
                    0,
                ) {
                    Some((n, f)) => e matches MambaError::Shape { name, fault } && name@ == n
                        && fault == f,
                    None => if fingerprint(blob) != m.weights_sha256@ {
                        e == MambaError::WeightsSha
                    } else {
                        match extra_row(m, dims, blob) {
                            Err(x) => e == MambaError::EmbRow(x),
                            Ok(top) => if top is Some && strict {
                                e == MambaError::EmbRowNotZero { max_abs: top->0 }
                            } else if math_named(math) is None {
                                e == MambaError::Math
                            } else if surgery_named(cfg.state_surgery@) is None {
                                e matches MambaError::Weights(WeightsError::StateSurgery)
                            } else if prior_named(cfg.prior_source@) is None {
                                e matches MambaError::Weights(WeightsError::PriorSource)
                            } else {
                                match first_unloaded(blob, m.tensors@, parts(cfg, dims), 0) {
                                    Some((n, f)) => e matches MambaError::Weights(
                                        WeightsError::Tensor { name, fault },
                                    ) && name@ == n && fault == f,
                                    None => dispatch != "auto"@ && dispatch_named(dispatch) is None
                                        && e == MambaError::Dispatch,
                                }
                            },
                        }
                    },
                },
            }
        },
    }
}

/// How much memory a pool starts with: at least one stretch.
pub open spec fn pool_of(size: usize, len: usize, pool: Seq<AlignedBuf>) -> bool {
    &&& pool.len() == if size < 1 {
        1
    } else {
        size as nat
    }
    &&& forall|i: int|
        0 <= i < pool.len() ==> (#[trigger] pool[i]).bytes@ == Seq::new(len as nat, |k: int| 0u8)
}

/// Fills a pool.
fn fill_pool(size: usize, len: usize) -> (r: Vec<AlignedBuf>)
    ensures
        pool_of(size, len, r@),
{
    let n: usize = if size < 1 {
        1
    } else {
        size
    };
    let mut out: Vec<AlignedBuf> = Vec::new();
    let mut i: usize = 0;
    while i < n
        invariant
            i <= n,
            out@.len() == i,
            forall|k: int|
                0 <= k < i ==> (#[trigger] out@[k]).bytes@ == Seq::new(len as nat, |j: int| 0u8),
        decreases n - i,
    {
        out.push(AlignedBuf::new(len));
        i += 1;
    }
    out
}

/// The features that a name and a measurement come to.
pub open spec fn chosen_dispatch(name: Seq<char>, measured: CpuDispatch) -> CpuDispatch {
    if name == "auto"@ {
        measured
    } else {
        dispatch_named(name)->0
    }
}

/// What the caller asks for beside the files of a model.
#[derive(Clone, Copy, Debug)]
pub struct LoadChoices<'a> {
    pub dispatch_name: &'a str,
    pub measured: CpuDispatch,
    pub math_name: &'a str,
    pub strict_emb_row: bool,
    pub pool_size: usize,
    pub scratch_len: usize,
    pub breaker: CircuitBreakerConfig,
    pub fallback: FallbackMode,
}

impl MambaRuntime {
    /// Makes a model out of its files. `schema` is the text that `feature_schema` was read from,
    /// and `blob` holds the weights.
    pub fn load(
        manifest: &Manifest,
        feature_schema: FeatureSchema,
        schema: &[u8],
        blob: &[u8],
        choices: LoadChoices,
        now: u64,
    ) -> (r: Result<Self, MambaError>)
        requires
            shapes_looked_at(*manifest, feature_schema, schema@) ==> manifest.alignment_bytes > 0,
            tensors_looked_at(
                *manifest,
                feature_schema,
                schema@,
                blob@,
                choices.strict_emb_row,
                choices.math_name@,
            ) ==> bytes_there(
                blob@,
                manifest.tensors@,
                parts(manifest.model_config, dims_told(*manifest)->Ok_0),
                0,
            ),
        ensures
            match r {
                Err(e) => load_fault(
                    *manifest,
                    feature_schema,
                    schema@,
                    blob@,
                    choices.strict_emb_row,
                    choices.math_name@,
                    choices.dispatch_name@,
                    e,
                ),
                Ok(rt) => {
                    let cfg = manifest.model_config;
                    &&& tensors_looked_at(
                        *manifest,
                        feature_schema,
                        schema@,
                        blob@,
                        choices.strict_emb_row,
                        choices.math_name@,
                    )
                    &&& dims_told(*manifest) matches Ok(dims)
                    &&& first_unloaded(blob@, manifest.tensors@, parts(cfg, dims), 0) is None
                    &&& choices.dispatch_name@ == "auto"@ || dispatch_named(
                        choices.dispatch_name@,
                    ) is Some
                    &&& rt.weights.cfg == model_config(
                        cfg,
                        dims,
                        surgery_named(cfg.state_surgery@)->0,
                        prior_named(cfg.prior_source@)->0,
                    )
                    &&& rt.weights.tensors@.len() == parts(cfg, dims).len()
                    &&& forall|k: int|
                        0 <= k < parts(cfg, dims).len() ==> loaded(
                            blob@,
                            manifest.tensors@,
                            parts(cfg, dims)[k],
                        ) == Ok::<Option<Seq<u32>>, LoadFault>(
                            values_of(#[trigger] rt.weights.tensors@[k]),
                        )
                    &&& stand_ins(
                        manifest.tensors@,
                        "mamba.in_proj.bias"@,
                        cfg.n_layers as nat,
                        (2 * cfg.d_inner) as nat,
                        rt.weights.in_proj_b_zero@,
                    )
                    &&& stand_ins(
                        manifest.tensors@,
                        "mamba.out_proj.bias"@,
                        cfg.n_layers as nat,
                        cfg.d_model as nat,
                        rt.weights.out_proj_b_zero@,
                    )
                    &&& rt.dispatch == chosen_dispatch(choices.dispatch_name@, choices.measured)
                    &&& math_named(choices.math_name@) == Some(rt.math_backend)
                    &&& rt.math_label@ == choices.math_name@
                    &&& text_of(manifest.schema_hash) == Some(rt.schema_hash@)
                    &&& pool_of(choices.pool_size, choices.scratch_len, rt.scratch_pool@)
                    &&& rt.cb == fresh_breaker(choices.breaker, now)
                    &&& rt.fallback == choices.fallback
                },
            },
    {
        if let Some(f) = check_manifest(manifest, feature_schema) {
            return Err(MambaError::Manifest(f));
        }
        let own: String = sha256_hex(schema);
        let schema_hash: &String = match &manifest.schema_hash {
            None => {
                return Err(MambaError::NoSchemaHash);
            },
            Some(h) => h,
        };
        let feature_sha: &String = match &manifest.feature_schema_sha256 {
            None => {
                return Err(MambaError::NoFeatureSchemaSha);
            },
            Some(h) => h,
        };
        if !same_text(own.as_str(), feature_sha.as_str()) {
            return Err(MambaError::FeatureSchemaSha);
        }
        if !same_text(own.as_str(), schema_hash.as_str()) {
            return Err(MambaError::SchemaHash);
        }
        let dims: DerivedDims = match derive_dims(manifest) {
            Err(e) => {
                return Err(MambaError::Dims(e));
            },
            Ok(d) => d,
        };
        match validate_manifest_shapes(manifest, dims) {
            Err((name, fault)) => {
                return Err(MambaError::Shape { name, fault });
            },
            Ok(()) => {},
        }
        let blob_sha: String = sha256_hex(blob);
        if !same_text(blob_sha.as_str(), manifest.weights_sha256.as_str()) {
            return Err(MambaError::WeightsSha);
        }
        match check_extra_row(manifest, dims, blob) {
            Err(e) => {
                return Err(MambaError::EmbRow(e));
            },
            Ok(Some(max_abs)) => {
                if choices.strict_emb_row {
                    return Err(MambaError::EmbRowNotZero { max_abs });
                }
            },
            Ok(None) => {},
        }
        let math_backend: MathBackend = match resolve_math(choices.math_name) {
            None => {
                return Err(MambaError::Math);
            },
            Some(m) => m,
        };
        proof {
            law_right_shapes_leave_countable_zeros(*manifest, dims);
        }
        let weights: Weights = match build_weights(manifest, dims, blob) {
            Err(e) => {
                return Err(MambaError::Weights(e));
            },
            Ok(w) => w,
        };
        let dispatch: CpuDispatch = if same_text(choices.dispatch_name, "auto") {
            choices.measured
        } else {
            match resolve_dispatch(choices.dispatch_name) {
                None => {
                    return Err(MambaError::Dispatch);
                },
                Some(d) => d,
            }
        };
        Ok(
            MambaRuntime {
                weights,
                dispatch,
                math_backend,
                math_label: choices.math_name.to_owned(),
                schema_hash: schema_hash.as_str().to_owned(),
                scratch_pool: fill_pool(choices.pool_size, choices.scratch_len),
                cb: CircuitBreaker::new(choices.breaker, now),
                fallback: choices.fallback,
            },
        )
    }
}

} // verus!
