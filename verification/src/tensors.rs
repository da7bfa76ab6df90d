//! The tensors of a sequence model: what a manifest lists, how it is checked, and how it is loaded.

use crate::le::{get_u32s, u32s_at};
use crate::text::{decimal, same_text, write_decimal};
use sha2::Digest;
use vstd::prelude::*;
use vstd::slice::slice_subrange;

verus! {

/// What [`sha2::Sha256`] makes of bytes.
pub uninterp spec fn sha256(b: Seq<u8>) -> Seq<u8>;

/// Calls [`sha2::Digest::digest`] for [`sha2::Sha256`]: the hash of all the bytes. It is a function
/// of the bytes alone, and 32 bytes long.
#[verifier::external_body]
fn sha256_digest(bytes: &[u8]) -> (r: Vec<u8>)
    ensures
        r@ == sha256(bytes@),
        r@.len() == 32,
{
    sha2::Sha256::digest(bytes).to_vec()
}

/// A hexadecimal digit.
pub open spec fn hex_digit(d: nat) -> char {
    if d < 10 {
        (48 + d) as char
    } else {
        (87 + d) as char
    }
}

/// Bytes in hexadecimal, two small digits for each.
pub open spec fn hex(b: Seq<u8>) -> Seq<char>
    decreases b.len(),
{
    if b.len() == 0 {
        Seq::empty()
    } else {
        hex(b.drop_last()) + seq![hex_digit((b.last() / 16) as nat), hex_digit((b.last() % 16) as nat)]
    }
}

/// Two digits are written for each byte.
proof fn lemma_hex_len(b: Seq<u8>)
    ensures
        hex(b).len() == 2 * b.len(),
    decreases b.len(),
{
    if b.len() > 0 {
        lemma_hex_len(b.drop_last());
    }
}

/// A hexadecimal digit as text.
fn hex_digit_text(d: u8) -> (r: &'static str)
    requires
        d < 16,
    ensures
        r@ == seq![hex_digit(d as nat)],
{
    proof {
        reveal_strlit("0");
        reveal_strlit("1");
        reveal_strlit("2");
        reveal_strlit("3");
        reveal_strlit("4");
        reveal_strlit("5");
        reveal_strlit("6");
        reveal_strlit("7");
        reveal_strlit("8");
        reveal_strlit("9");
        reveal_strlit("a");
        reveal_strlit("b");
        reveal_strlit("c");
        reveal_strlit("d");
        reveal_strlit("e");
        reveal_strlit("f");
    }
    if d == 0 {
        "0"
    } else if d == 1 {
        "1"
    } else if d == 2 {
        "2"
    } else if d == 3 {
        "3"
    } else if d == 4 {
        "4"
    } else if d == 5 {
        "5"
    } else if d == 6 {
        "6"
    } else if d == 7 {
        "7"
    } else if d == 8 {
        "8"
    } else if d == 9 {
        "9"
    } else if d == 10 {
        "a"
    } else if d == 11 {
        "b"
    } else if d == 12 {
        "c"
    } else if d == 13 {
        "d"
    } else if d == 14 {
        "e"
    } else {
        "f"
    }
}

/// Writes bytes in hexadecimal.
pub fn hex_text(b: &[u8]) -> (r: String)
    ensures
        r@ == hex(b@),
{
    let mut s: String = String::new();
    let mut i: usize = 0;
    assert(b@.take(0) =~= Seq::empty());
    assert(s@ =~= Seq::empty());
    while i < b.len()
        invariant
            i <= b@.len(),
            s@ == hex(b@.take(i as int)),
        decreases b@.len() - i,
    {
        let x: u8 = b[i];
        let ghost next = b@.take(i + 1);
        let ghost before = s@;
        assert(next.drop_last() =~= b@.take(i as int));
        s.append(hex_digit_text(x / 16));
        s.append(hex_digit_text(x % 16));
        assert(s@ =~= before + seq![hex_digit((x / 16) as nat), hex_digit((x % 16) as nat)]);
        i += 1;
    }
    assert(b@.take(b@.len() as int) =~= b@);
    s
}

/// The hash of bytes in hexadecimal.
pub open spec fn fingerprint(b: Seq<u8>) -> Seq<char> {
    hex(sha256(b))
}

/// Computes [`fingerprint`]: 64 digits.
pub fn sha256_hex(bytes: &[u8]) -> (r: String)
    ensures
        r@ == fingerprint(bytes@),
        r@.len() == 64,
{
    let hash: Vec<u8> = sha256_digest(bytes);
    proof {
        lemma_hex_len(hash@);
    }
    hex_text(hash.as_slice())
}

/// What a manifest lists of one tensor.
#[derive(Debug)]
pub struct TensorSpec {
    pub name: String,
    pub dtype: String,
    pub shape: Vec<usize>,
    pub offset: usize,
    pub nbytes: usize,
    pub sha256: String,
}

/// Values that a policy for padding may give.
#[derive(Debug)]
pub enum PadPolicy {
    Named(String),
    Values { a_log_pad_value: u32, bc_pad_value: u32, state_pad_value: u32 },
}

/// The configuration of a model.
#[derive(Debug)]
pub struct ManifestConfig {
    pub forward_kind: String,
    pub n_layers: usize,
    pub seq_len: usize,
    pub feature_dim: usize,
    pub vocab_size: usize,
    pub pad_id: i64,
    pub missing_id: i64,
    pub static_dim_total: usize,
    pub micro_state_dim: Option<usize>,
    pub d_model: usize,
    pub d_inner: usize,
    pub d_mlp: usize,
    pub d_state: usize,
    pub conv_kernel: usize,
    pub ln_eps: u32,
    pub gelu_kind: String,
    pub softplus_kind: String,
    pub softplus_beta: u32,
    pub softplus_threshold: u32,
    pub pad_policy: Option<PadPolicy>,
    pub n_class: usize,
    pub state_surgery: String,
    pub prior_source: String,
}

/// A manifest.
#[derive(Debug)]
pub struct Manifest {
    pub format: String,
    pub schema_version: u32,
    pub schema_hash: Option<String>,
    pub feature_schema_sha256: Option<String>,
    pub weights_sha256: String,
    pub weights_endianness: String,
    pub weights_file: String,
    pub alignment_bytes: usize,
    pub model_config: ManifestConfig,
    pub tensors: Vec<TensorSpec>,
}

/// Sizes that only the tensors tell.
#[derive(Clone, Copy, Debug, PartialEq, Eq, Structural)]
pub struct DerivedDims {
    pub dt_rank: usize,
    pub d_state_pad: usize,
    pub emb_vocab: usize,
}

/// The last of the first `n` tensors that has a name.
pub open spec fn last_named(ts: Seq<TensorSpec>, name: Seq<char>, n: int) -> Option<int>
    decreases n,
{
    if n <= 0 {
        None
    } else if ts[n - 1].name@ == name {
        Some(n - 1)
    } else {
        last_named(ts, name, n - 1)
    }
}

/// The tensor of a name; of several, the last.
pub open spec fn tensor_named(ts: Seq<TensorSpec>, name: Seq<char>) -> Option<int> {
    last_named(ts, name, ts.len() as int)
}

/// Finds a tensor by its name.
pub fn find_tensor<'a>(ts: &'a Vec<TensorSpec>, name: &str) -> (r: Option<&'a TensorSpec>)
    ensures
        match r {
            Some(t) => tensor_named(ts@, name@) matches Some(k) && 0 <= k < ts@.len() && *t == ts@[k],
            None => tensor_named(ts@, name@) is None,
        },
{
    let mut n: usize = ts.len();
    while n > 0
        invariant
            n <= ts@.len(),
            tensor_named(ts@, name@) == last_named(ts@, name@, n as int),
        decreases n,
    {
        if same_text(ts[n - 1].name.as_str(), name) {
            return Some(&ts[n - 1]);
        }
        n -= 1;
    }
    None
}

/// The first tensor from `k` on that has a name.
pub open spec fn first_named(ts: Seq<TensorSpec>, name: Seq<char>, k: int) -> Option<int>
    decreases ts.len() - k,
{
    if k < 0 || k >= ts.len() {
        None
    } else if ts[k].name@ == name {
        Some(k)
    } else {
        first_named(ts, name, k + 1)
    }
}

/// Finds the first tensor of a name.
pub fn find_first_tensor<'a>(ts: &'a Vec<TensorSpec>, name: &str) -> (r: Option<&'a TensorSpec>)
    ensures
        match r {
            Some(t) => first_named(ts@, name@, 0) matches Some(k) && 0 <= k < ts@.len() && *t
                == ts@[k],
            None => first_named(ts@, name@, 0) is None,
        },
{
    let mut k: usize = 0;
    while k < ts.len()
        invariant
            k <= ts@.len(),
            first_named(ts@, name@, 0) == first_named(ts@, name@, k as int),
        decreases ts@.len() - k,
    {
        if same_text(ts[k].name.as_str(), name) {
            return Some(&ts[k]);
        }
        k += 1;
    }
    None
}

/// Why the sizes of a model cannot be told.
#[derive(Clone, Copy, Debug, PartialEq, Eq, Structural)]
pub enum DimsError {
    NoEmb,
    EmbRank,
    EmbModel,
    EmbRows { rows: usize, vocab: usize },
    NoDtProj,
    DtProjRank,
    NoALog,
    ALogRank,
    StatePad,
}

/// The sizes that the tensors of a model tell.
pub open spec fn dims_told(m: Manifest) -> Result<DerivedDims, DimsError> {
    let ts = m.tensors@;
    let cfg = m.model_config;
    match tensor_named(ts, "emb.weight"@) {
        None => Err(DimsError::NoEmb),
        Some(e) => {
            let emb = ts[e].shape@;
            if emb.len() != 2 {
                Err(DimsError::EmbRank)
            } else if emb[1] != cfg.d_model {
                Err(DimsError::EmbModel)
            } else if emb[0] != cfg.vocab_size && emb[0] != cfg.vocab_size + 1 {
                Err(DimsError::EmbRows { rows: emb[0], vocab: cfg.vocab_size })
            } else {
                match tensor_named(ts, "layers.0.mamba.dt_proj.weight"@) {
                    None => Err(DimsError::NoDtProj),
                    Some(d) => if ts[d].shape@.len() != 2 {
                        Err(DimsError::DtProjRank)
                    } else {
                        match tensor_named(ts, "layers.0.mamba.A_log"@) {
                            None => Err(DimsError::NoALog),
                            Some(a) => if ts[a].shape@.len() != 2 {
                                Err(DimsError::ALogRank)
                            } else if ts[a].shape@[1] < cfg.d_state {
                                Err(DimsError::StatePad)
                            } else {
                                Ok(
                                    DerivedDims {
                                        dt_rank: ts[d].shape@[1],
                                        d_state_pad: ts[a].shape@[1],
                                        emb_vocab: emb[0],
                                    },
                                )
                            },
                        }
                    },
                }
            }
        },
    }
}

/// Computes [`dims_told`].
pub fn derive_dims(manifest: &Manifest) -> (r: Result<DerivedDims, DimsError>)
    ensures
        r == dims_told(*manifest),
{
    let cfg: &ManifestConfig = &manifest.model_config;
    let emb: &TensorSpec = match find_tensor(&manifest.tensors, "emb.weight") {
        None => {
            return Err(DimsError::NoEmb);
        },
        Some(t) => t,
    };
    if emb.shape.len() != 2 {
        return Err(DimsError::EmbRank);
    }
    if emb.shape[1] != cfg.d_model {
        return Err(DimsError::EmbModel);
    }
    let emb_vocab: usize = emb.shape[0];
    if emb_vocab != cfg.vocab_size && (emb_vocab == 0 || emb_vocab - 1 != cfg.vocab_size) {
        return Err(DimsError::EmbRows { rows: emb_vocab, vocab: cfg.vocab_size });
    }
    let dt_proj: &TensorSpec = match find_tensor(
        &manifest.tensors,
        "layers.0.mamba.dt_proj.weight",
    ) {
        None => {
            return Err(DimsError::NoDtProj);
        },
        Some(t) => t,
    };
    if dt_proj.shape.len() != 2 {
        return Err(DimsError::DtProjRank);
    }
    let a_log: &TensorSpec = match find_tensor(&manifest.tensors, "layers.0.mamba.A_log") {
        None => {
            return Err(DimsError::NoALog);
        },
        Some(t) => t,
    };
    if a_log.shape.len() != 2 {
        return Err(DimsError::ALogRank);
    }
    if a_log.shape[1] < cfg.d_state {
        return Err(DimsError::StatePad);
    }
    Ok(DerivedDims { dt_rank: dt_proj.shape[1], d_state_pad: a_log.shape[1], emb_vocab })
}

/// A tensor that a model has, or may have: its name and its shape.
#[derive(Debug)]
pub struct Part {
    pub name: String,
    pub shape: Vec<u128>,
    pub required: bool,
}

/// A tensor that a model has or may have, in numbers without bounds.
#[verifier::ext_equal]
pub struct PartView {
    pub name: Seq<char>,
    pub shape: Seq<nat>,
    pub required: bool,
}

impl View for Part {
    type V = PartView;

    open spec fn view(&self) -> PartView {
        PartView {
            name: self.name@,
            shape: Seq::new(self.shape@.len(), |i: int| self.shape@[i] as nat),
            required: self.required,
        }
    }
}

/// The tensors outside the layers.
pub open spec fn model_parts(cfg: ManifestConfig, dims: DerivedDims) -> Seq<PartView> {
    let gated = cfg.state_surgery@ == "gate_all"@;
    seq![
        PartView {
            name: "emb.weight"@,
            shape: seq![dims.emb_vocab as nat, cfg.d_model as nat],
            required: true,
        },
        PartView {
            name: "pos.weight"@,
            shape: seq![cfg.seq_len as nat, cfg.d_model as nat],
            required: true,
        },
        PartView {
            name: "static_proj.weight"@,
            shape: seq![cfg.d_model as nat, cfg.static_dim_total as nat],
            required: true,
        },
        PartView {
            name: "static_proj.bias"@,
            shape: seq![cfg.d_model as nat],
            required: true,
        },
    ] + (if gated {
        seq![
            PartView {
                name: "prior_gate.weight"@,
                shape: seq![cfg.d_model as nat, cfg.d_model as nat],
                required: true,
            },
            PartView {
                name: "prior_gate.bias"@,
                shape: seq![cfg.d_model as nat],
                required: true,
            },
        ]
    } else {
        Seq::empty()
    }) + seq![
        PartView {
            name: "norm.weight"@,
            shape: seq![cfg.d_model as nat],
            required: true,
        },
        PartView {
            name: "norm.bias"@,
            shape: seq![cfg.d_model as nat],
            required: true,
        },
        PartView {
            name: "head.weight"@,
            shape: seq![cfg.n_class as nat, cfg.d_model as nat],
            required: true,
        },
        PartView {
            name: "head.bias"@,
            shape: seq![cfg.n_class as nat],
            required: true,
        },
    ]
}

/// The name of a tensor of layer `i`.
pub open spec fn layer_name(i: int, suffix: Seq<char>) -> Seq<char> {
    "layers."@ + decimal(i as nat) + "."@ + suffix
}

/// The tensors of layer `i`.
pub open spec fn layer_parts(cfg: ManifestConfig, dims: DerivedDims, i: int) -> Seq<PartView> {
    seq![
        PartView {
            name: layer_name(i, "norm1.weight"@),
            shape: seq![cfg.d_model as nat],
            required: true,
        },
        PartView {
            name: layer_name(i, "norm1.bias"@),
            shape: seq![cfg.d_model as nat],
            required: true,
        },
        PartView {
            name: layer_name(i, "norm2.weight"@),
            shape: seq![cfg.d_model as nat],
            required: true,
        },
        PartView {
            name: layer_name(i, "norm2.bias"@),
            shape: seq![cfg.d_model as nat],
            required: true,
        },
        PartView {
            name: layer_name(i, "mamba.in_proj.weight"@),
            shape: seq![(2 * cfg.d_inner) as nat, cfg.d_model as nat],
            required: true,
        },
        PartView {
            name: layer_name(i, "mamba.in_proj.bias"@),
            shape: seq![(2 * cfg.d_inner) as nat],
            required: false,
        },
        PartView {
            name: layer_name(i, "mamba.conv1d.weight"@),
            shape: seq![cfg.d_inner as nat, 1, cfg.conv_kernel as nat],
            required: true,
        },
        PartView {
            name: layer_name(i, "mamba.conv1d.bias"@),
            shape: seq![cfg.d_inner as nat],
            required: true,
        },
        PartView {
            name: layer_name(i, "mamba.x_proj.weight"@),
            shape: seq![(dims.dt_rank + 2 * dims.d_state_pad) as nat, cfg.d_inner as nat],
            required: true,
        },
        PartView {
            name: layer_name(i, "mamba.dt_proj.weight"@),
            shape: seq![cfg.d_inner as nat, dims.dt_rank as nat],
            required: true,
        },
        PartView {
            name: layer_name(i, "mamba.dt_proj.bias"@),
            shape: seq![cfg.d_inner as nat],
            required: true,
        },
        PartView {
            name: layer_name(i, "mamba.A_log"@),
            shape: seq![cfg.d_inner as nat, dims.d_state_pad as nat],
            required: true,
        },
        PartView {
            name: layer_name(i, "mamba.D"@),
            shape: seq![cfg.d_inner as nat],
            required: true,
        },
        PartView {
            name: layer_name(i, "mamba.out_proj.weight"@),
            shape: seq![cfg.d_model as nat, cfg.d_inner as nat],
            required: true,
        },
        PartView {
            name: layer_name(i, "mamba.out_proj.bias"@),
            shape: seq![cfg.d_model as nat],
            required: false,
        },
        PartView {
            name: layer_name(i, "mlp.fc1.weight"@),
            shape: seq![cfg.d_mlp as nat, cfg.d_model as nat],
            required: true,
        },
        PartView {
            name: layer_name(i, "mlp.fc1.bias"@),
            shape: seq![cfg.d_mlp as nat],
            required: true,
        },
        PartView {
            name: layer_name(i, "mlp.fc2.weight"@),
            shape: seq![cfg.d_model as nat, cfg.d_mlp as nat],
            required: true,
        },
        PartView {
            name: layer_name(i, "mlp.fc2.bias"@),
            shape: seq![cfg.d_model as nat],
            required: true,
        },
    ]
}

/// The tensors of the first `n` layers.
pub open spec fn layers_parts(cfg: ManifestConfig, dims: DerivedDims, n: int) -> Seq<PartView>
    decreases n,
{
    if n <= 0 {
        Seq::empty()
    } else {
        layers_parts(cfg, dims, n - 1) + layer_parts(cfg, dims, n - 1)
    }
}

/// All tensors of a model, in the order in which they are looked at.
pub open spec fn parts(cfg: ManifestConfig, dims: DerivedDims) -> Seq<PartView> {
    model_parts(cfg, dims) + layers_parts(cfg, dims, cfg.n_layers as int)
}

/// What a list of tensors stands for.
pub open spec fn parts_view(v: Seq<Part>) -> Seq<PartView> {
    Seq::new(v.len(), |i: int| v[i]@)
}

fn push_part(out: &mut Vec<Part>, name: String, shape: Vec<u128>, required: bool)
    ensures
        parts_view(final(out)@) == parts_view(old(out)@).push(
            PartView {
                name: name@,
                shape: Seq::new(shape@.len(), |i: int| shape@[i] as nat),
                required,
            },
        ),
{
    let ghost before = out@;
    out.push(Part { name, shape, required });
    assert(parts_view(out@) =~= parts_view(before).push(out@[before.len() as int]@));
}

/// Writes the name of a tensor of layer `i`.
fn layer_name_text(i: usize, suffix: &str) -> (r: String)
    ensures
        r@ == layer_name(i as int, suffix@),
{
    "layers.".to_owned().concat(write_decimal(i as u64).as_str()).concat(".").concat(suffix)
}

/// Lists the tensors outside the layers.
fn list_model_parts(cfg: &ManifestConfig, dims: DerivedDims) -> (r: Vec<Part>)
    ensures
        parts_view(r@) == model_parts(*cfg, dims),
{
    let mut out: Vec<Part> = Vec::new();
    assert(parts_view(out@) =~= Seq::empty());
    push_part(
        &mut out,
        "emb.weight".to_owned(),
        vec![dims.emb_vocab as u128, cfg.d_model as u128],
        true,
    );
    push_part(
        &mut out,
        "pos.weight".to_owned(),
        vec![cfg.seq_len as u128, cfg.d_model as u128],
        true,
    );
    push_part(
        &mut out,
        "static_proj.weight".to_owned(),
        vec![cfg.d_model as u128, cfg.static_dim_total as u128],
        true,
    );
    push_part(
        &mut out,
        "static_proj.bias".to_owned(),
        vec![cfg.d_model as u128],
        true,
    );
    if same_text(cfg.state_surgery.as_str(), "gate_all") {
        push_part(
            &mut out,
            "prior_gate.weight".to_owned(),
            vec![cfg.d_model as u128, cfg.d_model as u128],
            true,
        );
        push_part(
            &mut out,
            "prior_gate.bias".to_owned(),
            vec![cfg.d_model as u128],
            true,
        );
    }
    push_part(
        &mut out,
        "norm.weight".to_owned(),
        vec![cfg.d_model as u128],
        true,
    );
    push_part(
        &mut out,
        "norm.bias".to_owned(),
        vec![cfg.d_model as u128],
        true,
    );
    push_part(
        &mut out,
        "head.weight".to_owned(),
        vec![cfg.n_class as u128, cfg.d_model as u128],
        true,
    );
    push_part(
        &mut out,
        "head.bias".to_owned(),
        vec![cfg.n_class as u128],
        true,
    );
    assert(parts_view(out@) =~~= model_parts(*cfg, dims));
    out
}

/// Lists the tensors of layer `i`.
fn list_layer_parts(cfg: &ManifestConfig, dims: DerivedDims, i: usize) -> (r: Vec<Part>)
    ensures
        parts_view(r@) == layer_parts(*cfg, dims, i as int),
{
    let mut out: Vec<Part> = Vec::new();
    assert(parts_view(out@) =~= Seq::empty());
    push_part(
        &mut out,
        layer_name_text(i, "norm1.weight"),
        vec![cfg.d_model as u128],
        true,
    );
    push_part(
        &mut out,
        layer_name_text(i, "norm1.bias"),
        vec![cfg.d_model as u128],
        true,
    );
    push_part(
        &mut out,
        layer_name_text(i, "norm2.weight"),
        vec![cfg.d_model as u128],
        true,
    );
    push_part(
        &mut out,
        layer_name_text(i, "norm2.bias"),
        vec![cfg.d_model as u128],
        true,
    );
    push_part(
        &mut out,
        layer_name_text(i, "mamba.in_proj.weight"),
        vec![2 * (cfg.d_inner as u128), cfg.d_model as u128],
        true,
    );
    push_part(
        &mut out,
        layer_name_text(i, "mamba.in_proj.bias"),
        vec![2 * (cfg.d_inner as u128)],
        false,
    );
    push_part(
        &mut out,
        layer_name_text(i, "mamba.conv1d.weight"),
        vec![cfg.d_inner as u128, 1, cfg.conv_kernel as u128],
        true,
    );
    push_part(
        &mut out,
        layer_name_text(i, "mamba.conv1d.bias"),
        vec![cfg.d_inner as u128],
        true,
    );
    push_part(
        &mut out,
        layer_name_text(i, "mamba.x_proj.weight"),
        vec![dims.dt_rank as u128 + 2 * (dims.d_state_pad as u128), cfg.d_inner as u128],
        true,
    );
    push_part(
        &mut out,
        layer_name_text(i, "mamba.dt_proj.weight"),
        vec![cfg.d_inner as u128, dims.dt_rank as u128],
        true,
    );
    push_part(
        &mut out,
        layer_name_text(i, "mamba.dt_proj.bias"),
        vec![cfg.d_inner as u128],
        true,
    );
    push_part(
        &mut out,
        layer_name_text(i, "mamba.A_log"),
        vec![cfg.d_inner as u128, dims.d_state_pad as u128],
        true,
    );
    push_part(
        &mut out,
        layer_name_text(i, "mamba.D"),
        vec![cfg.d_inner as u128],
        true,
    );
    push_part(
        &mut out,
        layer_name_text(i, "mamba.out_proj.weight"),
        vec![cfg.d_model as u128, cfg.d_inner as u128],
        true,
    );
    push_part(
        &mut out,
        layer_name_text(i, "mamba.out_proj.bias"),
        vec![cfg.d_model as u128],
        false,
    );
    push_part(
        &mut out,
        layer_name_text(i, "mlp.fc1.weight"),
        vec![cfg.d_mlp as u128, cfg.d_model as u128],
        true,
    );
    push_part(
        &mut out,
        layer_name_text(i, "mlp.fc1.bias"),
        vec![cfg.d_mlp as u128],
        true,
    );
    push_part(
        &mut out,
        layer_name_text(i, "mlp.fc2.weight"),
        vec![cfg.d_model as u128, cfg.d_mlp as u128],
        true,
    );
    push_part(
        &mut out,
        layer_name_text(i, "mlp.fc2.bias"),
        vec![cfg.d_model as u128],
        true,
    );
    assert(parts_view(out@) =~~= layer_parts(*cfg, dims, i as int));
    out
}

/// Lists all tensors of a model.
pub fn list_parts(cfg: &ManifestConfig, dims: DerivedDims) -> (r: Vec<Part>)
    ensures
        parts_view(r@) == parts(*cfg, dims),
{
    let mut out: Vec<Part> = list_model_parts(cfg, dims);
    let mut i: usize = 0;
    assert(parts_view(out@) =~= model_parts(*cfg, dims) + layers_parts(*cfg, dims, 0));
    while i < cfg.n_layers
        invariant
            i <= cfg.n_layers,
            parts_view(out@) == model_parts(*cfg, dims) + layers_parts(*cfg, dims, i as int),
        decreases cfg.n_layers - i,
    {
        let ghost before = out@;
        let mut more: Vec<Part> = list_layer_parts(cfg, dims, i);
        let ghost added = more@;
        out.append(&mut more);
        i += 1;
        assert(parts_view(out@) =~= parts_view(before) + parts_view(added));
        assert(parts_view(out@) =~= model_parts(*cfg, dims) + layers_parts(*cfg, dims, i as int));
    }
    out
}

/// What is wrong with a tensor that is listed.
#[derive(Clone, Copy, Debug, PartialEq, Eq, Structural)]
pub enum PartFault {
    Missing,
    Offset,
    Shape,
    Bytes,
}

/// How many values a shape holds.
pub open spec fn volume(shape: Seq<nat>) -> nat
    decreases shape.len(),
{
    if shape.len() == 0 {
        1
    } else {
        volume(shape.drop_last()) * shape.last()
    }
}

/// Whether a listed shape is the one expected.
pub open spec fn same_shape(shape: Seq<usize>, expected: Seq<nat>) -> bool {
    shape.len() == expected.len() && forall|k: int|
        0 <= k < shape.len() ==> #[trigger] shape[k] == expected[k]
}

/// What is wrong with a listed tensor, in the order in which it is noticed.
pub open spec fn tensor_fault(t: TensorSpec, p: PartView, alignment: int) -> Option<PartFault> {
    if (t.offset as int) % alignment != 0 {
        Some(PartFault::Offset)
    } else if !same_shape(t.shape@, p.shape) {
        Some(PartFault::Shape)
    } else if t.nbytes != volume(p.shape) * 4 {
        Some(PartFault::Bytes)
    } else {
        None
    }
}

/// What is wrong with a tensor that a model has or may have.
pub open spec fn part_fault(ts: Seq<TensorSpec>, p: PartView, alignment: int) -> Option<PartFault> {
    match tensor_named(ts, p.name) {
        None => if p.required {
            Some(PartFault::Missing)
        } else {
            None
        },
        Some(k) => tensor_fault(ts[k], p, alignment),
    }
}

/// The first tensor from `k` on with which something is wrong.
pub open spec fn first_fault(
    ts: Seq<TensorSpec>,
    all: Seq<PartView>,
    alignment: int,
    k: int,
) -> Option<(Seq<char>, PartFault)>
    decreases all.len() - k,
{
    if k < 0 || k >= all.len() {
        None
    } else {
        match part_fault(ts, all[k], alignment) {
            Some(f) => Some((all[k].name, f)),
            None => first_fault(ts, all, alignment, k + 1),
        }
    }
}

/// Multiplying by more than nothing does not make less.
proof fn lemma_grows(x: nat, y: nat)
    requires
        y >= 1,
    ensures
        x * y >= x,
{
    assert(x * y >= x) by (nonlinear_arith)
        requires
            y >= 1,
    ;
}

/// Numbers as numbers without bounds.
pub open spec fn widened(s: Seq<usize>) -> Seq<nat> {
    s.map_values(|x: usize| x as nat)
}

/// A shape with an empty side holds nothing.
proof fn lemma_empty_side(s: Seq<nat>, k: int)
    requires
        0 <= k < s.len(),
        s[k] == 0,
    ensures
        volume(s) == 0,
    decreases s.len(),
{
    if k < s.len() - 1 {
        lemma_empty_side(s.drop_last(), k);
        assert(0 * s.last() == 0) by (nonlinear_arith);
    } else {
        assert(volume(s.drop_last()) * 0 == 0) by (nonlinear_arith);
    }
}

/// A shape without an empty side holds at least what its first sides do.
proof fn lemma_full_sides(s: Seq<nat>, n: int)
    requires
        0 <= n <= s.len(),
        forall|k: int| n <= k < s.len() ==> #[trigger] s[k] >= 1,
    ensures
        volume(s) >= volume(s.take(n)),
    decreases s.len() - n,
{
    if n < s.len() {
        lemma_full_sides(s, n + 1);
        assert(s.take(n + 1).drop_last() =~= s.take(n));
        lemma_grows(volume(s.take(n)), s[n]);
    } else {
        assert(s.take(n) =~= s);
    }
}

/// Counts the values of a shape, if they can be counted.
pub fn shape_volume(shape: &Vec<usize>) -> (r: Option<usize>)
    ensures
        match r {
            Some(v) => v == volume(widened(shape@)),
            None => volume(widened(shape@)) > usize::MAX,
        },
{
    let ghost s = widened(shape@);
    let mut z: usize = 0;
    while z < shape.len()
        invariant
            z <= shape@.len(),
            s == widened(shape@),
            forall|k: int| 0 <= k < z ==> #[trigger] s[k] >= 1,
        decreases shape@.len() - z,
    {
        if shape[z] == 0 {
            proof {
                lemma_empty_side(s, z as int);
            }
            return Some(0);
        }
        z += 1;
    }
    let mut v: usize = 1;
    let mut i: usize = 0;
    assert(s.take(0) =~= Seq::empty());
    while i < shape.len()
        invariant
            i <= shape@.len(),
            s == widened(shape@),
            forall|k: int| 0 <= k < s.len() ==> #[trigger] s[k] >= 1,
            v == volume(s.take(i as int)),
        decreases shape@.len() - i,
    {
        assert(s.take(i + 1).drop_last() =~= s.take(i as int));
        assert(s.take(i + 1).last() == shape@[i as int]);
        match v.checked_mul(shape[i]) {
            None => {
                proof {
                    lemma_full_sides(s, i + 1);
                }
                return None;
            },
            Some(x) => {
                v = x;
            },
        }
        i += 1;
    }
    assert(s.take(s.len() as int) =~= s);
    Some(v)
}

/// Finds out what is wrong with a listed tensor.
fn find_tensor_fault(t: &TensorSpec, p: &Part, alignment: usize) -> (r: Option<PartFault>)
    requires
        alignment > 0,
    ensures
        r == tensor_fault(*t, p@, alignment as int),
{
    if t.offset % alignment != 0 {
        return Some(PartFault::Offset);
    }
    if t.shape.len() != p.shape.len() {
        return Some(PartFault::Shape);
    }
    let mut i: usize = 0;
    while i < t.shape.len()
        invariant
            i <= t.shape@.len(),
            t.shape@.len() == p.shape@.len(),
            (t.offset as int) % (alignment as int) == 0,
            forall|k: int| 0 <= k < i ==> #[trigger] t.shape@[k] == p@.shape[k],
        decreases t.shape@.len() - i,
    {
        if t.shape[i] as u128 != p.shape[i] {
            assert(t.shape@[i as int] != p@.shape[i as int]);
            return Some(PartFault::Shape);
        }
        i += 1;
    }
    assert(widened(t.shape@) =~= p@.shape);
    match shape_volume(&t.shape) {
        None => Some(PartFault::Bytes),
        Some(v) => if t.nbytes % 4 != 0 || t.nbytes / 4 != v {
            Some(PartFault::Bytes)
        } else {
            None
        },
    }
}

/// Checks every tensor of a model against what the manifest lists.
pub fn validate_manifest_shapes(manifest: &Manifest, dims: DerivedDims) -> (r: Result<
    (),
    (String, PartFault),
>)
    requires
        manifest.alignment_bytes > 0,
    ensures
        match first_fault(
            manifest.tensors@,
            parts(manifest.model_config, dims),
            manifest.alignment_bytes as int,
            0,
        ) {
            None => r is Ok,
            Some((name, fault)) => r matches Err((n, f)) && n@ == name && f == fault,
        },
{
    let all: Vec<Part> = list_parts(&manifest.model_config, dims);
    let ghost ps = parts(manifest.model_config, dims);
    let ghost al = manifest.alignment_bytes as int;
    let mut k: usize = 0;
    while k < all.len()
        invariant
            k <= all@.len(),
            parts_view(all@) == ps,
            ps == parts(manifest.model_config, dims),
            al == manifest.alignment_bytes,
            al > 0,
            first_fault(manifest.tensors@, ps, al, 0) == first_fault(
                manifest.tensors@,
                ps,
                al,
                k as int,
            ),
        decreases all@.len() - k,
    {
        let p: &Part = &all[k];
        assert(ps[k as int] == p@);
        match find_tensor(&manifest.tensors, p.name.as_str()) {
            None => {
                if p.required {
                    return Err((p.name.as_str().to_owned(), PartFault::Missing));
                }
            },
            Some(t) => {
                if let Some(f) = find_tensor_fault(t, p, manifest.alignment_bytes) {
                    return Err((p.name.as_str().to_owned(), f));
                }
            },
        }
        k += 1;
    }
    Ok(())
}

/// Why a tensor cannot be loaded.
#[derive(Clone, Copy, Debug, PartialEq, Eq, Structural)]
pub enum TensorFault {
    Sha,
    Dtype,
    Ragged,
    OutOfRange,
    Misaligned,
}

/// Whether the bytes of a tensor are all there.
pub open spec fn tensor_in_range(t: TensorSpec, len: nat) -> bool {
    t.offset + t.nbytes <= len
}

/// Finds out whether the bytes of every tensor are there.
pub fn tensors_in_range(ts: &Vec<TensorSpec>, len: usize) -> (r: bool)
    ensures
        r == forall|i: int| 0 <= i < ts@.len() ==> tensor_in_range(#[trigger] ts@[i], len as nat),
{
    let mut i: usize = 0;
    while i < ts.len()
        invariant
            i <= ts@.len(),
            forall|k: int| 0 <= k < i ==> tensor_in_range(#[trigger] ts@[k], len as nat),
        decreases ts@.len() - i,
    {
        if ts[i].offset > len || len - ts[i].offset < ts[i].nbytes {
            assert(!tensor_in_range(ts@[i as int], len as nat));
            return false;
        }
        i += 1;
    }
    true
}

/// Compares the bytes of a tensor with their hash.
pub fn check_tensor_sha(blob: &[u8], spec: &TensorSpec) -> (r: Result<(), TensorFault>)
    requires
        tensor_in_range(*spec, blob@.len()),
    ensures
        r == if fingerprint(
            blob@.subrange(spec.offset as int, spec.offset + spec.nbytes),
        ) == spec.sha256@ {
            Ok::<(), TensorFault>(())
        } else {
            Err::<(), TensorFault>(TensorFault::Sha)
        },
{
    assert(blob@.len() == blob.len());
    let data: &[u8] = slice_subrange(blob, spec.offset, spec.offset + spec.nbytes);
    let actual: String = sha256_hex(data);
    if same_text(actual.as_str(), spec.sha256.as_str()) {
        Ok(())
    } else {
        Err(TensorFault::Sha)
    }
}

/// The values of a tensor. A file begins where a value may lie, so that its offset tells whether a
/// tensor does.
pub open spec fn tensor_values(blob: Seq<u8>, t: TensorSpec) -> Result<Seq<u32>, TensorFault> {
    if t.dtype@ != "f32"@ {
        Err(TensorFault::Dtype)
    } else if t.nbytes % 4 != 0 {
        Err(TensorFault::Ragged)
    } else if !tensor_in_range(t, blob.len()) {
        Err(TensorFault::OutOfRange)
    } else if t.offset % 4 != 0 {
        Err(TensorFault::Misaligned)
    } else {
        Ok(u32s_at(blob, t.offset as int, (t.nbytes / 4) as nat))
    }
}

/// Takes the values of a tensor out of a file.
pub fn slice_tensor(blob: &[u8], spec: &TensorSpec) -> (r: Result<Vec<u32>, TensorFault>)
    ensures
        match tensor_values(blob@, *spec) {
            Ok(v) => r matches Ok(x) && x@ == v,
            Err(e) => r == Err::<Vec<u32>, TensorFault>(e),
        },
{
    if !same_text(spec.dtype.as_str(), "f32") {
        return Err(TensorFault::Dtype);
    }
    if spec.nbytes % 4 != 0 {
        return Err(TensorFault::Ragged);
    }
    if spec.offset > blob.len() || blob.len() - spec.offset < spec.nbytes {
        return Err(TensorFault::OutOfRange);
    }
    if spec.offset % 4 != 0 {
        return Err(TensorFault::Misaligned);
    }
    Ok(get_u32s(blob, spec.offset, spec.nbytes / 4))
}

/// Why the weights of a model cannot be loaded.
#[derive(Clone, Copy, Debug, PartialEq, Eq, Structural)]
pub enum LoadFault {
    Missing,
    Tensor(TensorFault),
}

/// A tensor loaded: its values, once its hash is right.
pub open spec fn loaded(blob: Seq<u8>, ts: Seq<TensorSpec>, p: PartView) -> Result<
    Option<Seq<u32>>,
    LoadFault,
> {
    match tensor_named(ts, p.name) {
        None => if p.required {
            Err(LoadFault::Missing)
        } else {
            Ok(None)
        },
        Some(k) => {
            let t = ts[k];
            if fingerprint(blob.subrange(t.offset as int, t.offset + t.nbytes)) != t.sha256@ {
                Err(LoadFault::Tensor(TensorFault::Sha))
            } else {
                match tensor_values(blob, t) {
                    Ok(v) => Ok(Some(v)),
                    Err(e) => Err(LoadFault::Tensor(e)),
                }
            }
        },
    }
}

/// The first tensor from `k` on that cannot be loaded.
pub open spec fn first_unloaded(
    blob: Seq<u8>,
    ts: Seq<TensorSpec>,
    all: Seq<PartView>,
    k: int,
) -> Option<(Seq<char>, LoadFault)>
    decreases all.len() - k,
{
    if k < 0 || k >= all.len() {
        None
    } else {
        match loaded(blob, ts, all[k]) {
            Err(e) => Some((all[k].name, e)),
            Ok(_) => first_unloaded(blob, ts, all, k + 1),
        }
    }
}

/// Whether the bytes of every tensor from part `k` on are there, up to the first that cannot be
/// loaded.
pub open spec fn bytes_there(
    blob: Seq<u8>,
    ts: Seq<TensorSpec>,
    all: Seq<PartView>,
    k: int,
) -> bool
    decreases all.len() - k,
{
    if k < 0 || k >= all.len() {
        true
    } else {
        &&& tensor_named(ts, all[k].name) matches Some(i) ==> tensor_in_range(ts[i], blob.len())
        &&& loaded(blob, ts, all[k]) is Ok ==> bytes_there(blob, ts, all, k + 1)
    }
}

/// Where every listed tensor lies in the file, the bytes of all parts are there.
pub proof fn law_listed_tensors_are_there(
    blob: Seq<u8>,
    ts: Seq<TensorSpec>,
    all: Seq<PartView>,
    k: int,
)
    requires
        forall|i: int| 0 <= i < ts.len() ==> tensor_in_range(#[trigger] ts[i], blob.len()),
    ensures
        bytes_there(blob, ts, all, k),
    decreases all.len() - k,
{
    if 0 <= k < all.len() {
        lemma_named_is_listed(ts, all[k].name, ts.len() as int);
        law_listed_tensors_are_there(blob, ts, all, k + 1);
    }
}

proof fn lemma_named_is_listed(ts: Seq<TensorSpec>, name: Seq<char>, n: int)
    requires
        n <= ts.len(),
    ensures
        last_named(ts, name, n) matches Some(i) ==> 0 <= i < ts.len(),
    decreases n,
{
    if n > 0 {
        lemma_named_is_listed(ts, name, n - 1);
    }
}

/// The values inside an option.
pub open spec fn values_of(v: Option<Vec<u32>>) -> Option<Seq<u32>> {
    match v {
        Some(x) => Some(x@),
        None => None,
    }
}

/// Loads one tensor.
fn load_part(blob: &[u8], ts: &Vec<TensorSpec>, p: &Part) -> (r: Result<Option<Vec<u32>>, LoadFault>)
    requires
        tensor_named(ts@, p@.name) matches Some(i) ==> tensor_in_range(ts@[i], blob@.len()),
    ensures
        match loaded(blob@, ts@, p@) {
            Ok(v) => r matches Ok(x) && values_of(x) == v,
            Err(e) => r == Err::<Option<Vec<u32>>, LoadFault>(e),
        },
{
    match find_tensor(ts, p.name.as_str()) {
        None => if p.required {
            Err(LoadFault::Missing)
        } else {
            Ok(None)
        },
        Some(t) => match check_tensor_sha(blob, t) {
            Err(e) => Err(LoadFault::Tensor(e)),
            Ok(()) => match slice_tensor(blob, t) {
                Err(e) => Err(LoadFault::Tensor(e)),
                Ok(v) => Ok(Some(v)),
            },
        },
    }
}

/// How the state of a model is changed by a prior.
#[derive(Clone, Copy, Debug, PartialEq, Eq, Structural)]
pub enum StateSurgery {
    Off,
    AddFirst,
    AddAll,
    GateAll,
}

/// Where a prior comes from.
#[derive(Clone, Copy, Debug, PartialEq, Eq, Structural)]
pub enum PriorSource {
    Absent,
    Static,
    Uid,
    Auto,
}

/// The change that a name stands for.
pub open spec fn surgery_named(s: Seq<char>) -> Option<StateSurgery> {
    if s == "none"@ {
        Some(StateSurgery::Off)
    } else if s == "add_first"@ {
        Some(StateSurgery::AddFirst)
    } else if s == "add_all"@ {
        Some(StateSurgery::AddAll)
    } else if s == "gate_all"@ {
        Some(StateSurgery::GateAll)
    } else {
        None
    }
}

/// Computes [`surgery_named`].
pub fn parse_state_surgery(value: &str) -> (r: Option<StateSurgery>)
    ensures
        r == surgery_named(value@),
{
    if same_text(value, "none") {
        Some(StateSurgery::Off)
    } else if same_text(value, "add_first") {
        Some(StateSurgery::AddFirst)
    } else if same_text(value, "add_all") {
        Some(StateSurgery::AddAll)
    } else if same_text(value, "gate_all") {
        Some(StateSurgery::GateAll)
    } else {
        None
    }
}

/// The source that a name stands for.
pub open spec fn prior_named(s: Seq<char>) -> Option<PriorSource> {
    if s == "none"@ {
        Some(PriorSource::Absent)
    } else if s == "static"@ {
        Some(PriorSource::Static)
    } else if s == "uid"@ {
        Some(PriorSource::Uid)
    } else if s == "auto"@ {
        Some(PriorSource::Auto)
    } else {
        None
    }
}

/// Computes [`prior_named`].
pub fn parse_prior_source(value: &str) -> (r: Option<PriorSource>)
    ensures
        r == prior_named(value@),
{
    if same_text(value, "none") {
        Some(PriorSource::Absent)
    } else if same_text(value, "static") {
        Some(PriorSource::Static)
    } else if same_text(value, "uid") {
        Some(PriorSource::Uid)
    } else if same_text(value, "auto") {
        Some(PriorSource::Auto)
    } else {
        None
    }
}

/// How a row is run through the layers.
#[derive(Clone, Copy, Debug, PartialEq, Eq, Structural)]
pub enum ForwardKind {
    FullStateless,
}

/// How the error unit of a layer is computed.
#[derive(Clone, Copy, Debug, PartialEq, Eq, Structural)]
pub enum GeluKind {
    Erf,
}

/// How a soft threshold is computed.
#[derive(Clone, Copy, Debug, PartialEq, Eq, Structural)]
pub enum SoftplusKind {
    Exact,
}

/// What the head gives.
#[derive(Clone, Copy, Debug, PartialEq, Eq, Structural)]
pub enum LogitsKind {
    NativeTwoClass,
}

/// What the head is given.
#[derive(Clone, Copy, Debug, PartialEq, Eq, Structural)]
pub enum HeadInputKind {
    HeadIn,
}

/// How embeddings are added up.
#[derive(Clone, Copy, Debug, PartialEq, Eq, Structural)]
pub enum EmbSumMode {
    Fast,
}

/// How much a prior weighs: one.
pub const PRIOR_ALPHA: u32 = 0x3f800000;

/// The configuration that a model runs with.
#[derive(Clone, Copy, Debug, PartialEq, Eq, Structural)]
pub struct ModelConfig {
    pub forward_kind: ForwardKind,
    pub n_layers: usize,
    pub seq_len: usize,
    pub feature_dim: usize,
    pub vocab_size: usize,
    pub static_dim_total: usize,
    pub micro_state_dim: usize,
    pub d_model: usize,
    pub d_inner: usize,
    pub d_state: usize,
    pub d_state_pad: usize,
    pub d_mlp: usize,
    pub conv_kernel: usize,
    pub dt_rank: usize,
    pub ln_eps1: u32,
    pub ln_eps2: u32,
    pub gelu_kind: GeluKind,
    pub softplus_kind: SoftplusKind,
    pub softplus_beta: u32,
    pub softplus_threshold: u32,
    pub logits_kind: LogitsKind,
    pub head_input_kind: HeadInputKind,
    pub n_class: usize,
    pub state_surgery: StateSurgery,
    pub prior_source: PriorSource,
    pub emb_sum_mode: EmbSumMode,
    pub prior_alpha: u32,
}

/// What a manifest and the sizes told make of the configuration, once the two names are known.
pub open spec fn model_config(
    cfg: ManifestConfig,
    dims: DerivedDims,
    state_surgery: StateSurgery,
    prior_source: PriorSource,
) -> ModelConfig {
    ModelConfig {
        forward_kind: ForwardKind::FullStateless,
        n_layers: cfg.n_layers,
        seq_len: cfg.seq_len,
        feature_dim: cfg.feature_dim,
        vocab_size: cfg.vocab_size,
        static_dim_total: cfg.static_dim_total,
        micro_state_dim: match cfg.micro_state_dim {
            Some(n) => n,
            None => 0,
        },
        d_model: cfg.d_model,
        d_inner: cfg.d_inner,
        d_state: cfg.d_state,
        d_state_pad: dims.d_state_pad,
        d_mlp: cfg.d_mlp,
        conv_kernel: cfg.conv_kernel,
        dt_rank: dims.dt_rank,
        ln_eps1: cfg.ln_eps,
        ln_eps2: cfg.ln_eps,
        gelu_kind: GeluKind::Erf,
        softplus_kind: SoftplusKind::Exact,
        softplus_beta: cfg.softplus_beta,
        softplus_threshold: cfg.softplus_threshold,
        logits_kind: LogitsKind::NativeTwoClass,
        head_input_kind: HeadInputKind::HeadIn,
        n_class: cfg.n_class,
        state_surgery,
        prior_source,
        emb_sum_mode: EmbSumMode::Fast,
        prior_alpha: PRIOR_ALPHA,
    }
}

/// The weights of a model: its configuration, and the values of its tensors in the order of
/// [`parts`]. For each layer there are the zeros that stand in for a bias of `in_proj` or
/// `out_proj` that is not listed.
#[derive(Debug)]
pub struct Weights {
    pub cfg: ModelConfig,
    pub tensors: Vec<Option<Vec<u32>>>,
    pub in_proj_b_zero: Vec<Option<Vec<u32>>>,
    pub out_proj_b_zero: Vec<Option<Vec<u32>>>,
}

/// What stands in for a bias of layer `i`: as many zeros as it would have values where it is not
/// listed, and nothing where it is.
pub open spec fn stand_in(
    ts: Seq<TensorSpec>,
    i: int,
    suffix: Seq<char>,
    n: nat,
) -> Option<Seq<u32>> {
    if tensor_named(ts, layer_name(i, suffix)) is Some {
        None
    } else {
        Some(Seq::new(n, |j: int| 0u32))
    }
}

/// Whether there is one entry for each layer, and each is what stands in for its bias.
pub open spec fn stand_ins(
    ts: Seq<TensorSpec>,
    suffix: Seq<char>,
    n_layers: nat,
    n: nat,
    v: Seq<Option<Vec<u32>>>,
) -> bool {
    &&& v.len() == n_layers
    &&& forall|i: int|
        0 <= i < n_layers ==> values_of(#[trigger] v[i]) == stand_in(ts, i, suffix, n)
}

/// Whether the zeros that stand in for the biases of `in_proj` can be counted.
pub open spec fn zeros_countable(ts: Seq<TensorSpec>, cfg: ManifestConfig) -> bool {
    forall|i: int|
        0 <= i < cfg.n_layers && tensor_named(
            ts,
            #[trigger] layer_name(i, "mamba.in_proj.bias"@),
        ) is None ==> 2 * cfg.d_inner <= usize::MAX
}

/// Why the weights of a model cannot be built.
#[derive(Debug)]
pub enum WeightsError {
    StateSurgery,
    PriorSource,
    Tensor { name: String, fault: LoadFault },
}

/// Builds the weights of a model out of a file.
pub fn build_weights(manifest: &Manifest, dims: DerivedDims, blob: &[u8]) -> (r: Result<
    Weights,
    WeightsError,
>)
    requires
        surgery_named(manifest.model_config.state_surgery@) is Some && prior_named(
            manifest.model_config.prior_source@,
        ) is Some ==> bytes_there(
            blob@,
            manifest.tensors@,
            parts(manifest.model_config, dims),
            0,
        ) && (first_unloaded(
            blob@,
            manifest.tensors@,
            parts(manifest.model_config, dims),
            0,
        ) is None ==> zeros_countable(manifest.tensors@, manifest.model_config)),
    ensures
        ({
            let cfg = manifest.model_config;
            let all = parts(cfg, dims);
            match surgery_named(cfg.state_surgery@) {
                None => r matches Err(WeightsError::StateSurgery),
                Some(surgery) => match prior_named(cfg.prior_source@) {
                    None => r matches Err(WeightsError::PriorSource),
                    Some(prior) => match first_unloaded(blob@, manifest.tensors@, all, 0) {
                        Some((n, f)) => r matches Err(WeightsError::Tensor { name, fault })
                            && name@ == n && fault == f,
                        None => r matches Ok(w) && w.cfg == model_config(cfg, dims, surgery, prior)
                            && w.tensors@.len() == all.len() && (forall|k: int|
                            0 <= k < all.len() ==> loaded(blob@, manifest.tensors@, all[k]) == Ok::<
                                Option<Seq<u32>>,
                                LoadFault,
                            >(values_of(#[trigger] w.tensors@[k]))) && stand_ins(
                            manifest.tensors@,
                            "mamba.in_proj.bias"@,
                            cfg.n_layers as nat,
                            (2 * cfg.d_inner) as nat,
                            w.in_proj_b_zero@,
                        ) && stand_ins(
                            manifest.tensors@,
                            "mamba.out_proj.bias"@,
                            cfg.n_layers as nat,
                            cfg.d_model as nat,
                            w.out_proj_b_zero@,
                        ),
                    },
                },
            }
        }),
{
    let c: &ManifestConfig = &manifest.model_config;
    let state_surgery: StateSurgery = match parse_state_surgery(c.state_surgery.as_str()) {
        None => {
            return Err(WeightsError::StateSurgery);
        },
        Some(s) => s,
    };
    let prior_source: PriorSource = match parse_prior_source(c.prior_source.as_str()) {
        None => {
            return Err(WeightsError::PriorSource);
        },
        Some(s) => s,
    };
    let micro_state_dim: usize = match c.micro_state_dim {
        Some(n) => n,
        None => 0,
    };
    let cfg: ModelConfig = ModelConfig {
        forward_kind: ForwardKind::FullStateless,
        n_layers: c.n_layers,
        seq_len: c.seq_len,
        feature_dim: c.feature_dim,
        vocab_size: c.vocab_size,
        static_dim_total: c.static_dim_total,
        micro_state_dim,
        d_model: c.d_model,
        d_inner: c.d_inner,
        d_state: c.d_state,
        d_state_pad: dims.d_state_pad,
        d_mlp: c.d_mlp,
        conv_kernel: c.conv_kernel,
        dt_rank: dims.dt_rank,
        ln_eps1: c.ln_eps,
        ln_eps2: c.ln_eps,
        gelu_kind: GeluKind::Erf,
        softplus_kind: SoftplusKind::Exact,
        softplus_beta: c.softplus_beta,
        softplus_threshold: c.softplus_threshold,
        logits_kind: LogitsKind::NativeTwoClass,
        head_input_kind: HeadInputKind::HeadIn,
        n_class: c.n_class,
        state_surgery,
        prior_source,
        emb_sum_mode: EmbSumMode::Fast,
        prior_alpha: PRIOR_ALPHA,
    };
    let list: Vec<Part> = list_parts(c, dims);
    let ghost all = parts(*c, dims);
    let ghost ts = manifest.tensors@;
    let mut tensors: Vec<Option<Vec<u32>>> = Vec::new();
    let mut k: usize = 0;
    while k < list.len()
        invariant
            k <= list@.len(),
            parts_view(list@) == all,
            all == parts(manifest.model_config, dims),
            ts == manifest.tensors@,
            surgery_named(manifest.model_config.state_surgery@) is Some,
            prior_named(manifest.model_config.prior_source@) is Some,
            bytes_there(blob@, ts, all, k as int),
            first_unloaded(blob@, ts, all, 0) == first_unloaded(blob@, ts, all, k as int),
            tensors@.len() == k,
            forall|j: int|
                0 <= j < k ==> loaded(blob@, ts, all[j]) == Ok::<Option<Seq<u32>>, LoadFault>(
                    values_of(#[trigger] tensors@[j]),
                ),
        decreases list@.len() - k,
    {
        let p: &Part = &list[k];
        assert(all[k as int] == p@);
        match load_part(blob, &manifest.tensors, p) {
            Err(fault) => {
                return Err(WeightsError::Tensor { name: p.name.as_str().to_owned(), fault });
            },
            Ok(v) => {
                tensors.push(v);
            },
        }
        k += 1;
    }
    let mut in_proj_b_zero: Vec<Option<Vec<u32>>> = Vec::new();
    let mut out_proj_b_zero: Vec<Option<Vec<u32>>> = Vec::new();
    let mut i: usize = 0;
    while i < c.n_layers
        invariant
            i <= c.n_layers,
            c == &manifest.model_config,
            zeros_countable(manifest.tensors@, *c),
            stand_ins(
                manifest.tensors@,
                "mamba.in_proj.bias"@,
                i as nat,
                (2 * c.d_inner) as nat,
                in_proj_b_zero@,
            ),
            stand_ins(
                manifest.tensors@,
                "mamba.out_proj.bias"@,
                i as nat,
                c.d_model as nat,
                out_proj_b_zero@,
            ),
        decreases c.n_layers - i,
    {
        let in_proj: Option<&TensorSpec> = find_tensor(
            &manifest.tensors,
            layer_name_text(i, "mamba.in_proj.bias").as_str(),
        );
        let n: usize = if in_proj.is_some() {
            0
        } else {
            assert(tensor_named(
                manifest.tensors@,
                layer_name(i as int, "mamba.in_proj.bias"@),
            ) is None);
            2 * c.d_inner
        };
        in_proj_b_zero.push(zero_bias(&in_proj, n));
        let out_proj: Option<&TensorSpec> = find_tensor(
            &manifest.tensors,
            layer_name_text(i, "mamba.out_proj.bias").as_str(),
        );
        out_proj_b_zero.push(zero_bias(&out_proj, c.d_model));
        i += 1;
    }
    Ok(Weights { cfg, tensors, in_proj_b_zero, out_proj_b_zero })
}

/// A bias of zeros stands in for one that is not there.
pub fn zero_bias<T>(bias: &Option<T>, n: usize) -> (r: Option<Vec<u32>>)
    ensures
        match r {
            None => bias is Some,
            Some(z) => bias is None && z@ == Seq::new(n as nat, |i: int| 0u32),
        },
{
    match bias {
        Some(_) => None,
        None => {
            let z: Vec<u32> = vec![0u32; n];
            assert(z@ =~= Seq::new(n as nat, |i: int| 0u32));
            Some(z)
        },
    }
}

/// Where the tensors of layer `i` begin among all tensors of a model.
pub open spec fn layer_begin(cfg: ManifestConfig, dims: DerivedDims, i: int) -> int {
    model_parts(cfg, dims).len() + i * 19
}

proof fn lemma_layers_parts(cfg: ManifestConfig, dims: DerivedDims, n: int, i: int, j: int)
    requires
        0 <= i < n,
        0 <= j < 19,
    ensures
        layers_parts(cfg, dims, n).len() == 19 * n,
        layers_parts(cfg, dims, n)[i * 19 + j] == layer_parts(cfg, dims, i)[j],
    decreases n,
{
    reveal_with_fuel(layers_parts, 2);
    assert(layer_parts(cfg, dims, n - 1).len() == 19);
    if n > 1 {
        lemma_layers_parts(cfg, dims, n - 1, if i < n - 1 { i } else { 0 }, j);
    }
}

/// All tensors of every layer are among the tensors of a model, layer by layer.
pub proof fn law_layers_are_parts(cfg: ManifestConfig, dims: DerivedDims, i: int, j: int)
    requires
        0 <= i < cfg.n_layers,
        0 <= j < layer_parts(cfg, dims, i).len(),
    ensures
        0 <= layer_begin(cfg, dims, i) + j < parts(cfg, dims).len(),
        parts(cfg, dims)[layer_begin(cfg, dims, i) + j] == layer_parts(cfg, dims, i)[j],
{
    lemma_layers_parts(cfg, dims, cfg.n_layers as int, i, j);
    assert(0 <= i * 19 + j < 19 * cfg.n_layers);
}

/// Nothing is wrong with any of the tensors where there is no first fault.
proof fn lemma_no_fault(
    ts: Seq<TensorSpec>,
    all: Seq<PartView>,
    alignment: int,
    k: int,
    i: int,
)
    requires
        0 <= k <= i < all.len(),
        first_fault(ts, all, alignment, k) is None,
    ensures
        part_fault(ts, all[i], alignment) is None,
    decreases i - k,
{
    if k < i {
        lemma_no_fault(ts, all, alignment, k + 1, i);
    }
}

/// Where the shapes of all tensors are right, the zeros that stand in for a bias can be counted.
pub proof fn law_right_shapes_leave_countable_zeros(m: Manifest, dims: DerivedDims)
    requires
        first_fault(
            m.tensors@,
            parts(m.model_config, dims),
            m.alignment_bytes as int,
            0,
        ) is None,
    ensures
        zeros_countable(m.tensors@, m.model_config),
{
    let cfg = m.model_config;
    let ts = m.tensors@;
    let al = m.alignment_bytes as int;
    if cfg.n_layers > 0 {
        law_layers_are_parts(cfg, dims, 0, 4);
        let k = layer_begin(cfg, dims, 0) + 4;
        let p = parts(cfg, dims)[k];
        lemma_no_fault(ts, parts(cfg, dims), al, 0, k);
        lemma_named_is_listed(ts, p.name, ts.len() as int);
        let t = ts[tensor_named(ts, p.name)->0];
        assert(p.shape[0] == 2 * cfg.d_inner);
        assert(t.shape@[0] == 2 * cfg.d_inner);
    }
}

/// Every tensor that was loaded after the shapes were found right has as many values as its shape
/// says.
pub proof fn law_loaded_tensors_fit(
    blob: Seq<u8>,
    ts: Seq<TensorSpec>,
    p: PartView,
    alignment: int,
)
    requires
        part_fault(ts, p, alignment) is None,
        loaded(blob, ts, p) matches Ok(Some(v)),
    ensures
        loaded(blob, ts, p)->Ok_0->0.len() == volume(p.shape),
{
    let k = tensor_named(ts, p.name)->0;
    assert(ts[k].nbytes == volume(p.shape) * 4);
}

} // verus!
