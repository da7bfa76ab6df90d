//! The network that may decide a row: what it is told of the row, and the chance it answers with.

use crate::arith::{answers, follows, total, SingleOp};
use crate::bands::{greater_of, lesser, max_of, mlp_tau_bin, tau_bin_of};
use crate::exact::{adds_exactly, law_opposite_worth, law_worth_orders, sum_worth, worth};
use crate::single::{absolute, line, nan, negated, opposite, unsigned, ONE};
use crate::text::same_text;
use vstd::prelude::*;

verus! {

/// Bit pattern of two thousand and forty-eight, the scale of tree counts.
pub const TREE_SCALE: u32 = 0x4500_0000;

/// The chances at one checkpoint up to which a row is referred and from which it is rejected.
#[derive(Clone, Copy, Debug, PartialEq, Eq, Structural)]
pub struct LoadedMlpCheckpoint {
    pub checkpoint: usize,
    pub tau_ref: u32,
    pub tau_rej: u32,
}

/// A network as its file lists it.
#[derive(Debug)]
pub struct MlpCertifierFile {
    pub format: String,
    pub feature_schema_version: u32,
    pub variant_key: String,
    pub checkpoint_values: Vec<usize>,
    pub fold_values: Vec<i32>,
    pub tau_edges: Vec<u32>,
    pub checkpoint_limit: usize,
    pub mean: Vec<u32>,
    pub inv_std: Vec<u32>,
    pub w1: Vec<Vec<u32>>,
    pub b1: Vec<u32>,
    pub w2: Vec<Vec<u32>>,
    pub b2: Vec<u32>,
    pub w3: Vec<u32>,
    pub b3: u32,
    pub thresholds: Vec<LoadedMlpCheckpoint>,
}

/// A network of two hidden layers.
#[derive(Debug)]
pub struct LoadedMlpCertifier {
    pub feature_schema_version: u32,
    pub variant_key: String,
    pub checkpoint_values: Vec<usize>,
    pub fold_values: Vec<i32>,
    pub tau_edges: Vec<u32>,
    pub checkpoint_limit: usize,
    pub mean: Vec<u32>,
    pub inv_std: Vec<u32>,
    pub w1: Vec<Vec<u32>>,
    pub b1: Vec<u32>,
    pub w2: Vec<Vec<u32>>,
    pub b2: Vec<u32>,
    pub w3: Vec<u32>,
    pub b3: u32,
    /// By checkpoint; a later entry for the same checkpoint counts.
    pub thresholds: Vec<LoadedMlpCheckpoint>,
}

/// Why a network is not accepted.
#[derive(Clone, Copy, Debug, PartialEq, Eq, Structural)]
pub enum MlpError {
    Format,
    Normalization,
    HiddenShape,
    FirstLayer { expected: usize, got: usize },
    SecondLayer { expected: usize, got: usize },
    LastLayer { expected: usize, got: usize },
}

/// Where the first row of another length than `n` stands, from row `i` on.
pub open spec fn odd_row(rows: Seq<Vec<u32>>, n: nat, i: int) -> Option<int>
    decreases rows.len() - i,
{
    if i < 0 || i >= rows.len() {
        None
    } else if rows[i]@.len() != n {
        Some(i)
    } else {
        odd_row(rows, n, i + 1)
    }
}

fn find_odd_row(rows: &Vec<Vec<u32>>, n: usize) -> (r: Option<usize>)
    ensures
        match r {
            None => odd_row(rows@, n as nat, 0) is None,
            Some(i) => i < rows@.len() && odd_row(rows@, n as nat, 0) == Some(i as int),
        },
{
    let mut i: usize = 0;
    while i < rows.len()
        invariant
            i <= rows@.len(),
            odd_row(rows@, n as nat, 0) == odd_row(rows@, n as nat, i as int),
        decreases rows@.len() - i,
    {
        if rows[i].len() != n {
            return Some(i);
        }
        i += 1;
    }
    None
}

/// What is wrong with the shape of a network.
pub open spec fn shape_fault(f: MlpCertifierFile) -> Option<MlpError> {
    let inputs = f.mean@.len();
    let first = f.w1@.len();
    let second = f.w2@.len();
    if f.format@ != "L2PrefixCalMlpV1"@ {
        Some(MlpError::Format)
    } else if inputs != f.inv_std@.len() {
        Some(MlpError::Normalization)
    } else if first != f.b1@.len() || second != f.b2@.len() {
        Some(MlpError::HiddenShape)
    } else if odd_row(f.w1@, inputs, 0) is Some {
        Some(
            MlpError::FirstLayer {
                expected: inputs as usize,
                got: f.w1@[odd_row(f.w1@, inputs, 0)->Some_0]@.len() as usize,
            },
        )
    } else if odd_row(f.w2@, first, 0) is Some {
        Some(
            MlpError::SecondLayer {
                expected: first as usize,
                got: f.w2@[odd_row(f.w2@, first, 0)->Some_0]@.len() as usize,
            },
        )
    } else if f.w3@.len() != second {
        Some(MlpError::LastLayer { expected: second as usize, got: f.w3@.len() as usize })
    } else {
        None
    }
}

/// The network that a file lists.
pub open spec fn listed(f: MlpCertifierFile) -> LoadedMlpCertifier {
    LoadedMlpCertifier {
        feature_schema_version: f.feature_schema_version,
        variant_key: f.variant_key,
        checkpoint_values: f.checkpoint_values,
        fold_values: f.fold_values,
        tau_edges: f.tau_edges,
        checkpoint_limit: f.checkpoint_limit,
        mean: f.mean,
        inv_std: f.inv_std,
        w1: f.w1,
        b1: f.b1,
        w2: f.w2,
        b2: f.b2,
        w3: f.w3,
        b3: f.b3,
        thresholds: f.thresholds,
    }
}

/// Takes a network from its file, provided that the layers fit each other.
pub fn load_mlp_certifier(raw: MlpCertifierFile) -> (r: Result<LoadedMlpCertifier, MlpError>)
    ensures
        r == match shape_fault(raw) {
            Some(e) => Err(e),
            None => Ok(listed(raw)),
        },
{
    if !same_text(raw.format.as_str(), "L2PrefixCalMlpV1") {
        return Err(MlpError::Format);
    }
    if raw.mean.len() != raw.inv_std.len() {
        return Err(MlpError::Normalization);
    }
    if raw.w1.len() != raw.b1.len() || raw.w2.len() != raw.b2.len() {
        return Err(MlpError::HiddenShape);
    }
    match find_odd_row(&raw.w1, raw.mean.len()) {
        Some(i) => {
            return Err(MlpError::FirstLayer { expected: raw.mean.len(), got: raw.w1[i].len() });
        },
        None => {},
    }
    match find_odd_row(&raw.w2, raw.w1.len()) {
        Some(i) => {
            return Err(MlpError::SecondLayer { expected: raw.w1.len(), got: raw.w2[i].len() });
        },
        None => {},
    }
    if raw.w3.len() != raw.w2.len() {
        return Err(MlpError::LastLayer { expected: raw.w2.len(), got: raw.w3.len() });
    }
    Ok(
        LoadedMlpCertifier {
            feature_schema_version: raw.feature_schema_version,
            variant_key: raw.variant_key,
            checkpoint_values: raw.checkpoint_values,
            fold_values: raw.fold_values,
            tau_edges: raw.tau_edges,
            checkpoint_limit: raw.checkpoint_limit,
            mean: raw.mean,
            inv_std: raw.inv_std,
            w1: raw.w1,
            b1: raw.b1,
            w2: raw.w2,
            b2: raw.b2,
            w3: raw.w3,
            b3: raw.b3,
            thresholds: raw.thresholds,
        },
    )
}

/// The last entry for a checkpoint among the first `n`.
pub open spec fn last_entry(
    s: Seq<LoadedMlpCheckpoint>,
    checkpoint: usize,
    n: int,
) -> Option<LoadedMlpCheckpoint>
    decreases n,
{
    if n <= 0 {
        None
    } else if s[n - 1].checkpoint == checkpoint {
        Some(s[n - 1])
    } else {
        last_entry(s, checkpoint, n - 1)
    }
}

/// How many bins of the threshold the network is told apart.
pub open spec fn tau_places(n: LoadedMlpCertifier) -> int {
    if n.tau_edges@.len() >= 2 {
        n.tau_edges@.len() - 1
    } else {
        1
    }
}

/// How many values the network is told.
pub open spec fn told(n: LoadedMlpCertifier) -> int {
    n.checkpoint_values@.len() + n.fold_values@.len() + tau_places(n) + 8
}

/// Whether the network has a scale for everything that it is told.
pub open spec fn network_fits(n: LoadedMlpCertifier) -> bool {
    told(n) <= n.mean@.len() && told(n) <= n.inv_std@.len()
}

impl LoadedMlpCertifier {
    /// What the network's answer at a checkpoint is held against.
    pub open spec fn entry(self, checkpoint: usize) -> Option<LoadedMlpCheckpoint> {
        if checkpoint <= self.checkpoint_limit {
            last_entry(self.thresholds@, checkpoint, self.thresholds@.len() as int)
        } else {
            None
        }
    }

    /// Finds what the network's answer at a checkpoint is held against.
    pub fn threshold(&self, checkpoint: usize) -> (r: Option<LoadedMlpCheckpoint>)
        ensures
            r == self.entry(checkpoint),
    {
        if checkpoint > self.checkpoint_limit {
            return None;
        }
        let mut i: usize = self.thresholds.len();
        while i > 0
            invariant
                i <= self.thresholds@.len(),
                checkpoint <= self.checkpoint_limit,
                self.entry(checkpoint) == last_entry(self.thresholds@, checkpoint, i as int),
            decreases i,
        {
            i -= 1;
            if self.thresholds[i].checkpoint == checkpoint {
                return Some(self.thresholds[i]);
            }
        }
        None
    }

    /// Finds out whether the network has a scale for everything that it is told.
    pub fn fits(&self) -> (r: bool)
        ensures
            r == network_fits(*self),
    {
        let room: usize = if self.mean.len() <= self.inv_std.len() {
            self.mean.len()
        } else {
            self.inv_std.len()
        };
        let taus: usize = if self.tau_edges.len() >= 2 {
            self.tau_edges.len() - 1
        } else {
            1
        };
        let checkpoints: usize = self.checkpoint_values.len();
        let folds: usize = self.fold_values.len();
        if room < checkpoints || room - checkpoints < folds || room - checkpoints - folds < taus {
            return false;
        }
        room - checkpoints - folds - taus >= 8
    }
}

/// What the network is told of a row.
pub struct NetworkRow {
    pub checkpoint: usize,
    pub fold: i32,
    pub tau: u32,
    pub score: u32,
    pub gap: u32,
    pub delta_prev: u32,
    pub delta_from_64: u32,
    pub evals_per_tree: u32,
    pub trees_used: usize,
    pub early_rate: u32,
}

/// One at the first place that holds `v`, zero elsewhere.
pub open spec fn one_hot<T>(values: Seq<T>, v: T) -> Seq<u32> {
    Seq::new(
        values.len(),
        |i: int|
            if values[i] == v && !values.subrange(0, i).contains(v) {
                ONE
            } else {
                0
            },
    )
}

/// One at place `k` of `n`, zero elsewhere.
pub open spec fn mark(n: int, k: int) -> Seq<u32> {
    Seq::new(
        n as nat,
        |i: int|
            if i == k {
                ONE
            } else {
                0
            },
    )
}

/// What the network is told, before it is scaled: the checkpoint, the fold and the bin of the
/// threshold as marks, followed by eight measures.
pub open spec fn raw_input(
    m: spec_fn(SingleOp) -> u32,
    n: LoadedMlpCertifier,
    row: NetworkRow,
) -> Seq<u32> {
    one_hot(n.checkpoint_values@, row.checkpoint) + one_hot(n.fold_values@, row.fold) + mark(
        tau_places(n),
        lesser(tau_bin_of(n.tau_edges@, row.tau), tau_places(n) - 1),
    ) + seq![
        row.score,
        row.gap,
        unsigned(row.gap),
        row.delta_prev,
        row.delta_from_64,
        row.evals_per_tree,
        m(SingleOp::Quotient(m(SingleOp::Nearest(row.trees_used as u64)), TREE_SCALE)),
        row.early_rate,
    ]
}

/// What the network is told.
pub open spec fn network_input(
    m: spec_fn(SingleOp) -> u32,
    n: LoadedMlpCertifier,
    row: NetworkRow,
) -> Seq<u32> {
    let raw = raw_input(m, n, row);
    Seq::new(
        raw.len(),
        |i: int|
            m(SingleOp::Product(m(SingleOp::Difference(raw[i], n.mean@[i])), n.inv_std@[i])),
    )
}

fn push_one_hot<T: Copy>(out: &mut Vec<u32>, hits: &Vec<bool>, values: Ghost<Seq<T>>, v: Ghost<T>)
    requires
        hits@.len() == values@.len(),
        forall|i: int| 0 <= i < hits@.len() ==> #[trigger] hits@[i] == (values@[i] == v@),
    ensures
        final(out)@ == old(out)@ + one_hot(values@, v@),
{
    let mut seen: bool = false;
    let mut i: usize = 0;
    let ghost want = one_hot(values@, v@);
    let ghost start = out@;
    while i < hits.len()
        invariant
            i <= hits@.len(),
            hits@.len() == values@.len(),
            want == one_hot(values@, v@),
            forall|j: int| 0 <= j < hits@.len() ==> #[trigger] hits@[j] == (values@[j] == v@),
            seen == values@.subrange(0, i as int).contains(v@),
            out@ == start + want.subrange(0, i as int),
        decreases hits@.len() - i,
    {
        let hit: bool = hits[i] && !seen;
        out.push(
            if hit {
                ONE
            } else {
                0
            },
        );
        proof {
            let now = values@.subrange(0, i as int);
            let next = values@.subrange(0, i + 1);
            assert(next =~= now.push(values@[i as int]));
            if now.contains(v@) {
                let j = choose|j: int| 0 <= j < now.len() && now[j] == v@;
                assert(next[j] == v@);
            }
            if hits@[i as int] {
                assert(next[i as int] == v@);
            }
            if next.contains(v@) {
                let j = choose|j: int| 0 <= j < next.len() && next[j] == v@;
                if j < i {
                    assert(now[j] == v@);
                }
            }
            assert(want.subrange(0, i + 1) =~= want.subrange(0, i as int).push(want[i as int]));
        }
        if hits[i] {
            seen = true;
        }
        i += 1;
    }
    assert(want.subrange(0, want.len() as int) =~= want);
}

/// Makes up what the network is told.
pub fn build_mlp_input<A: Fn(SingleOp) -> u32>(
    arith: &A,
    cert: &LoadedMlpCertifier,
    checkpoint: usize,
    fold_id: i32,
    tau_used: u32,
    prefix_score: u32,
    gap: u32,
    delta_prev_checkpoint: u32,
    delta_from_64: u32,
    evals_per_tree: u32,
    trees_used: usize,
    resolved_early_rate_so_far: u32,
) -> (r: Vec<u32>)
    requires
        answers(*arith),
        network_fits(*cert),
    ensures
        forall|m: spec_fn(SingleOp) -> u32| #[trigger]
            follows(*arith, m) ==> r@ == network_input(
                m,
                *cert,
                (NetworkRow {
                    checkpoint,
                    fold: fold_id,
                    tau: tau_used,
                    score: prefix_score,
                    gap,
                    delta_prev: delta_prev_checkpoint,
                    delta_from_64,
                    evals_per_tree,
                    trees_used,
                    early_rate: resolved_early_rate_so_far,
                }),
            ),
{
    let ghost row = NetworkRow {
        checkpoint,
        fold: fold_id,
        tau: tau_used,
        score: prefix_score,
        gap,
        delta_prev: delta_prev_checkpoint,
        delta_from_64,
        evals_per_tree,
        trees_used,
        early_rate: resolved_early_rate_so_far,
    };
    let mut raw: Vec<u32> = Vec::new();
    let mut hits: Vec<bool> = Vec::new();
    let mut i: usize = 0;
    while i < cert.checkpoint_values.len()
        invariant
            i == hits@.len(),
            i <= cert.checkpoint_values@.len(),
            forall|j: int|
                0 <= j < i ==> #[trigger] hits@[j] == (cert.checkpoint_values@[j] == checkpoint),
        decreases cert.checkpoint_values@.len() - i,
    {
        hits.push(cert.checkpoint_values[i] == checkpoint);
        i += 1;
    }
    push_one_hot(&mut raw, &hits, Ghost(cert.checkpoint_values@), Ghost(checkpoint));
    let mut fold_hits: Vec<bool> = Vec::new();
    let mut k: usize = 0;
    while k < cert.fold_values.len()
        invariant
            k == fold_hits@.len(),
            k <= cert.fold_values@.len(),
            forall|j: int|
                0 <= j < k ==> #[trigger] fold_hits@[j] == (cert.fold_values@[j] == fold_id),
        decreases cert.fold_values@.len() - k,
    {
        fold_hits.push(cert.fold_values[k] == fold_id);
        k += 1;
    }
    push_one_hot(&mut raw, &fold_hits, Ghost(cert.fold_values@), Ghost(fold_id));
    let ghost head = raw@;
    let taus: usize = if cert.tau_edges.len() >= 2 {
        cert.tau_edges.len() - 1
    } else {
        1
    };
    let bin: usize = mlp_tau_bin(cert.tau_edges.as_slice(), tau_used);
    let place: usize = if bin <= taus - 1 {
        bin
    } else {
        taus - 1
    };
    let ghost marks = mark(taus as int, place as int);
    let mut t: usize = 0;
    while t < taus
        invariant
            t <= taus,
            marks == mark(taus as int, place as int),
            raw@ == head + marks.subrange(0, t as int),
        decreases taus - t,
    {
        raw.push(
            if t == place {
                ONE
            } else {
                0
            },
        );
        assert(marks.subrange(0, t + 1) =~= marks.subrange(0, t as int).push(marks[t as int]));
        t += 1;
    }
    assert(marks.subrange(0, taus as int) =~= marks);
    let trees: u32 = arith(SingleOp::Nearest(trees_used as u64));
    let share: u32 = arith(SingleOp::Quotient(trees, TREE_SCALE));
    raw.push(prefix_score);
    raw.push(gap);
    raw.push(absolute(gap));
    raw.push(delta_prev_checkpoint);
    raw.push(delta_from_64);
    raw.push(evals_per_tree);
    raw.push(share);
    raw.push(resolved_early_rate_so_far);
    assert forall|m: spec_fn(SingleOp) -> u32| #[trigger] follows(*arith, m) implies raw@
        == raw_input(m, *cert, row) by {
        assert(raw@ =~= raw_input(m, *cert, row));
    }
    assert(raw@.len() == told(*cert));
    let mut out: Vec<u32> = Vec::new();
    let mut o: usize = 0;
    while o < raw.len()
        invariant
            answers(*arith),
            o == out@.len(),
            o <= raw@.len(),
            raw@.len() <= cert.mean@.len(),
            raw@.len() <= cert.inv_std@.len(),
            forall|m: spec_fn(SingleOp) -> u32, j: int| #[trigger]
                follows(*arith, m) && 0 <= j < o ==> #[trigger] out@[j] == m(
                    SingleOp::Product(
                        m(SingleOp::Difference(raw@[j], cert.mean@[j])),
                        cert.inv_std@[j],
                    ),
                ),
        decreases raw@.len() - o,
    {
        let d: u32 = arith(SingleOp::Difference(raw[o], cert.mean[o]));
        let p: u32 = arith(SingleOp::Product(d, cert.inv_std[o]));
        out.push(p);
        o += 1;
    }
    assert forall|m: spec_fn(SingleOp) -> u32| #[trigger] follows(*arith, m) implies out@
        == network_input(m, *cert, row) by {
        assert(out@ =~= network_input(m, *cert, row));
    }
    out
}

/// A start to which the products of the first `n` weights and values are added in order.
pub open spec fn weighted(
    m: spec_fn(SingleOp) -> u32,
    start: u32,
    w: Seq<u32>,
    x: Seq<u32>,
    n: int,
) -> u32
    decreases n,
{
    if n <= 0 {
        start
    } else {
        m(
            SingleOp::Sum(
                weighted(m, start, w, x, n - 1),
                m(SingleOp::Product(w[n - 1], x[n - 1])),
            ),
        )
    }
}

/// A start to which weights times values are added, as far as there are both.
pub open spec fn combined(m: spec_fn(SingleOp) -> u32, start: u32, w: Seq<u32>, x: Seq<u32>) -> u32 {
    weighted(m, start, w, x, lesser(w.len() as int, x.len() as int))
}

/// A hidden layer: every row weighs the values, and what is negative becomes nothing.
pub open spec fn hidden(
    m: spec_fn(SingleOp) -> u32,
    w: Seq<Vec<u32>>,
    b: Seq<u32>,
    x: Seq<u32>,
) -> Seq<u32> {
    Seq::new(
        b.len(),
        |i: int|
            if i < w.len() {
                greater_of(combined(m, b[i], w[i]@, x), 0)
            } else {
                0
            },
    )
}

/// What the network makes of its input: two hidden layers, and the logistic curve of the rest.
pub open spec fn forward(m: spec_fn(SingleOp) -> u32, n: LoadedMlpCertifier, x: Seq<u32>) -> u32 {
    let h1 = hidden(m, n.w1@, n.b1@, x);
    let h2 = hidden(m, n.w2@, n.b2@, h1);
    let z = combined(m, n.b3, n.w3@, h2);
    m(
        SingleOp::Quotient(
            ONE,
            m(SingleOp::Sum(ONE, m(SingleOp::Exponential(opposite(z))))),
        ),
    )
}

/// The chance of a rejection that the network gives a row.
pub open spec fn chance(m: spec_fn(SingleOp) -> u32, n: LoadedMlpCertifier, row: NetworkRow) -> u32 {
    forward(m, n, network_input(m, n, row))
}

fn combine<A: Fn(SingleOp) -> u32>(arith: &A, start: u32, w: &Vec<u32>, x: &Vec<u32>) -> (r: u32)
    requires
        answers(*arith),
    ensures
        forall|m: spec_fn(SingleOp) -> u32| #[trigger]
            follows(*arith, m) ==> r == combined(m, start, w@, x@),
{
    let n: usize = if w.len() <= x.len() {
        w.len()
    } else {
        x.len()
    };
    let mut sum: u32 = start;
    let mut i: usize = 0;
    while i < n
        invariant
            answers(*arith),
            i <= n,
            n <= w@.len(),
            n <= x@.len(),
            forall|m: spec_fn(SingleOp) -> u32| #[trigger]
                follows(*arith, m) ==> sum == weighted(m, start, w@, x@, i as int),
        decreases n - i,
    {
        let p: u32 = arith(SingleOp::Product(w[i], x[i]));
        let next: u32 = arith(SingleOp::Sum(sum, p));
        sum = next;
        i += 1;
    }
    sum
}

fn hide_layer<A: Fn(SingleOp) -> u32>(
    arith: &A,
    w: &Vec<Vec<u32>>,
    b: &Vec<u32>,
    x: &Vec<u32>,
) -> (r: Vec<u32>)
    requires
        answers(*arith),
    ensures
        forall|m: spec_fn(SingleOp) -> u32| #[trigger]
            follows(*arith, m) ==> r@ == hidden(m, w@, b@, x@),
{
    let mut out: Vec<u32> = Vec::new();
    let mut i: usize = 0;
    while i < b.len()
        invariant
            answers(*arith),
            i == out@.len(),
            i <= b@.len(),
            forall|m: spec_fn(SingleOp) -> u32, j: int| #[trigger]
                follows(*arith, m) && 0 <= j < i ==> #[trigger] out@[j] == hidden(m, w@, b@, x@)[j],
        decreases b@.len() - i,
    {
        let v: u32 = if i < w.len() {
            let sum: u32 = combine(arith, b[i], &w[i], x);
            max_of(sum, 0)
        } else {
            0
        };
        out.push(v);
        i += 1;
    }
    assert forall|m: spec_fn(SingleOp) -> u32| #[trigger] follows(*arith, m) implies out@
        == hidden(m, w@, b@, x@) by {
        assert(out@ =~= hidden(m, w@, b@, x@));
    }
    out
}

/// Computes [`forward`].
pub fn mlp_forward<A: Fn(SingleOp) -> u32>(
    arith: &A,
    cert: &LoadedMlpCertifier,
    input: &Vec<u32>,
) -> (r: u32)
    requires
        answers(*arith),
    ensures
        forall|m: spec_fn(SingleOp) -> u32| #[trigger]
            follows(*arith, m) ==> r == forward(m, *cert, input@),
{
    let h1: Vec<u32> = hide_layer(arith, &cert.w1, &cert.b1, input);
    let h2: Vec<u32> = hide_layer(arith, &cert.w2, &cert.b2, &h1);
    let z: u32 = combine(arith, cert.b3, &cert.w3, &h2);
    let e: u32 = arith(SingleOp::Exponential(negated(z)));
    let d: u32 = arith(SingleOp::Sum(ONE, e));
    let q: u32 = arith(SingleOp::Quotient(ONE, d));
    q
}

/// The products of weights and values, as far as there are both.
pub open spec fn products(m: spec_fn(SingleOp) -> u32, w: Seq<u32>, x: Seq<u32>) -> Seq<u32> {
    Seq::new(
        if w.len() <= x.len() {
            w.len()
        } else {
            x.len()
        },
        |k: int| m(SingleOp::Product(w[k], x[k])),
    )
}

proof fn lemma_weighted_is_total(
    m: spec_fn(SingleOp) -> u32,
    start: u32,
    w: Seq<u32>,
    x: Seq<u32>,
    n: int,
)
    requires
        0 <= n <= products(m, w, x).len(),
    ensures
        weighted(m, start, w, x, n) == total(m, start, products(m, w, x).take(n)),
    decreases n,
{
    let p = products(m, w, x);
    if n > 0 {
        lemma_weighted_is_total(m, start, w, x, n - 1);
        assert(p.take(n).drop_last() =~= p.take(n - 1));
    } else {
        assert(p.take(n) =~= Seq::empty());
    }
}

/// Each unit of a hidden layer is the positive part of its own bias and its weighted inputs
/// together.
pub proof fn law_hidden_units_add_to_their_bias(
    m: spec_fn(SingleOp) -> u32,
    w: Seq<Vec<u32>>,
    b: Seq<u32>,
    x: Seq<u32>,
    i: int,
)
    requires
        0 <= i < b.len(),
        i < w.len(),
        adds_exactly(m, b[i], products(m, w[i]@, x)),
    ensures
        hidden(m, w, b, x).len() == b.len(),
        !nan(hidden(m, w, b, x)[i]),
        ({
            let sum = worth(b[i]) + sum_worth(products(m, w[i]@, x));
            worth(hidden(m, w, b, x)[i]) == if sum > 0 {
                sum
            } else {
                0
            }
        }),
{
    let p = products(m, w[i]@, x);
    lemma_weighted_is_total(m, b[i], w[i]@, x, p.len() as int);
    assert(p.take(p.len() as int) =~= p);
    let sum = combined(m, b[i], w[i]@, x);
    assert(sum == total(m, b[i], p.take(p.len() as int)));
    law_worth_orders(sum, 0);
    law_opposite_worth(0);
}

/// Where the weighted inputs of a unit are worth nothing, as with inputs that are all zero, the unit
/// is the positive part of its bias.
pub proof fn law_hidden_units_of_nothing_are_their_bias(
    m: spec_fn(SingleOp) -> u32,
    w: Seq<Vec<u32>>,
    b: Seq<u32>,
    x: Seq<u32>,
    i: int,
)
    requires
        0 <= i < b.len(),
        i < w.len(),
        adds_exactly(m, b[i], products(m, w[i]@, x)),
        forall|k: int|
            0 <= k < products(m, w[i]@, x).len() ==> worth(
                #[trigger] products(m, w[i]@, x)[k],
            ) == 0,
    ensures
        worth(hidden(m, w, b, x)[i]) == if worth(b[i]) > 0 {
            worth(b[i])
        } else {
            0
        },
{
    law_hidden_units_add_to_their_bias(m, w, b, x, i);
    lemma_nothing_sums_to_nothing(products(m, w[i]@, x));
}

proof fn lemma_nothing_sums_to_nothing(values: Seq<u32>)
    requires
        forall|k: int| 0 <= k < values.len() ==> worth(#[trigger] values[k]) == 0,
    ensures
        sum_worth(values) == 0,
    decreases values.len(),
{
    if values.len() > 0 {
        lemma_nothing_sums_to_nothing(values.drop_last());
    }
}

/// Raising the bias of a unit raises the unit by as much, as long as it is not cut off.
pub proof fn law_biases_raise_hidden_units(
    m: spec_fn(SingleOp) -> u32,
    w: Seq<Vec<u32>>,
    b: Seq<u32>,
    raised: Seq<u32>,
    x: Seq<u32>,
    i: int,
)
    requires
        0 <= i < b.len(),
        raised.len() == b.len(),
        i < w.len(),
        adds_exactly(m, b[i], products(m, w[i]@, x)),
        adds_exactly(m, raised[i], products(m, w[i]@, x)),
        worth(hidden(m, w, b, x)[i]) > 0,
        worth(hidden(m, w, raised, x)[i]) > 0,
    ensures
        worth(hidden(m, w, raised, x)[i]) - worth(hidden(m, w, b, x)[i]) == worth(raised[i]) - worth(
            b[i],
        ),
{
    law_hidden_units_add_to_their_bias(m, w, b, x, i);
    law_hidden_units_add_to_their_bias(m, w, raised, x, i);
}

/// The chance that the network gives is the logistic curve at the last bias and the weighted units
/// of the second hidden layer together, which is over those of the first, which is over the input.
pub proof fn law_chance_is_logistic(
    m: spec_fn(SingleOp) -> u32,
    n: LoadedMlpCertifier,
    x: Seq<u32>,
    h1: Seq<u32>,
    h2: Seq<u32>,
)
    requires
        n.w1@.len() == n.b1@.len() == h1.len(),
        n.w2@.len() == n.b2@.len() == h2.len(),
        forall|i: int| 0 <= i < h1.len() ==> #[trigger] positive_part(
            total(m, n.b1@[i], products(m, n.w1@[i]@, x)),
            h1[i],
        ),
        forall|i: int| 0 <= i < h2.len() ==> #[trigger] positive_part(
            total(m, n.b2@[i], products(m, n.w2@[i]@, h1)),
            h2[i],
        ),
    ensures
        ({
            let z = total(m, n.b3, products(m, n.w3@, h2));
            let e = m(SingleOp::Exponential(opposite(z)));
            forward(m, n, x) == m(SingleOp::Quotient(ONE, m(SingleOp::Sum(ONE, e))))
        }),
{
    assert forall|i: int| 0 <= i < h1.len() implies hidden(m, n.w1@, n.b1@, x)[i] == h1[i] by {
        let p = products(m, n.w1@[i]@, x);
        lemma_weighted_is_total(m, n.b1@[i], n.w1@[i]@, x, p.len() as int);
        assert(p.take(p.len() as int) =~= p);
        assert(positive_part(total(m, n.b1@[i], p), h1[i]));
    }
    assert(hidden(m, n.w1@, n.b1@, x) =~= h1);
    assert forall|i: int| 0 <= i < h2.len() implies hidden(m, n.w2@, n.b2@, h1)[i] == h2[i] by {
        let p = products(m, n.w2@[i]@, h1);
        lemma_weighted_is_total(m, n.b2@[i], n.w2@[i]@, h1, p.len() as int);
        assert(p.take(p.len() as int) =~= p);
        assert(positive_part(total(m, n.b2@[i], p), h2[i]));
    }
    assert(hidden(m, n.w2@, n.b2@, h1) =~= h2);
    let p = products(m, n.w3@, h2);
    lemma_weighted_is_total(m, n.b3, n.w3@, h2, p.len() as int);
    assert(p.take(p.len() as int) =~= p);
}

/// Whether `r` is `a` where that is a number that is not negative, and zero elsewhere.
pub open spec fn positive_part(a: u32, r: u32) -> bool {
    r == if !nan(a) && line(a) >= 0 {
        a
    } else {
        0
    }
}

/// What the network is told stands in its place: marks for checkpoint, fold and bin of the
/// threshold, one in each group at most, and behind them the eight measures, each less its mean
/// and scaled.
pub proof fn law_network_is_told_in_order(
    m: spec_fn(SingleOp) -> u32,
    n: LoadedMlpCertifier,
    row: NetworkRow,
)
    ensures
        ({
            let x = network_input(m, n, row);
            let scaled = |i: int, v: u32|
                m(SingleOp::Product(m(SingleOp::Difference(v, n.mean@[i])), n.inv_std@[i]));
            let cps = n.checkpoint_values@.len() as int;
            let folds = n.fold_values@.len() as int;
            let taus = tau_places(n);
            let at = cps + folds + taus;
            &&& x.len() == at + 8
            &&& forall|i: int|
                #![trigger n.checkpoint_values@[i]]
                0 <= i < cps && n.checkpoint_values@[i] != row.checkpoint ==> x[i] == scaled(i, 0)
            &&& forall|i: int|
                #![trigger n.checkpoint_values@[i]]
                0 <= i < cps && n.checkpoint_values@[i] == row.checkpoint && (forall|k: int|
                    0 <= k < i ==> #[trigger] n.checkpoint_values@[k] != row.checkpoint) ==> x[i]
                    == scaled(i, ONE)
            &&& forall|i: int|
                #![trigger n.fold_values@[i]]
                0 <= i < folds && n.fold_values@[i] != row.fold ==> x[cps + i] == scaled(
                    cps + i,
                    0,
                )
            &&& forall|i: int|
                #![trigger n.fold_values@[i]]
                0 <= i < folds && n.fold_values@[i] == row.fold && (forall|k: int|
                    0 <= k < i ==> #[trigger] n.fold_values@[k] != row.fold) ==> x[cps + i]
                    == scaled(cps + i, ONE)
            &&& x[at] == scaled(at, row.score)
            &&& x[at + 1] == scaled(at + 1, row.gap)
            &&& x[at + 2] == scaled(at + 2, unsigned(row.gap))
            &&& x[at + 3] == scaled(at + 3, row.delta_prev)
            &&& x[at + 4] == scaled(at + 4, row.delta_from_64)
            &&& x[at + 5] == scaled(at + 5, row.evals_per_tree)
            &&& x[at + 6] == scaled(
                at + 6,
                m(SingleOp::Quotient(m(SingleOp::Nearest(row.trees_used as u64)), 0x4500_0000u32)),
            )
            &&& x[at + 7] == scaled(at + 7, row.early_rate)
        }),
{
    let raw = raw_input(m, n, row);
    let cps = n.checkpoint_values@.len() as int;
    let folds = n.fold_values@.len() as int;
    assert forall|i: int|
        #![trigger n.checkpoint_values@[i]]
        0 <= i < cps && n.checkpoint_values@[i] == row.checkpoint && (forall|k: int|
            0 <= k < i ==> #[trigger] n.checkpoint_values@[k] != row.checkpoint) implies raw[i]
        == ONE by {
        let before = n.checkpoint_values@.subrange(0, i);
        if before.contains(row.checkpoint) {
            let k = choose|k: int| 0 <= k < before.len() && before[k] == row.checkpoint;
            assert(n.checkpoint_values@[k] == row.checkpoint);
        }
    }
    assert forall|i: int|
        #![trigger n.fold_values@[i]]
        0 <= i < folds && n.fold_values@[i] == row.fold && (forall|k: int|
            0 <= k < i ==> #[trigger] n.fold_values@[k] != row.fold) implies raw[cps + i]
        == ONE by {
        let before = n.fold_values@.subrange(0, i);
        if before.contains(row.fold) {
            let k = choose|k: int| 0 <= k < before.len() && before[k] == row.fold;
            assert(n.fold_values@[k] == row.fold);
        }
    }
}

} // verus!
