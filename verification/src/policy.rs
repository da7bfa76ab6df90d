//! The policy by which rows may stop early: checkpoints, each with a level at or below which a row
//! is referred and one from which it passes.

use crate::kinds::RankMode;
use crate::single::NAN;
use vstd::prelude::*;

verus! {

/// A policy as it is written down, and what follows from it.
#[derive(Debug)]
pub struct ApproxPolicy {
    pub checkpoints: Vec<usize>,
    pub tau_ref: Vec<Option<u32>>,
    pub tau_pass: Vec<Option<u32>>,
    pub tau_reject: Vec<Option<u32>>,
    pub used_checkpoints: Vec<usize>,
    pub used_tau_ref: Vec<Option<u32>>,
    pub used_tau_pass: Vec<Option<u32>>,
    pub used_tau_reject: Vec<Option<u32>>,
    pub used_tau_ref_dense: Vec<u32>,
    pub used_tau_positive_dense: Vec<u32>,
    pub k_hot: usize,
    pub rank_mode: RankMode,
    pub checkpoint_exit_counts: Vec<u64>,
    pub compacted: bool,
}

/// What a policy holds.
#[verifier::ext_equal]
pub struct PolicyView {
    pub checkpoints: Seq<usize>,
    pub tau_ref: Seq<Option<u32>>,
    pub tau_pass: Seq<Option<u32>>,
    pub tau_reject: Seq<Option<u32>>,
    pub used_checkpoints: Seq<usize>,
    pub used_tau_ref: Seq<Option<u32>>,
    pub used_tau_pass: Seq<Option<u32>>,
    pub used_tau_reject: Seq<Option<u32>>,
    pub used_tau_ref_dense: Seq<u32>,
    pub used_tau_positive_dense: Seq<u32>,
    pub k_hot: usize,
    pub rank_mode: RankMode,
    pub checkpoint_exit_counts: Seq<u64>,
    pub compacted: bool,
}

impl View for ApproxPolicy {
    type V = PolicyView;

    open spec fn view(&self) -> PolicyView {
        PolicyView {
            checkpoints: self.checkpoints@,
            tau_ref: self.tau_ref@,
            tau_pass: self.tau_pass@,
            tau_reject: self.tau_reject@,
            used_checkpoints: self.used_checkpoints@,
            used_tau_ref: self.used_tau_ref@,
            used_tau_pass: self.used_tau_pass@,
            used_tau_reject: self.used_tau_reject@,
            used_tau_ref_dense: self.used_tau_ref_dense@,
            used_tau_positive_dense: self.used_tau_positive_dense@,
            k_hot: self.k_hot,
            rank_mode: self.rank_mode,
            checkpoint_exit_counts: self.checkpoint_exit_counts@,
            compacted: self.compacted,
        }
    }
}

/// What is wrong with a policy.
#[derive(Clone, Copy, Debug, PartialEq, Eq, Structural)]
pub enum PolicyError {
    /// The levels do not match the checkpoints in number.
    Length,
    /// The levels in use do not match the checkpoints in use in number.
    CompactedLength,
}

/// Whether a policy says itself which checkpoints are in use.
pub open spec fn says_used(p: PolicyView) -> bool {
    p.used_checkpoints.len() > 0 || p.used_tau_ref.len() > 0 || p.used_tau_pass.len() > 0
        || p.used_tau_reject.len() > 0
}

/// The list of passing levels: the one for rejections where it is not empty.
pub open spec fn positive(reject: Seq<Option<u32>>, pass: Seq<Option<u32>>) -> Seq<Option<u32>> {
    if reject.len() > 0 {
        reject
    } else {
        pass
    }
}

/// What is wrong with a policy, if anything is.
pub open spec fn policy_fault(p: PolicyView) -> Option<PolicyError> {
    if says_used(p) {
        if p.used_checkpoints.len() != p.used_tau_ref.len() || p.used_checkpoints.len() != positive(
            p.used_tau_reject,
            p.used_tau_pass,
        ).len() {
            Some(PolicyError::CompactedLength)
        } else {
            None
        }
    } else if p.checkpoints.len() != p.tau_ref.len() || p.checkpoints.len() != positive(
        p.tau_reject,
        p.tau_pass,
    ).len() {
        Some(PolicyError::Length)
    } else {
        None
    }
}

/// The greatest of the first `n` numbers, zero where there are none.
pub open spec fn greatest_of(s: Seq<usize>, n: nat) -> usize
    decreases n,
{
    if n == 0 {
        0
    } else {
        let before = greatest_of(s, (n - 1) as nat);
        if s[n - 1] > before {
            s[n - 1]
        } else {
            before
        }
    }
}

/// Levels with a value that is no number where there is none.
pub open spec fn dense(s: Seq<Option<u32>>) -> Seq<u32> {
    Seq::new(
        s.len(),
        |i: int|
            match s[i] {
                Some(x) => x,
                None => NAN,
            },
    )
}

/// A policy with what follows from it filled in: the checkpoints in use, how many trees come
/// before the bounds are tested, and the dense levels.
pub open spec fn completed(p: PolicyView) -> PolicyView {
    let used = if says_used(p) {
        p
    } else if p.tau_reject.len() > 0 {
        PolicyView {
            used_checkpoints: p.checkpoints,
            used_tau_ref: p.tau_ref,
            used_tau_reject: p.tau_reject,
            ..p
        }
    } else {
        PolicyView {
            used_checkpoints: p.checkpoints,
            used_tau_ref: p.tau_ref,
            used_tau_pass: p.tau_pass,
            ..p
        }
    };
    let pos = positive(used.used_tau_reject, used.used_tau_pass);
    PolicyView {
        k_hot: if p.k_hot == 0 {
            greatest_of(used.used_checkpoints, used.used_checkpoints.len())
        } else {
            p.k_hot
        },
        used_tau_ref_dense: if p.used_tau_ref_dense.len() != used.used_tau_ref.len() {
            dense(used.used_tau_ref)
        } else {
            p.used_tau_ref_dense
        },
        used_tau_positive_dense: if p.used_tau_positive_dense.len() != written_positive(p) {
            dense(pos)
        } else {
            p.used_tau_positive_dense
        },
        checkpoint_exit_counts: if p.checkpoint_exit_counts.len() != used.used_checkpoints.len() {
            Seq::new(used.used_checkpoints.len(), |i: int| 0u64)
        } else {
            p.checkpoint_exit_counts
        },
        ..used
    }
}

/// How many passing levels in use were written down.
pub open spec fn written_positive(p: PolicyView) -> nat {
    positive(p.used_tau_reject, p.used_tau_pass).len()
}

fn densify(s: &Vec<Option<u32>>) -> (r: Vec<u32>)
    ensures
        r@ == dense(s@),
{
    let mut r: Vec<u32> = Vec::new();
    let mut i: usize = 0;
    while i < s.len()
        invariant
            i <= s@.len(),
            r@ == dense(s@).take(i as int),
        decreases s@.len() - i,
    {
        r.push(
            match s[i] {
                Some(x) => x,
                None => NAN,
            },
        );
        i += 1;
        assert(r@ =~= dense(s@).take(i as int));
    }
    assert(r@ =~= dense(s@));
    r
}

/// Checks a policy and fills in what follows from it.
pub fn complete_approx_policy(policy: ApproxPolicy) -> (r: Result<ApproxPolicy, PolicyError>)
    ensures
        match policy_fault(policy@) {
            Some(e) => r == Err::<ApproxPolicy, PolicyError>(e),
            None => r matches Ok(p) && p@ == completed(policy@),
        },
{
    let ghost before = policy@;
    let mut policy: ApproxPolicy = policy;
    let has_used: bool = policy.used_checkpoints.len() > 0 || policy.used_tau_ref.len() > 0
        || policy.used_tau_pass.len() > 0 || policy.used_tau_reject.len() > 0;
    let used_pos: usize = if policy.used_tau_reject.len() > 0 {
        policy.used_tau_reject.len()
    } else {
        policy.used_tau_pass.len()
    };
    let raw_pos: usize = if policy.tau_reject.len() > 0 {
        policy.tau_reject.len()
    } else {
        policy.tau_pass.len()
    };
    if has_used {
        if policy.used_checkpoints.len() != policy.used_tau_ref.len()
            || policy.used_checkpoints.len() != used_pos {
            return Err(PolicyError::CompactedLength);
        }
    } else if policy.checkpoints.len() != policy.tau_ref.len() || policy.checkpoints.len()
        != raw_pos {
        return Err(PolicyError::Length);
    }
    if !has_used {
        policy.used_checkpoints = vstd::slice::slice_to_vec(policy.checkpoints.as_slice());
        policy.used_tau_ref = vstd::slice::slice_to_vec(policy.tau_ref.as_slice());
        if policy.tau_reject.len() > 0 {
            policy.used_tau_reject = vstd::slice::slice_to_vec(policy.tau_reject.as_slice());
        } else {
            policy.used_tau_pass = vstd::slice::slice_to_vec(policy.tau_pass.as_slice());
        }
    }
    let ghost used = policy@;
    if policy.k_hot == 0 {
        let mut best: usize = 0;
        let mut i: usize = 0;
        while i < policy.used_checkpoints.len()
            invariant
                i <= policy.used_checkpoints@.len(),
                policy@ == used,
                best == greatest_of(used.used_checkpoints, i as nat),
            decreases policy.used_checkpoints@.len() - i,
        {
            if policy.used_checkpoints[i] > best {
                best = policy.used_checkpoints[i];
            }
            i += 1;
        }
        policy.k_hot = best;
    }
    if policy.used_tau_ref_dense.len() != policy.used_tau_ref.len() {
        policy.used_tau_ref_dense = densify(&policy.used_tau_ref);
    }
    if policy.used_tau_positive_dense.len() != used_pos {
        policy.used_tau_positive_dense = if policy.used_tau_reject.len() > 0 {
            densify(&policy.used_tau_reject)
        } else {
            densify(&policy.used_tau_pass)
        };
    }
    if policy.checkpoint_exit_counts.len() != policy.used_checkpoints.len() {
        let n: usize = policy.used_checkpoints.len();
        policy.checkpoint_exit_counts = vec![0u64; n];
        assert(policy.checkpoint_exit_counts@ =~= Seq::new(n as nat, |i: int| 0u64));
    }
    assert(policy@ =~= completed(before));
    Ok(policy)
}

/// Whether there is a level of each kind for every checkpoint in use.
pub open spec fn policy_ready(p: PolicyView) -> bool {
    let n = p.used_checkpoints.len();
    &&& p.used_tau_ref.len() >= n
    &&& positive(p.used_tau_reject, p.used_tau_pass).len() >= n
    &&& p.used_tau_ref_dense.len() >= n
    &&& p.used_tau_positive_dense.len() >= n
}

/// A policy that was checked and filled in has a level of each kind for every checkpoint in use,
/// unless it wrote down dense passing levels for no checkpoint at all.
pub proof fn law_completed_policy_is_ready(p: PolicyView)
    requires
        policy_fault(p) is None,
        says_used(p) || p.used_tau_positive_dense.len() > 0 || p.checkpoints.len() == 0,
    ensures
        policy_ready(completed(p)),
{
}

impl ApproxPolicy {
    /// The passing levels in use.
    pub fn used_tau_positive(&self) -> (r: &[Option<u32>])
        ensures
            r@ == positive(self@.used_tau_reject, self@.used_tau_pass),
    {
        if self.used_tau_reject.len() > 0 {
            self.used_tau_reject.as_slice()
        } else {
            self.used_tau_pass.as_slice()
        }
    }
}

} // verus!
