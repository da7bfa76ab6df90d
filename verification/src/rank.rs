//! Where a value falls among the cuts of its feature.

use crate::single::{
    at_most, below, count_at_most, count_below, le, lemma_count_at_most_split,
    lemma_count_below_split, lt, nan, rising,
};
use vstd::prelude::*;

verus! {

/// Longest list that is scanned from the front; longer ones are bisected.
pub const SCAN_LIMIT: usize = 16;

/// The first position from `i` on whose entry exceeds `x`, or the length.
pub open spec fn first_above(s: Seq<u32>, x: u32, i: int) -> int
    decreases s.len() - i,
{
    if i >= s.len() {
        s.len() as int
    } else if below(x, s[i]) {
        i
    } else {
        first_above(s, x, i + 1)
    }
}

/// Where bisection between `lo` and `hi` ends when entries at most `x` send it right.
pub open spec fn bisect_above(s: Seq<u32>, x: u32, lo: int, hi: int) -> int
    decreases hi - lo,
{
    if lo >= hi {
        lo
    } else {
        let mid = (lo + hi) / 2;
        if at_most(s[mid], x) {
            bisect_above(s, x, mid + 1, hi)
        } else {
            bisect_above(s, x, lo, mid)
        }
    }
}

/// Where bisection between `lo` and `hi` ends when entries at least `x` send it left.
pub open spec fn bisect_from(s: Seq<u32>, x: u32, lo: int, hi: int) -> int
    decreases hi - lo,
{
    if lo >= hi {
        lo
    } else {
        let mid = (lo + hi) / 2;
        if at_most(x, s[mid]) {
            bisect_from(s, x, lo, mid)
        } else {
            bisect_from(s, x, mid + 1, hi)
        }
    }
}

/// The rank of `x` among the cuts `s`.
pub open spec fn rank_of(s: Seq<u32>, x: u32) -> int {
    if s.len() <= SCAN_LIMIT {
        first_above(s, x, 0)
    } else {
        bisect_above(s, x, 0, s.len() as int)
    }
}

/// A rank never exceeds the number of cuts.
pub proof fn lemma_first_above_range(s: Seq<u32>, x: u32, i: int)
    requires
        0 <= i <= s.len(),
    ensures
        i <= first_above(s, x, i) <= s.len(),
        forall|k: int| i <= k < first_above(s, x, i) ==> !below(x, #[trigger] s[k]),
        first_above(s, x, i) < s.len() ==> below(x, s[first_above(s, x, i)]),
    decreases s.len() - i,
{
    if i < s.len() && !below(x, s[i]) {
        lemma_first_above_range(s, x, i + 1);
    }
}

/// Bisection stays between its ends.
pub proof fn lemma_bisect_above_range(s: Seq<u32>, x: u32, lo: int, hi: int)
    requires
        0 <= lo <= hi <= s.len(),
    ensures
        lo <= bisect_above(s, x, lo, hi) <= hi,
    decreases hi - lo,
{
    if lo < hi {
        let mid = (lo + hi) / 2;
        if at_most(s[mid], x) {
            lemma_bisect_above_range(s, x, mid + 1, hi);
        } else {
            lemma_bisect_above_range(s, x, lo, mid);
        }
    }
}

/// Bisection stays between its ends.
pub proof fn lemma_bisect_from_range(s: Seq<u32>, x: u32, lo: int, hi: int)
    requires
        0 <= lo <= hi <= s.len(),
    ensures
        lo <= bisect_from(s, x, lo, hi) <= hi,
    decreases hi - lo,
{
    if lo < hi {
        let mid = (lo + hi) / 2;
        if at_most(x, s[mid]) {
            lemma_bisect_from_range(s, x, lo, mid);
        } else {
            lemma_bisect_from_range(s, x, mid + 1, hi);
        }
    }
}

/// A rank lies between zero and the number of cuts.
pub proof fn lemma_rank_range(s: Seq<u32>, x: u32)
    ensures
        0 <= rank_of(s, x) <= s.len(),
{
    if s.len() <= SCAN_LIMIT {
        lemma_first_above_range(s, x, 0);
    } else {
        lemma_bisect_above_range(s, x, 0, s.len() as int);
    }
}

proof fn lemma_bisect_above_splits(s: Seq<u32>, x: u32, lo: int, hi: int)
    requires
        rising(s),
        0 <= lo <= hi <= s.len(),
        forall|k: int| 0 <= k < lo ==> at_most(#[trigger] s[k], x),
        forall|k: int| hi <= k < s.len() ==> !at_most(#[trigger] s[k], x),
    ensures
        bisect_above(s, x, lo, hi) == count_at_most(s, x),
    decreases hi - lo,
{
    if lo >= hi {
        lemma_count_at_most_split(s, x, lo);
    } else {
        let mid = (lo + hi) / 2;
        if at_most(s[mid], x) {
            assert forall|k: int| 0 <= k < mid + 1 implies at_most(#[trigger] s[k], x) by {
                assert(at_most(s[k], s[mid]));
            }
            lemma_bisect_above_splits(s, x, mid + 1, hi);
        } else {
            assert forall|k: int| mid <= k < s.len() implies !at_most(#[trigger] s[k], x) by {
                assert(at_most(s[mid], s[k]));
            }
            lemma_bisect_above_splits(s, x, lo, mid);
        }
    }
}

proof fn lemma_bisect_from_splits(s: Seq<u32>, x: u32, lo: int, hi: int)
    requires
        rising(s),
        !nan(x),
        0 <= lo <= hi <= s.len(),
        forall|k: int| 0 <= k < lo ==> below(#[trigger] s[k], x),
        forall|k: int| hi <= k < s.len() ==> !below(#[trigger] s[k], x),
    ensures
        bisect_from(s, x, lo, hi) == count_below(s, x),
    decreases hi - lo,
{
    if lo >= hi {
        lemma_count_below_split(s, x, lo);
    } else {
        let mid = (lo + hi) / 2;
        assert(at_most(s[mid], s[mid]));
        if at_most(x, s[mid]) {
            assert forall|k: int| mid <= k < s.len() implies !below(#[trigger] s[k], x) by {
                assert(at_most(s[mid], s[k]));
            }
            lemma_bisect_from_splits(s, x, lo, mid);
        } else {
            assert forall|k: int| 0 <= k < mid + 1 implies below(#[trigger] s[k], x) by {
                assert(at_most(s[k], s[mid]));
            }
            lemma_bisect_from_splits(s, x, mid + 1, hi);
        }
    }
}

/// Among rising cuts, scanning and bisecting agree: the rank of a number is how many cuts are at
/// most that number.
pub proof fn law_rank_counts_cuts(s: Seq<u32>, x: u32)
    requires
        rising(s),
        !nan(x),
    ensures
        rank_of(s, x) == count_at_most(s, x),
        first_above(s, x, 0) == bisect_above(s, x, 0, s.len() as int),
{
    lemma_bisect_above_splits(s, x, 0, s.len() as int);
    lemma_first_above_range(s, x, 0);
    let k = first_above(s, x, 0);
    assert forall|i: int| 0 <= i < k implies at_most(#[trigger] s[i], x) by {
        assert(!below(x, s[i]));
    }
    assert forall|i: int| k <= i < s.len() implies !at_most(#[trigger] s[i], x) by {
        assert(at_most(s[k], s[i]));
    }
    lemma_count_at_most_split(s, x, k);
}

/// Among rising cuts, bisecting from the left counts the cuts that are less than the number.
pub proof fn law_lower_rank_counts_cuts(s: Seq<u32>, x: u32)
    requires
        rising(s),
        !nan(x),
    ensures
        bisect_from(s, x, 0, s.len() as int) == count_below(s, x),
{
    lemma_bisect_from_splits(s, x, 0, s.len() as int);
}

/// A greater number never has a lesser rank.
pub proof fn law_rank_is_monotone(s: Seq<u32>, x: u32, y: u32)
    requires
        rising(s),
        at_most(x, y),
    ensures
        rank_of(s, x) <= rank_of(s, y),
{
    law_rank_counts_cuts(s, x);
    law_rank_counts_cuts(s, y);
    lemma_count_monotone(s, x, y);
}

proof fn lemma_count_monotone(s: Seq<u32>, x: u32, y: u32)
    requires
        at_most(x, y),
    ensures
        count_at_most(s, x) <= count_at_most(s, y),
    decreases s.len(),
{
    if s.len() > 0 {
        lemma_count_monotone(s.drop_last(), x, y);
    }
}

/// Computes [`rank_of`].
pub fn upper_bound_auto(vals: &[u32], x: u32) -> (r: usize)
    ensures
        r == rank_of(vals@, x),
        r <= vals@.len(),
{
    let n: usize = vals.len();
    proof {
        lemma_rank_range(vals@, x);
    }
    if n <= SCAN_LIMIT {
        let mut i: usize = 0;
        while i < n
            invariant
                i <= n,
                n == vals@.len(),
                n <= SCAN_LIMIT,
                first_above(vals@, x, 0) == first_above(vals@, x, i as int),
            decreases n - i,
        {
            if lt(x, vals[i]) {
                return i;
            }
            i += 1;
        }
        return n;
    }
    let mut lo: usize = 0;
    let mut hi: usize = n;
    while lo < hi
        invariant
            lo <= hi <= n,
            n == vals@.len(),
            bisect_above(vals@, x, 0, n as int) == bisect_above(vals@, x, lo as int, hi as int),
        decreases hi - lo,
    {
        let mid: usize = lo + (hi - lo) / 2;
        assert(mid == (lo + hi) / 2);
        if le(vals[mid], x) {
            lo = mid + 1;
        } else {
            hi = mid;
        }
    }
    lo
}

/// The low byte of the rank of `x`.
pub open spec fn rank_byte(s: Seq<u32>, x: u32) -> u8 {
    (rank_of(s, x) % 0x100) as u8
}

/// Computes [`rank_byte`].
pub fn upper_bound(vals: &[u32], x: u32) -> (r: u8)
    ensures
        r == rank_byte(vals@, x),
{
    (upper_bound_auto(vals, x) % 0x100) as u8
}

/// The rank of `x` that counts a cut equal to `x` as not passed, capped at 255.
pub open spec fn lower_rank_byte(s: Seq<u32>, x: u32) -> u8 {
    let r = bisect_from(s, x, 0, s.len() as int);
    if r > 255 {
        255
    } else {
        r as u8
    }
}

/// Computes [`lower_rank_byte`].
pub fn lower_bound(vals: &[u32], x: u32) -> (r: u8)
    ensures
        r == lower_rank_byte(vals@, x),
{
    let n: usize = vals.len();
    let mut lo: usize = 0;
    let mut hi: usize = n;
    while lo < hi
        invariant
            lo <= hi <= n,
            n == vals@.len(),
            bisect_from(vals@, x, 0, n as int) == bisect_from(vals@, x, lo as int, hi as int),
        decreases hi - lo,
    {
        let mid: usize = lo + (hi - lo) / 2;
        assert(mid == (lo + hi) / 2);
        if le(x, vals[mid]) {
            hi = mid;
        } else {
            lo = mid + 1;
        }
    }
    if lo > 255 {
        255
    } else {
        lo as u8
    }
}

} // verus!
