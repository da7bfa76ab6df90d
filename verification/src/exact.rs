//! Single-precision numbers as the exact numbers that they are.
//!
//! Every finite number is a whole multiple of the smallest positive one. Counted in those, sums and
//! comparisons are those of integers, and laws can speak of scores without speaking of rounding.

use crate::arith::{total, SingleOp};
use crate::single::{at_most, below, magnitude, nan, opposite};
use vstd::arithmetic::power2::{lemma_pow2_pos, lemma_pow2_unfold, pow2};
use vstd::prelude::*;

verus! {

/// How many of the smallest positive numbers a pattern without its sign comes to.
pub open spec fn units(mag: int) -> int {
    let exponent = mag / 0x80_0000;
    let fraction = mag % 0x80_0000;
    if exponent <= 0 {
        fraction
    } else {
        (0x80_0000 + fraction) * pow2((exponent - 1) as nat)
    }
}

/// What a number is worth, counted in the smallest positive one.
pub open spec fn worth(a: u32) -> int {
    if a >= 0x8000_0000 {
        -units(magnitude(a))
    } else {
        units(magnitude(a))
    }
}

proof fn lemma_next_unit(x: int)
    requires
        0 <= x,
    ensures
        0 <= units(x) < units(x + 1),
{
    let e = x / 0x80_0000;
    let f = x % 0x80_0000;
    if e > 0 {
        lemma_pow2_pos((e - 1) as nat);
        lemma_pow2_pos(e as nat);
        lemma_pow2_unfold(e as nat);
        let p = pow2((e - 1) as nat);
        assert(0 <= (0x80_0000 + f) * p) by (nonlinear_arith)
            requires
                f >= 0,
                p > 0,
        ;
        if f + 1 < 0x80_0000 {
            assert((x + 1) / 0x80_0000 == e && (x + 1) % 0x80_0000 == f + 1);
            assert((0x80_0000 + f) * p < (0x80_0000 + (f + 1)) * p) by (nonlinear_arith)
                requires
                    p > 0,
            ;
        } else {
            assert((x + 1) / 0x80_0000 == e + 1 && (x + 1) % 0x80_0000 == 0);
            assert((0x80_0000 + f) * p < 0x80_0000 * (2 * p)) by (nonlinear_arith)
                requires
                    p > 0,
                    f < 0x80_0000,
            ;
            assert(pow2((e + 1 - 1) as nat) == 2 * p);
        }
    } else if f + 1 < 0x80_0000 {
        assert((x + 1) / 0x80_0000 == 0 && (x + 1) % 0x80_0000 == f + 1);
    } else {
        assert((x + 1) / 0x80_0000 == 1 && (x + 1) % 0x80_0000 == 0);
        vstd::arithmetic::power2::lemma2_to64();
        assert(pow2(0) == 1);
    }
}

proof fn lemma_units_rise(x: int, y: int)
    requires
        0 <= x <= y,
    ensures
        0 <= units(x),
        x < y ==> units(x) < units(y),
    decreases y - x,
{
    lemma_next_unit(x);
    if x + 1 < y {
        lemma_units_rise(x + 1, y);
    }
}

/// Comparing patterns is comparing what they are worth.
pub proof fn law_worth_orders(a: u32, b: u32)
    requires
        !nan(a),
        !nan(b),
    ensures
        at_most(a, b) <==> worth(a) <= worth(b),
        below(a, b) <==> worth(a) < worth(b),
{
    let x = magnitude(a);
    let y = magnitude(b);
    lemma_units_rise(0, x);
    lemma_units_rise(0, y);
    assert(units(0) == 0);
    if x <= y {
        lemma_units_rise(x, y);
    }
    if y <= x {
        lemma_units_rise(y, x);
    }
}

/// Turning the sign turns the worth.
pub proof fn law_opposite_worth(a: u32)
    ensures
        worth(opposite(a)) == -worth(a),
        worth(0) == 0,
        worth(0x8000_0000) == 0,
{
    assert(units(0) == 0);
}

/// What values are worth together.
pub open spec fn sum_worth(values: Seq<u32>) -> int
    decreases values.len(),
{
    if values.len() == 0 {
        0
    } else {
        sum_worth(values.drop_last()) + worth(values.last())
    }
}

/// Values in two goes are worth what they are worth in one.
pub proof fn lemma_sum_worth_splits(values: Seq<u32>, k: int)
    requires
        0 <= k <= values.len(),
    ensures
        sum_worth(values) == sum_worth(values.take(k)) + sum_worth(values.skip(k)),
    decreases values.len(),
{
    if k == values.len() {
        assert(values.take(k) =~= values);
        assert(values.skip(k) =~= Seq::empty());
    } else {
        lemma_sum_worth_splits(values.drop_last(), k);
        assert(values.drop_last().take(k) =~= values.take(k));
        assert(values.drop_last().skip(k) =~= values.skip(k).drop_last());
        assert(values.skip(k).last() == values.last());
    }
}

/// Whether no sum on the way from a start over values is rounded.
pub open spec fn adds_exactly(m: spec_fn(SingleOp) -> u32, start: u32, values: Seq<u32>) -> bool {
    forall|i: int|
        0 <= i <= values.len() ==> !nan(#[trigger] total(m, start, values.take(i))) && worth(
            total(m, start, values.take(i)),
        ) == worth(start) + sum_worth(values.take(i))
}

/// Whether a pattern is a number and not infinite.
pub open spec fn countable(a: u32) -> bool {
    magnitude(a) < 0x7f80_0000
}

/// Whether two numbers together are compared with any third by what they are worth.
pub open spec fn weighed(m: spec_fn(SingleOp) -> u32, a: u32, b: u32) -> bool {
    forall|c: u32| #[trigger]
        countable(c) ==> (m(SingleOp::Reaches(a, b, c)) != 0 <==> worth(a) + worth(b) >= worth(c))
            && (m(SingleOp::FallsShort(a, b, c)) != 0 <==> worth(a) + worth(b) < worth(c))
}

/// The size of a number, whatever its sign.
pub open spec fn size(a: u32) -> int {
    if worth(a) < 0 {
        -worth(a)
    } else {
        worth(a)
    }
}

/// What the sizes of values come to together.
pub open spec fn sum_size(values: Seq<u32>) -> int
    decreases values.len(),
{
    if values.len() == 0 {
        0
    } else {
        sum_size(values.drop_last()) + size(values.last())
    }
}

/// Whether the caller adds multiples of a step without rounding as long as their sum is at most
/// 2^24 steps, as single precision does.
pub open spec fn adds_steps(m: spec_fn(SingleOp) -> u32, q: int) -> bool {
    &&& q > 0
    &&& forall|a: u32, b: u32|
        worth(a) % q == 0 && worth(b) % q == 0 && -0x100_0000 * q <= worth(a) + worth(b)
            <= 0x100_0000 * q ==> {
            let r = #[trigger] m(SingleOp::Sum(a, b));
            countable(r) && worth(r) == worth(a) + worth(b)
        }
}

/// Whether all values are multiples of a step.
pub open spec fn in_steps(values: Seq<u32>, q: int) -> bool {
    forall|i: int| 0 <= i < values.len() ==> worth(#[trigger] values[i]) % q == 0
}

/// Multiples of a step come to a multiple of it, which is no larger than their sizes together.
pub proof fn lemma_sum_in_steps(values: Seq<u32>, q: int)
    requires
        q > 0,
        in_steps(values, q),
    ensures
        sum_worth(values) % q == 0,
        -sum_size(values) <= sum_worth(values) <= sum_size(values),
    decreases values.len(),
{
    if values.len() > 0 {
        lemma_sum_in_steps(values.drop_last(), q);
        let a = sum_worth(values.drop_last());
        let b = worth(values.last());
        assert(b % q == 0) by {
            assert(worth(values[values.len() - 1]) % q == 0);
        }
        vstd::arithmetic::div_mod::lemma_add_mod_noop(a, b, q);
        assert((a + b) % q == 0);
    } else {
        vstd::arithmetic::div_mod::lemma_small_mod(0, q as nat);
    }
}

/// Sizes in two goes come to what they come to in one.
pub proof fn lemma_sizes_split(values: Seq<u32>, k: int)
    requires
        0 <= k <= values.len(),
    ensures
        sum_size(values) == sum_size(values.take(k)) + sum_size(values.skip(k)),
        0 <= sum_size(values.take(k)),
        0 <= sum_size(values.skip(k)),
    decreases values.len(),
{
    if k == values.len() {
        assert(values.take(k) =~= values);
        assert(values.skip(k) =~= Seq::empty());
        lemma_sizes_grow(values, k);
    } else {
        lemma_sizes_split(values.drop_last(), k);
        assert(values.drop_last().take(k) =~= values.take(k));
        assert(values.drop_last().skip(k) =~= values.skip(k).drop_last());
        assert(values.skip(k).last() == values.last());
    }
}

proof fn lemma_sizes_grow(values: Seq<u32>, i: int)
    requires
        0 <= i <= values.len(),
    ensures
        0 <= sum_size(values.take(i)) <= sum_size(values),
    decreases values.len(),
{
    if values.len() > 0 {
        lemma_sizes_grow(values.drop_last(), lesser_of(i, values.len() - 1));
        if i < values.len() {
            assert(values.drop_last().take(i) =~= values.take(i));
        } else {
            assert(values.take(i) =~= values);
        }
    } else {
        assert(values.take(i) =~= values);
    }
}

spec fn lesser_of(a: int, b: int) -> int {
    if a <= b {
        a
    } else {
        b
    }
}

/// Values that are multiples of a step and come to at most 2^24 steps together are added without
/// rounding, in any order and from any start that counts among them.
pub proof fn law_small_multiples_add_exactly(
    m: spec_fn(SingleOp) -> u32,
    q: int,
    start: u32,
    values: Seq<u32>,
)
    requires
        adds_steps(m, q),
        worth(start) % q == 0,
        in_steps(values, q),
        countable(start),
        size(start) + sum_size(values) <= 0x100_0000 * q,
    ensures
        adds_exactly(m, start, values),
        countable(total(m, start, values)),
        worth(total(m, start, values)) == worth(start) + sum_worth(values),
{
    assert forall|i: int| 0 <= i <= values.len() implies {
        let t = #[trigger] total(m, start, values.take(i));
        countable(t) && worth(t) == worth(start) + sum_worth(values.take(i))
    } by {
        lemma_adds_so_far(m, q, start, values, i);
    }
    assert(values.take(values.len() as int) =~= values);
}

proof fn lemma_adds_so_far(
    m: spec_fn(SingleOp) -> u32,
    q: int,
    start: u32,
    values: Seq<u32>,
    i: int,
)
    requires
        adds_steps(m, q),
        worth(start) % q == 0,
        in_steps(values, q),
        countable(start),
        size(start) + sum_size(values) <= 0x100_0000 * q,
        0 <= i <= values.len(),
    ensures
        countable(total(m, start, values.take(i))),
        worth(total(m, start, values.take(i))) == worth(start) + sum_worth(values.take(i)),
        worth(total(m, start, values.take(i))) % q == 0,
    decreases i,
{
    if i > 0 {
        lemma_adds_so_far(m, q, start, values, i - 1);
        let now = values.take(i);
        assert(now.drop_last() =~= values.take(i - 1));
        let a = total(m, start, values.take(i - 1));
        let b = values[i - 1];
        lemma_sum_in_steps(now, q);
        lemma_sizes_grow(values, i);
        assert(worth(b) % q == 0);
        assert(-0x100_0000 * q <= worth(a) + worth(b) <= 0x100_0000 * q);
        let r = m(SingleOp::Sum(a, b));
        assert(countable(r) && worth(r) == worth(a) + worth(b));
        vstd::arithmetic::div_mod::lemma_add_mod_noop(worth(a), worth(b), q);
        assert((worth(a) + worth(b)) % q == 0);
    } else {
        assert(values.take(0) =~= Seq::empty());
    }
}

} // verus!
