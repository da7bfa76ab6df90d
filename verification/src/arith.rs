//! Single-precision arithmetic that the caller performs.
//!
//! Values are bit patterns. Comparisons are done on the patterns (see [`crate::single`]); sums,
//! products and the like are asked of the caller, one operation at a time.
//! Contracts speak of any function of operations that the caller's answers follow.

use vstd::prelude::*;

verus! {

/// An operation on bit patterns. The answer to a yes-or-no question is zero for no.
#[derive(Clone, Copy, Debug, PartialEq, Eq, Structural)]
pub enum SingleOp {
    /// The sum of two values.
    Sum(u32, u32),
    /// The first value less the second.
    Difference(u32, u32),
    /// The product of two values.
    Product(u32, u32),
    /// The product of the first two values and the third added up, rounded once.
    Fused(u32, u32, u32),
    /// Whether sixteen clusters are compared by fused operations.
    ComparesFused,
    /// The first value divided by the second.
    Quotient(u32, u32),
    /// Euler's number raised to a value.
    Exponential(u32),
    /// The value nearest to an integer.
    Nearest(u64),
    /// Whether the sum of the first two values, taken in double precision, is at least the third.
    Reaches(u32, u32, u32),
    /// Whether the sum of the first two values, taken in double precision, is below the third.
    FallsShort(u32, u32, u32),
}

/// Whether the answers of `a` follow `m`.
pub open spec fn follows<A: Fn(SingleOp) -> u32>(a: A, m: spec_fn(SingleOp) -> u32) -> bool {
    forall|op: SingleOp, r: u32| #[trigger] call_ensures(a, (op,), r) ==> r == m(op)
}

/// Whether `a` answers every operation.
pub open spec fn answers<A: Fn(SingleOp) -> u32>(a: A) -> bool {
    forall|op: SingleOp| #[trigger] call_requires(a, (op,))
}

/// The values added one after the other, in order, to a start.
pub open spec fn total(m: spec_fn(SingleOp) -> u32, start: u32, values: Seq<u32>) -> u32
    decreases values.len(),
{
    if values.len() == 0 {
        start
    } else {
        m(SingleOp::Sum(total(m, start, values.drop_last()), values.last()))
    }
}

/// Adds the values from `from` on to a start.
pub fn add_values<A: Fn(SingleOp) -> u32>(arith: &A, start: u32, values: &Vec<u32>, from: usize) -> (r:
    u32)
    requires
        answers(*arith),
        from <= values@.len(),
    ensures
        forall|m: spec_fn(SingleOp) -> u32| #[trigger]
            follows(*arith, m) ==> r == total(
                m,
                start,
                values@.subrange(from as int, values@.len() as int),
            ),
{
    let mut sum: u32 = start;
    let mut i: usize = from;
    assert(values@.subrange(from as int, from as int) =~= Seq::empty());
    while i < values.len()
        invariant
            answers(*arith),
            from <= i <= values@.len(),
            forall|m: spec_fn(SingleOp) -> u32| #[trigger]
                follows(*arith, m) ==> sum == total(
                    m,
                    start,
                    values@.subrange(from as int, i as int),
                ),
        decreases values@.len() - i,
    {
        let next: u32 = arith(SingleOp::Sum(sum, values[i]));
        assert(values@.subrange(from as int, i + 1).drop_last() =~= values@.subrange(
            from as int,
            i as int,
        ));
        sum = next;
        i += 1;
    }
    sum
}

/// Adding values in two goes is adding them in one.
pub proof fn law_totals_continue(
    m: spec_fn(SingleOp) -> u32,
    start: u32,
    first: Seq<u32>,
    second: Seq<u32>,
)
    ensures
        total(m, total(m, start, first), second) == total(m, start, first + second),
    decreases second.len(),
{
    if second.len() == 0 {
        assert(first + second =~= first);
    } else {
        law_totals_continue(m, start, first, second.drop_last());
        assert((first + second).drop_last() =~= first + second.drop_last());
    }
}

} // verus!
