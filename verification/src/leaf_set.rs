//! Sets of candidate leaves as two 64-bit words.

use crate::qs_pack::Mask128;
use vstd::prelude::*;

verus! {

/// Whether leaf `i` is in the set.
pub open spec fn has_leaf(m: Mask128, i: int) -> bool {
    if 0 <= i < 64 {
        (m.lo >> (i as u64)) & 1 == 1
    } else if 64 <= i < 128 {
        (m.hi >> ((i - 64) as u64)) & 1 == 1
    } else {
        false
    }
}

/// The set that holds leaf `i` alone.
pub open spec fn only_leaf(i: int) -> Mask128 {
    if i < 64 {
        Mask128 { lo: 1u64 << (i as u64), hi: 0 }
    } else {
        Mask128 { lo: 0, hi: 1u64 << ((i - 64) as u64) }
    }
}

/// The leaves that are in both sets.
pub open spec fn meet(a: Mask128, b: Mask128) -> Mask128 {
    Mask128 { lo: a.lo & b.lo, hi: a.hi & b.hi }
}

/// The leaf that the set holds alone, if it holds exactly one.
pub open spec fn sole_leaf(m: Mask128) -> Option<int> {
    if exists|i: int| 0 <= i < 128 && m == #[trigger] only_leaf(i) {
        Some(choose|i: int| 0 <= i < 128 && m == #[trigger] only_leaf(i))
    } else {
        None
    }
}

proof fn lemma_shift_injective(i: u64, j: u64)
    requires
        i < 64,
        j < 64,
    ensures
        1u64 << i != 0,
        (1u64 << i == 1u64 << j) <==> i == j,
        ((1u64 << i) >> j) & 1 == 1 <==> i == j,
{
    assert(1u64 << i != 0) by (bit_vector)
        requires
            i < 64,
    ;
    assert(((1u64 << i) >> j) & 1 == 1 <==> i == j) by (bit_vector)
        requires
            i < 64,
            j < 64,
    ;
    assert(((1u64 << j) >> j) & 1 == 1) by (bit_vector)
        requires
            j < 64,
    ;
}

/// Singletons of different leaves differ.
pub proof fn lemma_only_leaf_injective(i: int, j: int)
    requires
        0 <= i < 128,
        0 <= j < 128,
        only_leaf(i) == only_leaf(j),
    ensures
        i == j,
{
    if i < 64 {
        lemma_shift_injective(i as u64, i as u64);
        if j < 64 {
            lemma_shift_injective(i as u64, j as u64);
        } else {
            lemma_shift_injective((j - 64) as u64, (j - 64) as u64);
        }
    } else {
        lemma_shift_injective((i - 64) as u64, (i - 64) as u64);
        if j < 64 {
            lemma_shift_injective(j as u64, j as u64);
        } else {
            lemma_shift_injective((i - 64) as u64, (j - 64) as u64);
        }
    }
}

/// The singleton of a leaf has that sole leaf.
pub proof fn lemma_sole_leaf(m: Mask128, i: int)
    requires
        0 <= i < 128,
        m == only_leaf(i),
    ensures
        sole_leaf(m) == Some(i),
{
    let k = choose|k: int| 0 <= k < 128 && m == #[trigger] only_leaf(k);
    lemma_only_leaf_injective(i, k);
}

/// A set has a sole leaf exactly when that leaf is its one member.
pub proof fn law_sole_leaf_is_the_one_member(m: Mask128, i: int)
    requires
        0 <= i < 128,
    ensures
        sole_leaf(m) == Some(i) <==> forall|j: int|
            0 <= j < 128 ==> (#[trigger] has_leaf(m, j) <==> j == i),
{
    if sole_leaf(m) == Some(i) {
        assert(m == only_leaf(i));
        assert forall|j: int| 0 <= j < 128 implies (#[trigger] has_leaf(m, j) <==> j == i) by {
            assert(forall|k: u64| k < 64 ==> #[trigger] (0u64 >> k) & 1 == 0) by (bit_vector);
            if i < 64 && j < 64 {
                lemma_shift_injective(i as u64, j as u64);
            } else if i >= 64 && j >= 64 {
                lemma_shift_injective((i - 64) as u64, (j - 64) as u64);
            }
        }
    }
    if forall|j: int| 0 <= j < 128 ==> (#[trigger] has_leaf(m, j) <==> j == i) {
        let lo = m.lo;
        let hi = m.hi;
        let o = only_leaf(i);
        assert forall|k: u64| k < 64 implies #[trigger] ((lo >> k) & 1) == ((o.lo >> k) & 1) by {
            assert(has_leaf(m, k as int) <==> k == i);
            let w = lo >> k;
            assert(w & 1 == 0 || w & 1 == 1) by (bit_vector);
            assert((0u64 >> k) & 1 == 0) by (bit_vector);
            if i < 64 {
                lemma_shift_injective(i as u64, k);
                let v = (1u64 << (i as u64)) >> k;
                assert(v & 1 == 0 || v & 1 == 1) by (bit_vector);
            }
        }
        assert forall|k: u64| k < 64 implies #[trigger] ((hi >> k) & 1) == ((o.hi >> k) & 1) by {
            assert(has_leaf(m, 64 + k) <==> 64 + k == i);
            let w = hi >> k;
            assert(w & 1 == 0 || w & 1 == 1) by (bit_vector);
            assert((0u64 >> k) & 1 == 0) by (bit_vector);
            if i >= 64 {
                lemma_shift_injective((i - 64) as u64, k);
                let v = (1u64 << ((i - 64) as u64)) >> k;
                assert(v & 1 == 0 || v & 1 == 1) by (bit_vector);
            }
        }
        lemma_same_bits(lo, o.lo);
        lemma_same_bits(hi, o.hi);
        lemma_sole_leaf(m, i);
    }
}

proof fn lemma_same_bits(a: u64, b: u64)
    requires
        forall|k: u64| k < 64 ==> #[trigger] ((a >> k) & 1) == ((b >> k) & 1),
    ensures
        a == b,
{
    if a != b {
        let d = a ^ b;
        assert(a != b ==> a ^ b != 0) by (bit_vector);
        let t = vstd::std_specs::bits::u64_trailing_zeros(d) as u64;
        vstd::std_specs::bits::axiom_u64_trailing_zeros(d);
        assert((a >> t) & 1 != (b >> t) & 1) by (bit_vector)
            requires
                t < 64,
                d == a ^ b,
                (d >> t) & 1 == 1,
        ;
        assert(((a >> t) & 1) == ((b >> t) & 1));
    }
}

/// Membership in an intersection.
pub proof fn law_meet_members(a: Mask128, b: Mask128, i: int)
    ensures
        has_leaf(meet(a, b), i) <==> has_leaf(a, i) && has_leaf(b, i),
{
    if 0 <= i < 64 {
        lemma_and_bit(a.lo, b.lo, i as u64);
    } else if 64 <= i < 128 {
        lemma_and_bit(a.hi, b.hi, (i - 64) as u64);
    }
}

proof fn lemma_and_bit(x: u64, y: u64, k: u64)
    requires
        k < 64,
    ensures
        ((x & y) >> k) & 1 == 1 <==> (x >> k) & 1 == 1 && (y >> k) & 1 == 1,
{
    assert(((x & y) >> k) & 1 == 1 <==> (x >> k) & 1 == 1 && (y >> k) & 1 == 1) by (bit_vector)
        requires
            k < 64,
    ;
}

/// Intersecting a singleton leaves it alone or empties it.
pub proof fn law_meet_keeps_or_empties_singletons(m: Mask128, b: Mask128)
    requires
        sole_leaf(m) is Some,
    ensures
        meet(m, b) == m || meet(m, b) == (Mask128 { lo: 0, hi: 0 }),
{
    let i = sole_leaf(m)->Some_0;
    assert(m == only_leaf(i));
    if i < 64 {
        lemma_bit_meet(i as u64, b.lo);
        let y = b.hi;
        assert(0u64 & y == 0) by (bit_vector);
    } else {
        lemma_bit_meet((i - 64) as u64, b.hi);
        let y = b.lo;
        assert(0u64 & y == 0) by (bit_vector);
    }
}

proof fn lemma_bit_meet(i: u64, y: u64)
    requires
        i < 64,
    ensures
        (1u64 << i) & y == 1u64 << i || (1u64 << i) & y == 0,
{
    assert((1u64 << i) & y == 1u64 << i || (1u64 << i) & y == 0) by (bit_vector)
        requires
            i < 64,
    ;
}

/// A word with one bit set is a power of two, and its lowest bit is that bit.
proof fn lemma_power_of_two(x: u64)
    requires
        x != 0,
    ensures
        x & ((x - 1) as u64) == 0 <==> exists|i: u64| i < 64 && x == #[trigger] (1u64 << i),
        x & ((x - 1) as u64) == 0 ==> vstd::std_specs::bits::u64_trailing_zeros(x) < 64 && x
            == 1u64 << (vstd::std_specs::bits::u64_trailing_zeros(x) as u64),
{
    let t = vstd::std_specs::bits::u64_trailing_zeros(x) as u64;
    vstd::std_specs::bits::axiom_u64_trailing_zeros(x);
    let y = (x - 1) as u64;
    if x & y == 0 {
        assert(x == 1u64 << t) by (bit_vector)
            requires
                t < 64,
                (x >> t) & 1 == 1,
                y == x - 1,
                x & y == 0,
        ;
    }
    if exists|i: u64| i < 64 && x == #[trigger] (1u64 << i) {
        let i = choose|i: u64| i < 64 && x == #[trigger] (1u64 << i);
        assert(x & y == 0) by (bit_vector)
            requires
                i < 64,
                x == 1u64 << i,
                y == x - 1,
        ;
    }
}

/// Whether a word has exactly one bit set.
fn one_bit(x: u64) -> (r: bool)
    ensures
        r <==> exists|i: u64| i < 64 && x == #[trigger] (1u64 << i),
        r ==> x != 0 && vstd::std_specs::bits::u64_trailing_zeros(x) < 64 && x == 1u64 << (
        vstd::std_specs::bits::u64_trailing_zeros(x) as u64),
{
    if x == 0 {
        proof {
            assert forall|i: u64| i < 64 implies x != #[trigger] (1u64 << i) by {
                lemma_shift_injective(i, i);
            }
        }
        return false;
    }
    proof {
        lemma_power_of_two(x);
    }
    x & (x - 1) == 0
}

/// Whether the set holds exactly one leaf.
pub fn resolved(lo: u64, hi: u64) -> (r: bool)
    ensures
        r == (sole_leaf(Mask128 { lo, hi }) is Some),
{
    match decode_leaf(lo, hi) {
        Some(_) => true,
        None => false,
    }
}

/// The one leaf of the set, if it holds exactly one.
pub fn decode_leaf(lo: u64, hi: u64) -> (r: Option<usize>)
    ensures
        match r {
            Some(i) => i < 128 && sole_leaf(Mask128 { lo, hi }) == Some(i as int),
            None => sole_leaf(Mask128 { lo, hi }) is None,
        },
{
    let ghost m = Mask128 { lo, hi };
    if hi == 0 && one_bit(lo) {
        let i: usize = lo.trailing_zeros() as usize;
        proof {
            lemma_sole_leaf(m, i as int);
        }
        return Some(i);
    }
    if lo == 0 && one_bit(hi) {
        let i: usize = 64 + hi.trailing_zeros() as usize;
        proof {
            lemma_sole_leaf(m, i as int);
        }
        return Some(i);
    }
    proof {
        assert forall|i: int| 0 <= i < 128 implies m != #[trigger] only_leaf(i) by {
            if i < 64 {
                assert(lo != 1u64 << (i as u64) || hi != 0);
            } else {
                assert(hi != 1u64 << ((i - 64) as u64) || lo != 0);
            }
        }
    }
    None
}

} // verus!
