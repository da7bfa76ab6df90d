//! Sorting by a number, where things of one number stay in their turn.

use vstd::prelude::*;

verus! {

/// Where a thing of number `k` goes among the first `n` of a sorted list: behind all whose numbers
/// are not greater.
pub open spec fn place_for<T>(s: Seq<T>, key: spec_fn(T) -> int, k: int, n: int) -> int
    decreases n,
{
    if n <= 0 {
        0
    } else if key(s[n - 1]) <= k {
        n
    } else {
        place_for(s, key, k, n - 1)
    }
}

/// A sorted list with one more thing in its place.
pub open spec fn put_in<T>(s: Seq<T>, key: spec_fn(T) -> int, x: T) -> Seq<T> {
    s.insert(place_for(s, key, key(x), s.len() as int), x)
}

/// A list sorted by number; things of one number stay in their turn.
pub open spec fn sorted<T>(s: Seq<T>, key: spec_fn(T) -> int) -> Seq<T>
    decreases s.len(),
{
    if s.len() == 0 {
        Seq::empty()
    } else {
        put_in(sorted(s.drop_last(), key), key, s.last())
    }
}

/// Whether numbers never fall.
pub open spec fn in_order<T>(s: Seq<T>, key: spec_fn(T) -> int) -> bool {
    forall|i: int, j: int| 0 <= i < j < s.len() ==> key(#[trigger] s[i]) <= key(#[trigger] s[j])
}

/// A place lies in the list, behind what is not greater and before what is.
pub proof fn lemma_place<T>(s: Seq<T>, key: spec_fn(T) -> int, k: int, n: int)
    requires
        0 <= n <= s.len(),
    ensures
        0 <= place_for(s, key, k, n) <= n,
        place_for(s, key, k, n) > 0 ==> key(s[place_for(s, key, k, n) - 1]) <= k,
        forall|i: int| place_for(s, key, k, n) <= i < n ==> key(#[trigger] s[i]) > k,
    decreases n,
{
    if n > 0 && key(s[n - 1]) > k {
        lemma_place(s, key, k, n - 1);
    }
}

/// A sorted list holds the same things, and their numbers never fall.
pub proof fn law_sorted_list<T>(s: Seq<T>, key: spec_fn(T) -> int)
    ensures
        in_order(sorted(s, key), key),
        sorted(s, key).to_multiset() == s.to_multiset(),
        sorted(s, key).len() == s.len(),
    decreases s.len(),
{
    if s.len() > 0 {
        let t = s.drop_last();
        let x = s.last();
        law_sorted_list(t, key);
        let b = sorted(t, key);
        let k = place_for(b, key, key(x), b.len() as int);
        lemma_place(b, key, key(x), b.len() as int);
        let r = b.insert(k, x);
        assert forall|i: int, j: int| 0 <= i < j < r.len() implies key(#[trigger] r[i]) <= key(
            #[trigger] r[j],
        ) by {
            if i < k {
                assert(r[i] == b[i]);
                if k > 0 {
                    assert(key(b[k - 1]) <= key(x));
                }
            }
            if j < k {
                assert(r[j] == b[j]);
            } else if j > k {
                assert(r[j] == b[j - 1]);
            }
            if i > k {
                assert(r[i] == b[i - 1]);
            }
        }
        vstd::seq_lib::to_multiset_insert(b, k, x);
        vstd::seq_lib::to_multiset_insert(t, t.len() as int, x);
        assert(t.insert(t.len() as int, x) =~= s);
    } else {
        assert(s =~= Seq::empty());
    }
}

} // verus!
