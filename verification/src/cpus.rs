//! Which processors serve connections, and how many requests each may have in flight.

use crate::scan::{chars_of, first_comma, number, pieces, read_number, trim, trimmed};
use crate::text::text_of;
use std::collections::HashSet;
use vstd::prelude::*;
use vstd::slice::slice_subrange;

verus! {

/// The number that a piece of a list stands for, if it does.
pub open spec fn listed_cpu(piece: Seq<char>) -> Option<usize> {
    match number(trimmed(piece), 10) {
        Some(n) => Some(n as usize),
        None => None,
    }
}

/// The numbers among the first `n` pieces.
pub open spec fn cpus_among(list: Seq<Seq<char>>, n: int) -> Set<usize>
    decreases n,
{
    if n <= 0 {
        Set::empty()
    } else {
        match listed_cpu(list[n - 1]) {
            Some(c) => cpus_among(list, n - 1).insert(c),
            None => cpus_among(list, n - 1),
        }
    }
}

/// The processors that a list names, separated by commas. What is no number is passed over.
pub open spec fn cpus_named(s: Seq<char>) -> Set<usize> {
    let list = pieces(s, seq![',']);
    cpus_among(list, list.len() as int)
}

/// A processor is named exactly when some piece of the list stands for it.
pub proof fn law_named_cpus_are_listed(s: Seq<char>, c: usize)
    ensures
        cpus_named(s).contains(c) <==> exists|j: int|
            0 <= j < pieces(s, seq![',']).len() && listed_cpu(
                #[trigger] pieces(s, seq![','])[j],
            ) == Some(c),
{
    lemma_among(pieces(s, seq![',']), pieces(s, seq![',']).len() as int, c);
}

proof fn lemma_among(list: Seq<Seq<char>>, n: int, c: usize)
    requires
        0 <= n <= list.len(),
    ensures
        cpus_among(list, n).contains(c) <==> exists|j: int|
            0 <= j < n && listed_cpu(#[trigger] list[j]) == Some(c),
    decreases n,
{
    if n > 0 {
        lemma_among(list, n - 1, c);
    }
}

/// Reads a list of processors.
pub fn parse_cpu_csv(s: &str) -> (r: HashSet<usize>)
    ensures
        r@ == cpus_named(s@),
{
    broadcast use vstd::std_specs::hash::group_hash_axioms;

    let cs: Vec<char> = chars_of(s);
    let ghost all = pieces(s@, seq![',']);
    let mut out: HashSet<usize> = HashSet::new();
    let mut rest: &[char] = cs.as_slice();
    let ghost mut k: int = 0;
    assert(all.skip(0) =~= all);
    let mut over: bool = false;
    while !over
        invariant
            all == pieces(s@, seq![',']),
            0 <= k <= all.len(),
            !over ==> pieces(rest@, seq![',']) == all.skip(k),
            over ==> k == all.len(),
            out@ == cpus_among(all, k),
        decreases if over {
            0
        } else {
            1 + rest@.len()
        },
    {
        let ghost here = rest@;
        let n: usize = rest.len();
        let comma: Option<usize> = first_comma(rest);
        let item: &[char] = match comma {
            Some(i) => slice_subrange(rest, 0, i),
            None => rest,
        };
        proof {
            assert(pieces(here, seq![',']).len() >= 1);
            assert(all.skip(k)[0] == all[k]);
            if comma is Some {
                assert(item@ =~= here.take(comma->0 as int));
                let first = seq![here.take(comma->0 as int)];
                let others = pieces(here.skip(comma->0 + 1), seq![',']);
                assert(all.skip(k) == first + others);
                assert(all.skip(k + 1) =~= (first + others).skip(1));
                assert((first + others).skip(1) =~= others);
            } else {
                assert(all.skip(k) == seq![here]);
                assert(all.skip(k).len() == 1);
            }
            assert(item@ == all[k]);
        }
        if let Some(c) = read_number(trim(item), 10) {
            out.insert(c);
        }
        match comma {
            Some(i) => {
                rest = slice_subrange(rest, i + 1, n);
                assert(rest@ =~= here.skip(i + 1));
            },
            None => {
                over = true;
            },
        }
        proof {
            k = k + 1;
        }
    }
    out
}

/// The processors that an optional list names.
pub open spec fn cpus_in(s: Option<Seq<char>>) -> Set<usize> {
    match s {
        Some(x) => cpus_named(x),
        None => Set::empty(),
    }
}

/// Computes [`cpus_in`].
pub fn parse_cpu_env(value: &Option<String>) -> (r: HashSet<usize>)
    ensures
        r@ == cpus_in(text_of(*value)),
{
    broadcast use vstd::std_specs::hash::group_hash_axioms;

    match value {
        Some(s) => parse_cpu_csv(s.as_str()),
        None => HashSet::new(),
    }
}

/// The processors that serve connections: those allowed that no pool of workers is pinned to, or
/// all those allowed where none is left.
pub open spec fn io_cpus(allowed: Seq<usize>, pinned: Set<usize>) -> Seq<usize> {
    let free = allowed.filter(|c: usize| !pinned.contains(c));
    if free.len() == 0 {
        allowed
    } else {
        free
    }
}

/// Picks the processors that serve connections. The three lists name the processors that pools of
/// workers are pinned to.
pub fn select_glommio_io_cpus_from_env(
    allowed: Vec<usize>,
    l1_pool: &Option<String>,
    l2_pool: &Option<String>,
    pool: &Option<String>,
) -> (r: Vec<usize>)
    ensures
        r@ == io_cpus(
            allowed@,
            cpus_in(text_of(*l1_pool)).union(cpus_in(text_of(*l2_pool))).union(
                cpus_in(text_of(*pool)),
            ),
        ),
{
    broadcast use vstd::std_specs::hash::group_hash_axioms;
    broadcast use vstd::seq_lib::group_filter_ensures;

    let a: HashSet<usize> = parse_cpu_env(l1_pool);
    let b: HashSet<usize> = parse_cpu_env(l2_pool);
    let c: HashSet<usize> = parse_cpu_env(pool);
    let ghost pinned = a@.union(b@).union(c@);
    let ghost keep = |x: usize| !pinned.contains(x);
    let mut out: Vec<usize> = Vec::new();
    let mut i: usize = 0;
    assert(allowed@.take(0).filter(keep) =~= Seq::empty()) by {
        assert(allowed@.take(0) =~= Seq::empty());
        reveal(Seq::filter);
    }
    while i < allowed.len()
        invariant
            i <= allowed@.len(),
            pinned == a@.union(b@).union(c@),
            keep == (|x: usize| !pinned.contains(x)),
            out@ == allowed@.take(i as int).filter(keep),
        decreases allowed@.len() - i,
    {
        let cpu: usize = allowed[i];
        proof {
            let next = allowed@.take(i + 1);
            assert(next.drop_last() =~= allowed@.take(i as int));
            assert(next.last() == cpu);
            reveal(Seq::filter);
        }
        if !a.contains(&cpu) && !b.contains(&cpu) && !c.contains(&cpu) {
            out.push(cpu);
        }
        i += 1;
    }
    assert(allowed@.take(allowed@.len() as int) =~= allowed@);
    if out.len() == 0 {
        allowed
    } else {
        out
    }
}

/// How many requests each of `shards` executors may have in flight: an even share, rounded up, and
/// at least one.
pub open spec fn share(max_in_flight: int, shards: int) -> int {
    let s = if shards > 0 {
        shards
    } else {
        1
    };
    let n = (max_in_flight + s - 1) / s;
    if n < 1 {
        1
    } else {
        n
    }
}

/// Computes [`share`].
pub fn per_core_in_flight(max_in_flight: usize, shards: usize) -> (r: usize)
    requires
        max_in_flight + shards <= usize::MAX,
    ensures
        r == share(max_in_flight as int, shards as int),
{
    let s: usize = if shards > 0 {
        shards
    } else {
        1
    };
    let n: usize = (max_in_flight + (s - 1)) / s;
    if n < 1 {
        1
    } else {
        n
    }
}

/// The shares together are enough for the whole.
pub proof fn law_shares_cover(max_in_flight: int, shards: int)
    requires
        max_in_flight >= 0,
        shards > 0,
    ensures
        share(max_in_flight, shards) * shards >= max_in_flight,
{
    let n = (max_in_flight + shards - 1) / shards;
    assert(n * shards >= max_in_flight) by (nonlinear_arith)
        requires
            shards > 0,
            max_in_flight >= 0,
            n == (max_in_flight + shards - 1) / shards,
    ;
    if n < 1 {
        assert(n * shards <= 0) by (nonlinear_arith)
            requires
                n < 1,
                shards > 0,
        ;
    }
}

/// Whether one more request may be in flight, when `before` are.
pub open spec fn room_for_one(before: int, max_in_flight: int) -> bool {
    max_in_flight <= 0 || before < max_in_flight
}

/// Decides whether a request may be in flight: the count before it must be below the limit, where
/// there is one, and its executor must have a permit left.
pub fn try_acquire_inflight(before: usize, max_in_flight: usize, permit: bool) -> (r: bool)
    ensures
        r == (room_for_one(before as int, max_in_flight as int) && permit),
{
    (max_in_flight == 0 || before < max_in_flight) && permit
}

} // verus!
