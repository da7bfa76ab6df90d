//! Laws on figures: percentiles, values in bytes, magnitudes, and base scores in descriptions.

use crate::base_score::{base_score, cleaned, member, member_at, unclosed, unopened, BaseScoreError};
use crate::dispatch::merged;
use crate::exact::{law_opposite_worth, law_worth_orders, worth};
use crate::json::{JsonView, MemberView};
use crate::kernel_batch::place_past;
use crate::le::{group_number_lens, lemma_holds_whole, lemma_u32s_back, u32s_bytes};
use crate::mamba::largest;
use crate::minpack::{dense_values, OnlineError};
use crate::scan::{blank, trimmed};
use crate::single::{nan, unsigned};
use vstd::prelude::*;

verus! {

/// How many are counted at the first `n` places.
pub open spec fn counted_up_to(hist: Seq<u64>, n: int) -> int
    decreases n,
{
    if n <= 0 {
        0
    } else {
        counted_up_to(hist, n - 1) + hist[n - 1]
    }
}

proof fn lemma_past(hist: Seq<u64>, target: u64, i: int)
    requires
        0 <= i <= hist.len(),
        counted_up_to(hist, i) <= target,
    ensures
        ({
            let p = place_past(hist, target, i, counted_up_to(hist, i));
            if counted_up_to(hist, hist.len() as int) > target {
                &&& i <= p < hist.len()
                &&& counted_up_to(hist, p) <= target
                &&& counted_up_to(hist, p + 1) > target
            } else {
                p == if hist.len() == 0 {
                    0
                } else {
                    hist.len() - 1
                }
            }
        }),
    decreases hist.len() - i,
{
    if i < hist.len() {
        assert(counted_up_to(hist, i + 1) == counted_up_to(hist, i) + hist[i]);
        if counted_up_to(hist, i + 1) > target {
            lemma_counts_rise(hist, i + 1, hist.len() as int);
        } else {
            lemma_past(hist, target, i + 1);
        }
    }
}

proof fn lemma_counts_rise(hist: Seq<u64>, a: int, b: int)
    requires
        0 <= a <= b,
    ensures
        counted_up_to(hist, a) <= counted_up_to(hist, b),
    decreases b - a,
{
    if a < b {
        lemma_counts_rise(hist, a, b - 1);
    }
}

/// A percentile is the place at which the count passes its target: at most the target is counted
/// before it, and more with it; where the whole count does not pass, it is the last place.
pub proof fn law_percentiles_lie_where_the_count_passes(hist: Seq<u64>, target: u64)
    ensures
        ({
            let p = place_past(hist, target, 0, 0);
            if counted_up_to(hist, hist.len() as int) > target {
                &&& 0 <= p < hist.len()
                &&& counted_up_to(hist, p) <= target
                &&& counted_up_to(hist, p + 1) > target
            } else {
                p == if hist.len() == 0 {
                    0
                } else {
                    hist.len() - 1
                }
            }
        }),
{
    assert(counted_up_to(hist, 0) == 0);
    lemma_past(hist, target, 0);
}

/// Values in bytes are read back as they were written, where there are as many as asked for, and not
/// at all otherwise.
pub proof fn law_dense_values_are_read_back(x: Seq<u32>, dim: int)
    requires
        0 <= dim,
        dim * 4 <= usize::MAX,
    ensures
        dim == x.len() ==> dense_values(u32s_bytes(x), dim) == Ok::<Seq<u32>, OnlineError>(x),
        dim != x.len() ==> dense_values(u32s_bytes(x), dim) is Err,
{
    broadcast use group_number_lens;

    lemma_holds_whole(u32s_bytes(x));
    lemma_u32s_back(u32s_bytes(x), 0, x);
}

/// The largest magnitude is that of one of the values, or zero, and no value is larger.
pub proof fn law_largest_magnitude_is_largest(row: Seq<u32>, n: int, i: int)
    requires
        0 <= i < n <= row.len(),
        forall|k: int| 0 <= k < n ==> !nan(#[trigger] row[k]),
    ensures
        !nan(largest(row, n)),
        worth(row[i]) <= worth(largest(row, n)),
        -worth(row[i]) <= worth(largest(row, n)),
        largest(row, n) == 0 || exists|k: int|
            0 <= k < n && largest(row, n) == unsigned(#[trigger] row[k]),
    decreases n,
{
    lemma_largest_is_number(row, n - 1);
    let before = largest(row, n - 1);
    let x = row[n - 1];
    assert(!nan(x));
    lemma_unsigned(x);
    law_worth_orders(before, unsigned(x));
    if i < n - 1 {
        law_largest_magnitude_is_largest(row, n - 1, i);
    }
    if largest(row, n) == before && before != 0 {
        let k = choose|k: int| 0 <= k < n - 1 && before == unsigned(#[trigger] row[k]);
        assert(largest(row, n) == unsigned(row[k]));
    } else if largest(row, n) != before {
        assert(largest(row, n) == unsigned(row[n - 1]));
    }
}

proof fn lemma_unsigned(x: u32)
    requires
        !nan(x),
    ensures
        !nan(unsigned(x)),
        worth(unsigned(x)) == if worth(x) < 0 {
            -worth(x)
        } else {
            worth(x)
        },
{
    law_opposite_worth(x);
    law_worth_orders(unsigned(x), 0);
    law_worth_orders(x, 0);
}

proof fn lemma_largest_is_number(row: Seq<u32>, n: int)
    requires
        n <= row.len(),
        forall|k: int| 0 <= k < n ==> !nan(#[trigger] row[k]),
    ensures
        !nan(largest(row, n)),
        largest(row, n) == 0 || exists|k: int|
            0 <= k < n && largest(row, n) == unsigned(#[trigger] row[k]),
    decreases n,
{
    if n > 0 {
        lemma_largest_is_number(row, n - 1);
        assert(!nan(row[n - 1]));
        lemma_unsigned(row[n - 1]);
        let before = largest(row, n - 1);
        if largest(row, n) == before && before != 0 {
            let k = choose|k: int| 0 <= k < n - 1 && before == unsigned(#[trigger] row[k]);
            assert(largest(row, n) == unsigned(row[k]));
        } else if largest(row, n) != before {
            assert(largest(row, n) == unsigned(row[n - 1]));
        }
    }
}

/// Counts that are put together lose nothing: every place counts what both counted there.
pub proof fn law_merged_counts_lose_nothing(a: Seq<int>, b: Seq<int>, i: int)
    requires
        0 <= i,
    ensures
        ({
            let at = |s: Seq<int>|
                if i < s.len() {
                    s[i]
                } else {
                    0
                };
            at(merged(a, b)) == at(a) + at(b)
        }),
        merged(a, b) == merged(b, a),
{
    assert(merged(a, b) =~= merged(b, a));
}

proof fn lemma_member_at(ms: Seq<MemberView>, name: Seq<char>, i: int, k: int)
    requires
        0 <= i <= k < ms.len(),
        ms[k].name == name,
        forall|j: int| i <= j < k ==> (#[trigger] ms[j]).name != name,
    ensures
        member_at(ms, name, i) == Some(k),
    decreases k - i,
{
    if i < k {
        assert(ms[i].name != name);
        lemma_member_at(ms, name, i + 1, k);
    }
}

/// A member of an object is the first of its name.
pub proof fn law_members_are_the_first_of_their_name(
    text: Seq<char>,
    ms: Seq<MemberView>,
    name: Seq<char>,
    k: int,
)
    requires
        0 <= k < ms.len(),
        ms[k].name == name,
        forall|j: int| 0 <= j < k ==> (#[trigger] ms[j]).name != name,
    ensures
        member(JsonView::Object { text, members: ms }, name) == Some(ms[k].value),
{
    lemma_member_at(ms, name, 0, k);
}

/// The base score of a model stands in the parameters of its learner, as a text or as a number.
pub proof fn law_base_scores_stand_in_the_learner(
    m: spec_fn(Seq<char>) -> Option<u32>,
    v: JsonView,
    learner: JsonView,
    param: JsonView,
    raw: Seq<char>,
)
    requires
        member(v, "learner"@) == Some(learner),
        member(learner, "learner_model_param"@) == Some(param),
        member(param, "base_score"@) == Some(JsonView::Text(raw)) || member(param, "base_score"@)
            == Some(JsonView::Number(raw)),
    ensures
        match m(cleaned(raw)) {
            Some(x) => base_score(m, v) == Ok::<u32, BaseScoreError>(x),
            None => base_score(m, v) == Err::<u32, BaseScoreError>(BaseScoreError::Unreadable),
        },
{
}

/// Brackets around a score do not matter.
pub proof fn law_brackets_around_a_score_do_not_matter(s: Seq<char>)
    requires
        s.len() > 0,
        !blank(s[0]),
        !blank(s.last()),
        s[0] != '[',
        s.last() != ']',
    ensures
        cleaned(s) == s,
        cleaned(seq!['['] + s + seq![']']) == s,
{
    let t = seq!['['] + s + seq![']'];
    assert(t[0] == '[' && t.last() == ']');
    assert(trimmed(t) == t);
    assert(t.skip(1) =~= s + seq![']']);
    assert(unopened(t) == unopened(t.skip(1)));
    assert(t.skip(1)[0] == s[0]);
    assert(unopened(t.skip(1)) == s + seq![']']);
    let u = s + seq![']'];
    assert(u.last() == ']');
    assert(u.drop_last() =~= s);
    assert(unclosed(u) == unclosed(s));
    assert(unclosed(s) == s);
    assert(unopened(s) == s);
    assert(trimmed(s) == s);
}

} // verus!
