//! Numbers that are looked up in the description of a model: its base score and its threshold.

use crate::json::{json_told, read_json, Json, JsonView, MemberView};
use crate::scan::{chars_of, trim, trimmed};
use crate::text::same_text;
use vstd::prelude::*;

verus! {

/// A text as it is, anything else as it is rendered.
pub open spec fn rendered(v: JsonView) -> Seq<char> {
    match v {
        JsonView::Plain(s) => s,
        JsonView::Number(s) => s,
        JsonView::Text(s) => s,
        JsonView::List { text, items } => text,
        JsonView::Object { text, members } => text,
    }
}

fn render(v: &Json) -> (r: &str)
    ensures
        r@ == rendered(v@),
{
    match v {
        Json::Plain(s) => s.as_str(),
        Json::Number(s) => s.as_str(),
        Json::Text(s) => s.as_str(),
        Json::List { text, items: _ } => text.as_str(),
        Json::Object { text, members: _ } => text.as_str(),
    }
}

/// Where the first member of a name stands, from `i` on.
pub open spec fn member_at(ms: Seq<MemberView>, name: Seq<char>, i: int) -> Option<int>
    decreases ms.len() - i,
{
    if i < 0 || i >= ms.len() {
        None
    } else if ms[i].name == name {
        Some(i)
    } else {
        member_at(ms, name, i + 1)
    }
}

/// The member of a name. Only objects have members.
pub open spec fn member(v: JsonView, name: Seq<char>) -> Option<JsonView> {
    match v {
        JsonView::Object { text, members } => match member_at(members, name, 0) {
            Some(i) => Some(members[i].value),
            None => None,
        },
        _ => None,
    }
}

/// Finds the member of a name.
pub fn get_member<'a>(v: &'a Json, name: &str) -> (r: Option<&'a Json>)
    ensures
        match member(v@, name@) {
            Some(x) => r matches Some(y) && y@ == x,
            None => r is None,
        },
{
    match v {
        Json::Object { text: _, members } => {
            let ghost ms = v@->members;
            let mut i: usize = 0;
            while i < members.len()
                invariant
                    i <= members@.len(),
                    *v == (Json::Object { text: v->Object_text, members: *members }),
                    ms == v@->members,
                    member_at(ms, name@, 0) == member_at(ms, name@, i as int),
                decreases members@.len() - i,
            {
                if same_text(members[i].name.as_str(), name) {
                    return Some(&members[i].value);
                }
                i += 1;
            }
            None
        },
        _ => None,
    }
}

/// Whether what the caller reads texts as follows `m`.
pub open spec fn reads<F: Fn(&[char]) -> Option<u32>>(
    f: F,
    m: spec_fn(Seq<char>) -> Option<u32>,
) -> bool {
    forall|s: &[char], r: Option<u32>| #[trigger] call_ensures(f, (s,), r) ==> r == m(s@)
}

/// Whether the caller reads every text.
pub open spec fn readable<F: Fn(&[char]) -> Option<u32>>(f: F) -> bool {
    forall|s: &[char]| #[trigger] call_requires(f, (s,))
}

/// A text without the opening brackets that it starts with.
pub open spec fn unopened(s: Seq<char>) -> Seq<char>
    decreases s.len(),
{
    if s.len() > 0 && s[0] == '[' {
        unopened(s.skip(1))
    } else {
        s
    }
}

/// A text without the closing brackets that it ends with.
pub open spec fn unclosed(s: Seq<char>) -> Seq<char>
    decreases s.len(),
{
    if s.len() > 0 && s.last() == ']' {
        unclosed(s.drop_last())
    } else {
        s
    }
}

/// A text without white space and brackets around it.
pub open spec fn cleaned(s: Seq<char>) -> Seq<char> {
    trimmed(unclosed(unopened(trimmed(s))))
}

fn clean<'a>(s: &'a [char]) -> (r: &'a [char])
    ensures
        r@ == cleaned(s@),
{
    let t: &'a [char] = trim(s);
    let n: usize = t.len();
    let mut a: usize = 0;
    assert(t@.skip(0) =~= t@);
    while a < n && t[a] == '['
        invariant
            a <= n,
            n == t@.len(),
            unopened(t@) == unopened(t@.skip(a as int)),
        decreases n - a,
    {
        assert(t@.skip(a as int).skip(1) =~= t@.skip(a + 1));
        a += 1;
    }
    let ghost u = t@.skip(a as int);
    assert(unopened(t@) == u);
    let mut b: usize = n;
    assert(t@.subrange(a as int, n as int) =~= u);
    while b > a && t[b - 1] == ']'
        invariant
            a <= b <= n,
            n == t@.len(),
            unclosed(u) == unclosed(t@.subrange(a as int, b as int)),
        decreases b,
    {
        assert(t@.subrange(a as int, b as int).drop_last() =~= t@.subrange(a as int, b - 1));
        b -= 1;
    }
    assert(unclosed(u) == t@.subrange(a as int, b as int));
    trim(vstd::slice::slice_subrange(t, a, b))
}

/// What a value is read as, once it is cleaned.
pub open spec fn score_in(m: spec_fn(Seq<char>) -> Option<u32>, v: JsonView) -> Option<u32> {
    m(cleaned(rendered(v)))
}

fn read_score<F: Fn(&[char]) -> Option<u32>>(read: &F, v: &Json) -> (r: Option<u32>)
    requires
        readable(*read),
    ensures
        forall|m: spec_fn(Seq<char>) -> Option<u32>| #[trigger]
            reads(*read, m) ==> r == score_in(m, v@),
{
    let text: Vec<char> = chars_of(render(v));
    read(clean(text.as_slice()))
}

/// Why there is no base score.
#[derive(Clone, Copy, Debug, PartialEq, Eq, Structural)]
pub enum BaseScoreError {
    /// The text is no JSON.
    NotJson,
    Missing,
    Unreadable,
}

/// The base score of a model: at its place in the learner's parameters.
pub open spec fn base_score(m: spec_fn(Seq<char>) -> Option<u32>, v: JsonView) -> Result<
    u32,
    BaseScoreError,
> {
    match member(v, "learner"@) {
        None => Err(BaseScoreError::Missing),
        Some(learner) => match member(learner, "learner_model_param"@) {
            None => Err(BaseScoreError::Missing),
            Some(param) => match member(param, "base_score"@) {
                None => Err(BaseScoreError::Missing),
                Some(raw) => match score_in(m, raw) {
                    Some(x) => Ok(x),
                    None => Err(BaseScoreError::Unreadable),
                },
            },
        },
    }
}

/// Reads the base score of a model.
pub fn parse_base_score<F: Fn(&[char]) -> Option<u32>>(read: &F, v: &Json) -> (r: Result<
    u32,
    BaseScoreError,
>)
    requires
        readable(*read),
    ensures
        forall|m: spec_fn(Seq<char>) -> Option<u32>| #[trigger]
            reads(*read, m) ==> r == base_score(m, v@),
{
    let learner: &Json = match get_member(v, "learner") {
        None => {
            return Err(BaseScoreError::Missing);
        },
        Some(x) => x,
    };
    let param: &Json = match get_member(learner, "learner_model_param") {
        None => {
            return Err(BaseScoreError::Missing);
        },
        Some(x) => x,
    };
    match get_member(param, "base_score") {
        None => Err(BaseScoreError::Missing),
        Some(raw) => match read_score(read, raw) {
            Some(x) => Ok(x),
            None => Err(BaseScoreError::Unreadable),
        },
    }
}

/// The first base score anywhere in a description: of an object its own, if it can be read,
/// before those of its members.
pub open spec fn any_base_score(m: spec_fn(Seq<char>) -> Option<u32>, v: JsonView) -> Option<u32>
    decreases v, 1nat, 0nat,
{
    match v {
        JsonView::Object { text, members } => {
            let own = match member(v, "base_score"@) {
                Some(raw) => score_in(m, raw),
                None => None,
            };
            if own is Some {
                own
            } else {
                among_members(m, v, 0)
            }
        },
        JsonView::List { text, items } => among_items(m, v, 0),
        _ => None,
    }
}

/// The first base score in the members of an object, from member `i` on.
pub open spec fn among_members(m: spec_fn(Seq<char>) -> Option<u32>, v: JsonView, i: nat) -> Option<u32>
    decreases v, 0nat, (match v {
        JsonView::Object { text, members } => members.len() - i,
        _ => 0,
    }),
{
    match v {
        JsonView::Object { text, members } => if i < members.len() {
            match any_base_score(m, members[i as int].value) {
                Some(x) => Some(x),
                None => among_members(m, v, i + 1),
            }
        } else {
            None
        },
        _ => None,
    }
}

/// The first base score in the items of a list, from item `i` on.
pub open spec fn among_items(m: spec_fn(Seq<char>) -> Option<u32>, v: JsonView, i: nat) -> Option<u32>
    decreases v, 0nat, (match v {
        JsonView::List { text, items } => items.len() - i,
        _ => 0,
    }),
{
    match v {
        JsonView::List { text, items } => if i < items.len() {
            match any_base_score(m, items[i as int]) {
                Some(x) => Some(x),
                None => among_items(m, v, i + 1),
            }
        } else {
            None
        },
        _ => None,
    }
}

fn visit<F: Fn(&[char]) -> Option<u32>>(read: &F, v: &Json) -> (r: Option<u32>)
    requires
        readable(*read),
    ensures
        forall|m: spec_fn(Seq<char>) -> Option<u32>| #[trigger]
            reads(*read, m) ==> r == any_base_score(m, v@),
    decreases *v,
{
    match v {
        Json::Object { text: _, members } => {
            if let Some(raw) = get_member(v, "base_score") {
                let own: Option<u32> = read_score(read, raw);
                if let Some(x) = own {
                    return Some(x);
                }
            }
            let mut i: usize = 0;
            while i < members.len()
                invariant
                    i <= members@.len(),
                    readable(*read),
                    *v == (Json::Object { text: v->Object_text, members: *members }),
                    forall|m: spec_fn(Seq<char>) -> Option<u32>| #[trigger]
                        reads(*read, m) ==> any_base_score(m, v@) == among_members(
                            m,
                            v@,
                            i as nat,
                        ),
                decreases members@.len() - i,
            {
                assert(decreases_to!(*v => v->members@[i as int].value));
                let found: Option<u32> = visit(read, &members[i].value);
                if let Some(x) = found {
                    return Some(x);
                }
                i += 1;
            }
            None
        },
        Json::List { text: _, items } => {
            let mut i: usize = 0;
            while i < items.len()
                invariant
                    i <= items@.len(),
                    readable(*read),
                    *v == (Json::List { text: v->List_text, items: *items }),
                    forall|m: spec_fn(Seq<char>) -> Option<u32>| #[trigger]
                        reads(*read, m) ==> any_base_score(m, v@) == among_items(m, v@, i as nat),
                decreases items@.len() - i,
            {
                assert(decreases_to!(*v => v->items@[i as int]));
                let found: Option<u32> = visit(read, &items[i]);
                if let Some(x) = found {
                    return Some(x);
                }
                i += 1;
            }
            None
        },
        _ => None,
    }
}

/// Reads the first base score anywhere in a description.
pub fn parse_base_score_from_any_json<F: Fn(&[char]) -> Option<u32>>(read: &F, v: &Json) -> (r:
    Result<u32, BaseScoreError>)
    requires
        readable(*read),
    ensures
        forall|m: spec_fn(Seq<char>) -> Option<u32>| #[trigger]
            reads(*read, m) ==> r == match any_base_score(m, v@) {
                Some(x) => Ok::<u32, BaseScoreError>(x),
                None => Err(BaseScoreError::Missing),
            },
{
    match visit(read, v) {
        Some(x) => Ok(x),
        None => Err(BaseScoreError::Missing),
    }
}

/// The threshold of a policy: the one given, or the number at its place in the decision.
pub open spec fn threshold(
    m: spec_fn(Seq<char>) -> Option<u32>,
    given: Option<u32>,
    v: JsonView,
) -> Option<u32> {
    match given {
        Some(x) => Some(x),
        None => match member(v, "decision"@) {
            None => None,
            Some(d) => match member(d, "threshold"@) {
                Some(JsonView::Number(s)) => m(s),
                _ => None,
            },
        },
    }
}

/// Reads the threshold of a policy.
pub fn load_threshold<F: Fn(&[char]) -> Option<u32>>(read: &F, given: Option<u32>, v: &Json) -> (r:
    Option<u32>)
    requires
        readable(*read),
    ensures
        forall|m: spec_fn(Seq<char>) -> Option<u32>| #[trigger]
            reads(*read, m) ==> r == threshold(m, given, v@),
{
    if given.is_some() {
        return given;
    }
    let decision: &Json = match get_member(v, "decision") {
        None => {
            return None;
        },
        Some(d) => d,
    };
    match get_member(decision, "threshold") {
        Some(Json::Number(s)) => {
            let text: Vec<char> = chars_of(s.as_str());
            read(text.as_slice())
        },
        _ => None,
    }
}

/// Reads the base score of a model out of the text that describes it.
pub fn base_score_of_text<F: Fn(&[char]) -> Option<u32>>(read: &F, text: &str) -> (r: Result<
    u32,
    BaseScoreError,
>)
    requires
        readable(*read),
    ensures
        forall|m: spec_fn(Seq<char>) -> Option<u32>| #[trigger]
            reads(*read, m) ==> r == match json_told(text@) {
                None => Err::<u32, BaseScoreError>(BaseScoreError::NotJson),
                Some(v) => base_score(m, v),
            },
{
    match read_json(text) {
        None => Err(BaseScoreError::NotJson),
        Some(v) => parse_base_score(read, &v),
    }
}

/// Reads the first base score anywhere in a text.
pub fn any_base_score_of_text<F: Fn(&[char]) -> Option<u32>>(read: &F, text: &str) -> (r: Result<
    u32,
    BaseScoreError,
>)
    requires
        readable(*read),
    ensures
        forall|m: spec_fn(Seq<char>) -> Option<u32>| #[trigger]
            reads(*read, m) ==> r == match json_told(text@) {
                None => Err::<u32, BaseScoreError>(BaseScoreError::NotJson),
                Some(v) => match any_base_score(m, v) {
                    Some(x) => Ok(x),
                    None => Err(BaseScoreError::Missing),
                },
            },
{
    match read_json(text) {
        None => Err(BaseScoreError::NotJson),
        Some(v) => parse_base_score_from_any_json(read, &v),
    }
}

/// Why there is no threshold.
#[derive(Clone, Copy, Debug, PartialEq, Eq, Structural)]
pub enum ThresholdError {
    /// The text is no JSON.
    NotJson,
    Missing,
}

/// Reads the threshold of a policy out of the text that describes it. The text is looked at only
/// where no threshold is given.
pub fn threshold_of_text<F: Fn(&[char]) -> Option<u32>>(
    read: &F,
    given: Option<u32>,
    text: &str,
) -> (r: Result<u32, ThresholdError>)
    requires
        readable(*read),
    ensures
        forall|m: spec_fn(Seq<char>) -> Option<u32>| #[trigger]
            reads(*read, m) ==> r == match given {
                Some(x) => Ok::<u32, ThresholdError>(x),
                None => match json_told(text@) {
                    None => Err(ThresholdError::NotJson),
                    Some(v) => match threshold(m, None, v) {
                        Some(x) => Ok(x),
                        None => Err(ThresholdError::Missing),
                    },
                },
            },
{
    if let Some(x) = given {
        return Ok(x);
    }
    match read_json(text) {
        None => Err(ThresholdError::NotJson),
        Some(v) => match load_threshold(read, None, &v) {
            Some(x) => Ok(x),
            None => Err(ThresholdError::Missing),
        },
    }
}

} // verus!
