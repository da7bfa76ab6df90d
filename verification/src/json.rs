//! Descriptions in JSON, taken apart into plain values.
//!
//! The text is read by `serde_json`; what it makes of a text is named here, not spelled out.

use vstd::prelude::*;

verus! {

/// A described value. Lists and objects carry their rendering.
#[derive(Debug)]
pub enum Json {
    /// What is neither text nor number, as it is rendered.
    Plain(String),
    Number(String),
    Text(String),
    List { text: String, items: Vec<Json> },
    Object { text: String, members: Vec<Member> },
}

/// A value with its name.
#[derive(Debug)]
pub struct Member {
    pub name: String,
    pub value: Json,
}

/// A described value, with texts and lists as sequences.
pub enum JsonView {
    Plain(Seq<char>),
    Number(Seq<char>),
    Text(Seq<char>),
    List { text: Seq<char>, items: Seq<JsonView> },
    Object { text: Seq<char>, members: Seq<MemberView> },
}

/// A value with its name, the name as a sequence.
pub struct MemberView {
    pub name: Seq<char>,
    pub value: JsonView,
}

/// A value with texts and lists as sequences.
pub open spec fn viewed(v: Json) -> JsonView
    decreases v,
{
    match v {
        Json::Plain(s) => JsonView::Plain(s@),
        Json::Number(s) => JsonView::Number(s@),
        Json::Text(s) => JsonView::Text(s@),
        Json::List { text, items } => JsonView::List {
            text: text@,
            items: Seq::new(
                items@.len(),
                |i: int|
                    if 0 <= i < items@.len() {
                        viewed(items@[i])
                    } else {
                        arbitrary()
                    },
            ),
        },
        Json::Object { text, members } => JsonView::Object {
            text: text@,
            members: Seq::new(
                members@.len(),
                |i: int|
                    if 0 <= i < members@.len() {
                        MemberView { name: members@[i].name@, value: viewed(members@[i].value) }
                    } else {
                        arbitrary()
                    },
            ),
        },
    }
}

impl View for Json {
    type V = JsonView;

    open spec fn view(&self) -> JsonView {
        viewed(*self)
    }
}

/// A value as `serde_json` holds it.
#[verifier::external_type_specification]
#[verifier::external_body]
pub struct ExValue(serde_json::Value);

/// What a value of `serde_json` holds, taken apart.
pub uninterp spec fn json_held(v: serde_json::Value) -> JsonView;

/// What `serde_json` reads a text as, taken apart. There is nothing where it finds no JSON.
pub uninterp spec fn json_told(text: Seq<char>) -> Option<JsonView>;

/// `serde_json::from_str` into a `Value`. It is claimed that what the value holds, or that there is
/// none, is determined by the text.
#[verifier::external_body]
fn parse_value(text: &str) -> (r: Option<serde_json::Value>)
    ensures
        (match r {
            Some(v) => Some(json_held(v)),
            None => None,
        }) == json_told(text@),
{
    serde_json::from_str::<serde_json::Value>(text).ok()
}

/// Takes a `Value` apart, level by level: numbers, lists and objects come with the rendering that
/// its `to_string` gives, the members of an object in the order in which its `Map` is walked. It
/// is claimed that the parts are determined by the value.
#[verifier::external_body]
fn take_apart(v: &serde_json::Value) -> (r: Json)
    ensures
        r@ == json_held(*v),
{
    let text: String = v.to_string();
    match v {
        serde_json::Value::Null => Json::Plain(text),
        serde_json::Value::Bool(_) => Json::Plain(text),
        serde_json::Value::Number(_) => Json::Number(text),
        serde_json::Value::String(s) => Json::Text(s.clone()),
        serde_json::Value::Array(a) => {
            Json::List { text, items: a.iter().map(take_apart).collect() }
        },
        serde_json::Value::Object(o) => {
            let part = |(k, x): (&String, _)| Member { name: k.clone(), value: take_apart(x) };
            Json::Object { text, members: o.iter().map(part).collect() }
        },
    }
}

/// Reads a description. There is nothing where the text is no JSON.
pub fn read_json(text: &str) -> (r: Option<Json>)
    ensures
        match json_told(text@) {
            Some(v) => r matches Some(x) && x@ == v,
            None => r is None,
        },
{
    match parse_value(text) {
        Some(v) => Some(take_apart(&v)),
        None => None,
    }
}

/// The texts of a list, as sequences.
pub open spec fn text_views(names: Seq<String>) -> Seq<Seq<char>> {
    Seq::new(names.len(), |i: int| names[i]@)
}

/// The list of texts that `serde_json` reads a text as. There is none where it is no such list.
pub uninterp spec fn names_told(text: Seq<char>) -> Option<Seq<Seq<char>>>;

/// `serde_json::from_str` into a list of texts. It is claimed that the list, or that there is none,
/// is determined by the text.
#[verifier::external_body]
fn parse_names(text: &str) -> (r: Option<Vec<String>>)
    ensures
        (match r {
            Some(names) => Some(text_views(names@)),
            None => None,
        }) == names_told(text@),
{
    serde_json::from_str::<Vec<String>>(text).ok()
}

/// How many features a list of their names has.
pub fn count_feature_names(text: &str) -> (r: Option<usize>)
    ensures
        match names_told(text@) {
            Some(names) => r matches Some(n) && n == names.len(),
            None => r is None,
        },
{
    match parse_names(text) {
        Some(names) => Some(names.len()),
        None => None,
    }
}

} // verus!
