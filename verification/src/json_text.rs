//! JSON values from their text, as the serde_json crate reads it.
use serde_json::Value;
use vstd::prelude::*;

use crate::json::{json_views, lemma_view, member_views, Json, JsonView, Member};

verus! {

/// A JSON value of the serde_json crate.
#[verifier::external_type_specification]
#[verifier::external_body]
pub struct ExValue(serde_json::Value);

/// Why the serde_json crate could not read a text.
#[verifier::external_type_specification]
#[verifier::external_body]
pub struct ExError(serde_json::Error);

/// The JSON value that a text stands for, where it stands for one.
pub uninterp spec fn json_parse(text: Seq<char>) -> Option<JsonView>;

/// What a value of the serde_json crate holds.
pub uninterp spec fn value_json(value: Value) -> JsonView;

/// A value of the serde_json crate, opened: what it is, and the values in it.
pub enum Node<'a> {
    Null,
    Bool(bool),
    Number(u64),
    Other,
    Text(&'a String),
    List(&'a Vec<Value>),
    Record(Vec<(&'a String, &'a Value)>),
}

/// What a value that was opened holds.
pub open spec fn node_json(node: Node<'_>) -> JsonView {
    match node {
        Node::Null => JsonView::Null,
        Node::Bool(b) => JsonView::Bool(b),
        Node::Number(n) => JsonView::Number(n),
        Node::Other => JsonView::Other,
        Node::Text(s) => JsonView::Text(s@),
        Node::List(list) => JsonView::List(list@.map_values(|v: Value| value_json(v))),
        Node::Record(list) => JsonView::Record(
            list@.map_values(|m: (&String, &Value)| (m.0@, value_json(*m.1))),
        ),
    }
}

/// A text that is no JSON.
pub struct ParseError {
    /// Where and why reading it failed.
    pub source: serde_json::Error,
}

/// Trusted: `from_str` of the serde_json crate, for values. What the value holds
/// depends on the text alone, as does whether there is one.
#[verifier::external_body]
fn parse_value(text: &str) -> (r: Result<Value, serde_json::Error>)
    ensures
        match r {
            Ok(value) => json_parse(text@) == Some(value_json(value)),
            Err(_) => json_parse(text@) is None,
        },
{
    serde_json::from_str(text)
}

/// Trusted: the variants of `Value` of the serde_json crate, and `Number::as_u64`
/// for numbers. The elements of an array and the members of an object stand in the
/// order in which the crate has them.
#[verifier::external_body]
fn open_value(value: &Value) -> (r: Node<'_>)
    ensures
        node_json(r) == value_json(*value),
{
    match value {
        Value::Null => Node::Null,
        Value::Bool(b) => Node::Bool(*b),
        Value::Number(n) => n.as_u64().map_or(Node::Other, Node::Number),
        Value::String(s) => Node::Text(s),
        Value::Array(list) => Node::List(list),
        Value::Object(map) => Node::Record(map.iter().collect()),
    }
}

/// A value of the serde_json crate as one of the library.
fn convert(value: &Value) -> (r: Json)
    ensures
        r@ == value_json(*value),
    decreases value_json(*value),
{
    match open_value(value) {
        Node::Null => Json::Null,
        Node::Bool(b) => Json::Bool(b),
        Node::Number(n) => Json::Number(n),
        Node::Other => Json::Other,
        Node::Text(s) => Json::Text(s.clone()),
        Node::List(list) => {
            let ghost all = value_json(*value)->List_0;
            let mut r: Vec<Json> = Vec::new();
            let mut i: usize = 0;
            while i < list.len()
                invariant
                    i <= list@.len(),
                    value_json(*value) == JsonView::List(all),
                    all == list@.map_values(|v: Value| value_json(v)),
                    r@.len() == i,
                    forall|k: int| 0 <= k < i ==> (#[trigger] r@[k])@ == all[k],
                decreases list@.len() - i,
            {
                proof {
                    assert(all[i as int] == value_json(list@[i as int]));
                    assert(decreases_to!(value_json(*value) => value_json(*value)->List_0));
                    assert(decreases_to!(all => all[i as int]));
                }
                r.push(convert(&list[i]));
                i += 1;
            }
            let json: Json = Json::List(r);
            proof {
                lemma_view(json);
                assert(json_views(r@) =~= all);
            }
            json
        },
        Node::Record(list) => {
            let ghost all = value_json(*value)->Record_0;
            let mut r: Vec<Member> = Vec::new();
            let mut i: usize = 0;
            while i < list.len()
                invariant
                    i <= list@.len(),
                    value_json(*value) == JsonView::Record(all),
                    all == list@.map_values(|m: (&String, &Value)| (m.0@, value_json(*m.1))),
                    r@.len() == i,
                    forall|k: int|
                        0 <= k < i ==> ((#[trigger] r@[k]).key@, r@[k].value@) == all[k],
                decreases list@.len() - i,
            {
                let key: String = list[i].0.clone();
                proof {
                    assert(all[i as int].1 == value_json(*list@[i as int].1));
                    assert(decreases_to!(value_json(*value) => value_json(*value)->Record_0));
                    assert(decreases_to!(all => all[i as int]));
                    assert(decreases_to!(all[i as int] => all[i as int].1));
                }
                r.push(Member { key, value: convert(list[i].1) });
                i += 1;
            }
            let json: Json = Json::Record(r);
            proof {
                lemma_view(json);
                assert(member_views(r@) =~= all);
            }
            json
        },
    }
}

/// The JSON value that a text stands for.
pub fn parse_json(text: &str) -> (r: Result<Json, ParseError>)
    ensures
        match r {
            Ok(json) => json_parse(text@) == Some(json@),
            Err(_) => json_parse(text@) is None,
        },
{
    match parse_value(text) {
        Ok(value) => Ok(convert(&value)),
        Err(source) => Err(ParseError { source }),
    }
}

} // verus!
