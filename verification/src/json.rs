//! A JSON document as plain values, and the parse that produces one.
//!
//! What the library reads out of a reply is decided over this type, in verified code; turning
//! text into it is serde_json's work, behind one trusted parse.

use vstd::prelude::*;

verus! {

/// A JSON value. A number is kept as the text serde_json writes for it: nothing here computes
/// with one. An object keeps its members in the order serde_json hands them over.
pub enum Json {
    Null,
    Bool(bool),
    Number(String),
    Str(String),
    Array(Vec<Json>),
    Object(Vec<(String, Json)>),
}

#[verifier::external_type_specification]
#[verifier::external_body]
pub struct ExJsonValue(serde_json::Value);

/// What serde_json makes of a text: the document it holds, or `None` when the text is not one
/// JSON document.
pub uninterp spec fn json_of(text: Seq<char>) -> Option<Json>;

/// serde_json's parsed value as a `Json`, variant by variant: the conversion half of
/// `parse_json`, which alone calls it. Nothing is claimed of it on its own; `parse_json`'s
/// contract speaks for the two together.
#[verifier::external_body]
fn json_from_value(v: &serde_json::Value) -> Json {
    match v {
        serde_json::Value::Null => Json::Null,
        serde_json::Value::Bool(b) => Json::Bool(*b),
        serde_json::Value::Number(n) => Json::Number(n.to_string()),
        serde_json::Value::String(s) => Json::Str(s.clone()),
        serde_json::Value::Array(a) => Json::Array(a.iter().map(json_from_value).collect()),
        serde_json::Value::Object(o) => Json::Object(
            o.iter().map(|(k, x)| (k.clone(), json_from_value(x))).collect(),
        ),
    }
}

/// `serde_json::from_str::<serde_json::Value>`, converted to a `Json`: the document a text
/// holds, or `None` when it is not JSON. Which texts parse, and to what, is named, not restated.
#[verifier::external_body]
pub(crate) fn parse_json(text: &str) -> (r: Option<Json>)
    ensures
        r == json_of(text@),
{
    match serde_json::from_str::<serde_json::Value>(text) {
        Ok(v) => Some(json_from_value(&v)),
        Err(_) => None,
    }
}

} // verus!
