//! The trusted boundary to `serde_json`: the wire messages are parsed by the
//! outside crate, and the library walks the resulting opaque values through
//! thin wrappers.
//!
//! What a parsed document holds is named, not transcribed: `json_doc` names
//! the document a text parses to and `value_model` names the contents of one
//! opaque value, both as `JsonNode` trees. Every wrapper's contract speaks
//! over these names, so the verified decoders can state exactly which ticks
//! a message yields.
use vstd::prelude::*;

verus! {

/// The mathematical content of one JSON value. A number is carried as its
/// decimal rendering, the form in which the library reads it.
pub enum JsonNode {
    Null,
    Bool(bool),
    NumberText(Seq<char>),
    Text(Seq<char>),
    Array(Seq<JsonNode>),
    Object(Seq<(Seq<char>, JsonNode)>),
}

pub open spec fn obj_fields_lookup(
    fields: Seq<(Seq<char>, JsonNode)>,
    k: Seq<char>,
) -> Option<JsonNode>
    decreases fields.len(),
{
    if fields.len() == 0 {
        None
    } else if fields[0].0 == k {
        Some(fields[0].1)
    } else {
        obj_fields_lookup(fields.drop_first(), k)
    }
}

/// Member `k` of an object node; nothing on any other kind of node.
pub open spec fn obj_get(m: JsonNode, k: Seq<char>) -> Option<JsonNode> {
    match m {
        JsonNode::Object(fields) => obj_fields_lookup(fields, k),
        _ => None,
    }
}

/// The document a text parses to, if it is well-formed JSON.
pub uninterp spec fn json_doc(s: Seq<char>) -> Option<JsonNode>;

/// What one parsed `serde_json::Value` holds.
pub uninterp spec fn value_model(v: serde_json::Value) -> JsonNode;

/// The contents of a list of parsed values.
pub open spec fn models_of(s: Seq<serde_json::Value>) -> Seq<JsonNode> {
    s.map_values(|v: serde_json::Value| value_model(v))
}

#[verifier::external_type_specification]
#[verifier::external_body]
pub struct ExValue(serde_json::Value);

/// Relies on `serde_json::from_str`: parses the text as one JSON document —
/// exactly the document `json_doc` names — or nothing when the text is
/// malformed.
#[verifier::external_body]
pub fn parse_json(s: &str) -> (r: Option<serde_json::Value>)
    ensures
        (r is Some) == (json_doc(s@) is Some),
        r matches Some(v) ==> json_doc(s@) == Some(value_model(v)),
{
    serde_json::from_str::<serde_json::Value>(s).ok()
}

/// Relies on `serde_json::Value::get`: looks a key up in a JSON object;
/// nothing when the key is absent or the value is no object.
#[verifier::external_body]
pub fn json_get<'a>(v: &'a serde_json::Value, key: &str) -> (r: Option<&'a serde_json::Value>)
    ensures
        (r is Some) == (obj_get(value_model(*v), key@) is Some),
        r matches Some(w) ==> obj_get(value_model(*v), key@) == Some(value_model(*w)),
{
    v.get(key)
}

/// Relies on `serde_json::Value::as_str`: the borrowed text of a JSON
/// string, or nothing for any other kind of value.
#[verifier::external_body]
pub fn json_as_str<'a>(v: &'a serde_json::Value) -> (r: Option<&'a str>)
    ensures
        (r is Some) == (value_model(*v) is Text),
        r matches Some(s) ==> value_model(*v) == JsonNode::Text(s@),
{
    v.as_str()
}

/// Relies on `serde_json::Value::as_array`: the elements of a JSON array,
/// or nothing for any other kind of value.
#[verifier::external_body]
pub fn json_as_array<'a>(v: &'a serde_json::Value) -> (r: Option<&'a Vec<serde_json::Value>>)
    ensures
        (r is Some) == (value_model(*v) is Array),
        r matches Some(a) ==> value_model(*v) == JsonNode::Array(models_of(a@)),
{
    v.as_array()
}

/// Relies on the `Display` rendering of `serde_json::Number`: the decimal
/// text of a JSON number, or nothing for any other kind of value.
#[verifier::external_body]
pub fn json_number_text(v: &serde_json::Value) -> (r: Option<String>)
    ensures
        (r is Some) == (value_model(*v) is NumberText),
        r matches Some(s) ==> value_model(*v) == JsonNode::NumberText(s@),
{
    match v {
        serde_json::Value::Number(n) => Some(n.to_string()),
        _ => None,
    }
}

} // verus!
