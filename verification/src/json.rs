//! JSON documents read through `serde_json`: one level of a document at a time, and
//! the pretty-printed form in which fetched documents are stored.

use vstd::prelude::*;

verus! {

/// One level of a JSON document: a string, an array or an object, whose members are
/// kept as the JSON texts of the member values; any other value is `Other`.
pub enum JsonNode {
    Str(String),
    Array(Vec<String>),
    Object(Vec<(String, String)>),
    Other,
}

/// The plain value of a `JsonNode`.
pub enum JsonNodeView {
    Str(Seq<char>),
    Array(Seq<Seq<char>>),
    Object(Seq<(Seq<char>, Seq<char>)>),
    Other,
}

/// The plain value of `n`.
pub open spec fn node_view(n: JsonNode) -> JsonNodeView {
    match n {
        JsonNode::Str(s) => JsonNodeView::Str(s@),
        JsonNode::Array(items) => JsonNodeView::Array(items@.map_values(|x: String| x@)),
        JsonNode::Object(entries) => JsonNodeView::Object(
            entries@.map_values(|p: (String, String)| (p.0@, p.1@)),
        ),
        JsonNode::Other => JsonNodeView::Other,
    }
}

/// The top level of the JSON document `text` as `parse_json_node` reads it with
/// `serde_json`, or nothing when `text` is not a JSON document.
pub uninterp spec fn json_node_of(text: Seq<char>) -> Option<JsonNodeView>;

/// Calls `serde_json::from_str::<serde_json::Value>` on `text` and keeps the top level:
/// a string as it is, the members of an array or object as their JSON texts
/// (`to_string` of each member, keys as they are, in the order the parsed map holds
/// them), any other value as `Other`; a parse error becomes `None`. The result is named
/// `json_node_of`: it depends on the text alone.
#[verifier::external_body]
pub(crate) fn parse_json_node(text: &str) -> (r: Option<JsonNode>)
    ensures
        r is Some <==> json_node_of(text@) is Some,
        r matches Some(n) ==> json_node_of(text@) == Some(node_view(n)),
{
    match serde_json::from_str::<serde_json::Value>(text) {
        Ok(serde_json::Value::String(s)) => Some(JsonNode::Str(s)),
        Ok(serde_json::Value::Array(a)) => Some(JsonNode::Array(a.iter().map(|x| x.to_string()).collect())),
        Ok(serde_json::Value::Object(o)) => Some(
            JsonNode::Object(o.iter().map(|(k, x)| (k.clone(), x.to_string())).collect()),
        ),
        Ok(_) => Some(JsonNode::Other),
        Err(_) => None,
    }
}

/// The JSON document `text` pretty-printed by `serde_json`, or nothing when `text`
/// is not a JSON document.
pub uninterp spec fn json_pretty_text(text: Seq<char>) -> Option<Seq<char>>;

/// Calls `serde_json::from_str::<serde_json::Value>` on `text` and
/// `serde_json::to_string_pretty` on the value; a failure of either becomes `None`
/// (the second cannot fail on a parsed value, whose keys are strings). The result is
/// named `json_pretty_text`: it depends on the text alone.
#[verifier::external_body]
fn pretty_json(text: &str) -> (r: Option<String>)
    ensures
        r is Some <==> json_pretty_text(text@) is Some,
        r matches Some(p) ==> json_pretty_text(text@) == Some(p@),
{
    match serde_json::from_str::<serde_json::Value>(text) {
        Ok(v) => serde_json::to_string_pretty(&v).ok(),
        Err(_) => None,
    }
}

/// The text under which a fetched document `text` is stored: its pretty-printed form
/// when it is JSON, otherwise the text itself; and whether it is JSON.
pub fn stored_body(text: &str) -> (r: (String, bool))
    ensures
        r.0@ == (match json_pretty_text(text@) {
            Some(p) => p,
            None => text@,
        }),
        r.1 == json_pretty_text(text@) is Some,
{
    match pretty_json(text) {
        Some(p) => (p, true),
        None => {
            let s = text.to_string();
            proof {
                vstd::string::to_string_from_display_ensures_for_str(text, s);
            }
            (s, false)
        },
    }
}

} // verus!
