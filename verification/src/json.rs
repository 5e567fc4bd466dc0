//! JSON parsing and rendering, done by `serde_json`.

use vstd::prelude::*;

verus! {

/// Whether `text` parses as one JSON value, as `serde_json::from_str::<Value>` decides.
pub uninterp spec fn parses_as_json(text: Seq<char>) -> bool;

/// Whether `text` parses as one JSON object, as `serde_json::from_str::<Map<String, Value>>`
/// decides.
pub uninterp spec fn parses_as_json_object(text: Seq<char>) -> bool;

/// Calls `serde_json::from_str::<serde_json::Value>` on `text` and reports whether it
/// succeeded. The contract claims only that the answer depends on the text alone.
#[verifier::external_body]
pub(crate) fn is_json(text: &str) -> (r: bool)
    ensures
        r == parses_as_json(text@),
{
    serde_json::from_str::<serde_json::Value>(text).is_ok()
}

/// Calls `serde_json::from_str::<serde_json::Map<String, serde_json::Value>>` on `text`
/// and reports whether it succeeded. The contract claims only that the answer depends
/// on the text alone.
#[verifier::external_body]
pub(crate) fn is_json_object(text: &str) -> (r: bool)
    ensures
        r == parses_as_json_object(text@),
{
    serde_json::from_str::<serde_json::Map<String, serde_json::Value>>(text).is_ok()
}

/// One value of a parsed command's argument envelope.
#[derive(Clone, Debug)]
pub enum JsonArgument {
    /// A flag that was given: `true`.
    Flag,
    /// One string value.
    Text(String),
    /// A list of string values.
    List(Vec<String>),
}

/// The model of an argument envelope value.
pub enum JsonArgumentView {
    Flag,
    Text(Seq<char>),
    List(Seq<Seq<char>>),
}

impl View for JsonArgument {
    type V = JsonArgumentView;

    open spec fn view(&self) -> JsonArgumentView {
        match self {
            JsonArgument::Flag => JsonArgumentView::Flag,
            JsonArgument::Text(s) => JsonArgumentView::Text(s@),
            JsonArgument::List(v) => JsonArgumentView::List(crate::contract::strings_view(v@)),
        }
    }
}

/// One key of an argument envelope and its value.
#[derive(Clone, Debug)]
pub struct JsonEntry {
    pub key: String,
    pub value: JsonArgument,
}

pub open spec fn entries_view(entries: Seq<JsonEntry>) -> Seq<(Seq<char>, JsonArgumentView)> {
    entries.map_values(|e: JsonEntry| (e.key@, e.value@))
}

/// The text `serde_json` renders for the object holding `entries`, inserted
/// in order (a later key replaces an earlier equal one).
pub uninterp spec fn json_object_text(entries: Seq<(Seq<char>, JsonArgumentView)>) -> Seq<char>;

/// Collects `entries` into a `serde_json::Map` (a flag as `true`, a text as a
/// string, a list as an array of strings) and renders `Value::Object` of it
/// with `ToString::to_string`. The contract claims that the text depends on
/// the entries alone, and that it is a JSON object, as serde_json renders
/// every `Value::Object`.
#[verifier::external_body]
pub(crate) fn render_json_object(entries: &Vec<JsonEntry>) -> (r: String)
    ensures
        r@ == json_object_text(entries_view(entries@)),
        parses_as_json_object(r@),
{
    let map: serde_json::Map<String, serde_json::Value> = entries.iter().map(|e| (e.key.clone(), match &e.value {
        JsonArgument::Flag => serde_json::Value::Bool(true),
        JsonArgument::Text(s) => serde_json::Value::String(s.clone()),
        JsonArgument::List(v) => serde_json::Value::from(v.clone()),
    })).collect();
    serde_json::Value::Object(map).to_string()
}

} // verus!
