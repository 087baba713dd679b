//! A plain-data image of a JSON value, as GLPI returns it in free-form fields.
use vstd::prelude::*;

verus! {

/// A JSON value. Numbers are kept as the text that `serde_json` prints for them;
/// objects keep their members in the order in which they were read.
#[derive(Debug)]
pub enum JsonValue {
    Null,
    Bool(bool),
    Number(String),
    String(String),
    Array(Vec<JsonValue>),
    Object(Vec<(String, JsonValue)>),
}

} // verus!
