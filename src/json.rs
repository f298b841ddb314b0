use vstd::prelude::*;

verus! {

/// A parsed JSON document. Object entries keep the order in which the
/// document lists them; a number is held in its canonical textual form.
pub enum JsonValue {
    Null,
    Bool(bool),
    Number(String),
    Str(String),
    Array(Vec<JsonValue>),
    Object(Vec<(String, JsonValue)>),
}

impl JsonValue {
    /// True for an object or array with no members.
    pub open spec fn is_empty_container(self) -> bool {
        match self {
            JsonValue::Array(items) => items@.len() == 0,
            JsonValue::Object(entries) => entries@.len() == 0,
            _ => false,
        }
    }
}

} // verus!
