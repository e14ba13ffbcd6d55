//! Log lines in JSON.

use serde_json::Value;
use vstd::prelude::*;

verus! {

/// A JSON value, as far as a log line is read.
#[derive(Debug, Clone)]
pub struct JsonValue {
    /// What it says, where it is a string.
    pub text: Option<String>,
    /// Its number, where it is a 64-bit integer.
    pub integer: Option<i64>,
    /// The value in compact notation.
    pub shown: String,
}

/// A JSON value as a model.
#[verifier::ext_equal]
pub struct JsonValueView {
    pub text: Option<Seq<char>>,
    pub integer: Option<i64>,
    pub shown: Seq<char>,
}

impl DeepView for JsonValue {
    type V = JsonValueView;

    open spec fn deep_view(&self) -> JsonValueView {
        JsonValueView {
            text: self.text.deep_view(),
            integer: self.integer,
            shown: self.shown@,
        }
    }
}

/// A member of a JSON document that is an object.
#[derive(Debug, Clone)]
pub struct JsonEntry {
    pub name: String,
    pub value: JsonValue,
    /// The members of the value, where it is an object itself.
    pub members: Option<Vec<(String, JsonValue)>>,
}

/// A member of a JSON document as a model.
#[verifier::ext_equal]
pub struct JsonEntryView {
    pub name: Seq<char>,
    pub value: JsonValueView,
    pub members: Option<Seq<(Seq<char>, JsonValueView)>>,
}

impl DeepView for JsonEntry {
    type V = JsonEntryView;

    open spec fn deep_view(&self) -> JsonEntryView {
        JsonEntryView {
            name: self.name@,
            value: self.value.deep_view(),
            members: self.members.deep_view(),
        }
    }
}

/// The members of the JSON document that a text is; nothing where it is not
/// JSON, and no members where it is not an object.
pub uninterp spec fn document(s: Seq<char>) -> Option<Seq<JsonEntryView>>;

/// `serde_json::from_str` reads a text as a JSON value, which is handed out with
/// the members of its members. How the text is read, in which order the members
/// come and how a value is written is not spelled out here.
#[verifier::external_body]
pub(crate) fn parse_document(s: &str) -> (r: Option<Vec<JsonEntry>>)
    ensures
        r.deep_view() == document(s@),
{
    let plain = |x: &Value| JsonValue {
        text: x.as_str().map(String::from),
        integer: x.as_i64(),
        shown: x.to_string(),
    };
    let value: Value = serde_json::from_str(s).ok()?;
    let object = value.as_object().cloned().unwrap_or_default();
    Some(object.iter().map(|(name, x)| JsonEntry {
        name: name.clone(),
        value: plain(x),
        members: x.as_object().map(|m| m.iter().map(|(n, y)| (n.clone(), plain(y))).collect()),
    }).collect())
}

} // verus!
