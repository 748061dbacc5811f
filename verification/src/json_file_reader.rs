//! The JSON reader: outside parsing into the raw document model, then the
//! verified walk that builds the forest.
use crate::errors::ProconError;
use crate::nodes::Nodes;
use crate::raw_value::raw_height;
use crate::raw_value::raw_to_nodes;
use crate::raw_value::spec_raw_to_forest;
use crate::raw_value::spec_rooted;
use crate::raw_value::RawEntry;
use crate::raw_value::RawV;
use crate::raw_value::RawValue;
use vstd::prelude::*;
use vstd::string::StringExecFns;

verus! {

/// A name for the parsed form of JSON text: the value tree that
/// `serde_json::from_str` yields, carried into the library's raw document
/// model, or nothing for text that is not JSON.
pub uninterp spec fn json_doc_of(s: Seq<char>) -> Option<RawV>;

/// Declares serde_json's value type so that the trusted converter below may
/// name it; the type stays opaque.
#[verifier::external_type_specification]
#[verifier::external_body]
pub struct ExJsonValue(serde_json::Value);

/// Relies on serde_json::from_str: it parses JSON text deterministically
/// (object keys iterate in sorted order), fails exactly on text that is not
/// a JSON document, and bounds nesting with its recursion limit of 128.
#[verifier::external_body]
fn parse_json_text(content: &str) -> (r: Option<RawValue>)
    ensures
        match r {
            Some(v) => json_doc_of(content@) == Some(v@) && raw_height(v@) <= 0x1000,
            None => json_doc_of(content@) is None,
        },
{
    match serde_json::from_str::<serde_json::Value>(content) {
        Ok(v) => Some(json_value_to_raw(&v)),
        Err(_) => None,
    }
}

/// Relies on serde_json::Value: each variant moves into the library's raw
/// model; numbers keep serde_json's rendering, array elements are
/// stringified with their quotes removed, a null is skipped.
#[verifier::external_body]
fn json_value_to_raw(v: &serde_json::Value) -> RawValue {
    match v {
        serde_json::Value::Null => RawValue::Skip,
        serde_json::Value::Bool(b) => RawValue::Bool(*b),
        serde_json::Value::Number(n) => RawValue::Num(n.to_string()),
        serde_json::Value::String(s) => RawValue::Str(s.clone()),
        serde_json::Value::Array(a) => RawValue::List(a.iter().map(json_item_text).collect()),
        serde_json::Value::Object(o) => RawValue::Mapping(o.iter().map(json_entry_raw).collect()),
    }
}

/// Relies on serde_json::Value::to_string: an array element is its JSON text
/// with the quote characters removed, as the properties view of it.
#[verifier::external_body]
fn json_item_text(v: &serde_json::Value) -> String {
    v.to_string().replace("\"", "")
}

/// Relies on serde_json's object iteration: one key with its converted
/// value.
#[verifier::external_body]
fn json_entry_raw(e: (&String, &serde_json::Value)) -> RawEntry {
    RawEntry { key: e.0.clone(), value: json_value_to_raw(e.1) }
}

/// Reads a whole JSON document into a forest.
pub struct JsonFileReader {}

impl JsonFileReader {
    /// Parses JSON text and converts it: one root per key of a top-level
    /// object, a single nameless array root for a top-level array, and an
    /// error exactly when the text is not JSON or its top-level value is
    /// neither an object nor an array.
    pub fn parse(content: &str) -> (r: Result<Nodes, ProconError>)
        ensures
            match r {
                Ok(nodes) => json_doc_of(content@) matches Some(v) && spec_rooted(v) && nodes@
                    == spec_raw_to_forest(v),
                Err(e) => e@ == "Unable to parse"@ && (match json_doc_of(content@) {
                    Some(v) => !spec_rooted(v),
                    None => true,
                }),
            },
    {
        match parse_json_text(content) {
            Some(v) => {
                let rooted = match &v {
                    RawValue::Mapping(_) => true,
                    RawValue::List(_) => true,
                    _ => false,
                };
                if rooted {
                    Ok(raw_to_nodes(&v))
                } else {
                    Err(ProconError { message: String::from_str("Unable to parse") })
                }
            },
            None => Err(ProconError { message: String::from_str("Unable to parse") }),
        }
    }
}

} // verus!
