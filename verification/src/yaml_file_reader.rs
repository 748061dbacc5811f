//! The YAML reader: outside parsing into the raw document model, then the
//! same verified walk that the JSON reader uses.
use crate::errors::ProconError;
use crate::nodes::Nodes;
use crate::raw_value::raw_height;
use crate::raw_value::raw_to_nodes;
use crate::raw_value::spec_raw_to_forest;
use crate::raw_value::RawEntry;
use crate::raw_value::RawV;
use crate::raw_value::RawValue;
use vstd::prelude::*;
use vstd::string::StringExecFns;

verus! {

/// A name for the parsed form of YAML text: the value tree that
/// `serde_yaml::from_str` yields, carried into the library's raw document
/// model, or nothing for text that is not YAML.
pub uninterp spec fn yaml_doc_of(s: Seq<char>) -> Option<RawV>;

/// Declares serde_yaml's value type so that the trusted converters below may
/// name it; the type stays opaque.
#[verifier::external_type_specification]
#[verifier::external_body]
pub struct ExYamlValue(serde_yaml::Value);

/// Relies on serde_yaml::from_str: it parses YAML text deterministically
/// (mapping keys iterate in document order), fails exactly on text that is
/// not a YAML document, and bounds nesting with its recursion limit of 128.
#[verifier::external_body]
fn parse_yaml_text(content: &str) -> (r: Option<RawValue>)
    ensures
        match r {
            Some(v) => yaml_doc_of(content@) == Some(v@) && raw_height(v@) <= 0x1000,
            None => yaml_doc_of(content@) is None,
        },
{
    match serde_yaml::from_str::<serde_yaml::Value>(content) {
        Ok(v) => Some(yaml_value_to_raw(&v)),
        Err(_) => None,
    }
}

/// Relies on serde_yaml::Value: each variant moves into the library's raw
/// model; a null or tagged value is skipped, sequence elements are rendered
/// as text, and a key that is not a string becomes the empty key.
#[verifier::external_body]
fn yaml_value_to_raw(v: &serde_yaml::Value) -> RawValue {
    match v {
        serde_yaml::Value::Null => RawValue::Skip,
        serde_yaml::Value::Bool(b) => RawValue::Bool(*b),
        serde_yaml::Value::Number(n) => RawValue::Num(n.to_string()),
        serde_yaml::Value::String(s) => RawValue::Str(s.clone()),
        serde_yaml::Value::Sequence(a) => RawValue::List(a.iter().map(yaml_scalar_string).collect()),
        serde_yaml::Value::Mapping(m) => RawValue::Mapping(m.iter().map(yaml_entry_raw).collect()),
        serde_yaml::Value::Tagged(_) => RawValue::Skip,
    }
}

/// Relies on serde_yaml's mapping iteration: one key with its converted
/// value; a key that is not a string becomes the empty key.
#[verifier::external_body]
fn yaml_entry_raw(e: (&serde_yaml::Value, &serde_yaml::Value)) -> RawEntry {
    RawEntry {
        key: e.0.as_str().map(|s| s.to_string()).unwrap_or_default(),
        value: yaml_value_to_raw(e.1),
    }
}

/// Relies on serde_yaml::Value accessors: numbers render through their
/// float form, booleans as their words, strings as themselves; anything
/// else becomes the empty text.
#[verifier::external_body]
fn yaml_scalar_string(v: &serde_yaml::Value) -> String {
    if v.is_number() {
        return v.as_f64().map(|x| x.to_string()).unwrap_or_default();
    }
    if let Some(b) = v.as_bool() {
        return b.to_string();
    }
    v.as_str().map(|s| s.to_string()).unwrap_or_default()
}

/// Reads a whole YAML document into a forest.
pub struct YamlFileReader {}

impl YamlFileReader {
    /// Parses YAML text and converts it: one root per key of a top-level
    /// mapping, a single nameless array root for a top-level sequence, the
    /// empty forest for any other top-level value, and an error exactly when
    /// the text is not YAML.
    pub fn parse(content: &str) -> (r: Result<Nodes, ProconError>)
        ensures
            match r {
                Ok(nodes) => yaml_doc_of(content@) matches Some(v) && nodes@
                    == spec_raw_to_forest(v),
                Err(e) => yaml_doc_of(content@) is None && e@ == "Wrong yaml format"@,
            },
    {
        match parse_yaml_text(content) {
            Some(v) => Ok(raw_to_nodes(&v)),
            None => Err(ProconError { message: String::from_str("Wrong yaml format") }),
        }
    }
}

} // verus!
