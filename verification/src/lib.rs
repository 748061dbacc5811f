//! A converter between line- and tree-oriented configuration formats:
//! Java-style `.properties` files, JSON and YAML (with TOML as an additional
//! output). Every format is read into one common forest of named tree nodes
//! and written back out from it.
use vstd::prelude::*;

pub mod args;
pub mod command;
pub mod errors;
pub mod json_file_reader;
pub mod line;
pub mod node;
pub mod nodes;
pub mod nodes_writer;
pub mod property_file_reader;
pub mod raw_value;
pub mod round_trip;
pub mod text;
pub mod yaml_file_reader;

use crate::args::TargetFormat;
use crate::command::spec_command_ext;
use crate::command::Command;
use crate::errors::ProconError;
use crate::json_file_reader::json_doc_of;
use crate::json_file_reader::JsonFileReader;
use crate::node::NodeV;
use crate::nodes::Nodes;
use crate::nodes_writer::json_pretty_of;
use crate::nodes_writer::spec_default_filename;
use crate::nodes_writer::spec_forest_to_json;
use crate::nodes_writer::spec_props_write;
use crate::nodes_writer::spec_to_toml;
use crate::nodes_writer::spec_to_yaml;
use crate::property_file_reader::spec_delim;
use crate::property_file_reader::spec_props_parse;
use crate::property_file_reader::Delimiter;
use crate::property_file_reader::PropertyFileReader;
use crate::raw_value::spec_raw_to_forest;
use crate::yaml_file_reader::yaml_doc_of;
use crate::yaml_file_reader::YamlFileReader;

verus! {

/// The tail of the reader cascade: YAML if the text parses as YAML, else
/// the always-accepting properties tokenizer.
pub open spec fn spec_try_yaml_then_props(text: Seq<char>, d: char) -> Seq<NodeV> {
    match yaml_doc_of(text) {
        Some(v) => spec_raw_to_forest(v),
        None => spec_props_parse(text, d),
    }
}

/// The forest the reader cascade settles on for ambiguous input: JSON if
/// the text parses as a JSON object or array, else YAML, else the
/// always-accepting properties tokenizer.
pub open spec fn spec_try_all(text: Seq<char>, d: char) -> Seq<NodeV> {
    match json_doc_of(text) {
        Some(v) => if crate::raw_value::spec_rooted(v) {
            spec_raw_to_forest(v)
        } else {
            spec_try_yaml_then_props(text, d)
        },
        None => spec_try_yaml_then_props(text, d),
    }
}

/// Tries each reader in the fixed order JSON, YAML, properties and takes
/// the first that accepts the text; the properties reader accepts
/// everything, so the cascade always succeeds.
pub fn try_all_readers(content: &str, delimiter: &Delimiter) -> (r: Result<Nodes, ProconError>)
    requires
        content@.len() < 0xFFFF_FFFE,
    ensures
        r is Ok,
        r matches Ok(nodes) ==> nodes@ == spec_try_all(content@, spec_delim(*delimiter)),
{
    match JsonFileReader::parse(content) {
        Ok(nodes) => {
            return Ok(nodes);
        },
        Err(_) => {},
    }
    match YamlFileReader::parse(content) {
        Ok(nodes) => {
            return Ok(nodes);
        },
        Err(_) => {},
    }
    PropertyFileReader::parse(content, delimiter)
}

/// Parses raw input under an explicit source format: properties input
/// always yields a forest, YAML input fails exactly when its parser rejects
/// the text, and JSON input also fails when its top-level value is neither
/// an object nor an array.
pub fn parse_input(content: &str, format: &Command, delimiter: &Delimiter) -> (r: Result<
    Nodes,
    ProconError,
>)
    requires
        content@.len() < 0xFFFF_FFFE,
    ensures
        *format == Command::Properties ==> (r matches Ok(nodes) && nodes@ == spec_props_parse(
            content@,
            spec_delim(*delimiter),
        )),
        *format == Command::Json ==> (match r {
            Ok(nodes) => json_doc_of(content@) matches Some(v) && crate::raw_value::spec_rooted(
                v,
            ) && nodes@ == spec_raw_to_forest(v),
            Err(e) => e@ == "Unable to parse"@ && (match json_doc_of(content@) {
                Some(v) => !crate::raw_value::spec_rooted(v),
                None => true,
            }),
        }),
        *format == Command::Yaml ==> (match r {
            Ok(nodes) => yaml_doc_of(content@) matches Some(v) && nodes@ == spec_raw_to_forest(
                v,
            ),
            Err(e) => yaml_doc_of(content@) is None && e@ == "Wrong yaml format"@,
        }),
{
    match format {
        Command::Properties => PropertyFileReader::parse(content, delimiter),
        Command::Json => JsonFileReader::parse(content),
        Command::Yaml => YamlFileReader::parse(content),
    }
}

/// Renders a forest in the chosen target format: properties and JSON text
/// always come out, YAML and TOML fail exactly when their serializer
/// refuses the document.
pub fn render_output(nodes: &Nodes, target: &TargetFormat) -> (r: Result<String, ProconError>)
    ensures
        target matches TargetFormat::Properties { .. } ==> (r matches Ok(s) && s@
            == spec_props_write(nodes@)),
        target matches TargetFormat::Json { .. } ==> (r matches Ok(s) && s@ == json_pretty_of(
            spec_forest_to_json(nodes@),
        )),
        target matches TargetFormat::Yaml { .. } ==> (match r {
            Ok(s) => spec_to_yaml(nodes@) == Ok::<Seq<char>, Seq<char>>(s@),
            Err(e) => spec_to_yaml(nodes@) == Err::<Seq<char>, Seq<char>>(e@),
        }),
        target matches TargetFormat::Toml { .. } ==> (match r {
            Ok(s) => spec_to_toml(nodes@) == Some(s@),
            Err(e) => spec_to_toml(nodes@) is None && e@ == "Could not convert to toml format"@,
        }),
{
    match target {
        TargetFormat::Properties { .. } => Ok(crate::nodes_writer::to_properties(nodes)),
        TargetFormat::Json { .. } => Ok(crate::nodes_writer::to_json(nodes)),
        TargetFormat::Yaml { .. } => crate::nodes_writer::to_yaml(nodes),
        TargetFormat::Toml { .. } => crate::nodes_writer::to_toml(nodes),
    }
}

/// The name of the file a conversion writes, from the format word and the
/// input file's name.
pub fn output_filename(command: &Command, filename: &str) -> (r: String)
    ensures
        r@ == spec_default_filename(filename@, spec_command_ext(*command)),
{
    let file = filename.to_owned();
    let ext: &str = match command {
        Command::Properties => "properties",
        Command::Yaml => "yaml",
        Command::Json => "json",
    };
    crate::nodes_writer::filename_with_ext(&file, ext)
}

} // verus!
