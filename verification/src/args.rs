//! The target-format selector handed in by the surrounding command line
//! layer: which writer to use, which file the input came from, and which
//! delimiter the properties tokenizer splits on.
use crate::property_file_reader::Delimiter;
use vstd::prelude::*;

verus! {

/// The format to write, with the input file's name and the properties
/// delimiter that belongs to the run.
#[derive(Debug)]
pub enum TargetFormat {
    Properties { property_delimiter: Delimiter, file: String },
    Yaml { property_delimiter: Delimiter, file: String },
    Json { property_delimiter: Delimiter, file: String },
    Toml { property_delimiter: Delimiter, file: String },
}

pub open spec fn spec_target_file(t: TargetFormat) -> Seq<char> {
    match t {
        TargetFormat::Properties { file, .. } => file@,
        TargetFormat::Yaml { file, .. } => file@,
        TargetFormat::Json { file, .. } => file@,
        TargetFormat::Toml { file, .. } => file@,
    }
}

pub open spec fn spec_target_delimiter(t: TargetFormat) -> Delimiter {
    match t {
        TargetFormat::Properties { property_delimiter, .. } => property_delimiter,
        TargetFormat::Yaml { property_delimiter, .. } => property_delimiter,
        TargetFormat::Json { property_delimiter, .. } => property_delimiter,
        TargetFormat::Toml { property_delimiter, .. } => property_delimiter,
    }
}

/// The file extension the format writes.
pub open spec fn spec_target_ext(t: TargetFormat) -> Seq<char> {
    match t {
        TargetFormat::Properties { .. } => "properties"@,
        TargetFormat::Yaml { .. } => "yaml"@,
        TargetFormat::Json { .. } => "json"@,
        TargetFormat::Toml { .. } => "toml"@,
    }
}

impl TargetFormat {
    /// The input file's name.
    pub fn path_buf(&self) -> (r: &String)
        ensures
            r@ == spec_target_file(*self),
    {
        match self {
            TargetFormat::Properties { file, .. } => file,
            TargetFormat::Yaml { file, .. } => file,
            TargetFormat::Json { file, .. } => file,
            TargetFormat::Toml { file, .. } => file,
        }
    }

    /// The properties delimiter of the run; every variant carries one.
    pub fn delimiter(&self) -> (r: Option<&Delimiter>)
        ensures
            r matches Some(d) && *d == spec_target_delimiter(*self),
    {
        match self {
            TargetFormat::Properties { property_delimiter, .. } => Some(property_delimiter),
            TargetFormat::Yaml { property_delimiter, .. } => Some(property_delimiter),
            TargetFormat::Json { property_delimiter, .. } => Some(property_delimiter),
            TargetFormat::Toml { property_delimiter, .. } => Some(property_delimiter),
        }
    }
}

} // verus!
