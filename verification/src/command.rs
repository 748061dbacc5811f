//! The bare format selector, parsed from a word like `yaml` or `json`.
use crate::text::chars_eq_lower;
use crate::text::spec_lower_seq;
use crate::text::str_to_chars;
use vstd::prelude::*;
use vstd::string::StringExecFns;

verus! {

/// One of the three formats a conversion can name by word.
#[derive(Debug, PartialEq, Clone)]
pub enum Command {
    Properties,
    Yaml,
    Json,
}

/// What parsing a format word yields, ignoring ASCII case: `yml` counts as
/// YAML, and any other word is rejected with a message naming it.
pub open spec fn spec_command_of(s: Seq<char>) -> Result<Command, Seq<char>> {
    if spec_lower_seq(s) == "properties"@ {
        Ok(Command::Properties)
    } else if spec_lower_seq(s) == "yaml"@ || spec_lower_seq(s) == "yml"@ {
        Ok(Command::Yaml)
    } else if spec_lower_seq(s) == "json"@ {
        Ok(Command::Json)
    } else {
        Err(s + "Not a valid command"@)
    }
}

impl Command {
    /// Parses a format word; see `spec_command_of`.
    pub fn from_str(input: &str) -> (r: Result<Command, String>)
        ensures
            match r {
                Ok(c) => spec_command_of(input@) == Ok::<Command, Seq<char>>(c),
                Err(e) => spec_command_of(input@) == Err::<Command, Seq<char>>(e@),
            },
    {
        let cs = str_to_chars(input);
        let w_properties = str_to_chars("properties");
        let w_yaml = str_to_chars("yaml");
        let w_yml = str_to_chars("yml");
        let w_json = str_to_chars("json");
        proof {
            reveal_strlit("properties");
            reveal_strlit("yaml");
            reveal_strlit("yml");
            reveal_strlit("json");
            assert(spec_lower_seq("properties"@) =~= "properties"@);
            assert(spec_lower_seq("yaml"@) =~= "yaml"@);
            assert(spec_lower_seq("yml"@) =~= "yml"@);
            assert(spec_lower_seq("json"@) =~= "json"@);
        }
        if chars_eq_lower(&cs, &w_properties) {
            return Ok(Command::Properties);
        }
        if chars_eq_lower(&cs, &w_yaml) || chars_eq_lower(&cs, &w_yml) {
            return Ok(Command::Yaml);
        }
        if chars_eq_lower(&cs, &w_json) {
            return Ok(Command::Json);
        }
        let mut message = input.to_owned();
        message.append("Not a valid command");
        Err(message)
    }
}

/// The file extension the command writes.
pub open spec fn spec_command_ext(c: Command) -> Seq<char> {
    match c {
        Command::Properties => "properties"@,
        Command::Yaml => "yaml"@,
        Command::Json => "json"@,
    }
}

} // verus!
