//! One logical key/value record produced by the properties tokenizer,
//! with the sanitization rules for keys and values and the append step for
//! multi-line continuations.
use crate::text::chars_to_string;
use crate::text::spec_trim_end;
use crate::text::spec_trim_start;
use crate::text::str_to_chars;
use crate::text::trim_end_chars;
use crate::text::trim_start_chars;
use vstd::prelude::*;

verus! {

/// A key/value record with the number of the source line it came from.
#[derive(Debug)]
pub struct Line {
    pub key: String,
    pub value: String,
    pub line_number: u32,
}

/// The mathematical model of a `Line`.
#[verifier::ext_equal]
pub struct LineV {
    pub key: Seq<char>,
    pub value: Seq<char>,
    pub line_number: u32,
}

impl View for Line {
    type V = LineV;

    open spec fn view(&self) -> LineV {
        LineV { key: self.key@, value: self.value@, line_number: self.line_number }
    }
}

impl Clone for Line {
    fn clone(&self) -> (r: Line)
        ensures
            r@ == self@,
    {
        Line { key: self.key.clone(), value: self.value.clone(), line_number: self.line_number }
    }
}

/// A sequence with its last character removed; the empty sequence stays
/// empty.
pub open spec fn spec_remove_last(s: Seq<char>) -> Seq<char> {
    if s.len() > 0 {
        s.drop_last()
    } else {
        s
    }
}

/// What a stored record looks like after one more continuation line: the
/// consumed backslash goes, and the new line joins with its leading
/// whitespace removed.
pub open spec fn spec_add_multiline(l: LineV, value: Seq<char>) -> LineV {
    LineV {
        key: l.key,
        value: spec_remove_last(l.value) + spec_trim_start(value),
        line_number: l.line_number,
    }
}

impl Line {
    /// A record from a raw key and value: the key loses trailing whitespace,
    /// the value loses leading whitespace.
    pub fn new(key: &str, value: &str, line_number: u32) -> (r: Line)
        ensures
            r@ == (LineV {
                key: spec_trim_end(key@),
                value: spec_trim_start(value@),
                line_number,
            }),
    {
        Line {
            key: Line::sanitize_key(key),
            value: Line::sanitize_value(value),
            line_number,
        }
    }

    /// Appends a continuation line: the stored value's trailing backslash is
    /// consumed and the sanitized new line follows directly.
    pub fn add_multiline(&mut self, value: &str)
        ensures
            final(self)@ == spec_add_multiline(old(self)@, value@),
    {
        let mut chars = str_to_chars(self.value.as_str());
        if chars.len() > 0 {
            chars.pop();
            proof {
                assert(chars@ =~= spec_remove_last(old(self).value@));
            }
        }
        let mut tail = trim_start_chars(&str_to_chars(value));
        chars.append(&mut tail);
        self.value = chars_to_string(&chars);
    }

    fn sanitize_key(key: &str) -> (r: String)
        ensures
            r@ == spec_trim_end(key@),
    {
        chars_to_string(&trim_end_chars(&str_to_chars(key)))
    }

    fn sanitize_value(value: &str) -> (r: String)
        ensures
            r@ == spec_trim_start(value@),
    {
        chars_to_string(&trim_start_chars(&str_to_chars(value)))
    }
}

} // verus!
