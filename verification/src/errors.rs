//! The error value that readers and writers hand back to their caller.
use vstd::prelude::*;

verus! {

/// A conversion error with a human-readable message.
#[derive(Debug)]
pub struct ProconError {
    pub message: String,
}

impl Clone for ProconError {
    fn clone(&self) -> (r: ProconError)
        ensures
            r@ == self@,
    {
        ProconError { message: self.message.clone() }
    }
}

impl View for ProconError {
    type V = Seq<char>;

    open spec fn view(&self) -> Seq<char> {
        self.message@
    }
}

impl ProconError {
    /// The message text, for display by the caller.
    pub fn to_string(&self) -> (r: String)
        ensures
            r@ == self@,
    {
        self.message.clone()
    }
}

} // verus!
