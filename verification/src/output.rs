//! The result of one inline sub-parse: the HTML it produced and the
//! buffer position the caller resumes scanning from.

use vstd::prelude::*;

verus! {

/// An inline parse result: rendered text and the next cursor position.
pub struct Output {
    pub string: String,
    pub offset: usize,
}

impl Output {
    /// Make a parse result from an owned string.
    pub fn new(string: String, offset: usize) -> (result: Output)
        ensures
            result.string == string,
            result.offset == offset,
    {
        Output { string, offset }
    }

    /// Make a parse result from a borrowed string.
    pub fn from_str(string: &str, offset: usize) -> (result: Output)
        ensures
            result.string@ == string@,
            result.offset == offset,
    {
        Output::new(String::from_str(string), offset)
    }
}

} // verus!
