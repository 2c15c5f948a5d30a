//! A small Markdown-to-HTML converter, verified end to end.
//!
//! The conversion runs in three stages: every character of the input is
//! classified into a [`symbol::Symbol`] tag, the classified lines are
//! grouped into structural blocks, and each block is rendered to an HTML
//! fragment. [`convert`] is the single entry point; what it returns is
//! pinned down exactly by the specification function
//! [`model::spec_convert`].

use vstd::prelude::*;

pub mod content;
pub mod laws;
pub mod line;
pub mod link;
pub mod model;
pub mod output;
pub mod paragraph;
pub mod section;
pub mod symbol;

verus! {

/// Convert a string of markdown to HTML.
pub fn convert(input: &str) -> (result: String)
    ensures
        result@ == model::spec_convert(input@),
{
    let parser = content::Content::from_str(input);
    parser.convert()
}

} // verus!
