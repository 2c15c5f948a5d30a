//! One classified source line: its structural kind and its span.

use crate::content::LineType;
use crate::section::Section;
use vstd::prelude::*;

verus! {

/// A source line together with the kind the segmenter read off it.
#[derive(Clone, Copy, Debug, PartialEq, Eq, Structural)]
pub struct Line {
    pub kind: LineType,
    pub section: Section,
}

impl Line {
    /// Make a classified line from its kind and offsets.
    pub fn new(kind: LineType, start: usize, end: usize) -> (result: Line)
        ensures
            result.kind == kind,
            result.section.start == start,
            result.section.end == end,
    {
        Line { kind, section: Section::new(start, end) }
    }
}

} // verus!
