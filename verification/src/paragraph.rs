//! One structural block: a maximal run of consecutive source lines
//! sharing a kind, the intermediate representation between segmentation
//! and rendering.

use crate::content::LineType;
use crate::section::{sections_view, Section};
use vstd::prelude::*;

verus! {

/// A block: its kind and the ordered stored lines it spans.
pub struct Paragraph {
    pub lines: Vec<Section>,
    pub kind: LineType,
}

impl Paragraph {
    /// The block as the model works on it: kind and line spans.
    pub open spec fn model(&self) -> (LineType, Seq<(int, int)>) {
        (self.kind, sections_view(self.lines@))
    }

    /// Make a block from its lines and kind.
    pub fn new(lines: Vec<Section>, kind: LineType) -> (result: Paragraph)
        ensures
            result.lines == lines,
            result.kind == kind,
    {
        Paragraph { lines, kind }
    }
}

} // verus!
