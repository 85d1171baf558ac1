//! Byte locations within a source.
use vstd::prelude::*;

verus! {

/// A byte offset within a source, with its line and column.
#[derive(Copy, Clone, Debug, Default, PartialEq, Eq)]
pub struct SourceLocation {
    pub line: usize,
    pub col: usize,
    pub offset: usize,
}

impl SourceLocation {
    /// The location of byte `offset` on the line that starts at `line_start`.
    pub fn from(offset: usize, line_start: SourceLocation) -> (res: SourceLocation)
        requires
            line_start.offset <= offset,
        ensures
            res.line == line_start.line,
            res.col == offset - line_start.offset,
            res.offset == offset,
    {
        SourceLocation { line: line_start.line, col: offset - line_start.offset, offset }
    }
}

} // verus!
