//! Spans between two locations.
use vstd::prelude::*;

use crate::parse::loc::Loc;

verus! {

/// The stretch of text between two locations.
#[derive(Debug, Clone, Copy, PartialEq, Eq)]
pub struct Span {
    pub start: Loc,
    pub end: Loc,
}

impl Span {
    /// Byte length of the span.
    pub fn len(&self) -> (res: usize)
        requires
            self.start.offset <= self.end.offset,
        ensures
            res == self.end.offset - self.start.offset,
    {
        self.end.offset - self.start.offset
    }

    /// The line of a span that lies within one line.
    pub fn line(&self) -> (res: usize)
        requires
            self.start.line == self.end.line,
        ensures
            res == self.start.line,
    {
        self.start.line
    }

    /// The byte range of the span.
    pub fn range(&self) -> (res: core::ops::Range<usize>)
        ensures
            res.start == self.start.offset,
            res.end == self.end.offset,
    {
        self.start.offset..self.end.offset
    }
}

} // verus!
