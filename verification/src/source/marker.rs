//! Markers found in a source.
use vstd::prelude::*;

use crate::source::location::SourceLocation;
use crate::source::span::SourceSpan;

verus! {

/// A kind of marker
#[derive(Copy, Clone, Debug, PartialEq, Eq, Structural)]
pub enum MarkerKind {
    ProgramStart,
    ProgramEnd,
    OutputEnd,
}

impl MarkerKind {
    /// Position of the kind within a block (the order in which markers must appear).
    pub fn index(self) -> (res: usize)
        ensures
            self == MarkerKind::ProgramStart ==> res == 0,
            self == MarkerKind::ProgramEnd ==> res == 1,
            self == MarkerKind::OutputEnd ==> res == 2,
    {
        match self {
            MarkerKind::ProgramStart => 0,
            MarkerKind::ProgramEnd => 1,
            MarkerKind::OutputEnd => 2,
        }
    }

    /// Used by error reporting.
    pub fn description(self) -> (res: &'static str)
        ensures
            self == MarkerKind::ProgramStart ==> res@ == "program start"@,
            self == MarkerKind::ProgramEnd ==> res@ == "program end"@,
            self == MarkerKind::OutputEnd ==> res@ == "output end"@,
    {
        match self {
            MarkerKind::ProgramStart => "program start",
            MarkerKind::ProgramEnd => "program end",
            MarkerKind::OutputEnd => "output end",
        }
    }
}

/// A marker found in a source, with the starts of the lines before it.
#[derive(Clone, Debug)]
pub struct SourceMarker<'a> {
    pub kind: MarkerKind,
    pub span: SourceSpan<'a>,
    pub preceding_line_starts: Vec<SourceLocation>,
}

impl<'a> SourceMarker<'a> {
    /// The text of the marker: the bytes of the content that it spans.
    pub fn text(&self) -> (res: &'a str)
        requires
            self.span.start.offset <= self.span.end.offset,
            vstd::utf8::is_char_boundary(vstd::utf8::encode_utf8(self.span.content@), self.span.start.offset as int),
            vstd::utf8::is_char_boundary(vstd::utf8::encode_utf8(self.span.content@), self.span.end.offset as int),
        ensures
            res@ == vstd::utf8::decode_utf8(
                vstd::utf8::encode_utf8(self.span.content@).subrange(
                    self.span.start.offset as int,
                    self.span.end.offset as int,
                ),
            ),
    {
        crate::text::byte_slice(self.span.content, self.span.start.offset, self.span.end.offset)
    }

    /// The byte range of the marker.
    pub fn range(&self) -> (res: core::ops::Range<usize>)
        ensures
            res.start == self.span.start.offset,
            res.end == self.span.end.offset,
    {
        self.span.start.offset..self.span.end.offset
    }
}

} // verus!
