//! Locations, spans and markers within a source, in bytes.
pub mod location;
pub mod marker;
pub mod span;

use vstd::prelude::*;

pub use crate::source::location::SourceLocation;
use crate::source::marker::MarkerKind;
use vstd::string::StringSliceAdditionalSpecFns;

verus! {

/// The bytes `start..end` of `bytes` lie after `line_start`, whose column is 0,
/// are not empty, fit in the source, and do not take the line number past `usize::MAX`.
pub open spec fn span_within(bytes: Seq<u8>, start: int, end: int, line_start: SourceLocation) -> bool {
    &&& line_start.col == 0
    &&& line_start.offset <= start < end <= bytes.len()
    &&& line_start.line + inner_newlines(bytes, start, end) <= usize::MAX
}

/// Number of newlines in `bytes[start..end - 1]`: the pieces that
/// `split_inclusive('\n')` makes of `bytes[start..end]`, less one.
pub open spec fn inner_newlines(bytes: Seq<u8>, start: int, end: int) -> nat
    decreases end - start,
{
    if end - 1 <= start {
        0
    } else {
        inner_newlines(bytes, start, end - 1) + if bytes[end - 2] == 10 { 1nat } else { 0nat }
    }
}

/// Start of the last piece that `split_inclusive('\n')` makes of
/// `bytes[start..end]`: one past its last newline before the final byte, or
/// `start` if it has none.
pub open spec fn last_piece_start(bytes: Seq<u8>, start: int, end: int) -> int
    decreases end - start,
{
    if end - 1 <= start {
        start
    } else if bytes[end - 2] == 10 {
        end - 1
    } else {
        last_piece_start(bytes, start, end - 1)
    }
}

/// Where the start of the line moves after the bytes `start..end`: to the
/// start of their last piece, if they span more than one.
pub open spec fn line_start_after(bytes: Seq<u8>, start: int, end: int, line_start: SourceLocation) -> SourceLocation {
    if inner_newlines(bytes, start, end) == 0 {
        line_start
    } else {
        SourceLocation {
            line: (line_start.line + inner_newlines(bytes, start, end)) as usize,
            col: line_start.col,
            offset: last_piece_start(bytes, start, end) as usize,
        }
    }
}

proof fn lemma_last_piece_bounds(bytes: Seq<u8>, start: int, end: int)
    requires
        start < end,
    ensures
        start <= last_piece_start(bytes, start, end) < end,
        inner_newlines(bytes, start, end) <= end - start,
    decreases end - start,
{
    if end - 1 > start {
        lemma_last_piece_bounds(bytes, start, end - 1);
    }
}

/// The start and end locations of the bytes `found` of `content`, moving
/// `line_start` to the start of the line where they end.
pub fn span_locations(content: &str, found: core::ops::Range<usize>, line_start: &mut SourceLocation) -> (res: (SourceLocation, SourceLocation))
    requires
        span_within(content.spec_bytes(), found.start as int, found.end as int, *old(line_start)),
    ensures
        *final(line_start) == line_start_after(content.spec_bytes(), found.start as int, found.end as int, *old(line_start)),
        res.0 == (SourceLocation { line: old(line_start).line, col: (found.start - old(line_start).offset) as usize, offset: found.start }),
        res.1 == (SourceLocation { line: final(line_start).line, col: (found.end - final(line_start).offset) as usize, offset: found.end }),
{
    let bytes = content.as_bytes();
    let ghost b = bytes@;
    let start = SourceLocation::from(found.start, *line_start);
    let mut count: usize = 0;
    let mut last = found.start;
    let mut j = found.start + 1;
    while j < found.end
        invariant
            found.start < j <= found.end <= b.len(),
            bytes@ == b,
            count == inner_newlines(b, found.start as int, j as int),
            last == last_piece_start(b, found.start as int, j as int),
            count <= j - found.start,
        decreases found.end - j,
    {
        if bytes[j - 1] == 10u8 {
            count += 1;
            last = j;
        }
        j += 1;
    }
    proof {
        lemma_last_piece_bounds(b, found.start as int, found.end as int);
    }
    if count > 0 {
        line_start.line = line_start.line + count;
        line_start.offset = last;
    }
    let end = SourceLocation::from(found.end, *line_start);
    (start, end)
}

/// A span of bytes within a source, with the start of the line where it ends.
#[derive(Copy, Clone, Debug)]
pub struct SourceSpan<'a> {
    pub content: &'a str,
    pub start: SourceLocation,
    pub end: SourceLocation,
    pub line_start: SourceLocation,
}

impl<'a> SourceSpan<'a> {
    /// The span of bytes `found` of `content`, where `line_start` is the start of
    /// the line that holds `found.start`; `line_start` moves to the start of the
    /// line where `found` ends.
    pub fn from_range(content: &'a str, found: core::ops::Range<usize>, line_start: &mut SourceLocation) -> (res: Self)
        requires
            span_within(content.spec_bytes(), found.start as int, found.end as int, *old(line_start)),
        ensures
            *final(line_start) == line_start_after(content.spec_bytes(), found.start as int, found.end as int, *old(line_start)),
            res.content == content,
            res.start == (SourceLocation { line: old(line_start).line, col: (found.start - old(line_start).offset) as usize, offset: found.start }),
            res.end == (SourceLocation { line: final(line_start).line, col: (found.end - final(line_start).offset) as usize, offset: found.end }),
            res.line_start == *final(line_start),
    {
        let (start, end) = span_locations(content, found, line_start);
        SourceSpan { content, start, end, line_start: *line_start }
    }
}

impl<'a> PartialEq for SourceSpan<'a> {
    fn eq(&self, other: &Self) -> (res: bool) {
        crate::parse::checksum::str_equal(self.content, other.content)
    }
}

impl<'a> vstd::std_specs::cmp::PartialEqSpecImpl for SourceSpan<'a> {
    open spec fn obeys_eq_spec() -> bool {
        true
    }

    open spec fn eq_spec(&self, other: &Self) -> bool {
        self.content@ == other.content@
    }
}

/// A marker found in a source.
#[derive(Copy, Clone, Debug)]
pub struct SourceMarker<'a> {
    pub kind: MarkerKind,
    pub span: SourceSpan<'a>,
}

impl<'a> SourceMarker<'a> {
    /// The text of the marker: the bytes of the content that it spans.
    pub fn text(&self) -> (res: &'a str)
        requires
            self.span.start.offset <= self.span.end.offset,
            vstd::utf8::is_char_boundary(vstd::utf8::encode_utf8(self.span.content@), self.span.start.offset as int),
            vstd::utf8::is_char_boundary(vstd::utf8::encode_utf8(self.span.content@), self.span.end.offset as int),
        ensures
            res@ == vstd::utf8::decode_utf8(
                vstd::utf8::encode_utf8(self.span.content@).subrange(
                    self.span.start.offset as int,
                    self.span.end.offset as int,
                ),
            ),
    {
        crate::text::byte_slice(self.span.content, self.span.start.offset, self.span.end.offset)
    }

    /// The byte range of the marker.
    pub fn range(&self) -> (res: core::ops::Range<usize>)
        ensures
            res.start == self.span.start.offset,
            res.end == self.span.end.offset,
    {
        self.span.start.offset..self.span.end.offset
    }
}

} // verus!
