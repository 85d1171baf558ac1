//! Byte spans within a source.
use vstd::prelude::*;

use crate::source::location::SourceLocation;
use crate::source::{line_start_after, span_within};
use vstd::string::StringSliceAdditionalSpecFns;

verus! {

/// A span of bytes within a source.
#[derive(Copy, Clone, Debug)]
pub struct SourceSpan<'a> {
    pub content: &'a str,
    pub start: SourceLocation,
    pub end: SourceLocation,
}

impl<'a> SourceSpan<'a> {
    /// The span of bytes `found` of `content`, where `line_start` is the start of
    /// the line that holds `found.start`; `line_start` moves to the start of the
    /// line where `found` ends.
    pub fn from_range(content: &'a str, found: core::ops::Range<usize>, line_start: &mut SourceLocation) -> (res: Self)
        requires
            span_within(content.spec_bytes(), found.start as int, found.end as int, *old(line_start)),
        ensures
            *final(line_start) == line_start_after(content.spec_bytes(), found.start as int, found.end as int, *old(line_start)),
            res.content == content,
            res.start == (SourceLocation { line: old(line_start).line, col: (found.start - old(line_start).offset) as usize, offset: found.start }),
            res.end == (SourceLocation { line: final(line_start).line, col: (found.end - final(line_start).offset) as usize, offset: found.end }),
    {
        let (start, end) = crate::source::span_locations(content, found, line_start);
        SourceSpan { content, start, end }
    }
}

impl<'a> PartialEq for SourceSpan<'a> {
    fn eq(&self, other: &Self) -> (res: bool) {
        crate::parse::checksum::str_equal(self.content, other.content)
    }
}

impl<'a> vstd::std_specs::cmp::PartialEqSpecImpl for SourceSpan<'a> {
    open spec fn obeys_eq_spec() -> bool {
        true
    }

    open spec fn eq_spec(&self, other: &Self) -> bool {
        self.content@ == other.content@
    }
}

} // verus!
