//! A marker matched in a content, by the bytes it covers.
use vstd::prelude::*;

use vstd::string::StringSliceAdditionalSpecFns;
use vstd::utf8::{decode_utf8, encode_utf8, is_char_boundary, valid_utf8};
use crate::parse::loc::{advance, fits, lemma_advance_components, Loc};
use crate::text::{byte_slice, chars_of, lemma_boundary_suffix, lemma_utf8_len_encode};

pub use crate::parse::marker_kind::MarkerKind;
use crate::parse::span::Span;

verus! {

/// A marker matched in a content.
#[derive(Debug, Clone, Copy)]
pub struct MarkerInst<'a> {
    /// The content this marker was matched from
    content: &'a str,
    /// The span within the content where the marker was found
    pub span: Span,
}

impl<'a> MarkerInst<'a> {
    /// The content the marker was matched from.
    pub closed spec fn content(&self) -> &'a str {
        self.content
    }

    /// The span of the content where the marker was found.
    pub closed spec fn marked(&self) -> Span {
        self.span
    }

    /// The marker that a match of bytes `start..end` of `content` makes, on line
    /// `line`, whose line starts at byte `line_start`: it starts there, and ends
    /// where the matched text leads.
    pub fn new(content: &'a str, start: usize, end: usize, line: usize, line_start: usize) -> (res: MarkerInst<'a>)
        requires
            start <= end,
            line_start <= start,
            is_char_boundary(content.spec_bytes(), start as int),
            is_char_boundary(content.spec_bytes(), end as int),
            fits(
                advance(
                    (
                        start as int,
                        line as int,
                        start - line_start,
                        decode_utf8(content.spec_bytes().take(start as int)).len() as int,
                    ),
                    decode_utf8(content.spec_bytes().subrange(start as int, end as int)),
                ),
            ),
        ensures
            res.content() == content,
            res.marked().start.offset == start,
            res.marked().start.line == line,
            res.marked().start.col == start - line_start,
            res.marked().start.index == decode_utf8(content.spec_bytes().take(start as int)).len(),
            res.marked().end.model() == advance(
                res.marked().start.model(),
                decode_utf8(content.spec_bytes().subrange(start as int, end as int)),
            ),
    {
        proof {
            vstd::utf8::encode_utf8_valid_utf8(content@);
            vstd::utf8::is_char_boundary_start_end_of_seq(content.spec_bytes());
            assert(content.spec_bytes().subrange(0, start as int) =~= content.spec_bytes().take(start as int));
        }
        let before = byte_slice(content, 0, start);
        let text = byte_slice(content, start, end);
        let index = chars_of(before).len();
        let s = Loc { offset: start, line, col: start - line_start, index };
        let e = s.add(text);
        MarkerInst { content, span: Span { start: s, end: e } }
    }

    /// The marker at `span` of `content`.
    pub fn from_span(content: &'a str, span: Span) -> (res: MarkerInst<'a>)
        ensures
            res.content() == content,
            res.marked() == span,
    {
        MarkerInst { content, span }
    }

    /// The bytes of the content that the marker covers.
    pub fn bytes(&self) -> (res: &'a str)
        requires
            self.marked().start.offset <= self.marked().end.offset,
            is_char_boundary(self.content().spec_bytes(), self.marked().start.offset as int),
            is_char_boundary(self.content().spec_bytes(), self.marked().end.offset as int),
        ensures
            res.spec_bytes() == self.content().spec_bytes().subrange(
                self.marked().start.offset as int,
                self.marked().end.offset as int,
            ),
    {
        let ghost b = self.content.spec_bytes();
        let s = self.span.start.offset;
        let e = self.span.end.offset;
        proof {
            vstd::utf8::encode_utf8_valid_utf8(self.content@);
            lemma_boundary_suffix(b, s as int, e as int);
        }
        let (_, tail) = self.content.split_at(s);
        let (res, _) = tail.split_at(e - s);
        proof {
            assert(res.spec_bytes() =~= b.subrange(s as int, e as int));
        }
        res
    }
}

/// A marker made from a match gives back the matched bytes as its own, and
/// spans as many bytes as the match.
pub proof fn lemma_marker_bytes_round_trip(
    content: &str,
    start: usize,
    end: usize,
    line: usize,
    line_start: usize,
    m: MarkerInst,
)
    requires
        start <= end,
        is_char_boundary(content.spec_bytes(), start as int),
        is_char_boundary(content.spec_bytes(), end as int),
        m.content() == content,
        m.marked().start.offset == start,
        m.marked().start.line == line,
        m.marked().start.col == start - line_start,
        m.marked().end.model() == advance(
            m.marked().start.model(),
            decode_utf8(content.spec_bytes().subrange(start as int, end as int)),
        ),
    ensures
        m.marked().end.offset == end,
        m.marked().end.offset - m.marked().start.offset == end - start,
        m.content().spec_bytes().subrange(m.marked().start.offset as int, m.marked().end.offset as int)
            == content.spec_bytes().subrange(start as int, end as int),
{
    let b = content.spec_bytes();
    let sub = b.subrange(start as int, end as int);
    vstd::utf8::encode_utf8_valid_utf8(content@);
    lemma_boundary_suffix(b, start as int, end as int);
    let tail = b.subrange(start as int, b.len() as int);
    vstd::utf8::valid_utf8_split(tail, end - start);
    assert(tail.subrange(0, end - start) =~= sub);
    vstd::utf8::decode_utf8_encode_utf8(sub);
    lemma_utf8_len_encode(decode_utf8(sub));
    lemma_advance_components(m.marked().start.model(), decode_utf8(sub));
}

} // verus!
