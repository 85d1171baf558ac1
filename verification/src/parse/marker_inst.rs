//! A marker found in a text.
use vstd::prelude::*;

use crate::parse::loc::{
    advance, fits, lemma_advance_col, lemma_advance_col_le_offset, lemma_advance_components,
    lemma_advance_concat, lemma_advance_mono, lemma_advance_nonneg, Loc, LocModel,
};
use crate::parse::loc_line::{lemma_newline_count_none, LocatedLine};
use crate::parse::marker_kind::MarkerKind;
use crate::parse::program::{has_nl, line_end, line_end_incl, line_start, line_start_of};
use crate::parse::span::Span;
use crate::text::{chars_of, lemma_utf8_len_concat, utf8_len};

verus! {

/// The location at the very start of a text.
pub open spec fn origin() -> LocModel {
    (0int, 0int, 0int, 0int)
}

/// The location of character position `i` of `text`.
pub open spec fn loc_at(text: Seq<char>, i: int) -> LocModel {
    advance(origin(), text.take(i))
}

#[derive(Debug, Clone, Copy)]
pub struct MarkerInst<'s> {
    /// The kind of marker this is
    pub kind: MarkerKind,
    /// The line of content this marker was found in
    pub line: &'s str,
    /// The span within the content where the marker was found
    pub span: Span,
    /// The location where `line` starts
    pub line_start: Loc,
}

impl<'s> MarkerInst<'s> {
    /// The marker lies within one line of its own, and `span` and `line_start` say where.
    pub open spec fn wf(self) -> bool {
        &&& self.line_start.index <= self.span.start.index <= self.span.end.index
            <= self.line_start.index + self.line@.len()
        &&& self.span.start.line == self.span.end.line
    }

    /// The marker occupies characters `start..end` of `text`, and its locations
    /// and line are those of that place.
    pub open spec fn located_in(self, text: Seq<char>, start: int, end: int) -> bool {
        let ls = line_start_of(text, start);
        &&& 0 <= start <= end <= text.len()
        &&& !has_nl(text, start, end)
        &&& self.span.start.index == start
        &&& self.span.end.index == end
        &&& self.line_start.index == ls
        &&& self.line_start.model() == loc_at(text, ls)
        &&& self.span.start.model() == loc_at(text, start)
        &&& self.span.end.model() == loc_at(text, end)
        &&& self.line@ == text.subrange(ls, line_end_incl(text, start))
    }

    /// Builds the marker of kind `kind` found at characters `start..end` of a located line.
    pub fn new(kind: MarkerKind, start: usize, end: usize, located: &LocatedLine<'s>) -> (res: MarkerInst<'s>)
        requires
            start <= end <= located.1@.len(),
            forall|j: int| start <= j < end ==> located.1@[j] != '\n',
            fits(advance(located.0.model(), located.1@.take(end as int))),
        ensures
            res.kind == kind,
            res.line == located.1,
            res.line_start == located.0,
            res.span.start.model() == advance(located.0.model(), located.1@.take(start as int)),
            res.span.end.model() == advance(located.0.model(), located.1@.take(end as int)),
    {
        let line = located.1;
        let cs = chars_of(line);
        proof {
            let m = located.0.model();
            lemma_advance_concat(m, cs@.take(start as int), cs@.subrange(start as int, end as int));
            assert(cs@.take(start as int) + cs@.subrange(start as int, end as int) =~= cs@.take(end as int));
            assert(cs@.subrange(0, start as int) =~= cs@.take(start as int));
            lemma_advance_mono(m, cs@, start as int, end as int);
            lemma_advance_components(m, cs@.take(start as int));
            lemma_advance_components(advance(m, cs@.take(start as int)), cs@.subrange(start as int, end as int));
            assert forall|j: int| 0 <= j < cs@.subrange(start as int, end as int).len() implies cs@.subrange(start as int, end as int)[j] != '\n' by {
                assert(cs@.subrange(start as int, end as int)[j] == cs@[start + j]);
            }
            lemma_newline_count_none(cs@.subrange(start as int, end as int));
            lemma_advance_col(advance(m, cs@.take(start as int)), cs@.subrange(start as int, end as int));
            lemma_advance_nonneg(m, cs@.take(start as int));
            assert(fits(advance(m, cs@.take(start as int))));
        }
        let s = located.0.add_chars(cs.as_slice(), 0, start);
        let e = s.add_chars(cs.as_slice(), start, end);
        MarkerInst { kind, line, span: Span { start: s, end: e }, line_start: located.0 }
    }

    /// Builds the marker of kind `kind` that occupies characters `start..end` of
    /// `content`, given the location `at` of its start.
    pub fn locate(kind: MarkerKind, content: &'s str, chars: &[char], start: usize, end: usize, at: Loc) -> (res: MarkerInst<'s>)
        requires
            chars@ == content@,
            start <= end <= chars@.len(),
            !has_nl(chars@, start as int, end as int),
            at.model() == loc_at(chars@, start as int),
            fits(loc_at(chars@, chars@.len() as int)),
        ensures
            res.kind == kind,
            res.located_in(chars@, start as int, end as int),
            res.wf(),
    {
        let ghost text = chars@;
        proof {
            let sub = text.subrange(start as int, end as int);
            lemma_advance_concat(origin(), text.take(start as int), sub);
            assert(text.take(start as int) + sub =~= text.take(end as int));
            lemma_advance_mono(origin(), text, end as int, text.len() as int);
            assert(text.take(text.len() as int) =~= text);
            lemma_advance_col_le_offset(origin(), text.take(end as int));
            lemma_advance_components(origin(), text.take(end as int));
            lemma_advance_components(origin(), text.take(start as int));
            assert forall|j: int| 0 <= j < sub.len() implies sub[j] != '\n' by {
                assert(sub[j] == text[start + j]);
            }
            lemma_newline_count_none(sub);
            lemma_advance_components(at.model(), sub);
            lemma_loc_at_line_start(text, start as int);
            lemma_advance_components(origin(), text.take(line_start_of(text, start as int)));
        }
        let end_loc = at.add_chars(chars, start, end);
        let ls = line_start(chars, start);
        let le = line_end(chars, start);
        let le_incl = if le < chars.len() { le + 1 } else { le };
        proof {
            if le < end {
                assert(has_nl(text, start as int, end as int));
            }
        }
        let line = content.substring_char(ls, le_incl);
        let line_start = Loc { offset: at.offset - at.col, line: at.line, col: 0, index: ls };
        proof {
            lemma_advance_components(origin(), text.take(ls as int));
            assert(line_start.model() == loc_at(text, ls as int));
        }
        MarkerInst { kind, line, span: Span { start: at, end: end_loc }, line_start }
    }

    /// Whether this marker may follow `prev` where it stands: on the same line
    /// only if its kind allows it. Markers that may not are reported as errors
    /// rather than ignored.
    pub fn ok_after(&self, prev: &MarkerInst) -> (res: bool)
        requires
            self.wf(),
            prev.wf(),
        ensures
            res == (self.kind.spec_inline_ok() || self.span.start.line != prev.span.start.line),
    {
        let inline: bool = self.kind.inline_ok().into();
        inline || self.span.line() != prev.span.line()
    }

    /// The text of the marker.
    pub fn as_str(&self) -> (res: &'s str)
        requires
            self.wf(),
        ensures
            res@ == self.line@.subrange(
                self.span.start.index - self.line_start.index,
                self.span.end.index - self.line_start.index,
            ),
    {
        let col_start = self.span.start.index - self.line_start.index;
        let col_end = self.span.end.index - self.line_start.index;
        self.line.substring_char(col_start, col_end)
    }
}

/// A marker built from characters `start..end` of a line that starts at
/// column 0, with no newline before `end`, gives back those characters as its
/// text; it starts at the line's location moved right by the bytes before it
/// and spans the bytes of its text.
pub proof fn lemma_marker_text_round_trip(ls: Loc, line: Seq<char>, start: int, end: int, m: MarkerInst)
    requires
        ls.col == 0,
        0 <= start <= end <= line.len(),
        forall|j: int| 0 <= j < end ==> line[j] != '\n',
        m.line@ == line,
        m.line_start == ls,
        m.span.start.model() == advance(ls.model(), line.take(start)),
        m.span.end.model() == advance(ls.model(), line.take(end)),
    ensures
        m.wf(),
        m.line@.subrange(m.span.start.index - m.line_start.index, m.span.end.index - m.line_start.index)
            == line.subrange(start, end),
        m.span.start.offset == ls.offset + utf8_len(line.take(start)),
        m.span.start.line == ls.line,
        m.span.start.col == utf8_len(line.take(start)),
        m.span.start.index == ls.index + start,
        m.span.end.offset - m.span.start.offset == utf8_len(line.subrange(start, end)),
{
    let a = line.take(start);
    let b = line.take(end);
    assert forall|j: int| 0 <= j < a.len() implies a[j] != '\n' by {
        assert(a[j] == line[j]);
    }
    assert forall|j: int| 0 <= j < b.len() implies b[j] != '\n' by {
        assert(b[j] == line[j]);
    }
    lemma_newline_count_none(a);
    lemma_newline_count_none(b);
    lemma_advance_components(ls.model(), a);
    lemma_advance_components(ls.model(), b);
    lemma_advance_col(ls.model(), a);
    lemma_utf8_len_concat(a, line.subrange(start, end));
    assert(a + line.subrange(start, end) =~= b);
}

/// A location in the middle of a line is the start of that line moved right by
/// the byte width of the characters between.
pub proof fn lemma_loc_at_line_start(text: Seq<char>, i: int)
    requires
        0 <= i <= text.len(),
    ensures
        0 <= line_start_of(text, i) <= i,
        line_start_of(text, i) > 0 ==> text[line_start_of(text, i) - 1] == '\n',
        !has_nl(text, line_start_of(text, i), i),
        loc_at(text, line_start_of(text, i)).2 == 0,
        loc_at(text, i) == advance(loc_at(text, line_start_of(text, i)), text.subrange(line_start_of(text, i), i)),
        loc_at(text, i).1 == loc_at(text, line_start_of(text, i)).1,
        loc_at(text, i).0 - loc_at(text, i).2 == loc_at(text, line_start_of(text, i)).0,
        loc_at(text, i).3 - loc_at(text, line_start_of(text, i)).3 == i - line_start_of(text, i),
    decreases i,
{
    let ls = line_start_of(text, i);
    if i > 0 && text[i - 1] != '\n' {
        lemma_loc_at_line_start(text, i - 1);
    }
    assert(0 <= ls <= i);
    assert forall|j: int| ls <= j < i implies text[j] != '\n' by {
        if i > 0 && text[i - 1] != '\n' {
            if j < i - 1 {
                assert(!has_nl(text, ls, i - 1));
            }
        }
    }
    let sub = text.subrange(ls, i);
    lemma_advance_concat(origin(), text.take(ls), sub);
    assert(text.take(ls) + sub =~= text.take(i));
    assert forall|j: int| 0 <= j < sub.len() implies sub[j] != '\n' by {
        assert(sub[j] == text[ls + j]);
    }
    lemma_newline_count_none(sub);
    lemma_advance_col(loc_at(text, ls), sub);
    lemma_advance_components(loc_at(text, ls), sub);
    if ls > 0 {
        assert(text[ls - 1] == '\n');
        assert(text.take(ls).drop_last() =~= text.take(ls - 1));
        assert(text.take(ls).last() == '\n');
    }
}

} // verus!
