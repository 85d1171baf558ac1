//! Locations within a source text.
use vstd::prelude::*;

use crate::text::{char_len_utf8, char_width, chars_of, utf8_len};

verus! {

/// A location within a text.
#[derive(Clone, Copy, Debug, Default, PartialEq, Eq)]
pub struct Loc {
    /// Byte offset
    pub offset: usize,
    /// Line number (0-indexed)
    pub line: usize,
    /// Column number in bytes (0-indexed)
    pub col: usize,
    /// Character (Unicode scalar) offset
    pub index: usize,
}

/// A location as mathematical integers: (byte offset, line, byte column, character offset).
pub type LocModel = (int, int, int, int);

impl Loc {
    pub open spec fn model(self) -> LocModel {
        (self.offset as int, self.line as int, self.col as int, self.index as int)
    }

    /// The location at the very start of a text.
    pub fn origin() -> (res: Loc)
        ensures
            res.model() == (0int, 0int, 0int, 0int),
    {
        Loc { offset: 0, line: 0, col: 0, index: 0 }
    }
}

/// Where a location ends up after the text `s`: a newline moves to column 0 of
/// the next line, any other character moves right by its UTF-8 width.
pub open spec fn advance(start: LocModel, s: Seq<char>) -> LocModel
    decreases s.len(),
{
    if s.len() == 0 {
        start
    } else {
        let p = advance(start, s.drop_last());
        let c = s.last();
        if c == '\n' {
            (p.0 + 1, p.1 + 1, 0, p.3 + 1)
        } else {
            (p.0 + char_width(c), p.1, p.2 + char_width(c), p.3 + 1)
        }
    }
}

/// The number of newline characters in `s`.
pub open spec fn newline_count(s: Seq<char>) -> nat
    decreases s.len(),
{
    if s.len() == 0 {
        0
    } else {
        newline_count(s.drop_last()) + if s.last() == '\n' { 1nat } else { 0nat }
    }
}

/// Whether a location model fits in the fields of a `Loc`.
pub open spec fn fits(m: LocModel) -> bool {
    0 <= m.0 <= usize::MAX && 0 <= m.1 <= usize::MAX && 0 <= m.2 <= usize::MAX && 0 <= m.3
        <= usize::MAX
}

/// Advancing over a concatenation is advancing over each part in turn.
pub proof fn lemma_advance_concat(start: LocModel, a: Seq<char>, b: Seq<char>)
    ensures
        advance(start, a + b) == advance(advance(start, a), b),
    decreases b.len(),
{
    if b.len() == 0 {
        assert(a + b =~= a);
    } else {
        lemma_advance_concat(start, a, b.drop_last());
        assert((a + b).drop_last() =~= a + b.drop_last());
        assert((a + b).last() == b.last());
    }
}

/// The byte offset, line and character offset of `advance` are those of the
/// start plus the byte length, the newline count and the length of the text.
pub proof fn lemma_advance_components(start: LocModel, s: Seq<char>)
    ensures
        advance(start, s).0 == start.0 + utf8_len(s),
        advance(start, s).1 == start.1 + newline_count(s),
        advance(start, s).3 == start.3 + s.len(),
        newline_count(s) <= s.len(),
    decreases s.len(),
{
    if s.len() > 0 {
        lemma_advance_components(start, s.drop_last());
    }
}

/// The column after a text without newlines grows by its byte length; after a
/// text with newlines it does not depend on where the text started.
pub proof fn lemma_advance_col(start: LocModel, s: Seq<char>)
    ensures
        newline_count(s) == 0 ==> advance(start, s).2 == start.2 + utf8_len(s),
        newline_count(s) > 0 ==> advance(start, s).2 <= utf8_len(s),
        newline_count(s) > 0 ==> forall|other: LocModel| #[trigger] advance(other, s).2 == advance(start, s).2,
    decreases s.len(),
{
    if s.len() > 0 {
        lemma_advance_col(start, s.drop_last());
        let t = s.drop_last();
        if newline_count(t) > 0 {
            assert forall|other: LocModel| #[trigger] advance(other, s).2 == advance(start, s).2 by {
                assert(advance(other, t).2 == advance(start, t).2);
            }
        } else if s.last() == '\n' {
            assert forall|other: LocModel| #[trigger] advance(other, s).2 == advance(start, s).2 by {
            }
        }
    }
}

/// The byte offset, line and character offset only grow along a text.
pub proof fn lemma_advance_mono(start: LocModel, s: Seq<char>, i: int, j: int)
    requires
        0 <= i <= j <= s.len(),
    ensures
        advance(start, s.take(i)).0 <= advance(start, s.take(j)).0,
        advance(start, s.take(i)).1 <= advance(start, s.take(j)).1,
        advance(start, s.take(i)).3 <= advance(start, s.take(j)).3,
{
    lemma_advance_concat(start, s.take(i), s.subrange(i, j));
    assert(s.take(i) + s.subrange(i, j) =~= s.take(j));
    lemma_advance_components(advance(start, s.take(i)), s.subrange(i, j));
}

/// A column never exceeds the byte offset, if it did not at the start.
pub proof fn lemma_advance_col_le_offset(start: LocModel, s: Seq<char>)
    requires
        0 <= start.2 <= start.0,
    ensures
        0 <= advance(start, s).2 <= advance(start, s).0,
    decreases s.len(),
{
    if s.len() > 0 {
        lemma_advance_col_le_offset(start, s.drop_last());
    }
}

/// Advancing from a location with no negative component gives none.
pub proof fn lemma_advance_nonneg(start: LocModel, s: Seq<char>)
    requires
        0 <= start.0 && 0 <= start.1 && 0 <= start.2 && 0 <= start.3,
    ensures
        0 <= advance(start, s).0 && 0 <= advance(start, s).1 && 0 <= advance(start, s).2 && 0
            <= advance(start, s).3,
    decreases s.len(),
{
    if s.len() > 0 {
        lemma_advance_nonneg(start, s.drop_last());
    }
}

impl Loc {
    /// The location reached from `self` after the text `rhs`.
    pub fn add(self, rhs: &str) -> (res: Loc)
        requires
            fits(advance(self.model(), rhs@)),
        ensures
            res.model() == advance(self.model(), rhs@),
    {
        let cs = chars_of(rhs);
        assert(cs@.subrange(0, cs@.len() as int) =~= rhs@);
        self.add_chars(cs.as_slice(), 0, cs.len())
    }

    /// The location reached from `self` after the characters `chars[from..to]`.
    pub fn add_chars(self, chars: &[char], from: usize, to: usize) -> (res: Loc)
        requires
            from <= to <= chars@.len(),
            fits(advance(self.model(), chars@.subrange(from as int, to as int))),
        ensures
            res.model() == advance(self.model(), chars@.subrange(from as int, to as int)),
    {
        let ghost s = chars@.subrange(from as int, to as int);
        let ghost m = self.model();
        let mut bytes: usize = 0;
        let mut lines: usize = 0;
        let mut tail: usize = 0;
        let mut seen_nl = false;
        let mut i = from;
        proof {
            assert(s.take(0) =~= Seq::<char>::empty());
            lemma_advance_components(m, s);
        }
        while i < to
            invariant
                from <= i <= to <= chars@.len(),
                s == chars@.subrange(from as int, to as int),
                m == self.model(),
                fits(advance(m, s)),
                tail <= bytes,
                advance(m, s.take(i - from)) == (m.0 + bytes, m.1 + lines, if seen_nl {
                    tail as int
                } else {
                    m.2 + bytes
                }, m.3 + (i - from)),
            decreases to - i,
        {
            proof {
                let k = i - from;
                assert(s.take(k + 1).drop_last() =~= s.take(k));
                assert(s.take(k + 1).last() == chars@[i as int]);
                lemma_advance_mono(m, s, k + 1, s.len() as int);
                assert(s.take(s.len() as int) =~= s);
            }
            let c = chars[i];
            let w = char_len_utf8(c);
            if c == '\n' {
                bytes = bytes + 1;
                lines = lines + 1;
                tail = 0;
                seen_nl = true;
            } else {
                bytes = bytes + w;
                tail = tail + w;
            }
            i += 1;
        }
        proof {
            assert(s.take(to - from) =~= s);
        }
        let col = if seen_nl {
            tail
        } else {
            self.col + bytes
        };
        Loc { offset: self.offset + bytes, line: self.line + lines, col, index: self.index + (i - from) }
    }

    /// The location at the end of `s`, from the start of a text, when its
    /// offsets and counts fit in `usize`.
    pub fn end_of(s: &str) -> (res: Option<Loc>)
        ensures
            res is Some <==> fits(advance((0int, 0int, 0int, 0int), s@)),
            res matches Some(l) ==> l.model() == advance((0int, 0int, 0int, 0int), s@),
    {
        let cs = chars_of(s);
        let mut total: usize = 0;
        let mut i: usize = 0;
        proof {
            assert(cs@.take(0) =~= Seq::<char>::empty());
        }
        while i < cs.len()
            invariant
                i <= cs@.len(),
                cs@ == s@,
                total == crate::text::utf8_len(cs@.take(i as int)),
            decreases cs@.len() - i,
        {
            let w = char_len_utf8(cs[i]);
            proof {
                crate::text::lemma_utf8_len_take_step(cs@, i as int);
            }
            if total > usize::MAX - w {
                proof {
                    crate::text::lemma_utf8_len_take_mono(cs@, i + 1, cs@.len() as int);
                    assert(cs@.take(cs@.len() as int) =~= cs@);
                    lemma_advance_components((0int, 0int, 0int, 0int), s@);
                }
                return None;
            }
            total = total + w;
            i += 1;
        }
        proof {
            assert(cs@.take(cs@.len() as int) =~= cs@);
            lemma_advance_components((0int, 0int, 0int, 0int), s@);
            lemma_advance_col_le_offset((0int, 0int, 0int, 0int), s@);
        }
        Some(Loc::origin().add(s))
    }

    /// The location as it is shown after a path: `:line:col`.
    pub fn to_string(&self) -> (res: String)
        ensures
            res@ == seq![':'] + crate::text::decimal(self.line as nat) + seq![':'] + crate::text::decimal(
                self.col as nat,
            ),
    {
        let mut s = String::new();
        crate::text::string_push(&mut s, ':');
        crate::text::push_decimal(&mut s, self.line);
        crate::text::string_push(&mut s, ':');
        crate::text::push_decimal(&mut s, self.col);
        proof {
            assert(s@ =~= seq![':'] + crate::text::decimal(self.line as nat) + seq![':'] + crate::text::decimal(
                self.col as nat,
            ));
        }
        s
    }

    /// Byte distance from `rhs` to `self`.
    pub fn sub(self, rhs: Loc) -> (res: usize)
        requires
            rhs.offset <= self.offset,
        ensures
            res == self.offset - rhs.offset,
    {
        self.offset - rhs.offset
    }
}

} // verus!
