//! The lines of a text, each with the location where it starts.
use vstd::prelude::*;

use crate::parse::loc::{advance, fits, newline_count, lemma_advance_col_le_offset, lemma_advance_components, lemma_advance_concat, lemma_advance_mono, Loc};
use crate::text::chars_of;

verus! {

/// Length of the first line of `s`, its newline included (as `split_inclusive('\n')` cuts).
pub open spec fn first_line_len(s: Seq<char>) -> int
    decreases s.len(),
{
    if s.len() == 0 {
        0
    } else if s[0] == '\n' {
        1
    } else {
        1 + first_line_len(s.drop_first())
    }
}

/// The lines of `s`, each with its terminating newline, as `split_inclusive('\n')` yields them.
pub open spec fn split_lines(s: Seq<char>) -> Seq<Seq<char>>
    decreases s.len(),
{
    if s.len() == 0 {
        Seq::empty()
    } else {
        let n = first_line_len(s);
        if 0 < n <= s.len() {
            seq![s.take(n)] + split_lines(s.skip(n))
        } else {
            Seq::empty()
        }
    }
}

/// `first_line_len` is one past the first newline, or the whole text.
pub proof fn lemma_first_line_len(s: Seq<char>, k: int)
    requires
        0 <= k <= s.len(),
        forall|j: int| 0 <= j < k ==> s[j] != '\n',
        k == s.len() || s[k] == '\n',
    ensures
        first_line_len(s) == if k == s.len() { k } else { k + 1 },
    decreases k,
{
    if s.len() > 0 && k > 0 {
        let t = s.drop_first();
        assert forall|j: int| 0 <= j < k - 1 implies t[j] != '\n' by {
            assert(t[j] == s[j + 1]);
        }
        lemma_first_line_len(t, k - 1);
    }
}

/// A text without newline characters has no newlines to count.
pub proof fn lemma_newline_count_none(s: Seq<char>)
    requires
        forall|j: int| 0 <= j < s.len() ==> s[j] != '\n',
    ensures
        newline_count(s) == 0,
    decreases s.len(),
{
    if s.len() > 0 {
        let t = s.drop_last();
        assert forall|j: int| 0 <= j < t.len() implies t[j] != '\n' by {
            assert(t[j] == s[j]);
        }
        lemma_newline_count_none(t);
    }
}

/// A line of content together with the location of its first character.
pub struct LocatedLine<'i>(pub Loc, pub &'i str);

impl<'i> LocatedLine<'i> {
    /// The lines of `content` (each with its newline), each with its starting location.
    #[verifier::rlimit(50)]
    pub fn iter(content: &'i str) -> (res: Vec<LocatedLine<'i>>)
        requires
            fits(advance((0int, 0int, 0int, 0int), content@)),
        ensures
            res@.map_values(|l: LocatedLine<'i>| l.1@) == split_lines(content@),
            forall|k: int|
                0 <= k < res@.len() ==> {
                    &&& (#[trigger] res@[k]).0.model() == advance(
                        (0int, 0int, 0int, 0int),
                        content@.take(res@[k].0.index as int),
                    )
                    &&& res@[k].0.col == 0
                    &&& res@[k].0.line == k
                    &&& res@[k].1@ == content@.subrange(
                        res@[k].0.index as int,
                        res@[k].0.index + res@[k].1@.len(),
                    )
                },
    {
        let cs = chars_of(content);
        let ghost s = content@;
        let ghost origin = (0int, 0int, 0int, 0int);
        let mut res: Vec<LocatedLine<'i>> = Vec::new();
        let mut loc = Loc::origin();
        let mut start: usize = 0;
        let mut i: usize = 0;
        proof {
            assert(s.take(0) =~= Seq::<char>::empty());
            assert(s.skip(0) =~= s);
        }
        while i < cs.len()
            invariant
                cs@ == s,
                s == content@,
                origin == (0int, 0int, 0int, 0int),
                fits(advance(origin, s)),
                start <= i <= s.len(),
                forall|j: int| start <= j < i ==> s[j] != '\n',
                loc.model() == advance(origin, s.take(start as int)),
                start < s.len() ==> loc.col == 0,
                start < s.len() ==> loc.line == res@.len(),
                i == s.len() ==> start == i,
                res@.map_values(|l: LocatedLine<'i>| l.1@) + split_lines(s.skip(start as int))
                    == split_lines(s),
                forall|k: int|
                    0 <= k < res@.len() ==> {
                        &&& (#[trigger] res@[k]).0.model() == advance(
                            origin,
                            s.take(res@[k].0.index as int),
                        )
                        &&& res@[k].0.col == 0
                        &&& res@[k].0.line == k
                        &&& res@[k].1@ == s.subrange(
                            res@[k].0.index as int,
                            res@[k].0.index + res@[k].1@.len(),
                        )
                    },
            decreases s.len() - i,
        {
            if cs[i] == '\n' || i + 1 == cs.len() {
                let end = i + 1;
                let line = content.substring_char(start, end);
                proof {
                    let rest = s.skip(start as int);
                    let k = (i - start) as int;
                    assert forall|j: int| 0 <= j < k implies rest[j] != '\n' by {
                        assert(rest[j] == s[start + j]);
                    }
                    if cs@[i as int] == '\n' {
                        assert(rest[k] == '\n');
                        lemma_first_line_len(rest, k);
                    } else {
                        lemma_first_line_len(rest, k + 1);
                    }
                    assert(rest.take(k + 1) =~= s.subrange(start as int, end as int));
                    assert(rest.skip(k + 1) =~= s.skip(end as int));
                    assert(split_lines(rest) == seq![rest.take(k + 1)] + split_lines(rest.skip(k + 1)));
                    lemma_advance_concat(origin, s.take(start as int), s.subrange(start as int, end as int));
                    assert(s.take(start as int) + s.subrange(start as int, end as int) =~= s.take(end as int));
                    lemma_advance_mono(origin, s, end as int, s.len() as int);
                    assert(s.take(s.len() as int) =~= s);
                    lemma_advance_col_le_offset(origin, s.take(end as int));
                    assert(advance(origin, s.take(end as int)) == advance(loc.model(), s.subrange(start as int, end as int)));
                    assert(fits(advance(origin, s)));
                    lemma_advance_components(origin, s.take(end as int));
                    assert(fits(advance(origin, s.take(end as int))));
                }
                proof {
                    lemma_advance_components(origin, s.take(start as int));
                    let sub = s.subrange(start as int, end as int);
                    lemma_advance_components(loc.model(), sub);
                    if cs@[i as int] == '\n' {
                        assert forall|j: int| 0 <= j < sub.drop_last().len() implies sub.drop_last()[j] != '\n' by {
                            assert(sub.drop_last()[j] == s[start + j]);
                        }
                        lemma_newline_count_none(sub.drop_last());
                    }
                }
                let ghost old_res = res@;
                res.push(LocatedLine(loc, line));
                proof {
                    assert(res@.map_values(|l: LocatedLine<'i>| l.1@) =~= old_res.map_values(
                        |l: LocatedLine<'i>| l.1@,
                    ).push(line@));
                    assert(res@.map_values(|l: LocatedLine<'i>| l.1@) + split_lines(
                        s.skip(end as int),
                    ) =~= old_res.map_values(|l: LocatedLine<'i>| l.1@) + split_lines(
                        s.skip(start as int),
                    ));
                }
                loc = loc.add_chars(cs.as_slice(), start, end);
                proof {
                    // after a line that ends the text without a newline the loop stops
                    if cs@[i as int] != '\n' {
                        assert(end == s.len());
                    }
                }
                start = end;
            }
            i += 1;
        }
        proof {
            assert(s.skip(start as int) =~= Seq::<char>::empty());
            assert(split_lines(s.skip(start as int)) =~= Seq::<Seq<char>>::empty());
            assert(res@.map_values(|l: LocatedLine<'i>| l.1@) + Seq::<Seq<char>>::empty()
                =~= res@.map_values(|l: LocatedLine<'i>| l.1@));
        }
        res
    }
}

} // verus!
