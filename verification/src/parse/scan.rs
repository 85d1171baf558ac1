//! Finding occurrences of the three markers in a line of text.
//!
//! At each position the markers are tried in order (program start, program
//! end, output end) and the first that occurs there is taken; the search then
//! resumes after it. A marker whose first (last) character is a word character
//! must start (end) at a word boundary.
use vstd::prelude::*;

verus! {

/// Whether `c` is a Unicode word character (as `\w` matches it).
pub uninterp spec fn is_word_char(c: char) -> bool;

/// Calls `regex_syntax::is_word_character`, which tells whether `c` is in the
/// `Alphabetic` or `Join_Control` properties or the `Decimal_Number`, `Mark` or
/// `Connector_Punctuation` categories. The result depends on `c` alone; the
/// contract names it and says nothing more of it.
#[verifier::external_body]
fn is_word_character(c: char) -> (b: bool)
    ensures
        b == is_word_char(c),
{
    regex_syntax::is_word_character(c)
}

/// The character views of the markers.
pub open spec fn marker_views(ms: Seq<Vec<char>>) -> Seq<Seq<char>> {
    ms.map_values(|m: Vec<char>| m@)
}

/// Three non-empty markers, none of which holds a newline.
pub open spec fn markers_wf(ms: Seq<Seq<char>>) -> bool {
    &&& ms.len() == 3
    &&& forall|k: int| 0 <= k < 3 ==> #[trigger] ms[k].len() > 0
    &&& forall|k: int, j: int| 0 <= k < 3 && 0 <= j < ms[k].len() ==> #[trigger] ms[k][j] != '\n'
}

/// A marker starting (ending) with a word character must start (end) at a word boundary.
pub open spec fn boundary_ok(text: Seq<char>, i: int, m: Seq<char>) -> bool {
    &&& (is_word_char(m[0]) ==> (i == 0 || !is_word_char(text[i - 1])))
    &&& (is_word_char(m.last()) ==> (i + m.len() == text.len() || !is_word_char(
        text[i + m.len()],
    )))
}

/// Marker `m` occurs in `text` at position `i`.
pub open spec fn occurs_at(text: Seq<char>, i: int, m: Seq<char>) -> bool {
    &&& 0 <= i
    &&& i + m.len() <= text.len()
    &&& text.subrange(i, i + m.len()) == m
    &&& boundary_ok(text, i, m)
}

/// The first marker (in order) that occurs at position `i`, if any.
pub open spec fn kind_at(text: Seq<char>, i: int, ms: Seq<Seq<char>>) -> Option<int> {
    if occurs_at(text, i, ms[0]) {
        Some(0int)
    } else if occurs_at(text, i, ms[1]) {
        Some(1int)
    } else if occurs_at(text, i, ms[2]) {
        Some(2int)
    } else {
        None
    }
}

/// A marker occurrence: its kind index and its character range.
pub type Found = (usize, usize, usize);

/// The marker occurrences in `text` from position `i` on, leftmost first.
pub open spec fn scan(text: Seq<char>, ms: Seq<Seq<char>>, i: int) -> Seq<(int, int, int)>
    decreases text.len() - i,
{
    if i < 0 || i >= text.len() {
        Seq::empty()
    } else {
        match kind_at(text, i, ms) {
            Some(k) => {
                let e = i + ms[k].len();
                if e > i {
                    seq![(k, i, e)] + scan(text, ms, e)
                } else {
                    scan(text, ms, i + 1)
                }
            },
            None => scan(text, ms, i + 1),
        }
    }
}

/// The integer view of found occurrences.
pub open spec fn found_view(f: Seq<Found>) -> Seq<(int, int, int)> {
    f.map_values(|x: Found| (x.0 as int, x.1 as int, x.2 as int))
}

/// Whether marker `m` occurs in `text` at position `i`.
fn occurs_at_exec(text: &[char], i: usize, m: &Vec<char>) -> (b: bool)
    requires
        m@.len() > 0,
        i <= text@.len(),
    ensures
        b == occurs_at(text@, i as int, m@),
{
    let n = m.len();
    if n > text.len() - i {
        return false;
    }
    let mut j: usize = 0;
    while j < n
        invariant
            j <= n,
            n == m@.len(),
            i + n <= text@.len(),
            text@.len() <= usize::MAX,
            forall|l: int| 0 <= l < j ==> text@[i + l] == m@[l],
        decreases n - j,
    {
        if text[i + j] != m[j] {
            assert(text@.subrange(i as int, i + n)[j as int] != m@[j as int]);
            return false;
        }
        j += 1;
    }
    assert(text@.subrange(i as int, i + n) =~= m@);
    if is_word_character(m[0]) {
        if i > 0 && is_word_character(text[i - 1]) {
            return false;
        }
    }
    if is_word_character(m[n - 1]) {
        if i + n < text.len() && is_word_character(text[i + n]) {
            return false;
        }
    }
    true
}

/// The occurrences of the markers in `text`, leftmost first, as (kind index, start, end).
pub fn find_markers(text: &[char], ms: &[Vec<char>]) -> (res: Vec<Found>)
    requires
        markers_wf(marker_views(ms@)),
    ensures
        found_view(res@) == scan(text@, marker_views(ms@), 0),
        forall|k: int| 0 <= k < res@.len() ==> (#[trigger] res@[k]).0 < 3 && res@[k].1 < res@[k].2 <= text@.len(),
{
    let ghost mv = marker_views(ms@);
    let mut res: Vec<Found> = Vec::new();
    let mut i: usize = 0;
    while i < text.len()
        invariant
            mv == marker_views(ms@),
            markers_wf(mv),
            ms@.len() == 3,
            i <= text@.len(),
            found_view(res@) + scan(text@, mv, i as int) == scan(text@, mv, 0),
            forall|k: int| 0 <= k < res@.len() ==> (#[trigger] res@[k]).0 < 3 && res@[k].1 < res@[k].2 <= text@.len(),
        decreases text@.len() - i,
    {
        proof {
            assert(mv[0] == ms@[0]@);
            assert(mv[1] == ms@[1]@);
            assert(mv[2] == ms@[2]@);
            assert(mv[0].len() > 0);
            assert(mv[1].len() > 0);
            assert(mv[2].len() > 0);
        }
        let mut found: Option<usize> = None;
        if occurs_at_exec(text, i, &ms[0]) {
            found = Some(0);
        } else if occurs_at_exec(text, i, &ms[1]) {
            found = Some(1);
        } else if occurs_at_exec(text, i, &ms[2]) {
            found = Some(2);
        }
        assert(found_view(res@) + scan(text@, mv, i as int) == scan(text@, mv, 0));
        match found {
            Some(k) => {
                let e = i + ms[k].len();
                let ghost old_res = res@;
                res.push((k, i, e));
                proof {
                    assert(found_view(res@) =~= found_view(old_res).push((k as int, i as int, e as int)));
                    assert(found_view(res@) + scan(text@, mv, e as int) =~= found_view(old_res) + scan(text@, mv, i as int));
                }
                i = e;
            },
            None => {
                i += 1;
            },
        }
    }
    assert(scan(text@, mv, i as int) =~= Seq::<(int, int, int)>::empty());
    assert(found_view(res@) + Seq::<(int, int, int)>::empty() =~= found_view(res@));
    res
}

} // verus!
