//! Longest common prefixes of lines, and leading whitespace of a line.
use vstd::prelude::*;

use crate::text::{chars_of, char_is_ascii_ws, is_ascii_ws};

verus! {

/// The character views of a slice of string slices.
pub open spec fn views(lines: Seq<&str>) -> Seq<Seq<char>> {
    lines.map_values(|l: &str| l@)
}

/// `k` characters are common to the start of every line.
pub open spec fn is_common_prefix(lines: Seq<Seq<char>>, k: int) -> bool {
    &&& 0 <= k
    &&& forall|i: int| 0 <= i < lines.len() ==> k <= #[trigger] lines[i].len()
    &&& forall|i: int, j: int|
        0 <= i < lines.len() && 0 <= j < k ==> #[trigger] lines[i][j] == lines[0][j]
}

/// `k` is the length of the longest prefix common to all lines.
pub open spec fn is_longest_common_prefix(lines: Seq<Seq<char>>, k: int) -> bool {
    is_common_prefix(lines, k) && !is_common_prefix(lines, k + 1)
}

/// The length of the run of leading ASCII whitespace of `s` is `k`.
pub open spec fn is_leading_ws_len(s: Seq<char>, k: int) -> bool {
    &&& 0 <= k <= s.len()
    &&& forall|j: int| 0 <= j < k ==> is_ascii_ws(#[trigger] s[j])
    &&& (k == s.len() || !is_ascii_ws(s[k]))
}

/// The length of the run of leading ASCII whitespace of `s`.
pub open spec fn leading_ws_len(s: Seq<char>) -> nat
    decreases s.len(),
{
    if s.len() == 0 || !is_ascii_ws(s[0]) {
        0
    } else {
        1 + leading_ws_len(s.drop_first())
    }
}

/// `leading_ws_len` is the unique length that `is_leading_ws_len` describes.
pub proof fn lemma_leading_ws_len(s: Seq<char>)
    ensures
        is_leading_ws_len(s, leading_ws_len(s) as int),
        forall|k: int| is_leading_ws_len(s, k) ==> k == leading_ws_len(s),
    decreases s.len(),
{
    if s.len() > 0 && is_ascii_ws(s[0]) {
        lemma_leading_ws_len(s.drop_first());
        let t = s.drop_first();
        assert forall|j: int| 0 <= j < leading_ws_len(s) implies is_ascii_ws(#[trigger] s[j]) by {
            if j > 0 {
                assert(s[j] == t[j - 1]);
            }
        }
        assert forall|k: int| is_leading_ws_len(s, k) implies k == leading_ws_len(s) by {
            if k == 0 {
            } else {
                assert(is_leading_ws_len(t, k - 1)) by {
                    assert forall|j: int| 0 <= j < k - 1 implies is_ascii_ws(#[trigger] t[j]) by {
                        assert(t[j] == s[j + 1]);
                    }
                }
            }
        }
    }
}

/// Number of leading ASCII whitespace characters in `chars`.
pub fn leading_ws_count(chars: &[char]) -> (k: usize)
    ensures
        is_leading_ws_len(chars@, k as int),
        k == leading_ws_len(chars@),
{
    let mut k: usize = 0;
    while k < chars.len() && char_is_ascii_ws(chars[k])
        invariant
            k <= chars@.len(),
            forall|j: int| 0 <= j < k ==> is_ascii_ws(#[trigger] chars@[j]),
        decreases chars@.len() - k,
    {
        k += 1;
    }
    proof {
        lemma_leading_ws_len(chars@);
    }
    k
}

/// Length of the longest common prefix of characters from the given lines. If
/// there is not more than one line, the result is `None`; otherwise it is the
/// common prefix, a prefix of the first line.
pub fn common_prefix_of_chars<'a>(lines: &[&'a str]) -> (res: Option<&'a str>)
    ensures
        lines@.len() < 2 ==> res is None,
        lines@.len() >= 2 ==> res is Some,
        res matches Some(p) ==> {
            &&& p@ == lines@[0]@.take(p@.len() as int)
            &&& is_longest_common_prefix(views(lines@), p@.len() as int)
        },
{
    if lines.len() < 2 {
        return None;
    }
    let k = common_prefix_count(lines);
    let first: &'a str = lines[0];
    Some(first.substring_char(0, k))
}

/// The character views of a slice of character vectors.
pub open spec fn char_views(lines: Seq<Vec<char>>) -> Seq<Seq<char>> {
    lines.map_values(|l: Vec<char>| l@)
}

/// The length of the longest prefix common to all lines.
pub open spec fn lcp(lines: Seq<Seq<char>>) -> int {
    choose|k: int| is_longest_common_prefix(lines, k)
}

/// Common prefixes are closed downwards.
pub proof fn lemma_common_prefix_down(lines: Seq<Seq<char>>, k: int, m: int)
    requires
        is_common_prefix(lines, k),
        0 <= m <= k,
    ensures
        is_common_prefix(lines, m),
{
}

/// There is one longest common prefix, and `lcp` is it.
pub proof fn lemma_lcp_unique(lines: Seq<Seq<char>>, k: int)
    requires
        is_longest_common_prefix(lines, k),
    ensures
        lcp(lines) == k,
{
    let c = lcp(lines);
    assert(is_longest_common_prefix(lines, c));
    if c < k {
        lemma_common_prefix_down(lines, k, c + 1);
    } else if c > k {
        lemma_common_prefix_down(lines, c, k + 1);
    }
}

proof fn lemma_lcp_from(lines: Seq<Seq<char>>, k: int)
    requires
        lines.len() >= 1,
        is_common_prefix(lines, k),
    ensures
        is_longest_common_prefix(lines, lcp(lines)),
        k <= lcp(lines) <= lines[0].len(),
    decreases lines[0].len() - k,
{
    assert(k <= lines[0].len());
    if is_common_prefix(lines, k + 1) {
        assert(k + 1 <= lines[0].len());
        lemma_lcp_from(lines, k + 1);
    } else {
        lemma_lcp_unique(lines, k);
    }
}

/// A nonempty set of lines has a longest common prefix, `lcp`, no longer than
/// the first line.
pub proof fn lemma_lcp_exists(lines: Seq<Seq<char>>)
    requires
        lines.len() >= 1,
    ensures
        is_longest_common_prefix(lines, lcp(lines)),
        0 <= lcp(lines) <= lines[0].len(),
{
    lemma_lcp_from(lines, 0);
}

/// Number of characters in the longest prefix common to all lines.
pub fn common_prefix_count(lines: &[&str]) -> (k: usize)
    requires
        lines@.len() >= 1,
    ensures
        is_longest_common_prefix(views(lines@), k as int),
        k <= lines@[0]@.len(),
{
    let mut cs: Vec<Vec<char>> = Vec::new();
    let mut i: usize = 0;
    while i < lines.len()
        invariant
            i <= lines@.len(),
            cs@.len() == i,
            forall|j: int| 0 <= j < i ==> (#[trigger] cs@[j])@ == lines@[j]@,
        decreases lines@.len() - i,
    {
        cs.push(chars_of(lines[i]));
        i += 1;
    }
    assert(char_views(cs@) =~= views(lines@));
    common_prefix_count_of(cs.as_slice())
}

/// Number of characters in the longest prefix common to all lines.
pub fn common_prefix_count_of(lines: &[Vec<char>]) -> (k: usize)
    requires
        lines@.len() >= 1,
    ensures
        is_longest_common_prefix(char_views(lines@), k as int),
        k <= lines@[0]@.len(),
{
    let ghost vs = char_views(lines@);
    let first = &lines[0];
    let mut k = first.len();
    let mut i: usize = 1;
    proof {
        let t = vs.take(1);
        assert(t[0] == first@);
        assert(is_common_prefix(t, k as int));
        if is_common_prefix(t, k + 1) {
            assert(k + 1 <= t[0].len());
        }
    }
    while i < lines.len()
        invariant
            1 <= i <= lines@.len(),
            vs == char_views(lines@),
            first@ == vs[0],
            k <= first@.len(),
            is_longest_common_prefix(vs.take(i as int), k as int),
        decreases lines@.len() - i,
    {
        let cs = &lines[i];
        let mut j: usize = 0;
        while j < k && j < cs.len() && cs[j] == first[j]
            invariant
                j <= k,
                j <= cs@.len(),
                k <= first@.len(),
                forall|m: int| 0 <= m < j ==> cs@[m] == first@[m],
            decreases k - j,
        {
            j += 1;
        }
        proof {
            let old_t = vs.take(i as int);
            let t = vs.take(i + 1);
            assert(t[i as int] == cs@);
            assert forall|ii: int| 0 <= ii < t.len() implies j <= #[trigger] t[ii].len() by {
                if ii < i {
                    assert(t[ii] == old_t[ii]);
                }
            }
            assert forall|ii: int, jj: int| 0 <= ii < t.len() && 0 <= jj < j implies #[trigger] t[ii][jj]
                == t[0][jj] by {
                if ii < i {
                    assert(t[ii] == old_t[ii]);
                }
            }
            assert(is_common_prefix(t, j as int));
            if is_common_prefix(t, j + 1) {
                assert(j + 1 <= t[i as int].len());
                assert(t[i as int][j as int] == t[0][j as int]);
                assert(j + 1 <= t[0].len());
                if j == k {
                    assert(is_common_prefix(old_t, k + 1)) by {
                        assert forall|ii: int| 0 <= ii < old_t.len() implies k + 1 <= #[trigger] old_t[ii].len() by {
                            assert(old_t[ii] == t[ii]);
                        }
                        assert forall|ii: int, jj: int| 0 <= ii < old_t.len() && 0 <= jj < k + 1 implies #[trigger] old_t[ii][jj]
                            == old_t[0][jj] by {
                            assert(old_t[ii] == t[ii]);
                        }
                    }
                }
            }
        }
        k = j;
        i += 1;
    }
    assert(vs.take(lines@.len() as int) =~= vs);
    k
}

/// Get any leading (ASCII) whitespace at the beginning of the given line.
pub fn leading_whitespace<'a>(s: &'a str) -> (res: &'a str)
    ensures
        res@ == s@.take(res@.len() as int),
        is_leading_ws_len(s@, res@.len() as int),
{
    let cs = chars_of(s);
    let k = leading_ws_count(cs.as_slice());
    s.substring_char(0, k)
}

} // verus!
