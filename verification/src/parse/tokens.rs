//! The tokens of a source as bytes: occurrences of the three markers and line
//! breaks, found from left to right, the first marker in order winning where
//! several start at one place.
use vstd::prelude::*;

use vstd::utf8::{
    is_char_boundary, is_char_boundary_iff_not_is_continuation_byte, is_char_boundary_start_end_of_seq,
    length_of_first_scalar, pop_first_scalar, valid_first_scalar, valid_utf8, valid_utf8_split,
};

verus! {

/// A token: its kind (0, 1, 2 for the markers, 3 for a line break), and the
/// byte positions where it starts and ends.
pub type Token = (int, int, int);

/// Marker `m` occurs at position `q` of `b`.
pub open spec fn bytes_at(b: Seq<u8>, q: int, m: Seq<u8>) -> bool {
    0 <= q && q + m.len() <= b.len() && b.subrange(q, q + m.len()) == m
}

/// The kind of token that starts at position `q`, or -1 if none does.
pub open spec fn token_kind_at(b: Seq<u8>, q: int, ms: Seq<Seq<u8>>) -> int {
    if bytes_at(b, q, ms[0]) {
        0
    } else if bytes_at(b, q, ms[1]) {
        1
    } else if bytes_at(b, q, ms[2]) {
        2
    } else if 0 <= q < b.len() && b[q] == 10 {
        3
    } else {
        -1
    }
}

/// Where a token of kind `k` that starts at `q` ends.
pub open spec fn token_end(q: int, k: int, ms: Seq<Seq<u8>>) -> int {
    if k == 3 {
        q + 1
    } else {
        q + ms[k].len()
    }
}

/// The markers are three non-empty byte strings without a line break.
pub open spec fn byte_markers_wf(ms: Seq<Seq<u8>>) -> bool {
    &&& ms.len() == 3
    &&& forall|k: int| 0 <= k < 3 ==> #[trigger] ms[k].len() > 0
    &&& forall|k: int, j: int| 0 <= k < 3 && 0 <= j < ms[k].len() ==> #[trigger] ms[k][j] != 10
}

/// The tokens of `b` from position `p` on.
pub open spec fn tokens(b: Seq<u8>, ms: Seq<Seq<u8>>, p: int) -> Seq<Token>
    decreases b.len() - p,
{
    if p < 0 || p >= b.len() {
        Seq::empty()
    } else {
        let k = token_kind_at(b, p, ms);
        if k < 0 {
            tokens(b, ms, p + 1)
        } else {
            let e = token_end(p, k, ms);
            if e <= p {
                Seq::empty()
            } else {
                seq![(k, p, e)] + tokens(b, ms, e)
            }
        }
    }
}

/// The marker tokens among `ts`.
pub open spec fn marker_tokens(ts: Seq<Token>) -> Seq<Token> {
    ts.filter(|t: Token| t.0 < 3)
}

/// Number of line breaks in `b` before position `p`.
pub open spec fn breaks_before(b: Seq<u8>, p: int) -> nat
    decreases p,
{
    if p <= 0 {
        0
    } else {
        breaks_before(b, p - 1) + if b[p - 1] == 10 { 1nat } else { 0nat }
    }
}

/// Where the line that holds position `p` starts: one past the last line
/// break before `p`, or 0.
pub open spec fn line_begin(b: Seq<u8>, p: int) -> int
    decreases p,
{
    if p <= 0 {
        0
    } else if b[p - 1] == 10 {
        p
    } else {
        line_begin(b, p - 1)
    }
}

/// A marker's bytes hold no line break, so the line does not change across it.
pub proof fn lemma_no_break_across(b: Seq<u8>, p: int, q: int)
    requires
        0 <= p <= q <= b.len(),
        forall|j: int| p <= j < q ==> b[j] != 10,
    ensures
        breaks_before(b, q) == breaks_before(b, p),
        line_begin(b, q) == line_begin(b, p),
    decreases q - p,
{
    if q > p {
        lemma_no_break_across(b, p, q - 1);
    }
}

/// No token starts between `p` and `q`: the tokens from `p` are those from `q`.
pub proof fn lemma_tokens_skip(b: Seq<u8>, ms: Seq<Seq<u8>>, p: int, q: int)
    requires
        0 <= p <= q <= b.len(),
        forall|j: int| p <= j < q ==> token_kind_at(b, j, ms) < 0,
    ensures
        tokens(b, ms, p) == tokens(b, ms, q),
    decreases q - p,
{
    if p < q {
        lemma_tokens_skip(b, ms, p + 1, q);
    }
}

/// No line break lies where no token starts.
pub proof fn lemma_no_token_no_break(b: Seq<u8>, ms: Seq<Seq<u8>>, p: int, q: int)
    requires
        0 <= p <= q <= b.len(),
        forall|j: int| p <= j < q ==> token_kind_at(b, j, ms) < 0,
    ensures
        forall|j: int| p <= j < q ==> b[j] != 10,
{
    assert forall|j: int| p <= j < q implies b[j] != 10 by {
        assert(token_kind_at(b, j, ms) < 0);
    }
}

/// The marker tokens of a token sequence with one more token.
pub proof fn lemma_marker_tokens_push(ts: Seq<Token>, t: Token)
    ensures
        marker_tokens(ts.push(t)) == (if t.0 < 3 {
            marker_tokens(ts).push(t)
        } else {
            marker_tokens(ts)
        }),
{
    ts.lemma_filter_push(t, |x: Token| x.0 < 3);
}

/// Whether marker `m` occurs at position `q` of `b`.
pub fn occurs_at(b: &[u8], q: usize, m: &[u8]) -> (res: bool)
    ensures
        res == bytes_at(b@, q as int, m@),
{
    if m.len() > b.len() || q > b.len() - m.len() {
        return false;
    }
    let mut j: usize = 0;
    while j < m.len()
        invariant
            j <= m@.len(),
            q + m@.len() <= b@.len(),
            b@.len() == b.len(),
            forall|l: int| 0 <= l < j ==> b@[q + l] == m@[l],
        decreases m@.len() - j,
    {
        if b[q + j] != m[j] {
            proof {
                assert(b@.subrange(q as int, q + m@.len())[j as int] != m@[j as int]);
            }
            return false;
        }
        j += 1;
    }
    proof {
        assert(b@.subrange(q as int, q + m@.len()) =~= m@);
    }
    true
}

/// The kind of token that starts at position `q`, or `None`.
pub fn token_at(b: &[u8], q: usize, ms: &[&[u8]; 3]) -> (res: Option<usize>)
    ensures
        match res {
            Some(k) => k as int == token_kind_at(b@, q as int, seq![ms[0]@, ms[1]@, ms[2]@]) && k < 4,
            None => token_kind_at(b@, q as int, seq![ms[0]@, ms[1]@, ms[2]@]) < 0,
        },
{
    let ghost mv = seq![ms[0]@, ms[1]@, ms[2]@];
    if occurs_at(b, q, ms[0]) {
        Some(0)
    } else if occurs_at(b, q, ms[1]) {
        Some(1)
    } else if occurs_at(b, q, ms[2]) {
        Some(2)
    } else if q < b.len() && b[q] == 10u8 {
        Some(3)
    } else {
        None
    }
}

/// A valid UTF-8 text that starts with a valid UTF-8 text has a character
/// boundary where that prefix ends.
proof fn lemma_prefix_boundary(b: Seq<u8>, m: Seq<u8>)
    requires
        valid_utf8(b),
        valid_utf8(m),
        m.len() <= b.len(),
        b.subrange(0, m.len() as int) == m,
    ensures
        is_char_boundary(b, m.len() as int),
    decreases m.len(),
{
    if m.len() > 0 {
        assert(b[0] == m[0]) by {
            assert(b.subrange(0, m.len() as int)[0] == b[0]);
        }
        let l = length_of_first_scalar(m);
        assert(length_of_first_scalar(b) == l);
        assert(valid_first_scalar(m));
        assert(l <= m.len());
        let pb = pop_first_scalar(b);
        let pm = pop_first_scalar(m);
        assert(valid_utf8(pb));
        assert(valid_utf8(pm));
        assert(pb.subrange(0, pm.len() as int) =~= pm) by {
            assert forall|j: int| 0 <= j < pm.len() implies pb[j] == pm[j] by {
                assert(pb[j] == b[j + l]);
                assert(pm[j] == m[j + l]);
                assert(b.subrange(0, m.len() as int)[j + l] == b[j + l]);
            }
        }
        lemma_prefix_boundary(pb, pm);
    }
}

/// A valid UTF-8 marker found in a valid UTF-8 text starts and ends at
/// character boundaries of the text.
pub proof fn lemma_match_boundaries(b: Seq<u8>, q: int, m: Seq<u8>)
    requires
        valid_utf8(b),
        valid_utf8(m),
        m.len() > 0,
        bytes_at(b, q, m),
    ensures
        is_char_boundary(b, q),
        is_char_boundary(b, q + m.len()),
{
    is_char_boundary_start_end_of_seq(m);
    is_char_boundary_iff_not_is_continuation_byte(m, 0);
    assert(b[q] == m[0]) by {
        assert(b.subrange(q, q + m.len())[0] == b[q]);
    }
    is_char_boundary_iff_not_is_continuation_byte(b, q);
    let rest = b.subrange(q, b.len() as int);
    valid_utf8_split(b, q);
    assert(rest.subrange(0, m.len() as int) =~= m) by {
        assert forall|j: int| 0 <= j < m.len() implies rest[j] == m[j] by {
            assert(b.subrange(q, q + m.len())[j] == b[q + j]);
        }
    }
    lemma_prefix_boundary(rest, m);
    if q + m.len() == b.len() {
        is_char_boundary_start_end_of_seq(b);
    } else {
        is_char_boundary_iff_not_is_continuation_byte(rest, m.len() as int);
        is_char_boundary_iff_not_is_continuation_byte(b, q + m.len());
    }
}

} // verus!
