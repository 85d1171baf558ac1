//! Common prefixes of lines, in bytes.
use vstd::prelude::*;

use vstd::string::StringSliceAdditionalSpecFns;
use vstd::utf8::{
    encode_scalar, encode_utf8, has_width_2_encoding, has_width_3_encoding, encode_utf8_valid_utf8, is_char_boundary, length_of_first_scalar, pop_first_scalar, valid_utf8,
};

pub use crate::common_prefix::{common_prefix_of_chars, leading_whitespace};
use crate::common_prefix::leading_ws_len;
use crate::text::is_ascii_ws;

verus! {

/// An ASCII whitespace byte, as `u8::is_ascii_whitespace` has it: space, tab,
/// line feed, form feed and carriage return.
pub open spec fn is_ascii_ws_byte(b: u8) -> bool {
    b == 32 || b == 9 || b == 10 || b == 12 || b == 13
}

/// Number of leading ASCII whitespace bytes of `s`.
pub open spec fn ws_bytes(s: Seq<u8>) -> nat
    decreases s.len(),
{
    if s.len() > 0 && is_ascii_ws_byte(s[0]) {
        1 + ws_bytes(s.drop_first())
    } else {
        0
    }
}

/// The bound on the common prefix that one line sets: its leading whitespace
/// if `ws_only`, else its whole length.
pub open spec fn line_cap(s: Seq<u8>, ws_only: bool) -> nat {
    if ws_only {
        ws_bytes(s)
    } else {
        s.len()
    }
}

/// The least bound that the lines set.
pub open spec fn min_cap(ls: Seq<Seq<u8>>, ws_only: bool) -> nat
    decreases ls.len(),
{
    if ls.len() <= 1 {
        if ls.len() == 0 {
            0
        } else {
            line_cap(ls[0], ws_only)
        }
    } else {
        let m = min_cap(ls.drop_last(), ws_only);
        let c = line_cap(ls.last(), ws_only);
        if c < m {
            c
        } else {
            m
        }
    }
}

/// Some line after the first differs from the first at byte `k`.
pub open spec fn differs_at(ls: Seq<Seq<u8>>, k: int) -> bool {
    exists|j: int| 1 <= j < ls.len() && (#[trigger] ls[j])[k] != ls[0][k]
}

/// The first byte position from `k` on, and before `cap`, where some line
/// differs from the first.
pub open spec fn first_difference(ls: Seq<Seq<u8>>, k: int, cap: int) -> Option<int>
    decreases cap - k,
{
    if k >= cap {
        None
    } else if differs_at(ls, k) {
        Some(k)
    } else {
        first_difference(ls, k + 1, cap)
    }
}

/// The largest character boundary of `s` at or before `k`.
pub open spec fn floor_boundary(s: Seq<u8>, k: int) -> int
    decreases k,
{
    if k <= 0 {
        0
    } else if is_char_boundary(s, k) {
        k
    } else {
        floor_boundary(s, k - 1)
    }
}

/// The length in bytes of the common prefix of lines `ls`, as far as the
/// bound allows: where some line first differs from the first one, brought
/// back to a character boundary of the first line, or else the bound.
pub open spec fn common_prefix_bytes(ls: Seq<Seq<u8>>, ws_only: bool) -> int {
    if ls.len() == 0 {
        0
    } else {
        match first_difference(ls, 0, min_cap(ls, ws_only) as int) {
            Some(k) => floor_boundary(ls[0], k),
            None => min_cap(ls, ws_only) as int,
        }
    }
}

/// The bytes of each line.
pub open spec fn line_bytes(lines: Seq<&str>) -> Seq<Seq<u8>> {
    lines.map_values(|l: &str| l.spec_bytes())
}

proof fn lemma_ws_bytes_bound(s: Seq<u8>)
    ensures
        ws_bytes(s) <= s.len(),
        forall|i: int| 0 <= i < ws_bytes(s) ==> is_ascii_ws_byte(#[trigger] s[i]),
        ws_bytes(s) < s.len() ==> !is_ascii_ws_byte(s[ws_bytes(s) as int]),
    decreases s.len(),
{
    if s.len() > 0 && is_ascii_ws_byte(s[0]) {
        let t = s.drop_first();
        lemma_ws_bytes_bound(t);
        assert forall|i: int| 0 <= i < ws_bytes(s) implies is_ascii_ws_byte(#[trigger] s[i]) by {
            if i > 0 {
                assert(s[i] == t[i - 1]);
            }
        }
        if ws_bytes(s) < s.len() {
            assert(s[ws_bytes(s) as int] == t[ws_bytes(t) as int]);
        }
    }
}

/// A byte is ASCII whitespace exactly when the character with its value is.
pub proof fn lemma_ws_byte_is_ascii_ws(b: u8)
    ensures
        is_ascii_ws_byte(b) <==> is_ascii_ws(b as char),
{
}

/// The leading whitespace bytes of a line's encoding are the encodings of its
/// leading ASCII whitespace characters, one byte each.
pub proof fn lemma_ws_bytes_encode(s: Seq<char>)
    ensures
        ws_bytes(encode_utf8(s)) == leading_ws_len(s),
    decreases s.len(),
{
    if s.len() > 0 {
        let c = s[0];
        let v = c as u32;
        let e = encode_utf8(s);
        let rest = encode_utf8(s.drop_first());
        assert(e == encode_scalar(v) + rest);
        if v <= 0x7F {
            assert((v & 0x7F) as u8 == v as u8) by (bit_vector)
                requires
                    v <= 0x7F,
            ;
            assert(encode_scalar(v) == seq![v as u8]);
            assert(e[0] == v as u8);
            assert(is_ascii_ws(c) <==> is_ascii_ws_byte(v as u8)) by {
                vstd::utf8::char_u32_cast(c, v);
                assert((' ' as u32) == 32 && ('\t' as u32) == 9 && ('\n' as u32) == 10 && ('\x0C' as u32) == 12
                    && ('\r' as u32) == 13);
                if c == ' ' || c == '\t' || c == '\n' || c == '\x0C' || c == '\r' {
                } else {
                    if v == 32 {
                        vstd::utf8::char_u32_cast(' ', 32);
                    } else if v == 9 {
                        vstd::utf8::char_u32_cast('\t', 9);
                    } else if v == 10 {
                        vstd::utf8::char_u32_cast('\n', 10);
                    } else if v == 12 {
                        vstd::utf8::char_u32_cast('\x0C', 12);
                    } else if v == 13 {
                        vstd::utf8::char_u32_cast('\r', 13);
                    }
                }
            }
            if is_ascii_ws(c) {
                assert(e.drop_first() =~= rest);
                lemma_ws_bytes_encode(s.drop_first());
            }
        } else {
            assert(!is_ascii_ws(c));
            let b0 = encode_scalar(v)[0];
            assert(b0 >= 0xC0) by {
                if has_width_2_encoding(v) {
                    assert(0xC0 | ((v >> 6) & 0x1F) as u8 >= 0xC0) by (bit_vector);
                } else if has_width_3_encoding(v) {
                    assert(0xE0 | ((v >> 12) & 0x0F) as u8 >= 0xC0) by (bit_vector);
                } else {
                    assert(0xF0 | ((v >> 18) & 0x7) as u8 >= 0xC0) by (bit_vector);
                }
            }
            assert(e[0] == b0);
        }
    }
}

/// Number of leading ASCII whitespace bytes of a line.
fn count_ws_bytes(b: &[u8]) -> (n: usize)
    ensures
        n == ws_bytes(b@),
{
    let mut i: usize = 0;
    proof {
        assert(b@.skip(0) =~= b@);
    }
    while i < b.len() && (b[i] == 32u8 || b[i] == 9u8 || b[i] == 10u8 || b[i] == 12u8 || b[i] == 13u8)
        invariant
            i <= b@.len(),
            ws_bytes(b@) == i + ws_bytes(b@.skip(i as int)),
        decreases b@.len() - i,
    {
        proof {
            assert(b@.skip(i as int).drop_first() =~= b@.skip(i + 1));
        }
        i += 1;
    }
    i
}

proof fn lemma_min_cap(ls: Seq<Seq<u8>>, ws_only: bool)
    requires
        ls.len() > 0,
    ensures
        forall|j: int| 0 <= j < ls.len() ==> min_cap(ls, ws_only) <= line_cap(#[trigger] ls[j], ws_only),
        exists|j: int| 0 <= j < ls.len() && min_cap(ls, ws_only) == line_cap(#[trigger] ls[j], ws_only),
    decreases ls.len(),
{
    if ls.len() > 1 {
        lemma_min_cap(ls.drop_last(), ws_only);
        assert forall|j: int| 0 <= j < ls.len() implies min_cap(ls, ws_only) <= line_cap(#[trigger] ls[j], ws_only) by {
            if j < ls.len() - 1 {
                assert(ls[j] == ls.drop_last()[j]);
            }
        }
        let m = min_cap(ls.drop_last(), ws_only);
        if line_cap(ls.last(), ws_only) >= m {
            let j = choose|j: int| 0 <= j < ls.drop_last().len() && m == line_cap(#[trigger] ls.drop_last()[j], ws_only);
            assert(ls[j] == ls.drop_last()[j]);
            assert(line_cap(ls[j], ws_only) == min_cap(ls, ws_only));
        } else {
            assert(min_cap(ls, ws_only) == line_cap(ls[ls.len() - 1], ws_only));
        }
    } else {
        assert(min_cap(ls, ws_only) == line_cap(ls[0], ws_only));
    }
}

proof fn lemma_first_difference(ls: Seq<Seq<u8>>, k: int, cap: int)
    requires
        0 <= k <= cap,
    ensures
        match first_difference(ls, k, cap) {
            Some(d) => k <= d < cap && differs_at(ls, d) && forall|i: int| k <= i < d ==> !differs_at(ls, i),
            None => forall|i: int| k <= i < cap ==> !differs_at(ls, i),
        },
    decreases cap - k,
{
    if k < cap && !differs_at(ls, k) {
        lemma_first_difference(ls, k + 1, cap);
    }
}

proof fn lemma_floor_boundary(s: Seq<u8>, k: int)
    requires
        valid_utf8(s),
        0 <= k <= s.len(),
    ensures
        0 <= floor_boundary(s, k) <= k,
        is_char_boundary(s, floor_boundary(s, k)),
        forall|m: int| floor_boundary(s, k) < m <= k ==> !is_char_boundary(s, m),
    decreases k,
{
    vstd::utf8::is_char_boundary_start_end_of_seq(s);
    if k > 0 && !is_char_boundary(s, k) {
        lemma_floor_boundary(s, k - 1);
    }
}

/// A position up to which a valid sequence has a valid prefix is a character
/// boundary.
proof fn lemma_valid_take_boundary(s: Seq<u8>, k: int)
    requires
        valid_utf8(s),
        0 <= k <= s.len(),
        valid_utf8(s.take(k)),
    ensures
        is_char_boundary(s, k),
    decreases s.len(),
{
    if k > 0 {
        let t = s.take(k);
        assert(t[0] == s[0]);
        let l = length_of_first_scalar(s);
        assert(length_of_first_scalar(t) == l);
        assert(1 <= l <= k);
        assert(pop_first_scalar(t) =~= pop_first_scalar(s).take(k - l));
        lemma_valid_take_boundary(pop_first_scalar(s), k - l);
    }
}

/// The position after an ASCII byte of a valid sequence is a character
/// boundary.
proof fn lemma_ascii_before_boundary(s: Seq<u8>, k: int)
    requires
        valid_utf8(s),
        0 < k <= s.len(),
        s[k - 1] < 128,
    ensures
        is_char_boundary(s, k),
    decreases s.len(),
{
    let l = length_of_first_scalar(s);
    let p = pop_first_scalar(s);
    assert(1 <= l <= s.len());
    if k <= l {
        assert(k == 1);
        assert(l == 1);
        vstd::utf8::is_char_boundary_start_end_of_seq(p);
    } else {
        assert(p[k - l - 1] == s[k - 1]);
        lemma_ascii_before_boundary(p, k - l);
    }
}

/// The common prefix is the longest one within the bound that all lines share
/// and that ends at a character boundary of the first line.
pub proof fn lemma_common_prefix_bytes_largest(ls: Seq<Seq<u8>>, ws_only: bool)
    requires
        ls.len() > 0,
        forall|j: int| 0 <= j < ls.len() ==> valid_utf8(#[trigger] ls[j]),
    ensures
        0 <= common_prefix_bytes(ls, ws_only) <= min_cap(ls, ws_only),
        is_char_boundary(ls[0], common_prefix_bytes(ls, ws_only)),
        forall|j: int, i: int|
            0 <= j < ls.len() && 0 <= i < common_prefix_bytes(ls, ws_only) ==> #[trigger] ls[j][i] == ls[0][i],
        forall|m: int|
            common_prefix_bytes(ls, ws_only) < m <= min_cap(ls, ws_only) && is_char_boundary(ls[0], m) ==> exists|
                j: int,
                i: int,
            | 0 <= j < ls.len() && 0 <= i < m && #[trigger] ls[j][i] != ls[0][i],
{
    let cap = min_cap(ls, ws_only) as int;
    let n = common_prefix_bytes(ls, ws_only);
    lemma_min_cap(ls, ws_only);
    lemma_ws_bytes_bound(ls[0]);
    lemma_first_difference(ls, 0, cap);
    assert(cap <= line_cap(ls[0], ws_only));
    vstd::utf8::is_char_boundary_start_end_of_seq(ls[0]);
    match first_difference(ls, 0, cap) {
        Some(k) => {
            lemma_floor_boundary(ls[0], k);
            assert forall|j: int, i: int| 0 <= j < ls.len() && 0 <= i < n implies #[trigger] ls[j][i] == ls[0][i] by {
                assert(!differs_at(ls, i));
                if j > 0 {
                    assert(!(ls[j][i] != ls[0][i]));
                }
            }
            assert forall|m: int| n < m <= cap && is_char_boundary(ls[0], m) implies exists|j: int, i: int|
                0 <= j < ls.len() && 0 <= i < m && #[trigger] ls[j][i] != ls[0][i] by {
                let j = choose|j: int| 1 <= j < ls.len() && (#[trigger] ls[j])[k] != ls[0][k];
                assert(0 <= j < ls.len() && 0 <= k < m && ls[j][k] != ls[0][k]);
            }
        },
        None => {
            assert forall|j: int, i: int| 0 <= j < ls.len() && 0 <= i < n implies #[trigger] ls[j][i] == ls[0][i] by {
                assert(!differs_at(ls, i));
                if j > 0 {
                    assert(!(ls[j][i] != ls[0][i]));
                }
            }
            if 0 < cap < ls[0].len() {
                if ws_only {
                    assert(is_ascii_ws_byte(ls[0][cap - 1]));
                    lemma_ascii_before_boundary(ls[0], cap);
                } else {
                    let j0 = choose|j: int| 0 <= j < ls.len() && min_cap(ls, ws_only) == line_cap(#[trigger] ls[j], ws_only);
                    assert(ls[0].take(cap) =~= ls[j0]) by {
                        assert forall|i: int| 0 <= i < cap implies ls[0].take(cap)[i] == ls[j0][i] by {
                            assert(!differs_at(ls, i));
                            if j0 > 0 {
                                assert(!(ls[j0][i] != ls[0][i]));
                            }
                        }
                    }
                    lemma_valid_take_boundary(ls[0], cap);
                }
            }
        },
    }
}

/// Length of the longest common (fully UTF-8) prefix of the given lines, in
/// bytes. If `ws_only` is true, only leading whitespace bytes count; the
/// search stops as soon as any line's whitespace prefix ends.
pub fn common_prefix_len(lines: &[&str], ws_only: bool) -> (res: usize)
    ensures
        res == common_prefix_bytes(line_bytes(lines@), ws_only),
{
    let ghost ls = line_bytes(lines@);
    if lines.len() == 0 {
        return 0;
    }
    let mut minlen: usize = 0;
    let mut j: usize = 0;
    while j < lines.len()
        invariant
            0 < lines@.len(),
            j <= lines@.len(),
            ls == line_bytes(lines@),
            j > 0 ==> minlen == min_cap(ls.take(j as int), ws_only),
        decreases lines@.len() - j,
    {
        let b = lines[j].as_bytes();
        let c = if ws_only {
            count_ws_bytes(b)
        } else {
            b.len()
        };
        proof {
            assert(ls[j as int] == b@);
            assert(ls.take(j + 1).drop_last() =~= ls.take(j as int));
            assert(ls.take(j + 1).last() == ls[j as int]);
            if j == 0 {
                assert(ls.take(1)[0] == ls[0]);
            }
        }
        if j == 0 || c < minlen {
            minlen = c;
        }
        j += 1;
    }
    proof {
        assert(ls.take(lines@.len() as int) =~= ls);
        lemma_min_cap(ls, ws_only);
        lemma_ws_bytes_bound(ls[0]);
    }
    let line0 = lines[0].as_bytes();
    assert(line0@ == ls[0]);
    let mut k: usize = 0;
    while k < minlen
        invariant
            0 < lines@.len(),
            ls == line_bytes(lines@),
            line0@ == ls[0],
            minlen == min_cap(ls, ws_only),
            forall|jj: int| 0 <= jj < ls.len() ==> minlen <= line_cap(#[trigger] ls[jj], ws_only),
            k <= minlen,
            first_difference(ls, 0, minlen as int) == first_difference(ls, k as int, minlen as int),
        decreases minlen - k,
    {
        proof {
            assert(minlen <= line_cap(ls[0], ws_only));
            lemma_ws_bytes_bound(ls[0]);
        }
        let byte0 = line0[k];
        let mut i: usize = 1;
        while i < lines.len()
            invariant
                1 <= i <= lines@.len(),
                ls == line_bytes(lines@),
                line0@ == ls[0],
                k < minlen,
                minlen == min_cap(ls, ws_only),
                first_difference(ls, 0, minlen as int) == first_difference(ls, k as int, minlen as int),
                forall|jj: int| 0 <= jj < ls.len() ==> minlen <= line_cap(#[trigger] ls[jj], ws_only),
                byte0 == ls[0][k as int],
                forall|jj: int| 1 <= jj < i ==> (#[trigger] ls[jj])[k as int] == ls[0][k as int],
            decreases lines@.len() - i,
        {
            let b = lines[i].as_bytes();
            proof {
                assert(ls[i as int] == b@);
                assert(minlen <= line_cap(ls[i as int], ws_only));
                lemma_ws_bytes_bound(ls[i as int]);
            }
            if b[k] != byte0 {
                proof {
                    assert(differs_at(ls, k as int));
                }
                return floor_char_boundary(lines[0], k);
            }
            i += 1;
        }
        proof {
            assert(!differs_at(ls, k as int));
        }
        k += 1;
    }
    minlen
}

/// The largest character boundary of `s` at or before byte `k`.
fn floor_char_boundary(s: &str, k: usize) -> (res: usize)
    ensures
        res == floor_boundary(s.spec_bytes(), k as int),
{
    let mut i = k;
    proof {
        encode_utf8_valid_utf8(s@);
        vstd::utf8::is_char_boundary_start_end_of_seq(s.spec_bytes());
    }
    while i > 0 && !s.is_char_boundary(i)
        invariant
            i <= k,
            floor_boundary(s.spec_bytes(), k as int) == floor_boundary(s.spec_bytes(), i as int),
        decreases i,
    {
        i -= 1;
    }
    i
}

} // verus!
