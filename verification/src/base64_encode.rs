//! Base64 encoding (RFC 4648, section 4: standard alphabet, `=` padding).
use vstd::prelude::*;

use crate::text::string_push;

verus! {

/// The character of the standard base64 alphabet for a value below 64.
pub open spec fn b64_char(v: int) -> char {
    if v < 26 {
        (('A' as int) + v) as char
    } else if v < 52 {
        (('a' as int) + v - 26) as char
    } else if v < 62 {
        (('0' as int) + v - 52) as char
    } else if v == 62 {
        '+'
    } else {
        '/'
    }
}

/// `b64_char` is the RFC 4648 standard alphabet: value `v` is its `v`-th
/// character.
pub proof fn lemma_b64_char_alphabet(v: int)
    requires
        0 <= v < 64,
    ensures
        b64_char(v) == "ABCDEFGHIJKLMNOPQRSTUVWXYZabcdefghijklmnopqrstuvwxyz0123456789+/"@[v],
{
    reveal_strlit("ABCDEFGHIJKLMNOPQRSTUVWXYZabcdefghijklmnopqrstuvwxyz0123456789+/");
}

/// The four characters that encode a group of one to three bytes.
pub open spec fn encode_group(g: Seq<u8>) -> Seq<char> {
    let b0 = g[0] as int;
    let b1 = if g.len() > 1 { g[1] as int } else { 0 };
    let b2 = if g.len() > 2 { g[2] as int } else { 0 };
    let w = b0 * 65536 + b1 * 256 + b2;
    seq![
        b64_char(w / 262144 % 64),
        b64_char(w / 4096 % 64),
        if g.len() > 1 { b64_char(w / 64 % 64) } else { '=' },
        if g.len() > 2 { b64_char(w % 64) } else { '=' },
    ]
}

/// The standard base64 encoding of `data`, with padding.
pub open spec fn base64_spec(data: Seq<u8>) -> Seq<char>
    decreases data.len(),
{
    if data.len() == 0 {
        Seq::empty()
    } else if data.len() <= 3 {
        encode_group(data)
    } else {
        encode_group(data.take(3)) + base64_spec(data.skip(3))
    }
}

/// Exec counterpart of `b64_char`.
fn b64_char_exec(v: u32) -> (c: char)
    requires
        v < 64,
    ensures
        c == b64_char(v as int),
{
    if v < 26 {
        (('A' as u32) + v) as u8 as char
    } else if v < 52 {
        (('a' as u32) + v - 26) as u8 as char
    } else if v < 62 {
        (('0' as u32) + v - 52) as u8 as char
    } else if v == 62 {
        '+'
    } else {
        '/'
    }
}

/// Three bytes become four characters of the standard alphabet whose values,
/// read as base-64 digits, most significant first, are the three bytes read
/// as base-256 digits.
pub proof fn lemma_group_digits(g: Seq<u8>)
    requires
        g.len() == 3,
    ensures
        exists|v0: int, v1: int, v2: int, v3: int|
            0 <= v0 < 64 && 0 <= v1 < 64 && 0 <= v2 < 64 && 0 <= v3 < 64 && encode_group(g) == seq![
                "ABCDEFGHIJKLMNOPQRSTUVWXYZabcdefghijklmnopqrstuvwxyz0123456789+/"@[v0],
                "ABCDEFGHIJKLMNOPQRSTUVWXYZabcdefghijklmnopqrstuvwxyz0123456789+/"@[v1],
                "ABCDEFGHIJKLMNOPQRSTUVWXYZabcdefghijklmnopqrstuvwxyz0123456789+/"@[v2],
                "ABCDEFGHIJKLMNOPQRSTUVWXYZabcdefghijklmnopqrstuvwxyz0123456789+/"@[v3],
            ] && v0 * 262144 + v1 * 4096 + v2 * 64 + v3 == g[0] * 65536 + g[1] * 256 + g[2],
{
    let b0 = g[0] as u32;
    let b1 = g[1] as u32;
    let b2 = g[2] as u32;
    let w: u32 = (b0 * 65536 + b1 * 256 + b2) as u32;
    assert(w == b0 * 65536 + b1 * 256 + b2) by (nonlinear_arith)
        requires
            b0 < 256,
            b1 < 256,
            b2 < 256,
            w == (b0 * 65536 + b1 * 256 + b2) as u32,
    ;
    assert(w / 262144 % 64 * 262144 + w / 4096 % 64 * 4096 + w / 64 % 64 * 64 + w % 64 == w) by (bit_vector)
        requires
            w < 0x1000000,
    ;
    let v0 = (w / 262144 % 64) as int;
    let v1 = (w / 4096 % 64) as int;
    let v2 = (w / 64 % 64) as int;
    let v3 = (w % 64) as int;
    lemma_b64_char_alphabet(v0);
    lemma_b64_char_alphabet(v1);
    lemma_b64_char_alphabet(v2);
    lemma_b64_char_alphabet(v3);
    assert(encode_group(g) == seq![b64_char(v0), b64_char(v1), b64_char(v2), b64_char(v3)]);
}

/// Base64-encodes the input bytes
/// https://datatracker.ietf.org/doc/html/rfc4648#section-4
pub fn base64_encode(input: &[u8]) -> (out: String)
    ensures
        out@ == base64_spec(input@),
{
    let mut out = String::new();
    let mut i: usize = 0;
    proof {
        assert(input@.skip(0) =~= input@);
    }
    while i < input.len()
        invariant
            i <= input@.len(),
            out@ + base64_spec(input@.skip(i as int)) == base64_spec(input@),
        decreases input@.len() - i,
    {
        let rest = input.len() - i;
        let n: usize = if rest >= 3 { 3 } else { rest };
        let b0 = input[i] as u32;
        let b1: u32 = if n > 1 { input[i + 1] as u32 } else { 0 };
        let b2: u32 = if n > 2 { input[i + 2] as u32 } else { 0 };
        let w: u32 = b0 * 65536 + b1 * 256 + b2;
        let ghost s = input@.skip(i as int);
        let ghost g = if s.len() <= 3 { s } else { s.take(3) };
        proof {
            assert(g.len() == n);
            assert(g[0] == input@[i as int]);
            if n > 1 {
                assert(g[1] == input@[i + 1]);
            }
            if n > 2 {
                assert(g[2] == input@[i + 2]);
            }
            if s.len() > 3 {
                assert(s.skip(3) =~= input@.skip(i + 3));
            } else {
                assert(input@.skip(i + n) =~= Seq::<u8>::empty());
            }
            assert(base64_spec(s) == encode_group(g) + base64_spec(input@.skip(i + n)));
        }
        let c0 = b64_char_exec(w / 262144 % 64);
        let c1 = b64_char_exec(w / 4096 % 64);
        let c2 = if n > 1 { b64_char_exec(w / 64 % 64) } else { '=' };
        let c3 = if n > 2 { b64_char_exec(w % 64) } else { '=' };
        let ghost old_out = out@;
        string_push(&mut out, c0);
        string_push(&mut out, c1);
        string_push(&mut out, c2);
        string_push(&mut out, c3);
        proof {
            assert(out@ =~= old_out + encode_group(g));
        }
        i += n;
    }
    proof {
        assert(input@.skip(i as int) =~= Seq::<u8>::empty());
        assert(out@ + Seq::<char>::empty() =~= out@);
    }
    out
}

/// Every complete group of three bytes becomes four characters, and an
/// incomplete last group is padded to four.
pub proof fn lemma_base64_len(data: Seq<u8>)
    ensures
        base64_spec(data).len() == 4 * ((data.len() + 2) / 3),
    decreases data.len(),
{
    if data.len() > 3 {
        lemma_base64_len(data.skip(3));
    }
}

/// Encoding a concatenation whose first part is a whole number of groups is
/// encoding the parts one after the other.
pub proof fn lemma_base64_concat(a: Seq<u8>, b: Seq<u8>)
    requires
        a.len() % 3 == 0,
    ensures
        base64_spec(a + b) == base64_spec(a) + base64_spec(b),
    decreases a.len(),
{
    if a.len() == 0 {
        assert(a + b =~= b);
    } else {
        lemma_base64_concat(a.skip(3), b);
        assert((a + b).take(3) =~= a.take(3));
        assert((a + b).skip(3) =~= a.skip(3) + b);
        if a.len() == 3 {
            assert(a.skip(3) =~= Seq::<u8>::empty());
            assert(a.take(3) =~= a);
            if b.len() == 0 {
                assert(a + b =~= a);
            }
        }
    }
}

} // verus!
