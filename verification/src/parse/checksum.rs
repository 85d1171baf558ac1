//! Output checksums that may follow a block's output end marker, such as
//! `(checksum:0123abcd...)` or `(sum:AbCdEfGhIj)`.
use vstd::prelude::*;

use base64::Engine;
use vstd::string::StringSliceAdditionalSpecFns;

use crate::base64_encode::{base64_spec, lemma_base64_len};
use crate::text::chars_of;

verus! {

/// The kinds of output checksum.
#[derive(Copy, Clone, Debug, PartialEq, Eq, Structural)]
pub enum ChecksumKind {
    /// MD5 of the output, in lower-case hex (label `checksum`)
    Md5Hex,
    /// The first ten characters of the standard base64 of the MD5 of the output (label `sum`)
    Md5Base64Prefix10Chars,
}

/// The label `checksum`.
pub open spec fn checksum_label() -> Seq<char> {
    seq!['c', 'h', 'e', 'c', 'k', 's', 'u', 'm']
}

/// The label `sum`.
pub open spec fn sum_label() -> Seq<char> {
    seq!['s', 'u', 'm']
}

impl ChecksumKind {
    /// The label that introduces this kind of checksum.
    pub open spec fn spec_label(self) -> Seq<char> {
        match self {
            ChecksumKind::Md5Hex => checksum_label(),
            ChecksumKind::Md5Base64Prefix10Chars => sum_label(),
        }
    }

    /// The label that introduces this kind of checksum.
    pub fn label(&self) -> (res: Vec<char>)
        ensures
            res@ == self.spec_label(),
    {
        match self {
            ChecksumKind::Md5Hex => vec!['c', 'h', 'e', 'c', 'k', 's', 'u', 'm'],
            ChecksumKind::Md5Base64Prefix10Chars => vec!['s', 'u', 'm'],
        }
    }

    /// The kind a label introduces, if any.
    pub fn from_label(label: &str) -> (res: Option<ChecksumKind>)
        ensures
            res == (if label@ == checksum_label() {
                Some(ChecksumKind::Md5Hex)
            } else if label@ == sum_label() {
                Some(ChecksumKind::Md5Base64Prefix10Chars)
            } else {
                None
            }),
    {
        let cs = chars_of(label);
        if chars_equal(cs.as_slice(), ChecksumKind::Md5Hex.label().as_slice()) {
            Some(ChecksumKind::Md5Hex)
        } else if chars_equal(cs.as_slice(), ChecksumKind::Md5Base64Prefix10Chars.label().as_slice()) {
            Some(ChecksumKind::Md5Base64Prefix10Chars)
        } else {
            None
        }
    }
}

/// Whether two runs of characters are equal.
pub fn chars_equal(a: &[char], b: &[char]) -> (res: bool)
    ensures
        res == (a@ == b@),
{
    if a.len() != b.len() {
        return false;
    }
    let mut i: usize = 0;
    while i < a.len()
        invariant
            i <= a@.len() == b@.len(),
            forall|j: int| 0 <= j < i ==> a@[j] == b@[j],
        decreases a@.len() - i,
    {
        if a[i] != b[i] {
            return false;
        }
        i += 1;
    }
    assert(a@ =~= b@);
    true
}

/// Whether two string slices hold the same characters.
pub fn str_equal(a: &str, b: &str) -> (res: bool)
    ensures
        res == (a@ == b@),
{
    let ca = chars_of(a);
    let cb = chars_of(b);
    chars_equal(ca.as_slice(), cb.as_slice())
}

/// A character that may appear in a checksum: ASCII letters and digits, `+`,
/// and the characters from `/` to `_`.
pub open spec fn is_hash_char(c: char) -> bool {
    ||| 'a' <= c <= 'z'
    ||| 'A' <= c <= 'Z'
    ||| '0' <= c <= '9'
    ||| c == '+'
    ||| '/' <= c <= '_'
}

/// Number of leading spaces of `s`.
pub open spec fn space_prefix_len(s: Seq<char>) -> nat
    decreases s.len(),
{
    if s.len() == 0 || s[0] != ' ' {
        0
    } else {
        1 + space_prefix_len(s.drop_first())
    }
}

/// Number of leading checksum characters of `s`.
pub open spec fn hash_prefix_len(s: Seq<char>) -> nat
    decreases s.len(),
{
    if s.len() == 0 || !is_hash_char(s[0]) {
        0
    } else {
        1 + hash_prefix_len(s.drop_first())
    }
}

/// The checksum with which `s` starts, if any: spaces, `(`, a label, `:`, at
/// least one checksum character and `)`. The result is the kind and the range
/// of the checksum characters.
pub open spec fn checksum_at_start(s: Seq<char>) -> Option<(ChecksumKind, int, int)> {
    let i = space_prefix_len(s) as int;
    if i < s.len() && s[i] == '(' {
        let lab = if i + 9 <= s.len() && s.subrange(i + 1, i + 9) == checksum_label() {
            Some((ChecksumKind::Md5Hex, i + 9))
        } else if i + 4 <= s.len() && s.subrange(i + 1, i + 4) == sum_label() {
            Some((ChecksumKind::Md5Base64Prefix10Chars, i + 4))
        } else {
            None
        };
        match lab {
            Some((kind, j)) => {
                if j < s.len() && s[j] == ':' {
                    let k = j + 1 + hash_prefix_len(s.skip(j + 1));
                    if k > j + 1 && k < s.len() && s[k] == ')' {
                        Some((kind, j + 1, k))
                    } else {
                        None
                    }
                } else {
                    None
                }
            },
            None => None,
        }
    } else {
        None
    }
}

/// A checksum found after a block's output end marker.
#[derive(Debug)]
pub struct Checksum<'a> {
    pub kind: ChecksumKind,
    pub hash: &'a str,
}

/// The name of the MD5 digest of `data`.
pub uninterp spec fn md5_digest(data: Seq<u8>) -> Seq<u8>;

/// Calls `md5::compute`, the MD5 digest of `data`. The result is a function of
/// `data` alone; the contract names it and states its length.
#[verifier::external_body]
fn md5_compute(data: &[u8]) -> (res: [u8; 16])
    ensures
        res@ == md5_digest(data@),
        res@.len() == 16,
{
    md5::compute(data).0
}

/// The lower-case hex digit for a value below 16.
pub open spec fn hex_digit(v: int) -> char {
    if v < 10 {
        (('0' as int) + v) as char
    } else {
        (('a' as int) + v - 10) as char
    }
}

/// Each byte as two lower-case hex digits.
pub open spec fn hex_lower(data: Seq<u8>) -> Seq<char>
    decreases data.len(),
{
    if data.len() == 0 {
        Seq::empty()
    } else {
        hex_lower(data.drop_last()) + seq![
            hex_digit(data.last() as int / 16),
            hex_digit(data.last() as int % 16),
        ]
    }
}

/// Formats an MD5 digest with `md5::Digest`'s `LowerHex`, which writes each
/// byte as two lower-case hex digits (`{:02x}`), in order.
#[verifier::external_body]
fn md5_lower_hex(digest: [u8; 16]) -> (res: String)
    ensures
        res@ == hex_lower(digest@),
{
    format!("{:x}", md5::Digest(digest))
}

/// Calls `base64::Engine::encode` on the `STANDARD` engine (RFC 4648 alphabet,
/// with `=` padding).
#[verifier::external_body]
fn base64_standard(data: &[u8]) -> (res: String)
    ensures
        res@ == base64_spec(data@),
{
    base64::prelude::BASE64_STANDARD.encode(data)
}

/// The checksum text expected for output bytes `output`.
pub open spec fn expected_hash(kind: ChecksumKind, output: Seq<u8>) -> Seq<char> {
    match kind {
        ChecksumKind::Md5Hex => hex_lower(md5_digest(output)),
        ChecksumKind::Md5Base64Prefix10Chars => base64_spec(md5_digest(output)).take(10),
    }
}

/// Number of leading spaces of `chars[from..]`.
fn count_spaces(chars: &[char], from: usize) -> (k: usize)
    requires
        from <= chars@.len(),
    ensures
        k == space_prefix_len(chars@.skip(from as int)),
        from + k <= chars@.len(),
{
    let mut i = from;
    while i < chars.len() && chars[i] == ' '
        invariant
            from <= i <= chars@.len(),
            space_prefix_len(chars@.skip(from as int)) == (i - from) + space_prefix_len(
                chars@.skip(i as int),
            ),
        decreases chars@.len() - i,
    {
        proof {
            assert(chars@.skip(i as int).drop_first() =~= chars@.skip(i + 1));
        }
        i += 1;
    }
    i - from
}

/// Exec counterpart of `is_hash_char`.
fn is_hash_char_exec(c: char) -> (b: bool)
    ensures
        b == is_hash_char(c),
{
    ('a' <= c && c <= 'z') || ('A' <= c && c <= 'Z') || ('0' <= c && c <= '9') || c == '+' || ('/'
        <= c && c <= '_')
}

/// Number of leading checksum characters of `chars[from..]`.
fn count_hash_chars(chars: &[char], from: usize) -> (k: usize)
    requires
        from <= chars@.len(),
    ensures
        k == hash_prefix_len(chars@.skip(from as int)),
        from + k <= chars@.len(),
{
    let mut i = from;
    while i < chars.len() && is_hash_char_exec(chars[i])
        invariant
            from <= i <= chars@.len(),
            hash_prefix_len(chars@.skip(from as int)) == (i - from) + hash_prefix_len(
                chars@.skip(i as int),
            ),
        decreases chars@.len() - i,
    {
        proof {
            assert(chars@.skip(i as int).drop_first() =~= chars@.skip(i + 1));
        }
        i += 1;
    }
    i - from
}

/// Whether `chars[from..]` starts with `word`.
fn starts_with_at(chars: &[char], from: usize, word: &[char]) -> (res: bool)
    requires
        from <= chars@.len(),
    ensures
        res == (from + word@.len() <= chars@.len() && chars@.subrange(
            from as int,
            from + word@.len(),
        ) == word@),
{
    if word.len() > chars.len() - from {
        return false;
    }
    let mut i: usize = 0;
    while i < word.len()
        invariant
            i <= word@.len(),
            from + word@.len() <= chars@.len(),
            chars@.len() <= usize::MAX,
            forall|j: int| 0 <= j < i ==> chars@[from + j] == word@[j],
        decreases word@.len() - i,
    {
        if chars[from + i] != word[i] {
            assert(chars@.subrange(from as int, from + word@.len())[i as int] != word@[i as int]);
            return false;
        }
        i += 1;
    }
    assert(chars@.subrange(from as int, from + word@.len()) =~= word@);
    true
}

impl<'a> Checksum<'a> {
    /// Search for an output checksum at the start of the text that immediately
    /// follows a block's output end marker.
    pub fn from_block_suffix(block_sfx: &'a str) -> (res: Option<Checksum<'a>>)
        ensures
            match checksum_at_start(block_sfx@) {
                Some((kind, a, b)) => res matches Some(c) && c.kind == kind && c.hash@
                    == block_sfx@.subrange(a, b),
                None => res is None,
            },
    {
        let cs = chars_of(block_sfx);
        let s = cs.as_slice();
        let i = count_spaces(s, 0);
        proof {
            assert(cs@.skip(0) =~= cs@);
        }
        if !(i < s.len() && s[i] == '(') {
            return None;
        }
        let (kind, j) = if starts_with_at(s, i + 1, ChecksumKind::Md5Hex.label().as_slice()) {
            (ChecksumKind::Md5Hex, i + 9)
        } else if starts_with_at(s, i + 1, ChecksumKind::Md5Base64Prefix10Chars.label().as_slice()) {
            (ChecksumKind::Md5Base64Prefix10Chars, i + 4)
        } else {
            return None;
        };
        if !(j < s.len() && s[j] == ':') {
            return None;
        }
        let k = j + 1 + count_hash_chars(s, j + 1);
        if !(k > j + 1 && k < s.len() && s[k] == ')') {
            return None;
        }
        Some(Checksum { kind, hash: block_sfx.substring_char(j + 1, k) })
    }

    /// Validate this saved output checksum against the output.
    pub fn matches(&self, output: &str) -> (res: bool)
        ensures
            res == (self.hash@ == expected_hash(self.kind, output.spec_bytes())),
    {
        let digest = md5_compute(output.as_bytes());
        let computed: Vec<char> = match self.kind {
            ChecksumKind::Md5Hex => chars_of(md5_lower_hex(digest).as_str()),
            ChecksumKind::Md5Base64Prefix10Chars => {
                let full = chars_of(base64_standard(&digest).as_str());
                proof {
                    lemma_base64_len(digest@);
                }
                vstd::slice::slice_to_vec(&full.as_slice()[0..10])
            },
        };
        let hash = chars_of(self.hash);
        chars_equal(hash.as_slice(), computed.as_slice())
    }
}

} // verus!
