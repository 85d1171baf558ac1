//! Character-level helpers shared by the parsers: character classes, the
//! UTF-8 width of characters, and building strings out of characters.
use vstd::prelude::*;

use vstd::string::StringSliceAdditionalSpecFns;

verus! {

/// ASCII whitespace as `char::is_ascii_whitespace` defines it: space, tab,
/// line feed, form feed and carriage return.
pub open spec fn is_ascii_ws(c: char) -> bool {
    c == ' ' || c == '\t' || c == '\n' || c == '\x0C' || c == '\r'
}

/// Whitespace as `char::is_whitespace` defines it: the characters with the
/// Unicode `White_Space` property.
pub open spec fn is_unicode_ws(c: char) -> bool {
    let u = c as u32;
    ||| 0x09 <= u <= 0x0D
    ||| u == 0x20
    ||| u == 0x85
    ||| u == 0xA0
    ||| u == 0x1680
    ||| 0x2000 <= u <= 0x200A
    ||| u == 0x2028
    ||| u == 0x2029
    ||| u == 0x202F
    ||| u == 0x205F
    ||| u == 0x3000
}

/// Number of bytes of the UTF-8 encoding of `c`.
pub open spec fn char_width(c: char) -> nat {
    if (c as u32) < 0x80 {
        1
    } else if (c as u32) < 0x800 {
        2
    } else if (c as u32) < 0x10000 {
        3
    } else {
        4
    }
}

/// Number of bytes of the UTF-8 encoding of `s`.
pub open spec fn utf8_len(s: Seq<char>) -> nat
    decreases s.len(),
{
    if s.len() == 0 {
        0
    } else {
        utf8_len(s.drop_last()) + char_width(s.last())
    }
}

/// The UTF-8 length of a concatenation is the sum of the lengths.
pub proof fn lemma_utf8_len_concat(a: Seq<char>, b: Seq<char>)
    ensures
        utf8_len(a + b) == utf8_len(a) + utf8_len(b),
    decreases b.len(),
{
    if b.len() == 0 {
        assert(a + b =~= a);
    } else {
        lemma_utf8_len_concat(a, b.drop_last());
        assert((a + b).drop_last() =~= a + b.drop_last());
    }
}

/// Every character takes at least one byte.
pub proof fn lemma_utf8_len_ge(s: Seq<char>)
    ensures
        utf8_len(s) >= s.len(),
    decreases s.len(),
{
    if s.len() > 0 {
        lemma_utf8_len_ge(s.drop_last());
    }
}

/// The UTF-8 length of a prefix grows with the prefix.
pub proof fn lemma_utf8_len_take_mono(s: Seq<char>, i: int, j: int)
    requires
        0 <= i <= j <= s.len(),
    ensures
        utf8_len(s.take(i)) <= utf8_len(s.take(j)),
{
    lemma_utf8_len_concat(s.take(i), s.subrange(i, j));
    assert(s.take(i) + s.subrange(i, j) =~= s.take(j));
}

/// Step lemma for the UTF-8 length of a prefix.
pub proof fn lemma_utf8_len_take_step(s: Seq<char>, i: int)
    requires
        0 <= i < s.len(),
    ensures
        utf8_len(s.take(i + 1)) == utf8_len(s.take(i)) + char_width(s[i]),
{
    assert(s.take(i + 1).drop_last() =~= s.take(i));
}

/// Exec counterpart of `char_width`.
pub fn char_len_utf8(c: char) -> (n: usize)
    ensures
        n == char_width(c),
        1 <= n <= 4,
{
    let u = c as u32;
    if u < 0x80 {
        1
    } else if u < 0x800 {
        2
    } else if u < 0x10000 {
        3
    } else {
        4
    }
}

/// Exec counterpart of `is_ascii_ws`.
pub fn char_is_ascii_ws(c: char) -> (b: bool)
    ensures
        b == is_ascii_ws(c),
{
    c == ' ' || c == '\t' || c == '\n' || c == '\x0C' || c == '\r'
}

/// Exec counterpart of `is_unicode_ws`.
pub fn char_is_unicode_ws(c: char) -> (b: bool)
    ensures
        b == is_unicode_ws(c),
{
    let u = c as u32;
    (0x09 <= u && u <= 0x0D) || u == 0x20 || u == 0x85 || u == 0xA0 || u == 0x1680 || (0x2000
        <= u && u <= 0x200A) || u == 0x2028 || u == 0x2029 || u == 0x202F || u == 0x205F || u
        == 0x3000
}

/// Collects the characters of a string slice.
pub fn chars_of(s: &str) -> (res: Vec<char>)
    ensures
        res@ == s@,
{
    let mut res: Vec<char> = Vec::new();
    for c in it: s.chars()
        invariant
            res@ == it.seq().take(it.index() as int),
    {
        res.push(c);
    }
    res
}

/// Appends one character to a string.
/// Calls `String::push`, whose documentation says it appends the character to the end.
#[verifier::external_body]
pub fn string_push(s: &mut String, c: char)
    ensures
        final(s)@ == old(s)@.push(c),
{
    s.push(c);
}

/// Builds a string from a run of characters.
pub fn string_from_chars(chars: &[char], from: usize, to: usize) -> (res: String)
    requires
        from <= to <= chars@.len(),
    ensures
        res@ == chars@.subrange(from as int, to as int),
{
    let mut res = String::new();
    let mut i = from;
    while i < to
        invariant
            from <= i <= to <= chars@.len(),
            res@ == chars@.subrange(from as int, i as int),
        decreases to - i,
    {
        string_push(&mut res, chars[i]);
        i += 1;
    }
    res
}

/// Appends a run of characters to a string.
pub fn push_chars(s: &mut String, chars: &[char])
    ensures
        final(s)@ == old(s)@ + chars@,
{
    let mut i: usize = 0;
    while i < chars.len()
        invariant
            i <= chars@.len(),
            s@ == old(s)@ + chars@.take(i as int),
        decreases chars@.len() - i,
    {
        string_push(s, chars[i]);
        i += 1;
        assert(chars@.take(i as int) =~= chars@.take(i - 1).push(chars@[i - 1]));
    }
    assert(chars@.take(i as int) =~= chars@);
}

/// Appends a string slice to a string.
pub fn push_str(s: &mut String, t: &str)
    ensures
        final(s)@ == old(s)@ + t@,
{
    let cs = chars_of(t);
    push_chars(s, cs.as_slice());
}

/// Byte length (UTF-8) of a run of characters.
pub fn utf8_len_of(chars: &[char], from: usize, to: usize) -> (n: usize)
    requires
        from <= to <= chars@.len(),
        utf8_len(chars@.subrange(from as int, to as int)) <= usize::MAX,
    ensures
        n == utf8_len(chars@.subrange(from as int, to as int)),
{
    let mut n: usize = 0;
    let mut i = from;
    while i < to
        invariant
            from <= i <= to <= chars@.len(),
            n == utf8_len(chars@.subrange(from as int, i as int)),
            utf8_len(chars@.subrange(from as int, to as int)) <= usize::MAX,
        decreases to - i,
    {
        proof {
            let sub = chars@.subrange(from as int, to as int);
            assert(chars@.subrange(from as int, i as int) =~= sub.take(i - from));
            assert(chars@.subrange(from as int, i + 1) =~= sub.take(i + 1 - from));
            lemma_utf8_len_take_step(sub, i - from);
            lemma_utf8_len_take_mono(sub, i + 1 - from, sub.len() as int);
            assert(sub.take(sub.len() as int) =~= sub);
        }
        n = n + char_len_utf8(chars[i]);
        i += 1;
    }
    n
}

} // verus!

verus! {

/// Number of leading whitespace (`char::is_whitespace`) characters of `s`.
pub open spec fn ws_prefix_len(s: Seq<char>) -> nat
    decreases s.len(),
{
    if s.len() == 0 || !is_unicode_ws(s[0]) {
        0
    } else {
        1 + ws_prefix_len(s.drop_first())
    }
}

/// Number of trailing whitespace (`char::is_whitespace`) characters of `s`.
pub open spec fn ws_suffix_len(s: Seq<char>) -> nat
    decreases s.len(),
{
    if s.len() == 0 || !is_unicode_ws(s.last()) {
        0
    } else {
        1 + ws_suffix_len(s.drop_last())
    }
}

/// `s` without leading and trailing whitespace, as `str::trim` gives it.
pub open spec fn trim(s: Seq<char>) -> Seq<char> {
    let t = s.skip(ws_prefix_len(s) as int);
    t.take(t.len() - ws_suffix_len(t))
}

/// `s` holds nothing but whitespace.
pub open spec fn is_blank(s: Seq<char>) -> bool {
    forall|j: int| 0 <= j < s.len() ==> is_unicode_ws(#[trigger] s[j])
}

pub proof fn lemma_ws_prefix_len_bound(s: Seq<char>)
    ensures
        ws_prefix_len(s) <= s.len(),
    decreases s.len(),
{
    if s.len() > 0 && is_unicode_ws(s[0]) {
        lemma_ws_prefix_len_bound(s.drop_first());
    }
}

pub proof fn lemma_ws_suffix_len_bound(s: Seq<char>)
    ensures
        ws_suffix_len(s) <= s.len(),
    decreases s.len(),
{
    if s.len() > 0 && is_unicode_ws(s.last()) {
        lemma_ws_suffix_len_bound(s.drop_last());
    }
}

/// A text is blank exactly when trimming leaves nothing.
pub proof fn lemma_blank_iff_trim_empty(s: Seq<char>)
    ensures
        is_blank(s) <==> trim(s).len() == 0,
        ws_prefix_len(s) == s.len() <==> is_blank(s),
    decreases s.len(),
{
    lemma_ws_prefix_len_bound(s);
    let t = s.skip(ws_prefix_len(s) as int);
    lemma_ws_suffix_len_bound(t);
    if s.len() > 0 && is_unicode_ws(s[0]) {
        lemma_blank_iff_trim_empty(s.drop_first());
        let d = s.drop_first();
        assert(t =~= d.skip(ws_prefix_len(d) as int));
        if is_blank(d) {
            assert forall|j: int| 0 <= j < s.len() implies is_unicode_ws(#[trigger] s[j]) by {
                if j > 0 {
                    assert(s[j] == d[j - 1]);
                }
            }
        }
        if is_blank(s) {
            assert forall|j: int| 0 <= j < d.len() implies is_unicode_ws(#[trigger] d[j]) by {
                assert(d[j] == s[j + 1]);
            }
        }
    } else if s.len() > 0 {
        assert(t =~= s);
        assert(!is_unicode_ws(s[0]));
        if ws_suffix_len(t) == t.len() {
            lemma_ws_suffix_all(t);
            assert(is_unicode_ws(t[0]));
        }
    }
}

/// A text made of trailing whitespace only is whitespace throughout.
pub proof fn lemma_ws_suffix_all(s: Seq<char>)
    requires
        ws_suffix_len(s) == s.len(),
    ensures
        is_blank(s),
    decreases s.len(),
{
    if s.len() > 0 {
        lemma_ws_suffix_all(s.drop_last());
        assert forall|j: int| 0 <= j < s.len() implies is_unicode_ws(#[trigger] s[j]) by {
            if j < s.len() - 1 {
                assert(s[j] == s.drop_last()[j]);
            }
        }
    }
}

/// The range of `chars[from..to]` that is left after trimming whitespace.
pub fn trim_range(chars: &[char], from: usize, to: usize) -> (res: (usize, usize))
    requires
        from <= to <= chars@.len(),
    ensures
        from <= res.0 <= res.1 <= to,
        chars@.subrange(res.0 as int, res.1 as int) == trim(
            chars@.subrange(from as int, to as int),
        ),
{
    let ghost s = chars@.subrange(from as int, to as int);
    let mut i = from;
    proof {
        assert(chars@.subrange(i as int, to as int) =~= s);
    }
    while i < to && char_is_unicode_ws(chars[i])
        invariant
            from <= i <= to <= chars@.len(),
            s == chars@.subrange(from as int, to as int),
            ws_prefix_len(s) == (i - from) + ws_prefix_len(chars@.subrange(i as int, to as int)),
        decreases to - i,
    {
        proof {
            assert(chars@.subrange(i as int, to as int).drop_first() =~= chars@.subrange(
                i + 1,
                to as int,
            ));
        }
        i += 1;
    }
    proof {
        assert(ws_prefix_len(chars@.subrange(i as int, to as int)) == 0);
        assert(s.skip(i - from) =~= chars@.subrange(i as int, to as int));
    }
    let ghost t = chars@.subrange(i as int, to as int);
    let mut j = to;
    proof {
        assert(chars@.subrange(i as int, j as int) =~= t);
    }
    while j > i && char_is_unicode_ws(chars[j - 1])
        invariant
            from <= i <= j <= to <= chars@.len(),
            t == chars@.subrange(i as int, to as int),
            ws_suffix_len(t) == (to - j) + ws_suffix_len(chars@.subrange(i as int, j as int)),
        decreases j - i,
    {
        proof {
            assert(chars@.subrange(i as int, j as int).drop_last() =~= chars@.subrange(
                i as int,
                j - 1,
            ));
        }
        j -= 1;
    }
    proof {
        assert(ws_suffix_len(chars@.subrange(i as int, j as int)) == 0);
        assert(t.take(t.len() - ws_suffix_len(t)) =~= chars@.subrange(i as int, j as int));
    }
    (i, j)
}

/// Whether `chars[from..to]` holds nothing but whitespace.
pub fn range_is_blank(chars: &[char], from: usize, to: usize) -> (b: bool)
    requires
        from <= to <= chars@.len(),
    ensures
        b == is_blank(chars@.subrange(from as int, to as int)),
{
    let mut i = from;
    while i < to
        invariant
            from <= i <= to <= chars@.len(),
            forall|j: int| from <= j < i ==> is_unicode_ws(#[trigger] chars@[j]),
        decreases to - i,
    {
        if !char_is_unicode_ws(chars[i]) {
            assert(chars@.subrange(from as int, to as int)[i - from] == chars@[i as int]);
            return false;
        }
        i += 1;
    }
    assert forall|j: int| 0 <= j < to - from implies is_unicode_ws(
        #[trigger] chars@.subrange(from as int, to as int)[j],
    ) by {
        assert(chars@.subrange(from as int, to as int)[j] == chars@[from + j]);
    }
    true
}

} // verus!

verus! {

/// A word separator: ASCII whitespace, or any whitespace when `unicode` holds.
pub open spec fn is_sep(c: char, unicode: bool) -> bool {
    if unicode {
        is_unicode_ws(c)
    } else {
        is_ascii_ws(c)
    }
}

/// Length of the run of non-separator characters that starts `s`.
pub open spec fn word_len(s: Seq<char>, unicode: bool) -> nat
    decreases s.len(),
{
    if s.len() == 0 || is_sep(s[0], unicode) {
        0
    } else {
        1 + word_len(s.drop_first(), unicode)
    }
}

/// The separator-delimited words of `s`, as `split_ascii_whitespace` (or, when
/// `unicode` holds, `split_whitespace`) yields them.
pub open spec fn words(s: Seq<char>, unicode: bool) -> Seq<Seq<char>>
    decreases s.len(),
{
    if s.len() == 0 {
        Seq::empty()
    } else if is_sep(s[0], unicode) {
        words(s.drop_first(), unicode)
    } else {
        let n = word_len(s, unicode) as int;
        if 0 < n <= s.len() {
            seq![s.take(n)] + words(s.skip(n), unicode)
        } else {
            Seq::empty()
        }
    }
}

proof fn lemma_word_len(s: Seq<char>, unicode: bool, k: int)
    requires
        0 <= k <= s.len(),
        forall|j: int| 0 <= j < k ==> !is_sep(#[trigger] s[j], unicode),
        k == s.len() || is_sep(s[k], unicode),
    ensures
        word_len(s, unicode) == k,
    decreases k,
{
    if k > 0 {
        let t = s.drop_first();
        assert forall|j: int| 0 <= j < k - 1 implies !is_sep(#[trigger] t[j], unicode) by {
            assert(t[j] == s[j + 1]);
        }
        lemma_word_len(t, unicode, k - 1);
    }
}

/// A word followed by a separator or by nothing comes first among the words.
pub proof fn lemma_words_cons(w: Seq<char>, rest: Seq<char>, unicode: bool)
    requires
        w.len() > 0,
        forall|j: int| 0 <= j < w.len() ==> !is_sep(#[trigger] w[j], unicode),
        rest.len() == 0 || is_sep(rest[0], unicode),
    ensures
        words(w + rest, unicode) == seq![w] + words(rest, unicode),
{
    let s = w + rest;
    assert forall|j: int| 0 <= j < w.len() implies !is_sep(#[trigger] s[j], unicode) by {
        assert(s[j] == w[j]);
    }
    if rest.len() > 0 {
        assert(s[w.len() as int] == rest[0]);
    }
    lemma_word_len(s, unicode, w.len() as int);
    assert(s.take(w.len() as int) =~= w);
    assert(s.skip(w.len() as int) =~= rest);
}

/// A separator in front of a text adds no word.
pub proof fn lemma_words_sep(c: char, rest: Seq<char>, unicode: bool)
    requires
        is_sep(c, unicode),
    ensures
        words(seq![c] + rest, unicode) == words(rest, unicode),
{
    assert((seq![c] + rest).drop_first() =~= rest);
}

/// Exec counterpart of `is_sep`.
pub fn char_is_sep(c: char, unicode: bool) -> (b: bool)
    ensures
        b == is_sep(c, unicode),
{
    if unicode {
        char_is_unicode_ws(c)
    } else {
        char_is_ascii_ws(c)
    }
}

/// The whitespace-separated words of `s`.
pub fn split_words(s: &str, unicode: bool) -> (res: Vec<String>)
    ensures
        res@.map_values(|w: String| w@) == words(s@, unicode),
{
    let cs = chars_of(s);
    let ghost t = s@;
    let mut res: Vec<String> = Vec::new();
    let mut i: usize = 0;
    proof {
        assert(t.skip(0) =~= t);
        assert(res@.map_values(|w: String| w@) + words(t.skip(0), unicode) =~= words(t, unicode));
    }
    while i < cs.len()
        invariant
            cs@ == t,
            i <= t.len(),
            res@.map_values(|w: String| w@) + words(t.skip(i as int), unicode) == words(t, unicode),
        decreases t.len() - i,
    {
        if char_is_sep(cs[i], unicode) {
            proof {
                assert(t.skip(i as int).drop_first() =~= t.skip(i + 1));
            }
            i += 1;
        } else {
            let mut j = i;
            while j < cs.len() && !char_is_sep(cs[j], unicode)
                invariant
                    i <= j <= t.len(),
                    cs@ == t,
                    forall|l: int| i <= l < j ==> !is_sep(#[trigger] t[l], unicode),
                decreases t.len() - j,
            {
                j += 1;
            }
            proof {
                let r = t.skip(i as int);
                assert forall|l: int| 0 <= l < j - i implies !is_sep(#[trigger] r[l], unicode) by {
                    assert(r[l] == t[i + l]);
                }
                lemma_word_len(r, unicode, j - i);
                assert(r.take(j - i) =~= t.subrange(i as int, j as int));
                assert(r.skip(j - i) =~= t.skip(j as int));
            }
            let w = string_from_chars(cs.as_slice(), i, j);
            let ghost old = res@;
            res.push(w);
            proof {
                assert(res@.map_values(|w: String| w@) =~= old.map_values(|w: String| w@).push(w@));
                assert(res@.map_values(|w: String| w@) + words(t.skip(j as int), unicode)
                    =~= old.map_values(|w: String| w@) + words(t.skip(i as int), unicode));
            }
            i = j;
        }
    }
    proof {
        assert(t.skip(i as int) =~= Seq::<char>::empty());
        assert(res@.map_values(|w: String| w@) + Seq::<Seq<char>>::empty() =~= res@.map_values(|w: String| w@));
    }
    res
}


/// The character of a decimal digit.
pub open spec fn digit_char(d: nat) -> char {
    if d == 0 {
        '0'
    } else if d == 1 {
        '1'
    } else if d == 2 {
        '2'
    } else if d == 3 {
        '3'
    } else if d == 4 {
        '4'
    } else if d == 5 {
        '5'
    } else if d == 6 {
        '6'
    } else if d == 7 {
        '7'
    } else if d == 8 {
        '8'
    } else {
        '9'
    }
}

/// The decimal digits of a number, most significant first, without leading zeros.
pub open spec fn decimal(n: nat) -> Seq<char>
    decreases n,
{
    if n < 10 {
        seq![digit_char(n)]
    } else {
        decimal(n / 10).push(digit_char(n % 10))
    }
}

fn digit(d: usize) -> (c: char)
    requires
        d < 10,
    ensures
        c == digit_char(d as nat),
{
    match d {
        0 => '0',
        1 => '1',
        2 => '2',
        3 => '3',
        4 => '4',
        5 => '5',
        6 => '6',
        7 => '7',
        8 => '8',
        _ => '9',
    }
}

/// Appends the decimal digits of a number.
pub fn push_decimal(s: &mut String, n: usize)
    ensures
        final(s)@ == old(s)@ + decimal(n as nat),
    decreases n,
{
    if n >= 10 {
        push_decimal(s, n / 10);
    }
    string_push(s, digit(n % 10));
    proof {
        if n >= 10 {
            assert(old(s)@ + decimal(n as nat) =~= old(s)@ + decimal((n / 10) as nat) + seq![digit_char((n % 10) as nat)]);
        } else {
            assert(old(s)@ + decimal(n as nat) =~= old(s)@.push(digit_char((n % 10) as nat)));
        }
    }
}

/// The decimal form of a number, as `to_string` writes it.
pub fn decimal_string(n: usize) -> (res: String)
    ensures
        res@ == decimal(n as nat),
{
    let mut s = String::new();
    push_decimal(&mut s, n);
    proof {
        assert(Seq::<char>::empty() + decimal(n as nat) =~= decimal(n as nat));
    }
    s
}

/// Lines joined with newlines between them, as `join("\n")` writes them.
pub open spec fn join_lines(lines: Seq<Seq<char>>) -> Seq<char>
    decreases lines.len(),
{
    if lines.len() == 0 {
        Seq::empty()
    } else if lines.len() == 1 {
        lines[0]
    } else {
        join_lines(lines.drop_last()) + seq!['\n'] + lines.last()
    }
}

/// Joins lines with newlines between them.
pub fn join_str_lines(lines: &[&str]) -> (res: String)
    ensures
        res@ == join_lines(lines@.map_values(|l: &str| l@)),
{
    let ghost lv = lines@.map_values(|l: &str| l@);
    let mut s = String::new();
    let mut i: usize = 0;
    while i < lines.len()
        invariant
            i <= lines@.len(),
            lv == lines@.map_values(|l: &str| l@),
            s@ == join_lines(lv.take(i as int)),
        decreases lines@.len() - i,
    {
        let ghost before = s@;
        if i > 0 {
            string_push(&mut s, '\n');
        }
        push_str(&mut s, lines[i]);
        proof {
            assert(lv.take(i + 1).drop_last() =~= lv.take(i as int));
            assert(lv.take(i + 1).last() == lines@[i as int]@);
            if i == 0 {
                assert(Seq::<char>::empty() + lines@[0]@ =~= lines@[0]@);
            }
        }
        i += 1;
    }
    proof {
        assert(lv.take(lines@.len() as int) =~= lv);
    }
    s
}

/// Joins owned lines with newlines between them.
pub fn join_string_lines(lines: &[String]) -> (res: String)
    ensures
        res@ == join_lines(lines@.map_values(|l: String| l@)),
{
    let ghost lv = lines@.map_values(|l: String| l@);
    let mut s = String::new();
    let mut i: usize = 0;
    while i < lines.len()
        invariant
            i <= lines@.len(),
            lv == lines@.map_values(|l: String| l@),
            s@ == join_lines(lv.take(i as int)),
        decreases lines@.len() - i,
    {
        if i > 0 {
            string_push(&mut s, '\n');
        }
        push_str(&mut s, lines[i].as_str());
        proof {
            assert(lv.take(i + 1).drop_last() =~= lv.take(i as int));
            assert(lv.take(i + 1).last() == lines@[i as int]@);
            if i == 0 {
                assert(Seq::<char>::empty() + lines@[0]@ =~= lines@[0]@);
            }
        }
        i += 1;
    }
    proof {
        assert(lv.take(lines@.len() as int) =~= lv);
    }
    s
}

/// The UTF-8 encoding of a concatenation is the concatenation of the encodings.
pub proof fn lemma_encode_concat(a: Seq<char>, b: Seq<char>)
    ensures
        vstd::utf8::encode_utf8(a + b) == vstd::utf8::encode_utf8(a) + vstd::utf8::encode_utf8(b),
    decreases a.len(),
{
    if a.len() == 0 {
        assert(a + b =~= b);
        assert(Seq::<u8>::empty() + vstd::utf8::encode_utf8(b) =~= vstd::utf8::encode_utf8(b));
    } else {
        assert((a + b).drop_first() =~= a.drop_first() + b);
        assert((a + b)[0] == a[0]);
        lemma_encode_concat(a.drop_first(), b);
        assert(vstd::utf8::encode_utf8(a + b) =~= vstd::utf8::encode_scalar(a[0] as u32) + (
        vstd::utf8::encode_utf8(a.drop_first()) + vstd::utf8::encode_utf8(b)));
    }
}

proof fn lemma_encode_single(c: char)
    ensures
        vstd::utf8::encode_utf8(seq![c]) == vstd::utf8::encode_scalar(c as u32),
{
    reveal_with_fuel(vstd::utf8::encode_utf8, 2);
    assert(seq![c].drop_first() =~= Seq::<char>::empty());
    assert(vstd::utf8::encode_scalar(c as u32) + Seq::<u8>::empty() =~= vstd::utf8::encode_scalar(c as u32));
}

/// `utf8_len` is the length of the UTF-8 encoding.
pub proof fn lemma_utf8_len_encode(s: Seq<char>)
    ensures
        vstd::utf8::encode_utf8(s).len() == utf8_len(s),
    decreases s.len(),
{
    if s.len() > 0 {
        let c = s.last();
        lemma_utf8_len_encode(s.drop_last());
        lemma_encode_concat(s.drop_last(), seq![c]);
        assert(s.drop_last() + seq![c] =~= s);
        vstd::utf8::char_is_scalar(c);
        lemma_encode_single(c);
    }
}

/// The byte offset of a character position of `s` is a character boundary of
/// its UTF-8 encoding.
pub proof fn lemma_char_boundary_encode(s: Seq<char>, i: int)
    requires
        0 <= i <= s.len(),
    ensures
        vstd::utf8::valid_utf8(vstd::utf8::encode_utf8(s)),
        vstd::utf8::is_char_boundary(vstd::utf8::encode_utf8(s), utf8_len(s.take(i)) as int),
    decreases i,
{
    vstd::utf8::encode_utf8_valid_utf8(s);
    lemma_utf8_len_encode(s.take(i));
    if i > 0 {
        let t = s.drop_first();
        lemma_char_boundary_encode(t, i - 1);
        vstd::utf8::encode_utf8_first_scalar(s);
        let bytes = vstd::utf8::encode_utf8(s);
        assert(vstd::utf8::pop_first_scalar(bytes) =~= vstd::utf8::encode_utf8(t));
        assert(s.take(i) =~= seq![s[0]] + t.take(i - 1));
        lemma_encode_concat(seq![s[0]], t.take(i - 1));
        lemma_encode_single(s[0]);
        lemma_utf8_len_encode(t.take(i - 1));
    } else {
        assert(s.take(0) =~= Seq::<char>::empty());
    }
}

/// A character boundary of `bytes` at or after `i`, itself a boundary, is a
/// boundary of the bytes from `i` on.
pub proof fn lemma_boundary_suffix(bytes: Seq<u8>, i: int, j: int)
    requires
        vstd::utf8::valid_utf8(bytes),
        0 <= i <= j,
        vstd::utf8::is_char_boundary(bytes, i),
        vstd::utf8::is_char_boundary(bytes, j),
    ensures
        vstd::utf8::valid_utf8(bytes.subrange(i, bytes.len() as int)),
        vstd::utf8::is_char_boundary(bytes.subrange(i, bytes.len() as int), j - i),
    decreases bytes.len(),
{
    if i == 0 {
        assert(bytes.subrange(0, bytes.len() as int) =~= bytes);
    } else {
        let l = vstd::utf8::length_of_first_scalar(bytes);
        let rest = vstd::utf8::pop_first_scalar(bytes);
        assert(bytes.len() > 0);
        assert(vstd::utf8::valid_utf8(rest));
        assert(vstd::utf8::is_char_boundary(rest, i - l));
        assert(vstd::utf8::is_char_boundary(rest, j - l));
        assert(i - l >= 0);
        assert(rest.len() < bytes.len());
        lemma_boundary_suffix(rest, i - l, j - l);
        assert(rest.subrange(i - l, rest.len() as int) =~= bytes.subrange(i, bytes.len() as int));
    }
}

/// The bytes `start..end` of `s`, between character boundaries.
pub fn byte_slice<'a>(s: &'a str, start: usize, end: usize) -> (res: &'a str)
    requires
        start <= end,
        vstd::utf8::is_char_boundary(vstd::utf8::encode_utf8(s@), start as int),
        vstd::utf8::is_char_boundary(vstd::utf8::encode_utf8(s@), end as int),
    ensures
        res@ == vstd::utf8::decode_utf8(vstd::utf8::encode_utf8(s@).subrange(start as int, end as int)),
{
    let ghost b = s.spec_bytes();
    proof {
        vstd::utf8::encode_utf8_valid_utf8(s@);
        lemma_boundary_suffix(b, start as int, end as int);
    }
    let (_, tail) = s.split_at(start);
    let (res, _) = tail.split_at(end - start);
    proof {
        assert(res.spec_bytes() =~= b.subrange(start as int, end as int));
        vstd::utf8::encode_utf8_decode_utf8(res@);
    }
    res
}

} // verus!
