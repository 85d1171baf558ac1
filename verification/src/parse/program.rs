//! Extraction of the program lines of a CogShell block from the text around
//! its markers.
//!
//! * If the program start and program end markers are on the same line, the
//!   text between them, trimmed, is the one program line.
//! * Otherwise the lines from the start of the program start marker's line up
//!   to the program end marker lose the prefix they all share (comment
//!   characters, for example). The text after the program start marker,
//!   trimmed, is the first program line if it is not empty; the lines in
//!   between, and the text before the program end marker unless it is blank,
//!   follow, with the leading whitespace common to their non-blank lines
//!   removed.
//! * The program end and output end markers must not share a line.
use vstd::prelude::*;

use crate::common_prefix::{
    char_views, common_prefix_count_of, is_common_prefix, is_leading_ws_len, is_longest_common_prefix, lcp, leading_ws_count,
    leading_ws_len, lemma_lcp_exists, lemma_lcp_unique, lemma_leading_ws_len,
};
use crate::text::{is_ascii_ws, is_blank, is_unicode_ws, range_is_blank, trim, trim_range};

verus! {

/// Whether `text[a..b]` holds a newline.
pub open spec fn has_nl(text: Seq<char>, a: int, b: int) -> bool {
    exists|j: int| a <= j < b && text[j] == '\n'
}

/// Position of the first newline of `s`, or its length if it has none.
pub open spec fn nl_index(s: Seq<char>) -> int
    decreases s.len(),
{
    if s.len() == 0 {
        0
    } else if s[0] == '\n' {
        0
    } else {
        1 + nl_index(s.drop_first())
    }
}

/// The pieces of `s` between newlines, as `str::split('\n')` yields them.
pub open spec fn split_nl(s: Seq<char>) -> Seq<Seq<char>>
    decreases s.len(),
{
    let i = nl_index(s);
    if 0 <= i < s.len() {
        seq![s.take(i)] + split_nl(s.skip(i + 1))
    } else {
        seq![s]
    }
}

/// Start of the line that holds position `i`.
pub open spec fn line_start_of(text: Seq<char>, i: int) -> int
    decreases i,
{
    if i <= 0 {
        0
    } else if text[i - 1] == '\n' {
        i
    } else {
        line_start_of(text, i - 1)
    }
}

/// End (exclusive, before the newline) of the line that holds position `i`.
pub open spec fn line_end_of(text: Seq<char>, i: int) -> int {
    i + nl_index(text.skip(i))
}

/// The views of character ranges of `text`.
pub open spec fn range_views(text: Seq<char>, rs: Seq<(usize, usize)>) -> Seq<Seq<char>> {
    rs.map_values(|r: (usize, usize)| text.subrange(r.0 as int, r.1 as int))
}

/// Holds for lines that are not blank.
pub open spec fn non_blank() -> spec_fn(Seq<char>) -> bool {
    |l: Seq<char>| !is_blank(l)
}

/// The leading ASCII whitespace of a line.
pub open spec fn leading_ws() -> spec_fn(Seq<char>) -> Seq<char> {
    |l: Seq<char>| l.take(leading_ws_len(l) as int)
}

/// The indentation common to the non-blank lines of `body`.
pub open spec fn common_indent(body: Seq<Seq<char>>) -> Seq<char> {
    let nb = body.filter(non_blank());
    if nb.len() == 0 {
        Seq::empty()
    } else {
        let ws = nb.map_values(leading_ws());
        ws[0].take(lcp(ws))
    }
}

/// A line without the indentation `indent`, if it starts with it.
pub open spec fn strip_indent(l: Seq<char>, indent: Seq<char>) -> Seq<char> {
    if l.len() >= indent.len() && l.take(indent.len() as int) == indent {
        l.skip(indent.len() as int)
    } else {
        l
    }
}

/// The lines `body` with the leading whitespace common to the non-blank ones removed.
pub open spec fn dedent(body: Seq<Seq<char>>) -> Seq<Seq<char>> {
    let indent = common_indent(body);
    body.map_values(|l: Seq<char>| strip_indent(l, indent))
}

/// The program of a block whose program start and program end markers are on different lines.
pub open spec fn multiline_program(text: Seq<char>, ps_s: int, ps_e: int, pe_s: int) -> Seq<
    Seq<char>,
> {
    let lines = split_nl(text.subrange(line_start_of(text, ps_s), pe_s));
    let n = lines.len();
    let p = lcp(lines);
    let first = trim(text.subrange(ps_e, line_end_of(text, ps_e)));
    let mids = lines.subrange(1, n - 1).map_values(|l: Seq<char>| l.skip(p));
    let last = lines[n - 1].skip(p);
    let body = if is_blank(last) {
        mids
    } else {
        mids.push(last)
    };
    let firsts = if first.len() == 0 {
        Seq::<Seq<char>>::empty()
    } else {
        seq![first]
    };
    firsts + dedent(body)
}

/// The program lines of a block, given the character positions of its program
/// start marker (`ps_s..ps_e`), of the start of its program end marker and of
/// the start of its output end marker; `None` when the program end and output
/// end markers share a line.
pub open spec fn program_lines(text: Seq<char>, ps_s: int, ps_e: int, pe_s: int, oe_s: int) -> Option<
    Seq<Seq<char>>,
> {
    if !has_nl(text, pe_s, oe_s) {
        None
    } else if !has_nl(text, ps_s, pe_s) {
        Some(seq![trim(text.subrange(ps_e, pe_s))])
    } else {
        Some(multiline_program(text, ps_s, ps_e, pe_s))
    }
}

/// The positions of a block's markers are in order within the text.
pub open spec fn positions_ok(text: Seq<char>, ps_s: int, ps_e: int, pe_s: int, oe_s: int) -> bool {
    0 <= ps_s <= ps_e <= pe_s <= oe_s <= text.len()
}

proof fn lemma_nl_index(s: Seq<char>, k: int)
    requires
        0 <= k <= s.len(),
        forall|j: int| 0 <= j < k ==> s[j] != '\n',
        k == s.len() || s[k] == '\n',
    ensures
        nl_index(s) == k,
    decreases k,
{
    if k > 0 {
        let t = s.drop_first();
        assert forall|j: int| 0 <= j < k - 1 implies t[j] != '\n' by {
            assert(t[j] == s[j + 1]);
        }
        lemma_nl_index(t, k - 1);
    }
}

/// The last piece of a text split at newlines is what follows its last newline.
proof fn lemma_split_nl_last(s: Seq<char>, q: int)
    requires
        0 <= q < s.len(),
        s[q] == '\n',
        forall|k: int| q < k < s.len() ==> s[k] != '\n',
    ensures
        split_nl(s).len() >= 2,
        split_nl(s).last() == s.skip(q + 1),
    decreases s.len(),
{
    lemma_nl_index_props(s);
    let i = nl_index(s);
    assert(i <= q) by {
        if i > q {
            assert(s[q] != '\n');
        }
    }
    let t = s.skip(i + 1);
    if i == q {
        assert forall|k: int| 0 <= k < t.len() implies t[k] != '\n' by {
            assert(t[k] == s[q + 1 + k]);
        }
        lemma_nl_index(t, t.len() as int);
        assert(split_nl(t) == seq![t]);
    } else {
        assert(t[q - i - 1] == s[q]);
        assert forall|k: int| q - i - 1 < k < t.len() implies t[k] != '\n' by {
            assert(t[k] == s[i + 1 + k]);
        }
        lemma_split_nl_last(t, q - i - 1);
        assert(t.skip(q - i) =~= s.skip(q + 1));
    }
}

proof fn lemma_ascii_ws_is_unicode_ws(c: char)
    requires
        is_ascii_ws(c),
    ensures
        is_unicode_ws(c),
{
}

/// The indentation common to the non-blank lines is ASCII whitespace.
proof fn lemma_common_indent_ws(body: Seq<Seq<char>>)
    ensures
        forall|i: int| 0 <= i < common_indent(body).len() ==> is_ascii_ws(#[trigger] common_indent(body)[i]),
{
    let nb = body.filter(non_blank());
    if nb.len() > 0 {
        let ws = nb.map_values(leading_ws());
        lemma_lcp_exists(ws);
        lemma_leading_ws_len(nb[0]);
        let w0 = ws[0];
        assert(w0 == nb[0].take(leading_ws_len(nb[0]) as int));
        assert forall|i: int| 0 <= i < common_indent(body).len() implies is_ascii_ws(#[trigger] common_indent(body)[i]) by {
            assert(common_indent(body)[i] == w0[i]);
            assert(w0[i] == nb[0][i]);
        }
    }
}

/// In a block whose program spans lines, take the text after the last newline
/// before the program end marker (`q`), less the prefix that all the program's
/// lines share. If it has a non-blank character (at `j`), the last program line
/// is that text, from a point no later than `j` up to the marker: the text
/// before the program end marker is part of the program.
pub proof fn lemma_last_program_line(text: Seq<char>, ps_s: int, ps_e: int, pe_s: int, q: int, j: int)
    requires
        0 <= ps_s <= ps_e <= pe_s <= text.len(),
        ps_s <= q < pe_s,
        text[q] == '\n',
        forall|k: int| q < k < pe_s ==> text[k] != '\n',
        q + 1 + lcp(split_nl(text.subrange(line_start_of(text, ps_s), pe_s))) <= j < pe_s,
        !is_unicode_ws(text[j]),
    ensures
        multiline_program(text, ps_s, ps_e, pe_s).len() > 0,
        exists|k: int| q + 1 <= k <= j && multiline_program(text, ps_s, ps_e, pe_s).last() == text.subrange(k, pe_s),
{
    lemma_line_start(text, ps_s);
    let ls0 = line_start_of(text, ps_s);
    let s = text.subrange(ls0, pe_s);
    let qq = q - ls0;
    assert(s[qq] == '\n');
    assert forall|k: int| qq < k < s.len() implies s[k] != '\n' by {
        assert(s[k] == text[ls0 + k]);
    }
    lemma_split_nl_last(s, qq);
    let lines = split_nl(s);
    let n = lines.len();
    assert(lines[n - 1] =~= text.subrange(q + 1, pe_s));
    lemma_lcp_exists(lines);
    let p = lcp(lines);
    assert(p <= lines[n - 1].len());
    let last = lines[n - 1].skip(p);
    assert(last =~= text.subrange(q + 1 + p, pe_s));
    let jj = j - (q + 1 + p);
    assert(last[jj] == text[j]);
    assert(!is_blank(last));
    let mids = lines.subrange(1, n - 1).map_values(|l: Seq<char>| l.skip(p));
    let body = mids.push(last);
    let indent = common_indent(body);
    let d = dedent(body);
    assert(d.len() == body.len());
    assert(d.last() == strip_indent(last, indent));
    let prog = multiline_program(text, ps_s, ps_e, pe_s);
    assert(prog.last() == d.last());
    lemma_common_indent_ws(body);
    if last.len() >= indent.len() && last.take(indent.len() as int) == indent {
        if indent.len() > jj {
            assert(last.take(indent.len() as int)[jj] == last[jj]);
            assert(is_ascii_ws(indent[jj]));
            lemma_ascii_ws_is_unicode_ws(indent[jj]);
        }
        let k = q + 1 + p + indent.len();
        assert(strip_indent(last, indent) =~= text.subrange(k, pe_s));
        assert(q + 1 <= k <= j && prog.last() == text.subrange(k, pe_s));
    } else {
        let k = q + 1 + p;
        assert(q + 1 <= k <= j && prog.last() == text.subrange(k, pe_s));
    }
}

/// In a block whose program spans lines, split the text from the start of the
/// program start marker's line to the program end marker at its newlines, and
/// take a piece after the first, less the prefix that all pieces share. If it
/// has a non-blank character (at `j`), it is a program line, from a point no
/// later than `j` to its end, in the order of the pieces: after the text that
/// follows the program start marker, trimmed, when that is not empty.
pub proof fn lemma_program_line(text: Seq<char>, ps_s: int, ps_e: int, pe_s: int, i: int, j: int)
    requires
        0 <= ps_s <= ps_e <= pe_s <= text.len(),
        has_nl(text, ps_s, pe_s),
        1 <= i < split_nl(text.subrange(line_start_of(text, ps_s), pe_s)).len(),
        lcp(split_nl(text.subrange(line_start_of(text, ps_s), pe_s))) <= j < split_nl(
            text.subrange(line_start_of(text, ps_s), pe_s),
        )[i].len(),
        !is_unicode_ws(split_nl(text.subrange(line_start_of(text, ps_s), pe_s))[i][j]),
    ensures
        ({
            let lines = split_nl(text.subrange(line_start_of(text, ps_s), pe_s));
            let f = if trim(text.subrange(ps_e, line_end_of(text, ps_e))).len() == 0 { 0int } else { 1int };
            let prog = multiline_program(text, ps_s, ps_e, pe_s);
            &&& f + i - 1 < prog.len()
            &&& exists|k: int|
                lcp(lines) <= k <= j && prog[f + i - 1] == lines[i].skip(k)
        }),
{
    let lines = split_nl(text.subrange(line_start_of(text, ps_s), pe_s));
    let n = lines.len();
    lemma_lcp_exists(lines);
    let p = lcp(lines);
    assert(p <= lines[i].len());
    let piece = lines[i].skip(p);
    let jj = j - p;
    assert(piece[jj] == lines[i][j]);
    let mids = lines.subrange(1, n - 1).map_values(|l: Seq<char>| l.skip(p));
    let last = lines[n - 1].skip(p);
    if i == n - 1 {
        assert(!is_blank(last));
    }
    let body = if is_blank(last) {
        mids
    } else {
        mids.push(last)
    };
    assert(body[i - 1] == piece);
    let indent = common_indent(body);
    let d = dedent(body);
    assert(d.len() == body.len());
    assert(d[i - 1] == strip_indent(piece, indent));
    let f = if trim(text.subrange(ps_e, line_end_of(text, ps_e))).len() == 0 { 0int } else { 1int };
    let prog = multiline_program(text, ps_s, ps_e, pe_s);
    assert(prog[f + i - 1] == d[i - 1]);
    lemma_common_indent_ws(body);
    if piece.len() >= indent.len() && piece.take(indent.len() as int) == indent {
        if indent.len() > jj {
            assert(piece.take(indent.len() as int)[jj] == piece[jj]);
            lemma_ascii_ws_is_unicode_ws(indent[jj]);
        }
        let k = p + indent.len();
        assert(strip_indent(piece, indent) =~= lines[i].skip(k));
        assert(p <= k <= j && prog[f + i - 1] == lines[i].skip(k));
    } else {
        assert(piece == lines[i].skip(p));
        assert(p <= p <= j && prog[f + i - 1] == lines[i].skip(p));
    }
}

/// In a block whose program spans lines, the text after the program start
/// marker on its line, trimmed, is the first program line when it is not
/// empty.
pub proof fn lemma_first_program_line(text: Seq<char>, ps_s: int, ps_e: int, pe_s: int)
    requires
        0 <= ps_s <= ps_e <= pe_s <= text.len(),
        has_nl(text, ps_s, pe_s),
        trim(text.subrange(ps_e, line_end_of(text, ps_e))).len() > 0,
    ensures
        multiline_program(text, ps_s, ps_e, pe_s).len() > 0,
        multiline_program(text, ps_s, ps_e, pe_s)[0] == trim(text.subrange(ps_e, line_end_of(text, ps_e))),
{
}

/// Whether `chars[a..b]` holds a newline.
pub fn has_newline(chars: &[char], a: usize, b: usize) -> (res: bool)
    requires
        a <= b <= chars@.len(),
    ensures
        res == has_nl(chars@, a as int, b as int),
{
    let mut j = a;
    while j < b
        invariant
            a <= j <= b <= chars@.len(),
            forall|l: int| a <= l < j ==> chars@[l] != '\n',
        decreases b - j,
    {
        if chars[j] == '\n' {
            return true;
        }
        j += 1;
    }
    false
}

/// Start of the line that holds position `i`.
pub fn line_start(chars: &[char], i: usize) -> (res: usize)
    requires
        i <= chars@.len(),
    ensures
        res == line_start_of(chars@, i as int),
        res <= i,
        !has_nl(chars@, res as int, i as int),
{
    let mut j = i;
    while j > 0 && chars[j - 1] != '\n'
        invariant
            j <= i <= chars@.len(),
            line_start_of(chars@, i as int) == line_start_of(chars@, j as int),
            forall|l: int| j <= l < i ==> chars@[l] != '\n',
        decreases j,
    {
        j -= 1;
    }
    j
}

/// End (exclusive, before the newline) of the line that holds position `i`.
pub fn line_end(chars: &[char], i: usize) -> (res: usize)
    requires
        i <= chars@.len(),
    ensures
        res == line_end_of(chars@, i as int),
        i <= res <= chars@.len(),
        !has_nl(chars@, i as int, res as int),
        res < chars@.len() ==> chars@[res as int] == '\n',
{
    let mut j = i;
    while j < chars.len() && chars[j] != '\n'
        invariant
            i <= j <= chars@.len(),
            forall|l: int| i <= l < j ==> chars@[l] != '\n',
        decreases chars@.len() - j,
    {
        j += 1;
    }
    proof {
        let s = chars@.skip(i as int);
        assert forall|l: int| 0 <= l < j - i implies s[l] != '\n' by {
            assert(s[l] == chars@[i + l]);
        }
        lemma_nl_index(s, j - i);
    }
    j
}

/// The ranges of the pieces of `chars[a..b]` between newlines.
pub fn split_ranges(chars: &[char], a: usize, b: usize) -> (res: Vec<(usize, usize)>)
    requires
        a <= b <= chars@.len(),
    ensures
        range_views(chars@, res@) == split_nl(chars@.subrange(a as int, b as int)),
        forall|k: int| 0 <= k < res@.len() ==> a <= (#[trigger] res@[k]).0 <= res@[k].1 <= b,
        res@.len() >= 1,
        has_nl(chars@, a as int, b as int) ==> res@.len() >= 2,
{
    let mut res: Vec<(usize, usize)> = Vec::new();
    let mut cur = a;
    let mut j = a;
    while j < b
        invariant
            a <= cur <= j <= b <= chars@.len(),
            forall|l: int| cur <= l < j ==> chars@[l] != '\n',
            range_views(chars@, res@) + split_nl(chars@.subrange(cur as int, b as int))
                == split_nl(chars@.subrange(a as int, b as int)),
            forall|k: int| 0 <= k < res@.len() ==> a <= (#[trigger] res@[k]).0 <= res@[k].1 <= b,
            has_nl(chars@, a as int, j as int) ==> res@.len() >= 1,
        decreases b - j,
    {
        if chars[j] == '\n' {
            proof {
                let s = chars@.subrange(cur as int, b as int);
                assert forall|l: int| 0 <= l < j - cur implies s[l] != '\n' by {
                    assert(s[l] == chars@[cur + l]);
                }
                lemma_nl_index(s, j - cur);
                assert(s.take(j - cur) =~= chars@.subrange(cur as int, j as int));
                assert(s.skip(j - cur + 1) =~= chars@.subrange(j + 1, b as int));
            }
            let ghost old_res = res@;
            res.push((cur, j));
            proof {
                assert(range_views(chars@, res@) =~= range_views(chars@, old_res).push(
                    chars@.subrange(cur as int, j as int),
                ));
                assert(range_views(chars@, res@) + split_nl(chars@.subrange(j + 1, b as int))
                    =~= range_views(chars@, old_res) + split_nl(
                    chars@.subrange(cur as int, b as int),
                ));
            }
            cur = j + 1;
        }
        j += 1;
    }
    proof {
        let s = chars@.subrange(cur as int, b as int);
        assert forall|l: int| 0 <= l < s.len() implies s[l] != '\n' by {
            assert(s[l] == chars@[cur + l]);
        }
        lemma_nl_index(s, s.len() as int);
    }
    let ghost old_res = res@;
    res.push((cur, b));
    proof {
        assert(range_views(chars@, res@) =~= range_views(chars@, old_res).push(
            chars@.subrange(cur as int, b as int),
        ));
        assert(range_views(chars@, res@) =~= range_views(chars@, old_res) + split_nl(
            chars@.subrange(cur as int, b as int),
        ));
    }
    res
}

/// Copies of the character ranges of `chars`.
pub fn range_copies(chars: &[char], rs: &[(usize, usize)]) -> (res: Vec<Vec<char>>)
    requires
        forall|k: int| 0 <= k < rs@.len() ==> (#[trigger] rs@[k]).0 <= rs@[k].1 <= chars@.len(),
    ensures
        char_views(res@) == range_views(chars@, rs@),
        res@.len() == rs@.len(),
{
    let mut res: Vec<Vec<char>> = Vec::new();
    let mut i: usize = 0;
    while i < rs.len()
        invariant
            i <= rs@.len(),
            forall|k: int| 0 <= k < rs@.len() ==> (#[trigger] rs@[k]).0 <= rs@[k].1 <= chars@.len(),
            char_views(res@) == range_views(chars@, rs@.take(i as int)),
            res@.len() == i,
        decreases rs@.len() - i,
    {
        let (a, b) = rs[i];
        let v = vstd::slice::slice_to_vec(&chars[a..b]);
        let ghost old_res = res@;
        res.push(v);
        proof {
            assert(char_views(res@) =~= char_views(old_res).push(chars@.subrange(a as int, b as int)));
            assert(range_views(chars@, rs@.take(i + 1)) =~= range_views(chars@, rs@.take(i as int)).push(
                chars@.subrange(a as int, b as int),
            ));
        }
        i += 1;
    }
    assert(rs@.take(rs@.len() as int) =~= rs@);
    res
}

/// The ranges of `body` with the leading whitespace common to the non-blank ones removed.
pub fn dedent_ranges(chars: &[char], body: &[(usize, usize)]) -> (res: Vec<(usize, usize)>)
    requires
        forall|k: int| 0 <= k < body@.len() ==> (#[trigger] body@[k]).0 <= body@[k].1 <= chars@.len(),
    ensures
        range_views(chars@, res@) == dedent(range_views(chars@, body@)),
        res@.len() == body@.len(),
        forall|k: int| 0 <= k < res@.len() ==> (#[trigger] res@[k]).0 <= res@[k].1 <= chars@.len(),
{
    let ghost bv = range_views(chars@, body@);
    let mut ws: Vec<Vec<char>> = Vec::new();
    let mut i: usize = 0;
    proof {
        reveal_with_fuel(Seq::<_>::filter, 1);
        assert(bv.take(0) =~= Seq::<Seq<char>>::empty());
        assert(char_views(ws@) =~= bv.take(0).filter(non_blank()).map_values(leading_ws()));
    }
    while i < body.len()
        invariant
            i <= body@.len(),
            bv == range_views(chars@, body@),
            forall|k: int| 0 <= k < body@.len() ==> (#[trigger] body@[k]).0 <= body@[k].1 <= chars@.len(),
            char_views(ws@) == bv.take(i as int).filter(non_blank()).map_values(leading_ws()),
        decreases body@.len() - i,
    {
        let (a, b) = body[i];
        let ghost old_ws = ws@;
        proof {
            reveal_with_fuel(Seq::<_>::filter, 1);
            assert(bv.take(i + 1).drop_last() =~= bv.take(i as int));
            assert(bv.take(i + 1).last() == bv[i as int]);
            assert(bv[i as int] == chars@.subrange(a as int, b as int));
        }
        if !range_is_blank(chars, a, b) {
            let k = leading_ws_count(&chars[a..b]);
            let w = vstd::slice::slice_to_vec(&chars[a..a + k]);
            ws.push(w);
            proof {
                assert(chars@.subrange(a as int, a + k) =~= chars@.subrange(a as int, b as int).take(k as int));
                assert(char_views(ws@) =~= char_views(old_ws).push(w@));
            }
        }
        i += 1;
    }
    proof {
        assert(bv.take(body@.len() as int) =~= bv);
    }
    let ghost indent = common_indent(bv);
    let mut res: Vec<(usize, usize)> = Vec::new();
    if ws.len() == 0 {
        proof {
            assert(indent =~= Seq::<char>::empty());
        }
        let mut j: usize = 0;
        while j < body.len()
            invariant
                j <= body@.len(),
                bv == range_views(chars@, body@),
                indent == Seq::<char>::empty(),
                forall|k: int| 0 <= k < body@.len() ==> (#[trigger] body@[k]).0 <= body@[k].1 <= chars@.len(),
                res@ == body@.take(j as int),
            decreases body@.len() - j,
        {
            res.push(body[j]);
            proof {
                assert(res@ =~= body@.take(j + 1));
            }
            j += 1;
        }
        proof {
            assert(res@ =~= body@);
            assert forall|k: int| 0 <= k < bv.len() implies strip_indent(#[trigger] bv[k], indent) == bv[k] by {
                assert(bv[k].take(0) =~= Seq::<char>::empty());
                assert(bv[k].skip(0) =~= bv[k]);
            }
            assert(bv.map_values(|l: Seq<char>| strip_indent(l, indent)) =~= bv);
        }
        return res;
    }
    let d = common_prefix_count_of(ws.as_slice());
    proof {
        lemma_lcp_unique(char_views(ws@), d as int);
        assert(char_views(ws@)[0] == ws@[0]@);
    }
    let ind = &ws[0];
    assert(indent == ind@.take(d as int));
    let mut j: usize = 0;
    while j < body.len()
        invariant
            j <= body@.len(),
            bv == range_views(chars@, body@),
            d <= ind@.len(),
            indent == ind@.take(d as int),
            forall|k: int| 0 <= k < body@.len() ==> (#[trigger] body@[k]).0 <= body@[k].1 <= chars@.len(),
            res@.len() == j,
            forall|k: int| 0 <= k < j ==> (#[trigger] res@[k]).0 <= res@[k].1 <= chars@.len(),
            forall|k: int|
                0 <= k < j ==> chars@.subrange((#[trigger] res@[k]).0 as int, res@[k].1 as int)
                    == strip_indent(bv[k], indent),
        decreases body@.len() - j,
    {
        let (a, b) = body[j];
        let mut has_indent = b - a >= d;
        if has_indent {
            let mut m: usize = 0;
            while m < d && chars[a + m] == ind[m]
                invariant
                    m <= d <= ind@.len(),
                    a + d <= b <= chars@.len(),
                    forall|l: int| 0 <= l < m ==> chars@[a + l] == ind@[l],
                decreases d - m,
            {
                m += 1;
            }
            has_indent = m == d;
            proof {
                let l = chars@.subrange(a as int, b as int);
                if has_indent {
                    assert(l.take(d as int) =~= indent);
                } else {
                    assert(l.take(d as int)[m as int] != indent[m as int]);
                }
            }
        }
        proof {
            assert(bv[j as int] == chars@.subrange(a as int, b as int));
        }
        if has_indent {
            res.push((a + d, b));
            proof {
                assert(chars@.subrange(a + d, b as int) =~= chars@.subrange(a as int, b as int).skip(d as int));
            }
        } else {
            res.push((a, b));
        }
        j += 1;
    }
    proof {
        assert(range_views(chars@, res@) =~= bv.map_values(|l: Seq<char>| strip_indent(l, indent)));
    }
    res
}

/// The ranges of the program lines of a block whose program start and program
/// end markers are on different lines.
pub fn multiline_ranges(chars: &[char], ps_s: usize, ps_e: usize, pe_s: usize) -> (res: Vec<(usize, usize)>)
    requires
        ps_s <= ps_e <= pe_s <= chars@.len(),
        has_nl(chars@, ps_s as int, pe_s as int),
    ensures
        range_views(chars@, res@) == multiline_program(chars@, ps_s as int, ps_e as int, pe_s as int),
        forall|k: int| 0 <= k < res@.len() ==> (#[trigger] res@[k]).0 <= res@[k].1 <= chars@.len(),
{
    let ghost text = chars@;
    let l0 = line_start(chars, ps_s);
    let lines = split_ranges(chars, l0, pe_s);
    let ghost lv = split_nl(text.subrange(l0 as int, pe_s as int));
    let n = lines.len();
    assert(n >= 2);
    let copies = range_copies(chars, lines.as_slice());
    let p = common_prefix_count_of(copies.as_slice());
    proof {
        assert(char_views(copies@) == lv);
        lemma_lcp_unique(lv, p as int);
    }
    let fe = line_end(chars, ps_e);
    let (fa, fb) = trim_range(chars, ps_e, fe);
    let ghost first = trim(text.subrange(ps_e as int, line_end_of(text, ps_e as int)));
    let ghost mids = lv.subrange(1, n - 1).map_values(|l: Seq<char>| l.skip(p as int));
    let mut body: Vec<(usize, usize)> = Vec::new();
    let mut i: usize = 1;
    while i < n - 1
        invariant
            1 <= i <= n - 1,
            n == lines@.len(),
            n == lv.len(),
            lv == range_views(text, lines@),
            text == chars@,
            is_common_prefix(lv, p as int),
            forall|k: int| 0 <= k < lines@.len() ==> l0 <= (#[trigger] lines@[k]).0 <= lines@[k].1 <= pe_s,
            pe_s <= chars@.len(),
            mids == lv.subrange(1, n - 1).map_values(|l: Seq<char>| l.skip(p as int)),
            range_views(text, body@) == mids.take(i - 1),
            forall|k: int| 0 <= k < body@.len() ==> (#[trigger] body@[k]).0 <= body@[k].1 <= chars@.len(),
        decreases n - 1 - i,
    {
        let (a, b) = lines[i];
        proof {
            assert(lv[i as int] == text.subrange(a as int, b as int));
            assert(p <= lv[i as int].len());
            assert(text.subrange(a + p, b as int) =~= lv[i as int].skip(p as int));
        }
        let ghost old_body = body@;
        body.push((a + p, b));
        proof {
            assert(range_views(text, body@) =~= range_views(text, old_body).push(text.subrange(a + p, b as int)));
            assert(mids.take(i as int) =~= mids.take(i - 1).push(mids[i - 1]));
        }
        i += 1;
    }
    proof {
        assert(mids.take(n - 2) =~= mids);
    }
    let (la, lb) = lines[n - 1];
    proof {
        assert(lv[n - 1] == text.subrange(la as int, lb as int));
        assert(p <= lv[n - 1].len());
        assert(text.subrange(la + p, lb as int) =~= lv[n - 1].skip(p as int));
    }
    if !range_is_blank(chars, la + p, lb) {
        let ghost old_body = body@;
        body.push((la + p, lb));
        proof {
            assert(range_views(text, body@) =~= range_views(text, old_body).push(text.subrange(la + p, lb as int)));
        }
    }
    let ded = dedent_ranges(chars, body.as_slice());
    let mut res: Vec<(usize, usize)> = Vec::new();
    if fa < fb {
        res.push((fa, fb));
    }
    let mut j: usize = 0;
    let ghost head = res@;
    while j < ded.len()
        invariant
            j <= ded@.len(),
            res@ == head + ded@.take(j as int),
            forall|k: int| 0 <= k < ded@.len() ==> (#[trigger] ded@[k]).0 <= ded@[k].1 <= chars@.len(),
            forall|k: int| 0 <= k < head.len() ==> (#[trigger] head[k]).0 <= head[k].1 <= chars@.len(),
        decreases ded@.len() - j,
    {
        res.push(ded[j]);
        proof {
            assert(ded@.take(j + 1) =~= ded@.take(j as int).push(ded@[j as int]));
        }
        j += 1;
    }
    proof {
        assert(ded@.take(ded@.len() as int) =~= ded@);
        assert(range_views(text, res@) =~= range_views(text, head) + range_views(text, ded@));
        if fa < fb {
            assert(range_views(text, head) =~= seq![first]);
        } else {
            assert(range_views(text, head) =~= Seq::<Seq<char>>::empty());
        }
    }
    res
}

/// The ranges of the program lines of a block (see `program_lines`).
pub fn program_ranges(chars: &[char], ps_s: usize, ps_e: usize, pe_s: usize, oe_s: usize) -> (res: Option<Vec<(usize, usize)>>)
    requires
        positions_ok(chars@, ps_s as int, ps_e as int, pe_s as int, oe_s as int),
    ensures
        match res {
            Some(rs) => program_lines(chars@, ps_s as int, ps_e as int, pe_s as int, oe_s as int) == Some(range_views(chars@, rs@))
                && forall|k: int| 0 <= k < rs@.len() ==> (#[trigger] rs@[k]).0 <= rs@[k].1 <= chars@.len(),
            None => program_lines(chars@, ps_s as int, ps_e as int, pe_s as int, oe_s as int) is None,
        },
{
    if !has_newline(chars, pe_s, oe_s) {
        return None;
    }
    if !has_newline(chars, ps_s, pe_s) {
        let (a, b) = trim_range(chars, ps_e, pe_s);
        let mut v: Vec<(usize, usize)> = Vec::new();
        v.push((a, b));
        proof {
            assert(range_views(chars@, v@) =~= seq![trim(chars@.subrange(ps_e as int, pe_s as int))]);
        }
        return Some(v);
    }
    Some(multiline_ranges(chars, ps_s, ps_e, pe_s))
}

/// End (exclusive) of the line that holds position `i`, its newline included.
pub open spec fn line_end_incl(text: Seq<char>, i: int) -> int {
    let e = line_end_of(text, i);
    if e < text.len() {
        e + 1
    } else {
        e
    }
}

/// The leading ASCII whitespace of a text.
pub open spec fn leading_ws_of(s: Seq<char>) -> Seq<char> {
    s.take(leading_ws_len(s) as int)
}

/// The text to prepend to the block's output lines: the whitespace before the
/// program start marker, or, if the program end marker is on another line,
/// the part of it that the whitespace before that marker shares.
pub open spec fn output_prefix(text: Seq<char>, ps_s: int, pe_s: int) -> Seq<char> {
    let start_ws = leading_ws_of(text.subrange(line_start_of(text, ps_s), ps_s));
    if !has_nl(text, ps_s, pe_s) {
        start_ws
    } else {
        let end_ws = leading_ws_of(text.subrange(line_start_of(text, pe_s), pe_s));
        start_ws.take(lcp(seq![start_ws, end_ws]))
    }
}

/// The output prefix is the leading ASCII whitespace of the program start
/// marker's line, or, when the program end marker is on another line, the
/// longest prefix that it shares with the leading ASCII whitespace of the
/// program end marker's line.
pub proof fn lemma_output_prefix_shared_ws(text: Seq<char>, ps_s: int, pe_s: int, a: int, b: int)
    requires
        0 <= ps_s <= pe_s <= text.len(),
        is_leading_ws_len(text.subrange(line_start_of(text, ps_s), ps_s), a),
        is_leading_ws_len(text.subrange(line_start_of(text, pe_s), pe_s), b),
    ensures
        !has_nl(text, ps_s, pe_s) ==> output_prefix(text, ps_s, pe_s) == text.subrange(
            line_start_of(text, ps_s),
            line_start_of(text, ps_s) + a,
        ),
        has_nl(text, ps_s, pe_s) ==> {
            let sw = text.subrange(line_start_of(text, ps_s), line_start_of(text, ps_s) + a);
            let ew = text.subrange(line_start_of(text, pe_s), line_start_of(text, pe_s) + b);
            &&& is_longest_common_prefix(seq![sw, ew], output_prefix(text, ps_s, pe_s).len() as int)
            &&& output_prefix(text, ps_s, pe_s) == sw.take(output_prefix(text, ps_s, pe_s).len() as int)
        },
{
    lemma_line_start(text, ps_s);
    lemma_line_start(text, pe_s);
    let s1 = text.subrange(line_start_of(text, ps_s), ps_s);
    let s2 = text.subrange(line_start_of(text, pe_s), pe_s);
    lemma_leading_ws_len(s1);
    lemma_leading_ws_len(s2);
    let sw = s1.take(a);
    let ew = s2.take(b);
    assert(sw =~= text.subrange(line_start_of(text, ps_s), line_start_of(text, ps_s) + a));
    assert(ew =~= text.subrange(line_start_of(text, pe_s), line_start_of(text, pe_s) + b));
    assert(leading_ws_of(s1) == sw);
    assert(leading_ws_of(s2) == ew);
    lemma_lcp_exists(seq![sw, ew]);
}

/// Where a block's output starts: after the line of its program end marker.
pub open spec fn output_start(text: Seq<char>, pe_e: int) -> int {
    line_end_incl(text, pe_e)
}

/// Where a block's output ends: at the start of the line of its output end marker.
pub open spec fn output_end(text: Seq<char>, oe_s: int) -> int {
    line_start_of(text, oe_s)
}

/// The text between a block's program end and output end markers, less one
/// newline at its start and one at its end.
pub open spec fn previous_output(text: Seq<char>, pe_e: int, oe_s: int) -> Seq<char> {
    let s = text.subrange(pe_e, oe_s);
    let t = if s.len() > 0 && s[0] == '\n' {
        s.drop_first()
    } else {
        s
    };
    if t.len() > 0 && t.last() == '\n' {
        t.drop_last()
    } else {
        t
    }
}

/// The line start is the position after the last newline before `i`.
pub proof fn lemma_line_start(text: Seq<char>, i: int)
    requires
        0 <= i <= text.len(),
    ensures
        0 <= line_start_of(text, i) <= i,
        line_start_of(text, i) > 0 ==> text[line_start_of(text, i) - 1] == '\n',
        !has_nl(text, line_start_of(text, i), i),
    decreases i,
{
    if i > 0 && text[i - 1] != '\n' {
        lemma_line_start(text, i - 1);
        assert forall|j: int| line_start_of(text, i) <= j < i implies text[j] != '\n' by {
            if j < i - 1 {
                assert(!has_nl(text, line_start_of(text, i - 1), i - 1));
            }
        }
    }
}

/// A newline between the end of one marker and the start of another puts the
/// output between them in order.
pub proof fn lemma_output_bounds(text: Seq<char>, pe_e: int, oe_s: int)
    requires
        0 <= pe_e <= oe_s <= text.len(),
        has_nl(text, pe_e, oe_s),
    ensures
        pe_e <= output_start(text, pe_e) <= output_end(text, oe_s) <= oe_s,
{
    let j = choose|j: int| pe_e <= j < oe_s && text[j] == '\n';
    let e = line_end_of(text, pe_e);
    lemma_line_end(text, pe_e);
    lemma_line_start(text, oe_s);
    let ls = line_start_of(text, oe_s);
    if e > j {
        assert(has_nl(text, pe_e, e));
    }
    if ls <= j {
        assert(has_nl(text, ls, oe_s));
    }
}

/// The line end is the first newline at or after `i`, or the end of the text.
pub proof fn lemma_line_end(text: Seq<char>, i: int)
    requires
        0 <= i <= text.len(),
    ensures
        i <= line_end_of(text, i) <= text.len(),
        !has_nl(text, i, line_end_of(text, i)),
        line_end_of(text, i) < text.len() ==> text[line_end_of(text, i)] == '\n',
{
    let s = text.skip(i);
    lemma_nl_index_props(s);
    assert forall|j: int| i <= j < line_end_of(text, i) implies text[j] != '\n' by {
        assert(text[j] == s[j - i]);
    }
}

proof fn lemma_nl_index_props(s: Seq<char>)
    ensures
        0 <= nl_index(s) <= s.len(),
        forall|j: int| 0 <= j < nl_index(s) ==> s[j] != '\n',
        nl_index(s) < s.len() ==> s[nl_index(s)] == '\n',
    decreases s.len(),
{
    if s.len() > 0 && s[0] != '\n' {
        lemma_nl_index_props(s.drop_first());
        assert forall|j: int| 0 <= j < nl_index(s) implies s[j] != '\n' by {
            if j > 0 {
                assert(s[j] == s.drop_first()[j - 1]);
            }
        }
    }
}

/// The range of the text to prepend to a block's output lines.
pub fn output_prefix_range(chars: &[char], ps_s: usize, pe_s: usize) -> (res: (usize, usize))
    requires
        ps_s <= pe_s <= chars@.len(),
    ensures
        res.0 <= res.1 <= chars@.len(),
        chars@.subrange(res.0 as int, res.1 as int) == output_prefix(chars@, ps_s as int, pe_s as int),
{
    let ghost text = chars@;
    let l0 = line_start(chars, ps_s);
    let k = leading_ws_count(&chars[l0..ps_s]);
    proof {
        assert(text.subrange(l0 as int, l0 + k) =~= leading_ws_of(text.subrange(l0 as int, ps_s as int)));
    }
    if !has_newline(chars, ps_s, pe_s) {
        return (l0, l0 + k);
    }
    let le = line_start(chars, pe_s);
    let k2 = leading_ws_count(&chars[le..pe_s]);
    proof {
        assert(text.subrange(le as int, le + k2) =~= leading_ws_of(text.subrange(le as int, pe_s as int)));
    }
    let mut two: Vec<Vec<char>> = Vec::new();
    two.push(vstd::slice::slice_to_vec(&chars[l0..l0 + k]));
    two.push(vstd::slice::slice_to_vec(&chars[le..le + k2]));
    let d = common_prefix_count_of(two.as_slice());
    proof {
        let sw = leading_ws_of(text.subrange(l0 as int, ps_s as int));
        let ew = leading_ws_of(text.subrange(le as int, pe_s as int));
        assert(char_views(two@) =~= seq![sw, ew]);
        lemma_lcp_unique(seq![sw, ew], d as int);
        assert(text.subrange(l0 as int, l0 + d) =~= sw.take(d as int));
    }
    (l0, l0 + d)
}

/// The range of the text between a block's program end and output end
/// markers, less one newline at its start and one at its end.
pub fn previous_output_range(chars: &[char], pe_e: usize, oe_s: usize) -> (res: (usize, usize))
    requires
        pe_e <= oe_s <= chars@.len(),
    ensures
        pe_e <= res.0 <= res.1 <= oe_s,
        chars@.subrange(res.0 as int, res.1 as int) == previous_output(chars@, pe_e as int, oe_s as int),
{
    let a = if pe_e < oe_s && chars[pe_e] == '\n' { pe_e + 1 } else { pe_e };
    proof {
        assert(chars@.subrange(a as int, oe_s as int) =~= (if pe_e < oe_s && chars@[pe_e as int] == '\n' {
            chars@.subrange(pe_e as int, oe_s as int).drop_first()
        } else {
            chars@.subrange(pe_e as int, oe_s as int)
        }));
    }
    if a < oe_s && chars[oe_s - 1] == '\n' {
        proof {
            assert(chars@.subrange(a as int, oe_s - 1) =~= chars@.subrange(a as int, oe_s as int).drop_last());
        }
        (a, oe_s - 1)
    } else {
        (a, oe_s)
    }
}

} // verus!
