//! A writer that applies a transformation to each `\n`-terminated line written
//! to it before passing the line on.
//!
//! The strings handed to the transformation *include* any trailing newline; if
//! such newline is missing, it is the last write before the end.
//!
//! If the bytes of a line are not valid UTF-8, the result is an
//! `InvalidUtf8` error.
use vstd::prelude::*;

use vstd::utf8::{decode_utf8, encode_utf8, valid_utf8};

use crate::text::{push_decimal, push_str};

verus! {

/// Where the transformed lines go: a sink of text, modelled by all it has been
/// given and by the part of that which it has flushed.
pub trait LineSink {
    type Error;

    /// All the text the sink has been given.
    spec fn written(&self) -> Seq<char>;

    /// The text the sink has flushed.
    spec fn flushed(&self) -> Seq<char>;

    /// Writes the whole of `s`; on success the sink has been given `s` after
    /// what it had before.
    fn write_all_str(&mut self, s: &str) -> (res: Result<(), Self::Error>)
        ensures
            res is Ok ==> final(self).written() == old(self).written() + s@,
    ;

    /// Flushes what was written; it gives the sink no text, and on success
    /// all it was given is flushed.
    fn flush_sink(&mut self) -> (res: Result<(), Self::Error>)
        ensures
            final(self).written() == old(self).written(),
            res is Ok ==> final(self).flushed() == final(self).written(),
    ;
}

/// A string is a sink that keeps all it is given; writing to it never fails,
/// and there is nothing to flush.
impl LineSink for String {
    type Error = core::convert::Infallible;

    open spec fn written(&self) -> Seq<char> {
        self@
    }

    open spec fn flushed(&self) -> Seq<char> {
        self@
    }

    fn write_all_str(&mut self, s: &str) -> (res: Result<(), Self::Error>) {
        push_str(self, s);
        Ok(())
    }

    fn flush_sink(&mut self) -> (res: Result<(), Self::Error>) {
        Ok(())
    }
}

/// Why a line could not be written.
#[derive(Debug)]
pub enum LineWriteError<E> {
    /// Bytes of an unfinished line are held back, so a whole line cannot be
    /// written directly (an invalid input)
    PartialLinePending,
    /// The line has a newline before its end, at this byte offset (invalid data)
    InteriorNewline(usize),
    /// The bytes of a line are not UTF-8 (invalid data); the decoder's message
    InvalidUtf8(String),
    /// The sink failed
    Sink(E),
}

impl<E> LineWriteError<E> {
    /// The message of an error that is not the sink's own.
    pub fn message(&self) -> (res: Option<String>)
        ensures
            self is PartialLinePending ==> (res matches Some(m) && m@ == "non-empty `partial_line` state!"@),
            self is InteriorNewline ==> (res matches Some(m) && m@ == "Interior newline found at "@
                + crate::text::decimal(self->InteriorNewline_0 as nat) + "!"@),
            self is InvalidUtf8 ==> (res matches Some(m) && m@ == self->InvalidUtf8_0@),
            self is Sink ==> res is None,
    {
        match self {
            LineWriteError::PartialLinePending => Some("non-empty `partial_line` state!".to_owned()),
            LineWriteError::InteriorNewline(nl) => {
                let mut m = "Interior newline found at ".to_owned();
                push_decimal(&mut m, *nl);
                push_str(&mut m, "!");
                Some(m)
            },
            LineWriteError::InvalidUtf8(msg) => Some(msg.clone()),
            LineWriteError::Sink(_) => None,
        }
    }
}

/// Wraps a sink, and applies `line_transform` to each line before it goes there.
pub struct LineTransformWriter<W, F> {
    pub inner: W,
    pub line_transform: F,
    partial_line: Vec<u8>,
}

/// One past the position of the first newline of `s`, or 0 if it has none.
pub open spec fn first_nl_end(s: Seq<u8>) -> int
    decreases s.len(),
{
    if s.len() == 0 {
        0
    } else if s[0] == 10 {
        1
    } else if first_nl_end(s.drop_first()) == 0 {
        0
    } else {
        1 + first_nl_end(s.drop_first())
    }
}

/// One past the position of the last newline of `s`, or 0 if it has none.
pub open spec fn last_nl_end(s: Seq<u8>) -> int
    decreases s.len(),
{
    if s.len() == 0 {
        0
    } else if s.last() == 10 {
        s.len() as int
    } else {
        last_nl_end(s.drop_last())
    }
}

/// What is held back after `buf` is written with `partial` held back: the
/// bytes after the last newline of `buf`, or everything if it has none.
pub open spec fn held_after(partial: Seq<u8>, buf: Seq<u8>) -> Seq<u8> {
    if last_nl_end(buf) == 0 {
        partial + buf
    } else {
        buf.skip(last_nl_end(buf))
    }
}

proof fn lemma_first_nl_end(s: Seq<u8>)
    ensures
        0 <= first_nl_end(s) <= s.len(),
        first_nl_end(s) > 0 ==> s[first_nl_end(s) - 1] == 10,
        forall|j: int| 0 <= j < (if first_nl_end(s) == 0 { s.len() as int } else { first_nl_end(s) - 1 }) ==> s[j] != 10,
    decreases s.len(),
{
    if s.len() > 0 && s[0] != 10 {
        let t = s.drop_first();
        lemma_first_nl_end(t);
        assert forall|j: int| 0 <= j < (if first_nl_end(s) == 0 { s.len() as int } else { first_nl_end(s) - 1 }) implies s[j] != 10 by {
            if j > 0 {
                assert(s[j] == t[j - 1]);
            }
        }
    }
}

proof fn lemma_last_nl_end_bounds(s: Seq<u8>)
    ensures
        0 <= last_nl_end(s) <= s.len(),
        last_nl_end(s) > 0 ==> s[last_nl_end(s) - 1] == 10,
    decreases s.len(),
{
    if s.len() > 0 && s.last() != 10 {
        lemma_last_nl_end_bounds(s.drop_last());
    }
}

/// Extending by bytes without a newline keeps the last newline.
proof fn lemma_last_nl_end_extend(s: Seq<u8>, a: int, b: int)
    requires
        0 <= a <= b <= s.len(),
        forall|j: int| a <= j < b ==> s[j] != 10,
    ensures
        last_nl_end(s.take(b)) == last_nl_end(s.take(a)),
    decreases b - a,
{
    if b > a {
        assert(s.take(b).drop_last() =~= s.take(b - 1));
        lemma_last_nl_end_extend(s, a, b - 1);
    }
}

proof fn lemma_last_nl_end_concat(a: Seq<u8>, b: Seq<u8>)
    ensures
        last_nl_end(a + b) == (if last_nl_end(b) > 0 {
            a.len() + last_nl_end(b)
        } else {
            last_nl_end(a)
        }),
    decreases b.len(),
{
    if b.len() == 0 {
        assert(a + b =~= a);
    } else {
        assert((a + b).drop_last() =~= a + b.drop_last());
        assert((a + b).last() == b.last());
        lemma_last_nl_end_concat(a, b.drop_last());
    }
}

/// Whether `s` has a newline before its last byte.
pub open spec fn has_interior_newline(s: Seq<u8>) -> bool {
    0 < first_nl_end(s) < s.len()
}

/// The lines that writing `buf` completes while `partial` is held back, in
/// order: each ends with its newline, and the first begins with the bytes
/// held back.
pub open spec fn lines_of(partial: Seq<u8>, buf: Seq<u8>) -> Seq<Seq<u8>>
    decreases buf.len(),
{
    let e = first_nl_end(buf);
    if e <= 0 || e > buf.len() {
        Seq::empty()
    } else {
        seq![partial + buf.take(e)] + lines_of(Seq::empty(), buf.skip(e))
    }
}

/// The texts one after the other.
pub open spec fn concat_all(texts: Seq<Seq<char>>) -> Seq<char>
    decreases texts.len(),
{
    if texts.len() == 0 {
        Seq::empty()
    } else {
        concat_all(texts.drop_last()) + texts.last()
    }
}

/// `out` is a text that `f` can give back for the text that the bytes of
/// `line` decode to.
pub open spec fn transformed_line<F: Fn(String) -> String>(f: F, line: Seq<u8>, out: Seq<char>) -> bool {
    exists|a: String, b: String| a@ == decode_utf8(line) && b@ == out && call_ensures(f, (a,), b)
}

/// `outs` are, line by line, what `f` gave back for `lines`.
pub open spec fn transformed_lines<F: Fn(String) -> String>(f: F, lines: Seq<Seq<u8>>, outs: Seq<Seq<char>>) -> bool {
    &&& outs.len() == lines.len()
    &&& forall|i: int| 0 <= i < lines.len() ==> #[trigger] transformed_line(f, lines[i], outs[i])
}

proof fn lemma_first_nl_end_at(s: Seq<u8>, k: int)
    requires
        0 <= k < s.len(),
        s[k] == 10,
        forall|j: int| 0 <= j < k ==> s[j] != 10,
    ensures
        first_nl_end(s) == k + 1,
{
    lemma_first_nl_end(s);
    if first_nl_end(s) == 0 {
        assert(s[k] != 10);
    } else if first_nl_end(s) - 1 < k {
        assert(s[first_nl_end(s) - 1] != 10);
    } else if first_nl_end(s) - 1 > k {
        assert(s[k] != 10);
    }
}

proof fn lemma_first_nl_end_none(s: Seq<u8>)
    requires
        forall|j: int| 0 <= j < s.len() ==> s[j] != 10,
    ensures
        first_nl_end(s) == 0,
{
    lemma_first_nl_end(s);
    if first_nl_end(s) > 0 {
        assert(s[first_nl_end(s) - 1] != 10);
    }
}

/// Writing bytes in two pieces holds back the same bytes as writing them at
/// once.
pub proof fn lemma_write_split(partial: Seq<u8>, a: Seq<u8>, b: Seq<u8>)
    ensures
        held_after(held_after(partial, a), b) == held_after(partial, a + b),
{
    lemma_last_nl_end_concat(a, b);
    lemma_last_nl_end_bounds(a);
    lemma_last_nl_end_bounds(b);
    if last_nl_end(b) > 0 {
        assert((a + b).skip(a.len() + last_nl_end(b)) =~= b.skip(last_nl_end(b)));
    } else if last_nl_end(a) > 0 {
        assert((a + b).skip(last_nl_end(a)) =~= a.skip(last_nl_end(a)) + b);
    } else {
        assert(partial + a + b =~= partial + (a + b));
    }
}

proof fn lemma_first_nl_end_concat(a: Seq<u8>, b: Seq<u8>)
    ensures
        first_nl_end(a + b) == (if first_nl_end(a) > 0 {
            first_nl_end(a)
        } else if first_nl_end(b) > 0 {
            a.len() + first_nl_end(b)
        } else {
            0
        }),
    decreases a.len(),
{
    lemma_first_nl_end(b);
    if a.len() == 0 {
        assert(a + b =~= b);
    } else {
        let d = a.drop_first();
        assert((a + b).drop_first() =~= d + b);
        assert((a + b)[0] == a[0]);
        lemma_first_nl_end(d);
        lemma_first_nl_end_concat(d, b);
        if a[0] == 10 {
            assert(first_nl_end(a + b) == 1);
            assert(first_nl_end(a) == 1);
        } else if first_nl_end(d) > 0 {
            assert(first_nl_end(d + b) == first_nl_end(d));
            assert(first_nl_end(a + b) == 1 + first_nl_end(d));
            assert(first_nl_end(a) == 1 + first_nl_end(d));
        } else if first_nl_end(b) > 0 {
            assert(first_nl_end(d + b) == d.len() + first_nl_end(b));
            assert(first_nl_end(a + b) == 1 + first_nl_end(d + b));
            assert(first_nl_end(a) == 0);
        } else {
            assert(first_nl_end(d + b) == 0);
            assert(first_nl_end(a + b) == 0);
            assert(first_nl_end(a) == 0);
        }
    }
}

/// Writing bytes in two pieces completes the same lines, in the same order,
/// as writing them at once.
pub proof fn lemma_lines_split(partial: Seq<u8>, a: Seq<u8>, b: Seq<u8>)
    ensures
        lines_of(partial, a + b) == lines_of(partial, a) + lines_of(held_after(partial, a), b),
    decreases a.len(),
{
    lemma_first_nl_end(a);
    lemma_first_nl_end(b);
    lemma_first_nl_end_concat(a, b);
    let e = first_nl_end(a);
    if e == 0 {
        assert(last_nl_end(a) == 0) by {
            lemma_last_nl_end_bounds(a);
            if last_nl_end(a) > 0 {
                assert(a[last_nl_end(a) - 1] != 10);
            }
        }
        let fb = first_nl_end(b);
        if fb > 0 {
            assert((a + b).take(a.len() + fb) =~= a + b.take(fb));
            assert((a + b).skip(a.len() + fb) =~= b.skip(fb));
            assert(partial + (a + b).take(a.len() + fb) =~= (partial + a) + b.take(fb));
        }
        assert(lines_of(partial, a) =~= Seq::<Seq<u8>>::empty());
        assert(lines_of(partial, a + b) =~= lines_of(partial, a) + lines_of(held_after(partial, a), b));
    } else {
        let t = a.skip(e);
        assert((a + b).take(e) =~= a.take(e));
        assert((a + b).skip(e) =~= t + b);
        lemma_lines_split(Seq::<u8>::empty(), t, b);
        assert(held_after(Seq::<u8>::empty(), t) == held_after(partial, a)) by {
            assert(a =~= a.take(e) + t);
            lemma_last_nl_end_concat(a.take(e), t);
            assert(a.take(e).last() == 10);
            assert(last_nl_end(a.take(e)) == e);
            lemma_last_nl_end_bounds(t);
            if last_nl_end(t) > 0 {
                assert(a.skip(e + last_nl_end(t)) =~= t.skip(last_nl_end(t)));
            } else {
                assert(Seq::<u8>::empty() + t =~= t);
            }
        }
        assert(lines_of(partial, a + b) =~= lines_of(partial, a) + lines_of(held_after(partial, a), b));
    }
}

proof fn lemma_concat_all_append(x: Seq<Seq<char>>, y: Seq<Seq<char>>)
    ensures
        concat_all(x + y) == concat_all(x) + concat_all(y),
    decreases y.len(),
{
    if y.len() == 0 {
        assert(x + y =~= x);
        assert(concat_all(x) + Seq::<char>::empty() =~= concat_all(x));
    } else {
        assert((x + y).drop_last() =~= x + y.drop_last());
        assert((x + y).last() == y.last());
        lemma_concat_all_append(x, y.drop_last());
        assert(concat_all(x) + concat_all(y.drop_last()) + y.last() =~= concat_all(x) + (concat_all(y.drop_last())
            + y.last()));
    }
}

/// What writing bytes in two pieces hands the sink, the transform's outputs
/// for the lines of the first piece and then for those of the second, is
/// what writing them at once hands it.
pub proof fn lemma_written_split<F: Fn(String) -> String>(
    f: F,
    partial: Seq<u8>,
    a: Seq<u8>,
    b: Seq<u8>,
    outs_a: Seq<Seq<char>>,
    outs_b: Seq<Seq<char>>,
)
    requires
        transformed_lines(f, lines_of(partial, a), outs_a),
        transformed_lines(f, lines_of(held_after(partial, a), b), outs_b),
    ensures
        transformed_lines(f, lines_of(partial, a + b), outs_a + outs_b),
        concat_all(outs_a + outs_b) == concat_all(outs_a) + concat_all(outs_b),
{
    lemma_lines_split(partial, a, b);
    lemma_concat_all_append(outs_a, outs_b);
    let la = lines_of(partial, a);
    let lb = lines_of(held_after(partial, a), b);
    assert forall|i: int| 0 <= i < (la + lb).len() implies #[trigger] transformed_line(f, (la + lb)[i], (outs_a + outs_b)[i]) by {
        if i < la.len() {
            assert(transformed_line(f, la[i], outs_a[i]));
        } else {
            assert(transformed_line(f, lb[i - la.len()], outs_b[i - la.len()]));
        }
    }
}

/// Calls `String::from_utf8`, which gives back the string whose bytes are
/// `bytes` if they are valid UTF-8, and an error otherwise. The error's
/// message (its `Display`) is not stated.
#[verifier::external_body]
fn string_from_utf8(bytes: Vec<u8>) -> (res: Result<String, String>)
    ensures
        res is Ok <==> valid_utf8(bytes@),
        res matches Ok(s) ==> s@ == decode_utf8(bytes@),
{
    String::from_utf8(bytes).map_err(|e| format!("{e}"))
}

impl<W, F> LineTransformWriter<W, F> {
    /// The bytes of the unfinished line held back.
    pub closed spec fn partial(&self) -> Seq<u8> {
        self.partial_line@
    }

    /// The sink the lines go to.
    pub closed spec fn sink(&self) -> W {
        self.inner
    }

    /// The transformation applied to each line.
    pub closed spec fn transform(&self) -> F {
        self.line_transform
    }

    /// Wraps `inner`, with no line held back.
    pub fn new(inner: W, line_transform: F) -> (res: Self)
        ensures
            res.sink() == inner,
            res.transform() == line_transform,
            res.partial() == Seq::<u8>::empty(),
    {
        LineTransformWriter { inner, line_transform, partial_line: Vec::new() }
    }
}

impl<W: LineSink, F: Fn(String) -> String> LineTransformWriter<W, F> {
    /// Transforms the given line and then writes it to `inner`. The line must
    /// not have any interior newline (`\n`), but may end with one, and no
    /// unfinished line may be held back (which only happens when bytes were
    /// written with `write_bytes`). Errors come in that order of checks; when
    /// one of the checks fails the line and the sink are left as they were.
    /// Otherwise the line becomes what the transform gave back for it, and that
    /// is what the sink is given.
    pub fn write_line_transformed(&mut self, line: &mut String) -> (res: Result<(), LineWriteError<W::Error>>)
        requires
            forall|x: String| call_requires(old(self).transform(), (x,)),
        ensures
            final(self).transform() == old(self).transform(),
            final(self).partial() == old(self).partial(),
            res matches Err(LineWriteError::PartialLinePending) <==> old(self).partial().len() > 0,
            res matches Err(LineWriteError::InteriorNewline(_)) <==> (old(self).partial().len() == 0
                && has_interior_newline(encode_utf8(old(line)@))),
            res matches Err(LineWriteError::InteriorNewline(nl)) ==> nl == first_nl_end(encode_utf8(old(line)@)) - 1,
            !(res matches Err(LineWriteError::InvalidUtf8(_))),
            (old(self).partial().len() > 0 || has_interior_newline(encode_utf8(old(line)@))) ==> (*final(line)
                == *old(line) && final(self).sink() == old(self).sink()),
            (old(self).partial().len() == 0 && !has_interior_newline(encode_utf8(old(line)@))) ==> {
                &&& call_ensures(old(self).transform(), (*old(line),), *final(line))
                &&& (res is Ok) || (res matches Err(LineWriteError::Sink(_)))
                &&& res is Ok ==> final(self).sink().written() == old(self).sink().written() + final(line)@
            },
    {
        if self.partial_line.len() > 0 {
            return Err(LineWriteError::PartialLinePending);
        }
        let bytes = line.as_str().as_bytes();
        let ghost b = bytes@;
        proof {
            lemma_first_nl_end(b);
        }
        let mut i: usize = 0;
        while i < bytes.len() && bytes[i] != 10u8
            invariant
                i <= b.len(),
                bytes@ == b,
                forall|j: int| 0 <= j < i ==> b[j] != 10,
            decreases b.len() - i,
        {
            i += 1;
        }
        proof {
            if i < b.len() {
                lemma_first_nl_end_at(b, i as int);
            } else {
                lemma_first_nl_end_none(b);
            }
        }
        if i < bytes.len() && i + 1 < bytes.len() {
            return Err(LineWriteError::InteriorNewline(i));
        }
        let mut taken = String::new();
        core::mem::swap(&mut taken, line);
        proof {
            assert(self.transform() == self.line_transform);
            assert(call_requires(self.transform(), (taken,)));
        }
        *line = (self.line_transform)(taken);
        match self.inner.write_all_str(line.as_str()) {
            Ok(()) => Ok(()),
            Err(e) => Err(LineWriteError::Sink(e)),
        }
    }

    /// Takes the bytes held back and writes them as one line.
    pub fn flush_partial_line(&mut self) -> (res: Result<(), LineWriteError<W::Error>>)
        requires
            forall|x: String| call_requires(old(self).transform(), (x,)),
        ensures
            final(self).transform() == old(self).transform(),
            final(self).partial() == Seq::<u8>::empty(),
            res matches Err(LineWriteError::InvalidUtf8(_)) <==> !valid_utf8(old(self).partial()),
            res matches Err(LineWriteError::InteriorNewline(_)) <==> (valid_utf8(old(self).partial())
                && has_interior_newline(old(self).partial())),
            !(res matches Err(LineWriteError::PartialLinePending)),
            (!valid_utf8(old(self).partial()) || has_interior_newline(old(self).partial())) ==> final(self).sink()
                == old(self).sink(),
            (valid_utf8(old(self).partial()) && !has_interior_newline(old(self).partial())) ==> ((res is Ok) || (res matches Err(
                LineWriteError::Sink(_),
            ))),
            res is Ok ==> exists|out: Seq<char>|
                transformed_line(old(self).transform(), old(self).partial(), out) && final(self).sink().written()
                    == old(self).sink().written() + out,
    {
        let ghost p = self.partial_line@;
        let bytes = self.partial_line.split_off(0);
        proof {
            assert(bytes@ =~= p);
            assert(self.partial_line@ =~= Seq::<u8>::empty());
            assert(self.transform() == old(self).transform());
            assert forall|x: String| call_requires(self.transform(), (x,)) by {
                assert(call_requires(old(self).transform(), (x,)));
            }
        }
        match string_from_utf8(bytes) {
            Err(msg) => Err(LineWriteError::InvalidUtf8(msg)),
            Ok(line) => {
                let mut line = line;
                let ghost a = line;
                proof {
                    vstd::utf8::decode_utf8_encode_utf8(p);
                    assert(encode_utf8(line@) == p);
                }
                let res = self.write_line_transformed(&mut line);
                proof {
                    if res is Ok {
                        assert(!has_interior_newline(encode_utf8(a@)));
                        assert(call_ensures(old(self).transform(), (a,), line));
                        assert(transformed_line(old(self).transform(), p, line@));
                        assert(self.sink().written() == old(self).sink().written() + line@);
                    }
                }
                res
            },
        }
    }

    /// Writes the bytes held back, if there are any, as a last line, then
    /// flushes the sink. With nothing held back no line is written.
    pub fn flush(&mut self) -> (res: Result<(), LineWriteError<W::Error>>)
        requires
            forall|x: String| call_requires(old(self).transform(), (x,)),
        ensures
            final(self).transform() == old(self).transform(),
            final(self).partial() == Seq::<u8>::empty(),
            res matches Err(LineWriteError::InvalidUtf8(_)) <==> !valid_utf8(old(self).partial()),
            res matches Err(LineWriteError::InteriorNewline(_)) <==> (valid_utf8(old(self).partial())
                && has_interior_newline(old(self).partial())),
            !(res matches Err(LineWriteError::PartialLinePending)),
            (valid_utf8(old(self).partial()) && !has_interior_newline(old(self).partial())) ==> ((res is Ok) || (res matches Err(
                LineWriteError::Sink(_),
            ))),
            old(self).partial().len() > 0 && res is Ok ==> exists|out: Seq<char>|
                transformed_line(old(self).transform(), old(self).partial(), out) && final(self).sink().written()
                    == old(self).sink().written() + out,
            old(self).partial().len() == 0 ==> final(self).sink().written() == old(self).sink().written(),
            res is Ok ==> final(self).sink().flushed() == final(self).sink().written(),
    {
        if self.partial_line.len() > 0 {
            match self.flush_partial_line() {
                Ok(()) => {},
                Err(e) => {
                    return Err(e);
                },
            }
        } else {
            proof {
                assert(old(self).partial() =~= Seq::<u8>::empty());
                assert(valid_utf8(Seq::<u8>::empty()));
                assert(first_nl_end(Seq::<u8>::empty()) == 0);
            }
        }
        let ghost out = choose|out: Seq<char>|
            transformed_line(old(self).transform(), old(self).partial(), out) && self.sink().written()
                == old(self).sink().written() + out;
        match self.inner.flush_sink() {
            Ok(()) => {
                proof {
                    if old(self).partial().len() > 0 {
                        assert(transformed_line(old(self).transform(), old(self).partial(), out));
                    }
                }
                Ok(())
            },
            Err(e) => Err(LineWriteError::Sink(e)),
        }
    }

    /// Writes bytes: each line that the bytes held back and `buf` complete is
    /// transformed and written, in order, and the bytes after the last newline
    /// are held back. On success all of `buf` is accepted, and the count is its
    /// length; nothing is held back after an error.
    #[verifier::rlimit(40)]
    pub fn write_bytes(&mut self, buf: &[u8]) -> (res: Result<usize, LineWriteError<W::Error>>)
        requires
            forall|x: String| call_requires(old(self).transform(), (x,)),
            old(self).partial().len() + buf@.len() <= usize::MAX,
        ensures
            final(self).transform() == old(self).transform(),
            lines_of(old(self).partial(), buf@).len() == 0 ==> res is Ok,
            res matches Ok(n) ==> {
                &&& n == buf@.len()
                &&& final(self).partial() == held_after(old(self).partial(), buf@)
                &&& forall|i: int| 0 <= i < lines_of(old(self).partial(), buf@).len() ==> valid_utf8(
                    #[trigger] lines_of(old(self).partial(), buf@)[i],
                )
                &&& exists|outs: Seq<Seq<char>>|
                    transformed_lines(old(self).transform(), lines_of(old(self).partial(), buf@), outs)
                        && final(self).sink().written() == old(self).sink().written() + concat_all(outs)
            },
            res is Err ==> final(self).partial() == Seq::<u8>::empty(),
            !(res matches Err(LineWriteError::PartialLinePending)),
            res matches Err(LineWriteError::InvalidUtf8(_)) ==> exists|k: int|
                0 <= k < lines_of(old(self).partial(), buf@).len() && !valid_utf8(
                    #[trigger] lines_of(old(self).partial(), buf@)[k],
                ),
            res matches Err(LineWriteError::InteriorNewline(_)) ==> old(self).partial().contains(10u8),
    {
        let ghost p0 = self.partial();
        let ghost f0 = self.transform();
        let ghost w0 = self.sink().written();
        let ghost b = buf@;
        let ghost all = lines_of(p0, b);
        let ghost mut done: Seq<Seq<u8>> = Seq::empty();
        let ghost mut outs: Seq<Seq<char>> = Seq::empty();
        let mut start: usize = 0;
        proof {
            assert(b.take(0) =~= Seq::<u8>::empty());
            assert(p0 + Seq::<u8>::empty() =~= p0);
            assert(b.skip(0) =~= b);
            assert(done + all =~= all);
        }
        while start < buf.len()
            invariant
                start <= b.len(),
                buf@ == b,
                self.transform() == f0,
                f0 == old(self).transform(),
                p0 == old(self).partial(),
                w0 == old(self).sink().written(),
                all == lines_of(p0, b),
                p0.len() + b.len() <= usize::MAX,
                forall|x: String| call_requires(f0, (x,)),
                self.partial() == held_after(p0, b.take(start as int)),
                start < b.len() ==> self.partial() == (if start == 0 { p0 } else { Seq::<u8>::empty() }),
                all == done + lines_of(if start == 0 { p0 } else { Seq::<u8>::empty() }, b.skip(start as int)),
                transformed_lines(f0, done, outs),
                forall|i: int| 0 <= i < done.len() ==> valid_utf8(#[trigger] done[i]),
                self.sink().written() == w0 + concat_all(outs),
            decreases b.len() - start,
        {
            let ghost cur: Seq<u8> = if start == 0 { p0 } else { Seq::<u8>::empty() };
            let mut end = start;
            while end < buf.len() && buf[end] != 10u8
                invariant
                    start <= end <= b.len(),
                    buf@ == b,
                    forall|j: int| start <= j < end ==> b[j] != 10,
                decreases b.len() - end,
            {
                end += 1;
            }
            let ghost rest = b.skip(start as int);
            proof {
                if end < b.len() {
                    lemma_first_nl_end_at(rest, end - start);
                    assert(rest.take(end - start + 1) =~= b.subrange(start as int, end + 1));
                    assert(rest.skip(end - start + 1) =~= b.skip(end + 1));
                } else {
                    lemma_first_nl_end_none(rest);
                    assert(b.skip(end as int) =~= Seq::<u8>::empty());
                }
            }
            if end < buf.len() {
                end += 1;
            }
            proof {
                lemma_last_nl_end_bounds(b.take(start as int));
                if end > start && b[end - 1] == 10 {
                    lemma_last_nl_end_extend(b, start as int, end - 1);
                    assert(b.take(end as int).last() == 10);
                } else {
                    lemma_last_nl_end_extend(b, start as int, end as int);
                }
            }
            self.partial_line.extend_from_slice(&buf[start..end]);
            proof {
                assert(buf@.subrange(start as int, end as int) == b.subrange(start as int, end as int));
                if last_nl_end(b.take(start as int)) == 0 {
                    assert(p0 + b.take(end as int) =~= p0 + b.take(start as int) + b.subrange(start as int, end as int));
                } else {
                    assert(b.take(end as int).skip(last_nl_end(b.take(start as int))) =~= b.take(start as int).skip(
                        last_nl_end(b.take(start as int)),
                    ) + b.subrange(start as int, end as int));
                }
                assert(self.partial() == cur + b.subrange(start as int, end as int));
            }
            let len = self.partial_line.len();
            if len > 0 && self.partial_line[len - 1] == 10u8 {
                let ghost line = self.partial();
                proof {
                    assert(b.take(end as int).skip(end as int) =~= Seq::<u8>::empty());
                    assert(end < b.len() || b[end - 1] == 10);
                    assert(all == done.push(line) + lines_of(Seq::<u8>::empty(), b.skip(end as int))) by {
                        assert(done.push(line) + lines_of(Seq::<u8>::empty(), b.skip(end as int)) =~= done + (seq![line]
                            + lines_of(Seq::<u8>::empty(), b.skip(end as int))));
                    }
                }
                let ghost sink_before = self.sink().written();
                match self.flush_partial_line() {
                    Ok(()) => {
                        proof {
                            let out = choose|out: Seq<char>|
                                transformed_line(f0, line, out) && self.sink().written() == sink_before + out;
                            let outs2 = outs.push(out);
                            assert(outs2.drop_last() =~= outs);
                            assert(transformed_lines(f0, done.push(line), outs2)) by {
                                assert forall|i: int| 0 <= i < done.push(line).len() implies #[trigger] transformed_line(
                                    f0,
                                    done.push(line)[i],
                                    outs2[i],
                                ) by {
                                    if i < done.len() {
                                        assert(transformed_line(f0, done[i], outs[i]));
                                    }
                                }
                            }
                            assert(self.sink().written() =~= w0 + concat_all(outs2));
                            done = done.push(line);
                            outs = outs2;
                        }
                    },
                    Err(e) => {
                        proof {
                            assert(all[done.len() as int] == line);
                            if has_interior_newline(line) {
                                lemma_first_nl_end(line);
                                let k = first_nl_end(line) - 1;
                                assert(line[k] == 10);
                                if start == 0 && k < p0.len() {
                                    assert(p0[k] == 10);
                                } else if start == 0 {
                                    assert(line[k] == b[k - p0.len()]);
                                } else {
                                    assert(line[k] == b[start + k]);
                                }
                            }
                        }
                        return Err(e);
                    },
                }
            } else {
                proof {
                    assert(end == b.len());
                    assert(all == done + Seq::<Seq<u8>>::empty());
                }
            }
            start = end;
        }
        proof {
            assert(b.take(b.len() as int) =~= b);
            assert(b.skip(b.len() as int) =~= Seq::<u8>::empty());
            assert(all =~= done);
        }
        Ok(buf.len())
    }
}

} // verus!
