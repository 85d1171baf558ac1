//! Command-line arguments: sources, destinations and marker definitions.
pub mod files;
pub mod io;
pub mod marker_defs;
pub mod options;
pub mod path_or_stdin;

use vstd::prelude::*;

use crate::parse::scan::{marker_views, markers_wf};
use crate::text::{chars_of, is_ascii_ws, push_str, split_words, words};

verus! {

/// A "path" to read or write from (where `-` means stdin or stdout)
#[derive(Debug, Clone, PartialEq, Eq)]
pub enum Pipe {
    File(String),
    Stream,
}

/// Whether a pipe is read from or written to.
#[derive(Debug, Clone, Copy, PartialEq, Eq, Structural)]
pub enum PipeDir {
    Read,
    Write,
}

/// A pipe together with the direction in which it is used.
#[derive(Debug)]
pub struct PipeWithDir<'a>(pub &'a Pipe, pub PipeDir);

/// The text `<stdin>`.
pub open spec fn stdin_label() -> Seq<char> {
    seq!['<', 's', 't', 'd', 'i', 'n', '>']
}

/// The text `<stdout>`.
pub open spec fn stdout_label() -> Seq<char> {
    seq!['<', 's', 't', 'd', 'o', 'u', 't', '>']
}

/// The name under which a pipe is shown: a path that reads like a stream's
/// label gets `./` in front of it.
pub open spec fn pipe_display(p: Pipe, dir: PipeDir) -> Seq<char> {
    match p {
        Pipe::File(path) => if path@ == stdin_label() || path@ == stdout_label() {
            seq!['.', '/'] + path@
        } else {
            path@
        },
        Pipe::Stream => match dir {
            PipeDir::Read => stdin_label(),
            PipeDir::Write => stdout_label(),
        },
    }
}

/// The path `-` stands for a stream.
pub open spec fn is_dash(s: Seq<char>) -> bool {
    s == seq!['-']
}

/// Whether a string slice is `-`.
pub fn str_is_dash(s: &str) -> (b: bool)
    ensures
        b == is_dash(s@),
{
    let cs = chars_of(s);
    let b = cs.len() == 1 && cs[0] == '-';
    proof {
        if b {
            assert(cs@ =~= seq!['-']);
        }
    }
    b
}

/// Whether a string holds exactly the characters `word`.
pub fn string_is(s: &String, word: &[char]) -> (b: bool)
    ensures
        b == (s@ == word@),
{
    let cs = chars_of(s.as_str());
    crate::parse::checksum::chars_equal(cs.as_slice(), word)
}

impl Pipe {
    /// This pipe, used in direction `dir`.
    pub fn with_dir(&self, dir: PipeDir) -> (res: PipeWithDir<'_>)
        ensures
            res.0 == self,
            res.1 == dir,
    {
        PipeWithDir(self, dir)
    }

    /// The pipe an argument names: `-` is the stream, anything else a file.
    pub fn from_arg(s: &str) -> (res: Pipe)
        ensures
            is_dash(s@) ==> res == Pipe::Stream,
            !is_dash(s@) ==> (res matches Pipe::File(p) && p@ == s@),
    {
        if str_is_dash(s) {
            Pipe::Stream
        } else {
            let mut p = String::new();
            push_str(&mut p, s);
            Pipe::File(p)
        }
    }
}

impl<'a> PipeWithDir<'a> {
    /// The name under which the pipe is shown.
    pub fn to_string(&self) -> (res: String)
        ensures
            res@ == pipe_display(*self.0, self.1),
    {
        match self.0 {
            Pipe::File(path) => {
                let mut out = String::new();
                if string_is(path, &['<', 's', 't', 'd', 'i', 'n', '>']) || string_is(
                    path,
                    &['<', 's', 't', 'd', 'o', 'u', 't', '>'],
                ) {
                    push_str(&mut out, "./");
                    proof {
                        reveal_strlit("./");
                    }
                }
                push_str(&mut out, path.as_str());
                out
            },
            Pipe::Stream => {
                let mut out = String::new();
                match self.1 {
                    PipeDir::Read => {
                        push_str(&mut out, "<stdin>");
                        proof {
                            reveal_strlit("<stdin>");
                        }
                    },
                    PipeDir::Write => {
                        push_str(&mut out, "<stdout>");
                        proof {
                            reveal_strlit("<stdout>");
                        }
                    },
                }
                out
            },
        }
    }
}

/// Enum to restrict combinations of source/dest args. (Output destination can only be
/// specified if there is exactly one source arg.)
#[derive(Debug)]
pub enum SourceAndDestArgs {
    /// Process any number of files in-place
    SourcesInPlace(Vec<Pipe>),
    /// Process exactly one input (stdin or file) to one output (stdout or file)
    SingleSourceAndDest(Pipe, Pipe),
}

/// The three markers: program start, program end and output end.
#[derive(Clone, Debug)]
pub struct MarkerDefs(pub [String; 3]);

/// The message for a marker configuration that is not three words.
pub open spec fn marker_defs_error(s: Seq<char>) -> Seq<char> {
    "Marker config `"@ + s + "` does not consist of three whitespace-separated words!"@
}

impl MarkerDefs {
    /// The markers' characters, in order.
    pub open spec fn views(self) -> Seq<Seq<char>> {
        seq![self.0[0]@, self.0[1]@, self.0[2]@]
    }

    /// Parses three ASCII-whitespace-separated words.
    pub fn from_str(s: &str) -> (res: Result<MarkerDefs, String>)
        ensures
            words(s@, false).len() == 3 ==> (res matches Ok(d) && d.views() == words(s@, false)),
            words(s@, false).len() != 3 ==> (res matches Err(msg) && msg@ == marker_defs_error(s@)),
    {
        let mut parts = split_words(s, false);
        if parts.len() == 3 {
            let ghost ws = parts@.map_values(|w: String| w@);
            let c = parts.pop().unwrap();
            let b = parts.pop().unwrap();
            let a = parts.pop().unwrap();
            let d = MarkerDefs([a, b, c]);
            proof {
                assert(ws[0] == a@);
                assert(ws[1] == b@);
                assert(ws[2] == c@);
                assert(d.views() =~= ws);
            }
            Ok(d)
        } else {
            let mut msg = String::new();
            push_str(&mut msg, "Marker config `");
            push_str(&mut msg, s);
            push_str(&mut msg, "` does not consist of three whitespace-separated words!");
            Err(msg)
        }
    }

    /// Whether the markers can be searched for as bytes: none is empty or
    /// holds a line break.
    pub fn bytes_usable(&self) -> (res: bool)
        ensures
            res == crate::parse::tokens::byte_markers_wf(crate::parse::marker_bytes(*self)),
    {
        let ghost mv = crate::parse::marker_bytes(*self);
        let mut k: usize = 0;
        while k < 3
            invariant
                k <= 3,
                mv == crate::parse::marker_bytes(*self),
                forall|q: int| 0 <= q < k ==> #[trigger] mv[q].len() > 0,
                forall|q: int, j: int| 0 <= q < k && 0 <= j < mv[q].len() ==> #[trigger] mv[q][j] != 10,
            decreases 3 - k,
        {
            let m = self.0[k].as_str().as_bytes();
            proof {
                assert(m@ == mv[k as int]);
            }
            if m.len() == 0 {
                return false;
            }
            let mut j: usize = 0;
            while j < m.len()
                invariant
                    j <= m@.len(),
                    k < 3,
                    mv == crate::parse::marker_bytes(*self),
                    m@ == mv[k as int],
                    forall|jj: int| 0 <= jj < j ==> m@[jj] != 10,
                decreases m@.len() - j,
            {
                if m[j] == 10u8 {
                    proof {
                        assert(mv[k as int][j as int] == 10);
                    }
                    return false;
                }
                j += 1;
            }
            k += 1;
        }
        true
    }

    /// The markers as character vectors, in order.
    pub fn marker_chars(&self) -> (res: Vec<Vec<char>>)
        ensures
            marker_views(res@) == self.views(),
    {
        let mut res: Vec<Vec<char>> = Vec::new();
        res.push(chars_of(self.0[0].as_str()));
        res.push(chars_of(self.0[1].as_str()));
        res.push(chars_of(self.0[2].as_str()));
        assert(marker_views(res@) =~= self.views());
        res
    }

    /// The three markers separated by single spaces.
    pub fn to_string(&self) -> (res: String)
        ensures
            res@ == self.0[0]@ + seq![' '] + self.0[1]@ + seq![' '] + self.0[2]@,
    {
        let mut out = String::new();
        push_str(&mut out, self.0[0].as_str());
        push_str(&mut out, " ");
        push_str(&mut out, self.0[1].as_str());
        push_str(&mut out, " ");
        push_str(&mut out, self.0[2].as_str());
        proof {
            reveal_strlit(" ");
        }
        out
    }
}

/// A word for a marker: not empty, with no ASCII whitespace.
pub open spec fn marker_word(w: Seq<char>) -> bool {
    w.len() > 0 && forall|j: int| 0 <= j < w.len() ==> !crate::text::is_sep(#[trigger] w[j], false)
}

/// Markers written by `to_string` are read back by `from_str`: the words of
/// the written text are the markers, when each is a non-empty word.
pub proof fn lemma_marker_defs_round_trip(d: MarkerDefs)
    requires
        marker_word(d.0[0]@),
        marker_word(d.0[1]@),
        marker_word(d.0[2]@),
    ensures
        words(d.0[0]@ + seq![' '] + d.0[1]@ + seq![' '] + d.0[2]@, false) == d.views(),
{
    let a = d.0[0]@;
    let b = d.0[1]@;
    let c = d.0[2]@;
    assert(is_ascii_ws(' '));
    crate::text::lemma_words_cons(c, Seq::empty(), false);
    assert(c + Seq::<char>::empty() =~= c);
    assert(words(Seq::<char>::empty(), false) =~= Seq::<Seq<char>>::empty());
    crate::text::lemma_words_sep(' ', c, false);
    crate::text::lemma_words_cons(b, seq![' '] + c, false);
    crate::text::lemma_words_sep(' ', b + seq![' '] + c, false);
    assert(b + (seq![' '] + c) =~= b + seq![' '] + c);
    crate::text::lemma_words_cons(a, seq![' '] + (b + seq![' '] + c), false);
    assert(a + seq![' '] + b + seq![' '] + c =~= a + (seq![' '] + (b + seq![' '] + c)));
    assert(seq![a] + (seq![b] + seq![c]) =~= d.views());
}

/// Words split at separators are non-empty and hold no separator.
pub proof fn lemma_words_wf(s: Seq<char>, unicode: bool)
    ensures
        forall|k: int| 0 <= k < words(s, unicode).len() ==> #[trigger] words(s, unicode)[k].len() > 0,
        forall|k: int, j: int|
            0 <= k < words(s, unicode).len() && 0 <= j < words(s, unicode)[k].len()
                ==> !crate::text::is_sep(#[trigger] words(s, unicode)[k][j], unicode),
    decreases s.len(),
{
    if s.len() > 0 {
        if crate::text::is_sep(s[0], unicode) {
            lemma_words_wf(s.drop_first(), unicode);
            assert(words(s, unicode) == words(s.drop_first(), unicode));
        } else {
            let n = crate::text::word_len(s, unicode) as int;
            lemma_word_len_props(s, unicode);
            if 0 < n <= s.len() {
                lemma_words_wf(s.skip(n), unicode);
                let w = words(s, unicode);
                assert(w == seq![s.take(n)] + words(s.skip(n), unicode));
                assert forall|k: int, j: int| 0 <= k < w.len() && 0 <= j < w[k].len() implies !crate::text::is_sep(#[trigger] w[k][j], unicode) by {
                    if k == 0 {
                        assert(w[0] == s.take(n));
                    } else {
                        assert(w[k] == words(s.skip(n), unicode)[k - 1]);
                    }
                }
                assert forall|k: int| 0 <= k < w.len() implies #[trigger] w[k].len() > 0 by {
                    if k > 0 {
                        assert(w[k] == words(s.skip(n), unicode)[k - 1]);
                    }
                }
            }
        }
    }
}

proof fn lemma_word_len_props(s: Seq<char>, unicode: bool)
    ensures
        crate::text::word_len(s, unicode) <= s.len(),
        forall|j: int| 0 <= j < crate::text::word_len(s, unicode) ==> !crate::text::is_sep(#[trigger] s[j], unicode),
        s.len() > 0 && !crate::text::is_sep(s[0], unicode) ==> crate::text::word_len(s, unicode) > 0,
    decreases s.len(),
{
    if s.len() > 0 && !crate::text::is_sep(s[0], unicode) {
        lemma_word_len_props(s.drop_first(), unicode);
        assert forall|j: int| 0 <= j < crate::text::word_len(s, unicode) implies !crate::text::is_sep(#[trigger] s[j], unicode) by {
            if j > 0 {
                assert(s[j] == s.drop_first()[j - 1]);
            }
        }
    }
}

/// Three words parsed as marker definitions make well-formed markers.
pub proof fn lemma_marker_words_wf(s: Seq<char>, unicode: bool)
    requires
        words(s, unicode).len() == 3,
    ensures
        markers_wf(words(s, unicode)),
{
    lemma_words_wf(s, unicode);
    let w = words(s, unicode);
    assert forall|k: int, j: int| 0 <= k < 3 && 0 <= j < w[k].len() implies #[trigger] w[k][j] != '\n' by {
        assert(!crate::text::is_sep(w[k][j], unicode));
        assert(is_ascii_ws('\n'));
    }
}

/// The arguments of a run: sources and destinations, prologue lines, the
/// suffix of output lines and the markers.
#[derive(Debug)]
pub struct Args {
    pub source_and_dest: SourceAndDestArgs,
    pub prologue: Vec<String>,
    pub output_line_suffix: String,
    pub markers: MarkerDefs,
}

} // verus!
