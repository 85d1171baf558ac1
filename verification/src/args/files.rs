//! Sources and destinations as given on the command line.
use vstd::prelude::*;

use crate::args::{stdin_label, stdout_label, str_is_dash, string_is, is_dash};
use crate::text::push_str;

verus! {

/// Tells reading from writing.
pub trait ReadOrWrite: Sized {
    /// The label under which the standard stream of this direction is shown.
    spec fn spec_label() -> Seq<char>;

    /// The label under which the standard stream of this direction is shown.
    fn stream_label() -> (res: &'static str)
        ensures
            res@ == Self::spec_label(),
    ;

    /// The value that stands for the direction.
    fn inst() -> Self;
}

/// Reading (from a file or stdin).
#[derive(Debug, Clone, Copy)]
pub struct Read;

/// Writing (to a file or stdout).
#[derive(Debug, Clone, Copy)]
pub struct Write;

impl ReadOrWrite for Read {
    open spec fn spec_label() -> Seq<char> {
        stdin_label()
    }

    fn stream_label() -> (res: &'static str) {
        proof {
            reveal_strlit("<stdin>");
        }
        "<stdin>"
    }

    fn inst() -> Self {
        Read
    }
}

impl ReadOrWrite for Write {
    open spec fn spec_label() -> Seq<char> {
        stdout_label()
    }

    fn stream_label() -> (res: &'static str) {
        proof {
            reveal_strlit("<stdout>");
        }
        "<stdout>"
    }

    fn inst() -> Self {
        Write
    }
}

/// A reference of unspecified read/write status, which is either `-` for stdin/stdout, or
/// a file path.
#[derive(Debug, Clone, PartialEq, Eq)]
pub enum FileArg {
    Stream,
    OnDisk(String),
}

impl FileArg {
    /// A copy of the argument.
    pub fn copy(&self) -> (res: FileArg)
        ensures
            res == *self,
    {
        match self {
            FileArg::Stream => FileArg::Stream,
            FileArg::OnDisk(p) => FileArg::OnDisk(p.clone()),
        }
    }

    /// The argument `-` is the stream, anything else a path.
    pub fn from_arg(s: &str) -> (res: FileArg)
        ensures
            is_dash(s@) ==> res == FileArg::Stream,
            !is_dash(s@) ==> (res matches FileArg::OnDisk(p) && p@ == s@),
    {
        if str_is_dash(s) {
            FileArg::Stream
        } else {
            let mut p = String::new();
            push_str(&mut p, s);
            FileArg::OnDisk(p)
        }
    }
}

/// A [`FileArg`] associated with either read or write behavior
pub struct File<RW: ReadOrWrite> {
    /// The argument string representing the file as provided on the command line
    pub arg: FileArg,
    /// Records whether the file is read or written
    pub rw: RW,
}

/// The name under which a file argument is shown, given the label of the
/// stream: a path that reads like a stream's label gets `./` in front of it.
pub open spec fn file_display(arg: FileArg, label: Seq<char>) -> Seq<char> {
    match arg {
        FileArg::OnDisk(path) => if path@ == stdin_label() || path@ == stdout_label() {
            seq!['.', '/'] + path@
        } else {
            path@
        },
        FileArg::Stream => label,
    }
}

impl<RW: ReadOrWrite> File<RW> {
    /// The file that an argument names.
    pub fn from_arg(arg: &FileArg) -> (res: File<RW>)
        ensures
            res.arg == *arg,
    {
        File { arg: arg.copy(), rw: RW::inst() }
    }

    /// The name under which the file is shown.
    pub fn to_string(&self) -> (res: String)
        ensures
            res@ == file_display(self.arg, RW::spec_label()),
    {
        let mut out = String::new();
        match &self.arg {
            FileArg::OnDisk(path) => {
                if string_is(path, &['<', 's', 't', 'd', 'i', 'n', '>']) || string_is(
                    path,
                    &['<', 's', 't', 'd', 'o', 'u', 't', '>'],
                ) {
                    push_str(&mut out, "./");
                    proof {
                        reveal_strlit("./");
                    }
                }
                push_str(&mut out, path.as_str());
            },
            FileArg::Stream => {
                push_str(&mut out, RW::stream_label());
            },
        }
        out
    }
}

} // verus!
