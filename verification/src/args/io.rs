//! Files or standard streams, for input or for output.
use vstd::prelude::*;

mod private;

use crate::args::{stdin_label, stdout_label};

verus! {

/// Marks input.
#[derive(Debug, Clone, Copy)]
pub struct In;

/// Marks output.
#[derive(Debug, Clone, Copy)]
pub struct Out;

/// Input or output.
pub trait InOrOut: private::SealedInOrOut + Sized {
    /// The label of the standard stream of this direction.
    spec fn spec_label() -> Seq<char>;

    /// The value that stands for the direction.
    fn inst() -> Self;

    /// The label of the standard stream of this direction.
    fn stream_label() -> (res: &'static str)
        ensures
            res@ == Self::spec_label(),
    ;
}

impl InOrOut for In {
    open spec fn spec_label() -> Seq<char> {
        stdin_label()
    }

    fn inst() -> Self {
        In
    }

    fn stream_label() -> (res: &'static str) {
        proof {
            reveal_strlit("<stdin>");
        }
        "<stdin>"
    }
}

impl InOrOut for Out {
    open spec fn spec_label() -> Seq<char> {
        stdout_label()
    }

    fn inst() -> Self {
        Out
    }

    fn stream_label() -> (res: &'static str) {
        proof {
            reveal_strlit("<stdout>");
        }
        "<stdout>"
    }
}

/// Represents an argument which can be either a file path or "-" for stdin/stdout.
#[derive(Debug, Clone)]
pub enum FileOrStream<IO: InOrOut> {
    File(String, IO),
    Stream(IO),
}

impl<IO: InOrOut> FileOrStream<IO> {
    /// The file at `path`.
    pub fn file(path: String) -> (res: Self)
        ensures
            res matches FileOrStream::File(p, _) && p == path,
    {
        FileOrStream::File(path, IO::inst())
    }

    /// The standard stream.
    pub fn stream() -> (res: Self)
        ensures
            res is Stream,
    {
        FileOrStream::Stream(IO::inst())
    }

    /// Get a name for this stream suitable for display
    pub fn to_str(&self) -> (res: &str)
        ensures
            match self {
                FileOrStream::File(p, _) => res@ == p@,
                FileOrStream::Stream(_) => res@ == IO::spec_label(),
            },
    {
        match self {
            FileOrStream::File(path, _) => path.as_str(),
            FileOrStream::Stream(_) => IO::stream_label(),
        }
    }

    /// The file or stream an argument names: `-` is the stream.
    pub fn from_arg(s: &str) -> (res: Self)
        ensures
            crate::args::is_dash(s@) ==> res is Stream,
            !crate::args::is_dash(s@) ==> (res matches FileOrStream::File(p, _) && p@ == s@),
    {
        if crate::args::str_is_dash(s) {
            FileOrStream::Stream(IO::inst())
        } else {
            let mut p = String::new();
            crate::text::push_str(&mut p, s);
            FileOrStream::File(p, IO::inst())
        }
    }
}

} // verus!
