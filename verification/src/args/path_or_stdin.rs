//! A path to read from, or standard input.
use vstd::prelude::*;

use crate::args::{is_dash, stdin_label, str_is_dash};
use crate::text::push_str;

verus! {

/// A path to read from, or standard input.
#[derive(Debug, Clone)]
pub enum PathOrStdin {
    Path(String),
    Stdin,
}

/// The name under which the input is shown: the path `-` is shown as `./-`
/// to tell it from standard input.
pub open spec fn path_or_stdin_display(p: PathOrStdin) -> Seq<char> {
    match p {
        PathOrStdin::Stdin => stdin_label(),
        PathOrStdin::Path(path) => if is_dash(path@) {
            seq!['.', '/', '-']
        } else {
            path@
        },
    }
}

impl PathOrStdin {
    /// The input an argument names: `-` is standard input.
    pub fn from_arg(s: &str) -> (res: PathOrStdin)
        ensures
            is_dash(s@) ==> res is Stdin,
            !is_dash(s@) ==> (res matches PathOrStdin::Path(p) && p@ == s@),
    {
        if str_is_dash(s) {
            PathOrStdin::Stdin
        } else {
            let mut p = String::new();
            push_str(&mut p, s);
            PathOrStdin::Path(p)
        }
    }

    /// The name under which the input is shown.
    pub fn to_string(&self) -> (res: String)
        ensures
            res@ == path_or_stdin_display(*self),
    {
        let mut out = String::new();
        match self {
            PathOrStdin::Stdin => {
                push_str(&mut out, "<stdin>");
                proof {
                    reveal_strlit("<stdin>");
                }
            },
            PathOrStdin::Path(path) => {
                if str_is_dash(path.as_str()) {
                    push_str(&mut out, "./-");
                    proof {
                        reveal_strlit("./-");
                    }
                } else {
                    push_str(&mut out, path.as_str());
                }
            },
        }
        out
    }
}

} // verus!
