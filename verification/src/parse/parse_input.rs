//! A source to parse, with its content and the arguments it is parsed with.
use vstd::prelude::*;

use crate::args::files::{File, Read};
use crate::args::options::Args;
use crate::parse::loc::{advance, fits};
use crate::parse::loc_line::{split_lines, LocatedLine};

verus! {

/// A source to parse, with its content and the arguments it is parsed with.
pub struct ParseInput<'a> {
    /// Config parameters used to parse the source
    pub args: &'a Args,
    /// The filename or input stream containing CogShell block(s)
    pub source: &'a File<Read>,
    /// The content read from the source
    pub content: String,
}

impl<'a> ParseInput<'a> {
    /// The input with `content`, read from `source`.
    pub fn from(args: &'a Args, source: &'a File<Read>, content: String) -> (res: ParseInput<'a>)
        ensures
            res.args == args,
            res.source == source,
            res.content == content,
    {
        ParseInput { args, source, content }
    }

    /// The lines of the content, each with its starting location.
    pub fn iter_lines<'i>(&'i self) -> (res: Vec<LocatedLine<'i>>)
        requires
            fits(advance((0int, 0int, 0int, 0int), self.content@)),
        ensures
            res@.map_values(|l: LocatedLine<'i>| l.1@) == split_lines(self.content@),
    {
        LocatedLine::iter(self.content.as_str())
    }
}

} // verus!
