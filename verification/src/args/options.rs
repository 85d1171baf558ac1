//! The arguments of a run: files, output, prologue, output line suffix and markers.
use vstd::prelude::*;

use crate::args::files::FileArg;
use crate::args::marker_defs::MarkerDefs;

verus! {

/// The arguments of a run.
#[derive(Debug)]
pub struct Args {
    /// The files to process (`-` for stdin)
    pub files: Vec<FileArg>,
    /// Single output destination; if absent, each file is updated in place
    pub output: Option<FileArg>,
    /// Statements to execute once per file before the first block
    pub prologue: Vec<String>,
    /// Suffix to append to each output line
    pub output_line_suffix: String,
    /// The markers around embedded programs
    pub markers: MarkerDefs,
}

} // verus!
