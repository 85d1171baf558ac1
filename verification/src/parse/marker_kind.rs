//! The three kinds of markers that delimit a CogShell block.
use vstd::prelude::*;

verus! {

/// A kind of marker
#[derive(Copy, Clone, Debug, PartialEq, Eq, Structural)]
pub enum MarkerKind {
    /// Indicates the start of an embedded CogShell program
    ProgramStart,
    /// Indicates the end of an embedded CogShell program, and the start of its output
    ProgramEnd,
    /// Indicates the end of an embedded CogShell program's output
    OutputEnd,
}

/// Bool-equivalent enum describing whether a marker kind is allowed to appear on the same
/// line as a marker preceding it (whether in the same block or a previous one).
#[derive(Copy, Clone, Debug, PartialEq, Eq, Structural)]
pub enum IsInlineOk {
    MustFollowOnSeparateLine,
    InlineOk,
}

impl MarkerKind {
    /// Position of the kind within a block: 0, 1 or 2.
    pub open spec fn spec_index(self) -> int {
        match self {
            MarkerKind::ProgramStart => 0,
            MarkerKind::ProgramEnd => 1,
            MarkerKind::OutputEnd => 2,
        }
    }

    /// The kind at a position within a block.
    pub open spec fn spec_from_index(i: int) -> MarkerKind {
        if i == 0 {
            MarkerKind::ProgramStart
        } else if i == 1 {
            MarkerKind::ProgramEnd
        } else {
            MarkerKind::OutputEnd
        }
    }

    /// Position of the kind within a block (the order in which markers must appear).
    pub fn index(self) -> (res: usize)
        ensures
            res == self.spec_index(),
            res < 3,
            MarkerKind::spec_from_index(res as int) == self,
    {
        match self {
            MarkerKind::ProgramStart => 0,
            MarkerKind::ProgramEnd => 1,
            MarkerKind::OutputEnd => 2,
        }
    }

    /// The kind at a position within a block.
    pub fn from_index(i: usize) -> (res: MarkerKind)
        requires
            i < 3,
        ensures
            res == MarkerKind::spec_from_index(i as int),
            res.spec_index() == i,
    {
        if i == 0 {
            MarkerKind::ProgramStart
        } else if i == 1 {
            MarkerKind::ProgramEnd
        } else {
            MarkerKind::OutputEnd
        }
    }

    /// Used by error reporting.
    pub fn description(self) -> (res: &'static str)
        ensures
            self == MarkerKind::ProgramStart ==> res@ == "program start marker"@,
            self == MarkerKind::ProgramEnd ==> res@ == "program end marker"@,
            self == MarkerKind::OutputEnd ==> res@ == "output end marker"@,
    {
        match self {
            MarkerKind::ProgramStart => "program start marker",
            MarkerKind::ProgramEnd => "program end marker",
            MarkerKind::OutputEnd => "output end marker",
        }
    }

    /// Whether a marker of this kind may share a line with the marker before it.
    pub open spec fn spec_inline_ok(self) -> bool {
        self == MarkerKind::ProgramEnd
    }

    /// See [`IsInlineOk`]: only a program end marker may follow its predecessor on
    /// the same line.
    pub fn inline_ok(&self) -> (res: IsInlineOk)
        ensures
            (res == IsInlineOk::InlineOk) == self.spec_inline_ok(),
    {
        match self {
            MarkerKind::ProgramStart => IsInlineOk::MustFollowOnSeparateLine,
            MarkerKind::ProgramEnd => IsInlineOk::InlineOk,
            MarkerKind::OutputEnd => IsInlineOk::MustFollowOnSeparateLine,
        }
    }
}

impl From<IsInlineOk> for bool {
    fn from(value: IsInlineOk) -> (res: bool) {
        value == IsInlineOk::InlineOk
    }
}

impl vstd::std_specs::convert::FromSpecImpl<IsInlineOk> for bool {
    open spec fn obeys_from_spec() -> bool {
        true
    }

    open spec fn from_spec(value: IsInlineOk) -> bool {
        value == IsInlineOk::InlineOk
    }
}

} // verus!
