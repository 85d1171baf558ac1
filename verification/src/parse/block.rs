//! A CogShell block: its markers, its program and its previous output.
use vstd::prelude::*;

use crate::parse::checksum::{checksum_at_start, Checksum};
use crate::parse::marker_inst::MarkerInst;
use crate::parse::marker_kind::MarkerKind;
use crate::parse::program::{
    has_nl, output_prefix, output_prefix_range, positions_ok, previous_output,
    previous_output_range, program_lines, program_ranges, range_views,
};
use crate::parse::span::Span;
use crate::text::chars_of;

verus! {

/// The three markers of a block.
#[derive(Debug, Clone, Copy)]
pub struct BlockMarkers<'i> {
    pub prog_start: MarkerInst<'i>,
    pub prog_end: MarkerInst<'i>,
    pub outp_end: MarkerInst<'i>,
}

impl<'i> BlockMarkers<'i> {
    /// The markers of a block from the three markers in order.
    pub fn new(markers: &[MarkerInst<'i>; 3]) -> (res: BlockMarkers<'i>)
        ensures
            res.prog_start == markers@[0],
            res.prog_end == markers@[1],
            res.outp_end == markers@[2],
    {
        BlockMarkers { prog_start: markers[0], prog_end: markers[1], outp_end: markers[2] }
    }

    /// The markers are of the right kinds, lie where their locations say in
    /// `text`, and come one after the other.
    pub open spec fn located_in(self, text: Seq<char>) -> bool {
        let ps = self.prog_start;
        let pe = self.prog_end;
        let oe = self.outp_end;
        &&& ps.kind == MarkerKind::ProgramStart
        &&& pe.kind == MarkerKind::ProgramEnd
        &&& oe.kind == MarkerKind::OutputEnd
        &&& ps.located_in(text, ps.span.start.index as int, ps.span.end.index as int)
        &&& pe.located_in(text, pe.span.start.index as int, pe.span.end.index as int)
        &&& oe.located_in(text, oe.span.start.index as int, oe.span.end.index as int)
        &&& ps.span.end.index <= pe.span.start.index
        &&& pe.span.end.index <= oe.span.start.index
    }

    /// The program lines these markers delimit in `text`, if the program end
    /// and output end markers are on different lines.
    pub open spec fn spec_program(self, text: Seq<char>) -> Option<Seq<Seq<char>>> {
        program_lines(
            text,
            self.prog_start.span.start.index as int,
            self.prog_start.span.end.index as int,
            self.prog_end.span.start.index as int,
            self.outp_end.span.start.index as int,
        )
    }
}

/// Why the text between a block's markers does not make a block.
#[derive(Debug, Clone, Copy, PartialEq, Eq, Structural)]
pub enum BlockError {
    /// The output end marker is on the same line as the program end marker.
    OutputEndOnProgramEndLine,
}

/// Everything needed to execute an embedded code block
#[derive(Debug)]
pub struct Block<'i> {
    /// The markers which delimit this block
    pub markers: BlockMarkers<'i>,
    /// The (pre-trimmed) lines of the program to run
    pub prog_lines: Vec<&'i str>,
    /// The text to prepend to lines of output
    pub prog_whitespace_pfx: &'i str,
    /// The previous output found between the program end and output end markers
    pub output_prev: &'i str,
    /// The previous output checksum which followed this block's output end marker, if present
    pub output_prev_hash: Option<Checksum<'i>>,
    /// The full span of this block from start to end
    pub span: Span,
}

/// The character views of a sequence of string slices.
pub open spec fn str_views(s: Seq<&str>) -> Seq<Seq<char>> {
    s.map_values(|l: &str| l@)
}

impl<'i> Block<'i> {
    /// This block is the one that `markers` delimit in `text`.
    pub open spec fn describes(self, text: Seq<char>, markers: BlockMarkers<'i>) -> bool {
        let ps_s = markers.prog_start.span.start.index as int;
        let pe_s = markers.prog_end.span.start.index as int;
        let pe_e = markers.prog_end.span.end.index as int;
        let oe_s = markers.outp_end.span.start.index as int;
        let oe_e = markers.outp_end.span.end.index as int;
        &&& self.markers == markers
        &&& markers.spec_program(text) == Some(str_views(self.prog_lines@))
        &&& self.prog_whitespace_pfx@ == output_prefix(text, ps_s, pe_s)
        &&& self.output_prev@ == previous_output(text, pe_e, oe_s)
        &&& match checksum_at_start(text.skip(oe_e)) {
            Some((kind, a, b)) => self.output_prev_hash matches Some(c) && c.kind == kind
                && c.hash@ == text.subrange(oe_e + a, oe_e + b),
            None => self.output_prev_hash is None,
        }
        &&& self.span.start == markers.prog_start.span.start
        &&& self.span.end == markers.outp_end.span.end
    }

    /// Parse a CogShell block from its matched markers.
    pub fn new(content: &'i str, markers: BlockMarkers<'i>) -> (res: Result<Block<'i>, BlockError>)
        requires
            markers.located_in(content@),
        ensures
            match res {
                Ok(b) => b.describes(content@, markers),
                Err(_) => markers.spec_program(content@) is None,
            },
    {
        let chars = chars_of(content);
        Block::from_chars(content, chars.as_slice(), markers)
    }

    /// As `new`, with the characters of `content` already at hand.
    pub fn from_chars(content: &'i str, chars: &[char], markers: BlockMarkers<'i>) -> (res: Result<Block<'i>, BlockError>)
        requires
            chars@ == content@,
            markers.located_in(content@),
        ensures
            match res {
                Ok(b) => b.describes(content@, markers),
                Err(_) => markers.spec_program(content@) is None,
            },
    {
        let ghost text = chars@;
        let ps_s = markers.prog_start.span.start.index;
        let ps_e = markers.prog_start.span.end.index;
        let pe_s = markers.prog_end.span.start.index;
        let pe_e = markers.prog_end.span.end.index;
        let oe_s = markers.outp_end.span.start.index;
        let oe_e = markers.outp_end.span.end.index;
        assert(positions_ok(text, ps_s as int, ps_e as int, pe_s as int, oe_s as int));
        let ranges = match program_ranges(chars, ps_s, ps_e, pe_s, oe_s) {
            Some(r) => r,
            None => {
                return Err(BlockError::OutputEndOnProgramEndLine);
            },
        };
        let mut prog_lines: Vec<&'i str> = Vec::new();
        let mut i: usize = 0;
        while i < ranges.len()
            invariant
                i <= ranges@.len(),
                text == content@,
                forall|k: int| 0 <= k < ranges@.len() ==> (#[trigger] ranges@[k]).0 <= ranges@[k].1 <= text.len(),
                str_views(prog_lines@) == range_views(text, ranges@.take(i as int)),
            decreases ranges@.len() - i,
        {
            let (a, b) = ranges[i];
            let line = content.substring_char(a, b);
            let ghost old = prog_lines@;
            prog_lines.push(line);
            proof {
                assert(str_views(prog_lines@) =~= str_views(old).push(line@));
                assert(range_views(text, ranges@.take(i + 1)) =~= range_views(text, ranges@.take(i as int)).push(
                    text.subrange(a as int, b as int),
                ));
            }
            i += 1;
        }
        proof {
            assert(ranges@.take(ranges@.len() as int) =~= ranges@);
            assert(has_nl(text, pe_s as int, oe_s as int));
            assert(!has_nl(text, pe_s as int, pe_e as int));
            if !has_nl(text, pe_e as int, oe_s as int) {
                assert forall|j: int| pe_s <= j < oe_s implies text[j] != '\n' by {
                    if j < pe_e {
                        assert(!has_nl(text, pe_s as int, pe_e as int));
                    } else {
                        assert(!has_nl(text, pe_e as int, oe_s as int));
                    }
                }
            }
        }
        let (pa, pb) = output_prefix_range(chars, ps_s, pe_s);
        let prog_whitespace_pfx = content.substring_char(pa, pb);
        let (oa, ob) = previous_output_range(chars, pe_e, oe_s);
        let output_prev = content.substring_char(oa, ob);
        let block_sfx = content.substring_char(oe_e, chars.len());
        let output_prev_hash = Checksum::from_block_suffix(block_sfx);
        proof {
            assert(block_sfx@ =~= text.skip(oe_e as int));
            match checksum_at_start(text.skip(oe_e as int)) {
                Some((kind, a, b)) => {
                    assert(block_sfx@.subrange(a, b) =~= text.subrange(oe_e + a, oe_e + b));
                },
                None => {},
            }
        }
        let span = Span { start: markers.prog_start.span.start, end: markers.outp_end.span.end };
        Ok(Block { markers, prog_lines, prog_whitespace_pfx, output_prev, output_prev_hash, span })
    }
}

} // verus!
