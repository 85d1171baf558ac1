//! Parsing of CogShell blocks out of a source text.
pub mod block;
pub mod checksum;
pub mod error;
pub mod errors;
pub mod file;
pub mod hash;
pub mod loc;
pub mod loc_line;
pub mod marker;
pub mod marker_inst;
pub mod marker_kind;
pub mod parse_input;
pub mod parse_state;
pub mod parsed_file;
pub mod program;
pub mod scan;
pub mod span;
pub mod tokens;

use vstd::prelude::*;

use crate::parse::block::BlockError;
use crate::parse::block::str_views;
use crate::parse::program::{output_prefix, output_prefix_range, positions_ok, program_lines, program_ranges, range_views};
use crate::args::MarkerDefs;
use crate::parse::error::{error_fits, kind_at, kind_at_index, span_fits, ParseError, ParseErrorContext, ParseErrorKind};
use crate::parse::tokens::{
    breaks_before, byte_markers_wf, bytes_at, lemma_marker_tokens_push, lemma_no_break_across,
    lemma_match_boundaries, lemma_no_token_no_break, lemma_tokens_skip, line_begin, marker_tokens, token_at, token_end,
    token_kind_at, tokens, Token,
};
use crate::source::{SourceLocation, SourceMarker, SourceSpan};
use crate::text::chars_of;
use vstd::string::StringSliceAdditionalSpecFns;
use vstd::utf8::{encode_utf8, encode_utf8_valid_utf8};

verus! {

/// A block as the positions of its markers in a text, before its program is extracted.
pub struct UnparsedBlock<'a> {
    /// The text that holds the block
    pub content: &'a str,
    /// The characters of the program start marker
    pub prog_start: core::ops::Range<usize>,
    /// The characters of the program end marker
    pub prog_end: core::ops::Range<usize>,
    /// The characters of the output end marker
    pub output_end: core::ops::Range<usize>,
}

impl<'a> UnparsedBlock<'a> {
    /// The markers are in order within the content.
    pub open spec fn wf(self) -> bool {
        &&& positions_ok(
            self.content@,
            self.prog_start.start as int,
            self.prog_start.end as int,
            self.prog_end.start as int,
            self.output_end.start as int,
        )
    }

    /// The program lines of the block (see `program_lines`).
    pub open spec fn spec_program(self) -> Option<Seq<Seq<char>>> {
        program_lines(
            self.content@,
            self.prog_start.start as int,
            self.prog_start.end as int,
            self.prog_end.start as int,
            self.output_end.start as int,
        )
    }
}

/// Everything needed to execute an embedded code block
#[derive(Debug)]
pub struct ParsedBlock<'a> {
    /// The (pre-trimmed) lines of the program to run
    pub program_lines: Vec<&'a str>,
    /// The text to prepend to lines of output
    pub prefix_by: &'a str,
    /// The text to append to lines of output
    pub suffix_by: &'a str,
}

impl<'a> ParsedBlock<'a> {
    /// The program lines of a block: see `program_lines` for the rules.
    pub fn extract_program(block: &UnparsedBlock<'a>) -> (res: Result<Vec<&'a str>, BlockError>)
        requires
            block.wf(),
        ensures
            match block.spec_program() {
                Some(lines) => res matches Ok(v) && str_views(v@) == lines,
                None => res is Err,
            },
    {
        let chars = chars_of(block.content);
        let ranges = match program_ranges(
            chars.as_slice(),
            block.prog_start.start,
            block.prog_start.end,
            block.prog_end.start,
            block.output_end.start,
        ) {
            Some(r) => r,
            None => {
                return Err(BlockError::OutputEndOnProgramEndLine);
            },
        };
        let ghost text = chars@;
        let mut lines: Vec<&'a str> = Vec::new();
        let mut i: usize = 0;
        while i < ranges.len()
            invariant
                i <= ranges@.len(),
                text == block.content@,
                forall|k: int| 0 <= k < ranges@.len() ==> (#[trigger] ranges@[k]).0 <= ranges@[k].1 <= text.len(),
                str_views(lines@) == range_views(text, ranges@.take(i as int)),
            decreases ranges@.len() - i,
        {
            let (a, b) = ranges[i];
            let line = block.content.substring_char(a, b);
            let ghost old = lines@;
            lines.push(line);
            proof {
                assert(str_views(lines@) =~= str_views(old).push(line@));
                assert(range_views(text, ranges@.take(i + 1)) =~= range_views(text, ranges@.take(i as int)).push(
                    text.subrange(a as int, b as int),
                ));
            }
            i += 1;
        }
        proof {
            assert(ranges@.take(ranges@.len() as int) =~= ranges@);
        }
        Ok(lines)
    }

    /// Parses a block: its program lines, the text to prepend to its output
    /// lines, and `suffix_by`, the text to append to them.
    pub fn from(block: &UnparsedBlock<'a>, suffix_by: &'a str) -> (res: Result<ParsedBlock<'a>, BlockError>)
        requires
            block.wf(),
        ensures
            match block.spec_program() {
                Some(lines) => res matches Ok(pb) && str_views(pb.program_lines@) == lines
                    && pb.prefix_by@ == output_prefix(
                    block.content@,
                    block.prog_start.start as int,
                    block.prog_end.start as int,
                ) && pb.suffix_by == suffix_by,
                None => res is Err,
            },
    {
        let program_lines = ParsedBlock::extract_program(block)?;
        let chars = chars_of(block.content);
        let (a, b) = output_prefix_range(chars.as_slice(), block.prog_start.start, block.prog_end.start);
        let prefix_by = block.content.substring_char(a, b);
        Ok(ParsedBlock { program_lines, prefix_by, suffix_by })
    }
}

/// A source parsed into its blocks, each given by its three markers and the
/// bytes they span.
pub struct ParsedFile<'a> {
    /// The name of the file
    pub filename: &'a str,
    /// The content of the file
    pub content: &'a str,
    /// The markers the file was parsed with
    pub markers: &'a MarkerDefs,
    /// The markers of each block: program start, program end, output end
    pub blocks: Vec<[SourceMarker<'a>; 3]>,
}

/// The markers' bytes.
pub open spec fn marker_bytes(d: MarkerDefs) -> Seq<Seq<u8>> {
    seq![encode_utf8(d.0[0]@), encode_utf8(d.0[1]@), encode_utf8(d.0[2]@)]
}

/// The marker tokens of a content, in order.
pub open spec fn content_markers(content: Seq<char>, d: MarkerDefs) -> Seq<Token> {
    marker_tokens(tokens(encode_utf8(content), marker_bytes(d), 0))
}

/// The source marker `m` is the marker token `t` of `content`, located by
/// the line breaks before it.
pub open spec fn source_marker_is(m: SourceMarker, content: &str, t: Token) -> bool {
    let b = encode_utf8(content@);
    let line = breaks_before(b, t.1) as usize;
    let lb = line_begin(b, t.1);
    &&& m.kind == kind_at(t.0)
    &&& m.span.content == content
    &&& m.span.start == SourceLocation { line, col: (t.1 - lb) as usize, offset: t.1 as usize }
    &&& m.span.end == SourceLocation { line, col: (t.2 - lb) as usize, offset: t.2 as usize }
    &&& m.span.line_start == SourceLocation { line, col: 0, offset: lb as usize }
}

/// The first `n` marker tokens come in the order program start, program end,
/// output end, block after block.
pub open spec fn kinds_in_order(occ: Seq<Token>, n: int) -> bool {
    forall|k: int| 0 <= k < n ==> (#[trigger] occ[k]).0 == k % 3
}

/// `state` holds the markers of the block open before marker token `k`.
pub open spec fn open_state_is(state: Seq<SourceMarker>, content: &str, occ: Seq<Token>, k: int) -> bool {
    &&& state.len() == k % 3
    &&& forall|j: int| 0 <= j < state.len() ==> source_marker_is(#[trigger] state[j], content, occ[k - k % 3 + j])
}

/// Block `g` holds marker tokens `3g`, `3g+1` and `3g+2`.
pub open spec fn block_is(block: [SourceMarker; 3], content: &str, occ: Seq<Token>, g: int) -> bool {
    forall|i: int| 0 <= i < 3 ==> source_marker_is(#[trigger] block@[i], content, occ[3 * g + i])
}

/// A marker's bytes hold no line break, so none of its bytes counts as one.
proof fn lemma_no_inner_newlines(b: Seq<u8>, start: int, end: int)
    requires
        0 <= start <= end <= b.len(),
        forall|j: int| start <= j < end ==> b[j] != 10,
    ensures
        crate::source::inner_newlines(b, start, end) == 0,
    decreases end - start,
{
    if end - 1 > start {
        lemma_no_inner_newlines(b, start, end - 1);
    }
}

proof fn lemma_breaks_bounds(b: Seq<u8>, p: int)
    requires
        0 <= p <= b.len(),
    ensures
        breaks_before(b, p) <= p,
        0 <= line_begin(b, p) <= p,
    decreases p,
{
    if p > 0 {
        lemma_breaks_bounds(b, p - 1);
    }
}

impl<'a> ParsedFile<'a> {
    /// Parses a content into blocks: finds the markers and line breaks from
    /// left to right, and matches the markers into blocks in the order program
    /// start, program end, output end. A marker out of that order, or the end
    /// of the content inside a block, is an error.
    pub fn from_content(content: &'a str, markers: &'a MarkerDefs, filename: &'a str) -> (res: Result<ParsedFile<'a>, ParseError<'a>>)
        requires
            byte_markers_wf(marker_bytes(*markers)),
        ensures
            ({
                let occ = content_markers(content@, *markers);
                match res {
                    Ok(f) => {
                        &&& f.content == content && f.markers == markers && f.filename == filename
                        &&& kinds_in_order(occ, occ.len() as int)
                        &&& occ.len() % 3 == 0
                        &&& f.blocks@.len() == occ.len() / 3
                        &&& forall|g: int| 0 <= g < f.blocks@.len() ==> block_is(#[trigger] f.blocks@[g], content, occ, g)
                        &&& forall|g: int, i: int| 0 <= g < f.blocks@.len() && 0 <= i < 3 ==> span_fits(
                            #[trigger] f.blocks@[g]@[i],
                            content@,
                        )
                    },
                    Err(e) => {
                        &&& e.ctx.content == content && e.ctx.markers == markers && e.ctx.filename == filename
                        &&& error_fits(e)
                        &&& match e.kind {
                            ParseErrorKind::UnexpectedMarker(m) => exists|k: int|
                                0 <= k < occ.len() && kinds_in_order(occ, k) && (#[trigger] occ[k]).0 != k % 3
                                    && source_marker_is(m, content, occ[k]) && open_state_is(
                                    e.ctx.parse_state@,
                                    content,
                                    occ,
                                    k,
                                ),
                            ParseErrorKind::UnexpectedEOF => kinds_in_order(occ, occ.len() as int) && occ.len() % 3 != 0
                                && open_state_is(e.ctx.parse_state@, content, occ, occ.len() as int),
                        }
                    },
                }
            }),
    {
        let b = content.as_bytes();
        let ms: [&[u8]; 3] = [markers.0[0].as_str().as_bytes(), markers.0[1].as_str().as_bytes(), markers.0[2].as_str().as_bytes()];
        let ghost bv = b@;
        let ghost mv = marker_bytes(*markers);
        proof {
            assert(seq![ms[0]@, ms[1]@, ms[2]@] =~= mv);
        }
        let mut blocks: Vec<[SourceMarker<'a>; 3]> = Vec::new();
        let mut state: Vec<SourceMarker<'a>> = Vec::new();
        let mut line_start = SourceLocation { line: 0, col: 0, offset: 0 };
        let mut pos: usize = 0;
        let ghost mut done: Seq<Token> = Seq::empty();
        proof {
            assert(done + tokens(bv, mv, 0) =~= tokens(bv, mv, 0));
            assert(marker_tokens(done) =~= Seq::<Token>::empty());
        }
        while pos < b.len()
            invariant
                bv == b@,
                bv == encode_utf8(content@),
                mv == marker_bytes(*markers),
                mv == seq![ms[0]@, ms[1]@, ms[2]@],
                byte_markers_wf(mv),
                pos <= bv.len(),
                tokens(bv, mv, 0) == done + tokens(bv, mv, pos as int),
                line_start == (SourceLocation {
                    line: breaks_before(bv, pos as int) as usize,
                    col: 0,
                    offset: line_begin(bv, pos as int) as usize,
                }),
                breaks_before(bv, pos as int) <= pos,
                kinds_in_order(marker_tokens(done), marker_tokens(done).len() as int),
                blocks@.len() == marker_tokens(done).len() / 3,
                forall|g: int| 0 <= g < blocks@.len() ==> block_is(#[trigger] blocks@[g], content, marker_tokens(done), g),
                open_state_is(state@, content, marker_tokens(done), marker_tokens(done).len() as int),
                forall|j: int| 0 <= j < state@.len() ==> span_fits(#[trigger] state@[j], content@),
                forall|g: int, i: int| 0 <= g < blocks@.len() && 0 <= i < 3 ==> span_fits(#[trigger] blocks@[g]@[i], content@),
                forall|k: int| 0 <= k < marker_tokens(done).len() ==> (#[trigger] marker_tokens(done)[k]).2 <= pos,
            decreases bv.len() - pos,
        {
            let mut q = pos;
            let mut found: Option<usize> = None;
            while q < b.len()
                invariant_except_break
                    found is None,
                invariant
                    pos <= q <= bv.len(),
                    bv == b@,
                    mv == seq![ms[0]@, ms[1]@, ms[2]@],
                    forall|j: int| pos <= j < q ==> token_kind_at(bv, j, mv) < 0,
                ensures
                    pos <= q <= bv.len(),
                    forall|j: int| pos <= j < q ==> token_kind_at(bv, j, mv) < 0,
                    found is None ==> q == bv.len(),
                    found matches Some(k) ==> q < bv.len() && k < 4 && k == token_kind_at(bv, q as int, mv),
                decreases bv.len() - q,
            {
                match token_at(b, q, &ms) {
                    Some(k) => {
                        found = Some(k);
                        break;
                    },
                    None => {
                        q += 1;
                    },
                }
            }
            proof {
                lemma_tokens_skip(bv, mv, pos as int, q as int);
                lemma_no_token_no_break(bv, mv, pos as int, q as int);
                lemma_no_break_across(bv, pos as int, q as int);
            }
            match found {
                None => {
                    pos = b.len();
                    proof {
                        assert(q == bv.len());
                        assert(tokens(bv, mv, pos as int) =~= Seq::<Token>::empty());
                    }
                },
                Some(k) => {
                    let ghost t: Token = (k as int, q as int, token_end(q as int, k as int, mv));
                    proof {
                        assert(q < bv.len());
                        assert(tokens(bv, mv, q as int) == seq![t] + tokens(bv, mv, t.2));
                        assert(done + (seq![t] + tokens(bv, mv, t.2)) =~= done.push(t) + tokens(bv, mv, t.2));
                        lemma_marker_tokens_push(done, t);
                    }
                    if k == 3 {
                        proof {
                            lemma_breaks_bounds(bv, q as int);
                            assert(breaks_before(bv, q + 1) == breaks_before(bv, q as int) + 1);
                            assert(line_begin(bv, q + 1) == q + 1);
                        }
                        line_start = SourceLocation { line: line_start.line + 1, col: 0, offset: q + 1 };
                        pos = q + 1;
                        proof {
                            done = done.push(t);
                        }
                    } else {
                        let e = q + ms[k].len();
                        proof {
                            assert(ms[k as int]@ == mv[k as int]);
                            assert(bytes_at(bv, q as int, mv[k as int]));
                            assert forall|j: int| q <= j < e implies bv[j] != 10 by {
                                assert(bv[j] == bv.subrange(q as int, e as int)[j - q]);
                                assert(mv[k as int][j - q] != 10);
                            }
                            lemma_no_inner_newlines(bv, q as int, e as int);
                            lemma_breaks_bounds(bv, q as int);
                            lemma_no_break_across(bv, q as int, e as int);
                            assert(content.spec_bytes() == bv);
                        }
                        let span = SourceSpan::from_range(content, q..e, &mut line_start);
                        let marker = SourceMarker { kind: kind_at_index(k), span };
                        proof {
                            encode_utf8_valid_utf8(content@);
                            encode_utf8_valid_utf8(markers.0[k as int]@);
                            assert(mv[k as int] == encode_utf8(markers.0[k as int]@));
                            lemma_match_boundaries(bv, q as int, mv[k as int]);
                            assert(span_fits(marker, content@));
                        }
                        let ghost occ = marker_tokens(done);
                        proof {
                            assert(source_marker_is(marker, content, t));
                            assert(marker_tokens(done.push(t)) == occ.push(t));
                        }
                        if k != state.len() {
                            proof {
                                let full = marker_tokens(tokens(bv, mv, 0));
                                Seq::filter_distributes_over_add(done.push(t), tokens(bv, mv, t.2), |x: Token| x.0 < 3);
                                assert(full == occ.push(t) + marker_tokens(tokens(bv, mv, t.2)));
                                assert(full[occ.len() as int] == t);
                                assert forall|kk: int| 0 <= kk < occ.len() implies (#[trigger] full[kk]).0 == kk % 3 by {
                                    assert(full[kk] == occ[kk]);
                                }
                                assert forall|j: int| 0 <= j < state@.len() implies source_marker_is(
                                    #[trigger] state@[j],
                                    content,
                                    full[occ.len() - occ.len() % 3 + j],
                                ) by {
                                    assert(full[occ.len() - occ.len() % 3 + j] == occ[occ.len() - occ.len() % 3 + j]);
                                }
                                assert(kinds_in_order(full, occ.len() as int));
                                assert(open_state_is(state@, content, full, occ.len() as int));
                                assert(full == content_markers(content@, *markers));
                                assert(full[occ.len() as int].0 != occ.len() % 3);
                                assert(source_marker_is(marker, content, full[occ.len() as int]));
                                assert(marker.span.content == content);
                            }
                            return Err(ParseError {
                                kind: ParseErrorKind::UnexpectedMarker(marker),
                                ctx: ParseErrorContext { markers, filename, content, parse_state: state },
                            });
                        }
                        let ghost old_state = state@;
                        state.push(marker);
                        proof {
                            done = done.push(t);
                            let occ2 = marker_tokens(done);
                            assert(occ2 == occ.push(t));
                            assert forall|g: int| 0 <= g < blocks@.len() implies block_is(#[trigger] blocks@[g], content, occ2, g) by {
                                assert forall|i: int| 0 <= i < 3 implies source_marker_is(#[trigger] blocks@[g]@[i], content, occ2[3 * g + i]) by {
                                    assert(block_is(blocks@[g], content, occ, g));
                                    assert(occ2[3 * g + i] == occ[3 * g + i]);
                                }
                            }
                            assert forall|j: int| 0 <= j < state@.len() implies source_marker_is(#[trigger] state@[j], content, occ2[occ.len() - occ.len() % 3 + j]) by {
                                if j < old_state.len() {
                                    assert(state@[j] == old_state[j]);
                                    assert(occ2[occ.len() - occ.len() % 3 + j] == occ[occ.len() - occ.len() % 3 + j]);
                                } else {
                                    assert(occ2[occ.len() - occ.len() % 3 + j] == t);
                                }
                            }
                        }
                        if state.len() == 3 {
                            let c = state.pop().unwrap();
                            let m1 = state.pop().unwrap();
                            let m0 = state.pop().unwrap();
                            let ghost old_blocks = blocks@;
                            blocks.push([m0, m1, c]);
                            proof {
                                let occ2 = marker_tokens(done);
                                let g = old_blocks.len() as int;
                                assert(occ.len() - occ.len() % 3 == 3 * g);
                                assert forall|i: int| 0 <= i < 3 implies source_marker_is(#[trigger] blocks@[g]@[i], content, occ2[3 * g + i]) by {
                                    if i == 0 {
                                        assert(blocks@[g]@[0] == m0);
                                    } else if i == 1 {
                                        assert(blocks@[g]@[1] == m1);
                                    } else {
                                        assert(blocks@[g]@[2] == c);
                                    }
                                }
                                assert(block_is(blocks@[g], content, occ2, g));
                                assert forall|gg: int| 0 <= gg < blocks@.len() implies block_is(#[trigger] blocks@[gg], content, occ2, gg) by {
                                    if gg < g {
                                        assert(blocks@[gg] == old_blocks[gg]);
                                    }
                                }
                                assert(state@.len() == 0);
                                assert forall|gg: int, i: int| 0 <= gg < blocks@.len() && 0 <= i < 3 implies span_fits(#[trigger] blocks@[gg]@[i], content@) by {
                                    if gg < g {
                                        assert(blocks@[gg] == old_blocks[gg]);
                                    } else if i == 0 {
                                        assert(blocks@[g]@[0] == m0);
                                    } else if i == 1 {
                                        assert(blocks@[g]@[1] == m1);
                                    } else {
                                        assert(blocks@[g]@[2] == c);
                                    }
                                }
                            }
                        } else {
                            proof {
                                let occ2 = marker_tokens(done);
                                assert(occ2.len() - occ2.len() % 3 == occ.len() - occ.len() % 3);
                            }
                        }
                        pos = e;
                    }
                },
            }
        }
        proof {
            assert(tokens(bv, mv, pos as int) =~= Seq::<Token>::empty());
            assert(done + Seq::<Token>::empty() =~= done);
        }
        if state.len() > 0 {
            return Err(ParseError {
                kind: ParseErrorKind::UnexpectedEOF,
                ctx: ParseErrorContext { markers, filename, content, parse_state: state },
            });
        }
        Ok(ParsedFile { filename, content, markers, blocks })
    }
}

} // verus!
