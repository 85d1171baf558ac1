//! Running the blocks' programs: the decisions around the process that runs
//! them. The process prints, for the prologue and then for each block, the
//! output lines followed by a terminator line; the output file is the source
//! with each block's previous output replaced by its new output.
pub mod setup;
pub mod terminators;

use vstd::prelude::*;

use crate::parse::block::{Block, BlockMarkers};
use crate::parse::file::{found_ordered, marker_matches, parse_succeeded, step_ok, FoundModel};
use crate::parse::program::{output_end, output_start, has_nl, has_newline, lemma_output_bounds, line_end, line_start};
use crate::text::{chars_of, push_chars, push_str, string_push};

verus! {

/// A line without one trailing newline, if it has one.
pub open spec fn strip_nl(line: Seq<char>) -> Seq<char> {
    if line.len() > 0 && line.last() == '\n' {
        line.drop_last()
    } else {
        line
    }
}

/// An output line as written to the output: the prefix, the line without its
/// newline, the suffix and a newline.
pub open spec fn block_line(prefix: Seq<char>, suffix: Seq<char>, line: Seq<char>) -> Seq<char> {
    prefix + strip_nl(line) + suffix + seq!['\n']
}

/// Formats one line of a block's output.
pub fn write_block_line(prefix: &str, suffix: &str, line: &str) -> (res: String)
    ensures
        res@ == block_line(prefix@, suffix@, line@),
{
    let cs = chars_of(line);
    let n = if cs.len() > 0 && cs[cs.len() - 1] == '\n' {
        cs.len() - 1
    } else {
        cs.len()
    };
    let mut out = String::new();
    push_str(&mut out, prefix);
    push_chars(&mut out, &cs.as_slice()[0..n]);
    push_str(&mut out, suffix);
    string_push(&mut out, '\n');
    proof {
        assert(cs@.subrange(0, n as int) =~= strip_nl(line@));
    }
    out
}

/// The line that ends a segment: the terminator and a newline.
pub open spec fn is_terminator_line(line: Seq<char>, terminator: Seq<char>) -> bool {
    line == terminator.push('\n')
}

/// What to do after a line of the process's output.
#[derive(Debug, PartialEq, Eq)]
pub enum Step {
    /// Write this line, and read on
    Emit(String),
    /// Nothing to write yet; read on
    Pending,
    /// The segment is over; write this last line first, if any
    Done(Option<String>),
    /// The process's output ended inside a segment
    UnexpectedEof,
}

/// Reads one segment of the process's output (the prologue's, or a block's)
/// line by line. Each line is held back until the next one arrives; at the
/// terminator line the held line is written unless it is an empty line.
pub struct SegmentReader {
    pub prev: Option<String>,
}

/// The line held back, if it is to be written at the end of the segment.
pub open spec fn final_line(prev: Option<String>) -> Option<Seq<char>> {
    match prev {
        Some(p) => if p@ == seq!['\n'] {
            None
        } else {
            Some(p@)
        },
        None => None,
    }
}

impl SegmentReader {
    /// A reader at the start of a segment.
    pub fn new() -> (res: SegmentReader)
        ensures
            res.prev is None,
    {
        SegmentReader { prev: None }
    }

    /// Takes the next line (`None` at the end of the process's output).
    pub fn feed(&mut self, line: Option<String>, terminator: &str) -> (res: Step)
        ensures
            match line {
                None => res == Step::UnexpectedEof && final(self).prev == old(self).prev,
                Some(l) => if is_terminator_line(l@, terminator@) {
                    &&& final(self).prev is None
                    &&& match final_line(old(self).prev) {
                        Some(p) => res matches Step::Done(Some(s)) && s@ == p,
                        None => res == Step::Done(None),
                    }
                } else {
                    &&& final(self).prev == Some(l)
                    &&& match old(self).prev {
                        Some(p) => res matches Step::Emit(s) && s@ == p@,
                        None => res == Step::Pending,
                    }
                },
            },
    {
        match line {
            None => Step::UnexpectedEof,
            Some(l) => {
                let lc = chars_of(l.as_str());
                let tc = chars_of(terminator);
                let is_term = tc.len() < lc.len() && lc.len() - 1 == tc.len() && lc[tc.len()] == '\n'
                    && crate::parse::checksum::chars_equal(&lc.as_slice()[0..tc.len()], tc.as_slice());
                proof {
                    if is_term {
                        assert(lc@ =~= tc@.push('\n'));
                    } else if lc@ == tc@.push('\n') {
                        assert(lc@.subrange(0, tc@.len() as int) =~= tc@);
                    }
                }
                if is_term {
                    let prev = self.prev.take();
                    match prev {
                        Some(p) => {
                            let pc = chars_of(p.as_str());
                            if pc.len() == 1 && pc[0] == '\n' {
                                proof {
                                    assert(pc@ =~= seq!['\n']);
                                }
                                Step::Done(None)
                            } else {
                                Step::Done(Some(p))
                            }
                        },
                        None => Step::Done(None),
                    }
                } else {
                    let prev = self.prev.take();
                    self.prev = Some(l);
                    match prev {
                        Some(p) => Step::Emit(p),
                        None => Step::Pending,
                    }
                }
            },
        }
    }
}

/// The lines a segment writes, fed the lines `lines` and then its terminator:
/// all of them, but the last one if it is an empty line.
pub open spec fn segment_lines(lines: Seq<Seq<char>>) -> Seq<Seq<char>> {
    if lines.len() > 0 && lines.last() == seq!['\n'] {
        lines.drop_last()
    } else {
        lines
    }
}

/// The lines written so far by a reader after the lines `lines`, with the
/// line it holds back.
pub open spec fn emitted_before_end(lines: Seq<Seq<char>>) -> Seq<Seq<char>> {
    if lines.len() == 0 {
        Seq::empty()
    } else {
        lines.drop_last()
    }
}

/// Feeding a reader the lines of a segment and then its terminator writes
/// exactly the segment's lines, in order, but a last empty line.
pub proof fn lemma_segment_written(lines: Seq<Seq<char>>)
    ensures
        (if lines.len() > 0 && lines.last() != seq!['\n'] {
            emitted_before_end(lines).push(lines.last())
        } else {
            emitted_before_end(lines)
        }) == segment_lines(lines),
{
    if lines.len() > 0 && lines.last() != seq!['\n'] {
        assert(lines.drop_last().push(lines.last()) =~= lines);
    }
}

/// The output of one block: each of its lines with the prefix and the suffix.
pub open spec fn block_output(prefix: Seq<char>, suffix: Seq<char>, lines: Seq<Seq<char>>) -> Seq<char>
    decreases lines.len(),
{
    if lines.len() == 0 {
        Seq::empty()
    } else {
        block_output(prefix, suffix, lines.drop_last()) + block_line(prefix, suffix, lines.last())
    }
}

/// Where the output of a block starts and ends in the source.
pub open spec fn cut_points(text: Seq<char>, m: BlockMarkers) -> (int, int) {
    (output_start(text, m.prog_end.span.end.index as int), output_end(text, m.outp_end.span.start.index as int))
}

/// The markers of a block stand in order within `text`, with a line break
/// between the program end marker and the output end marker.
pub open spec fn markers_in_order(text: Seq<char>, m: BlockMarkers) -> bool {
    &&& m.prog_start.span.start.index <= m.prog_start.span.end.index
    &&& m.prog_start.span.end.index <= m.prog_end.span.start.index
    &&& m.prog_end.span.start.index <= m.prog_end.span.end.index
    &&& m.prog_end.span.end.index <= m.outp_end.span.start.index
    &&& m.outp_end.span.start.index <= m.outp_end.span.end.index
    &&& m.outp_end.span.end.index <= text.len()
    &&& has_nl(text, m.prog_end.span.end.index as int, m.outp_end.span.start.index as int)
}

/// The blocks are in order in the source, each with its output on lines of its own.
pub open spec fn blocks_in_order(text: Seq<char>, blocks: Seq<BlockMarkers>) -> bool {
    &&& forall|i: int| 0 <= i < blocks.len() ==> markers_in_order(text, #[trigger] blocks[i])
    &&& forall|i: int, j: int|
        0 <= i < j < blocks.len() ==> (#[trigger] blocks[i]).outp_end.span.end.index
            <= (#[trigger] blocks[j]).prog_start.span.start.index
}

/// The new source: from position `cursor` on, the text up to each block's
/// output, the block's new output, and after the last block the rest of the text.
pub open spec fn rendered(
    text: Seq<char>,
    blocks: Seq<BlockMarkers>,
    prefixes: Seq<Seq<char>>,
    outputs: Seq<Seq<Seq<char>>>,
    suffix: Seq<char>,
    cursor: int,
) -> Seq<char>
    decreases blocks.len(),
{
    if blocks.len() == 0 {
        text.subrange(cursor, text.len() as int)
    } else {
        let (s, e) = cut_points(text, blocks[0]);
        text.subrange(cursor, s) + block_output(prefixes[0], suffix, outputs[0]) + rendered(
            text,
            blocks.drop_first(),
            prefixes.drop_first(),
            outputs.drop_first(),
            suffix,
            e,
        )
    }
}

/// The markers of a sequence of blocks.
pub open spec fn block_markers(blocks: Seq<Block>) -> Seq<BlockMarkers> {
    blocks.map_values(|b: Block| b.markers)
}

/// The output prefixes of a sequence of blocks.
pub open spec fn block_prefixes(blocks: Seq<Block>) -> Seq<Seq<char>> {
    blocks.map_values(|b: Block| b.prog_whitespace_pfx@)
}

/// The views of the lines of each block's output.
pub open spec fn output_views(outputs: Seq<Vec<String>>) -> Seq<Seq<Seq<char>>> {
    outputs.map_values(|o: Vec<String>| o@.map_values(|l: String| l@))
}

/// Appends the lines of one block's output, each with the prefix and the suffix.
fn write_block_output(out: &mut String, prefix: &str, suffix: &str, lines: &Vec<String>)
    ensures
        final(out)@ == old(out)@ + block_output(prefix@, suffix@, lines@.map_values(|l: String| l@)),
{
    let ghost lv = lines@.map_values(|l: String| l@);
    let ghost mid = out@;
    let mut j: usize = 0;
    proof {
        assert(lv.take(0) =~= Seq::<Seq<char>>::empty());
        assert(mid + Seq::<char>::empty() =~= mid);
    }
    while j < lines.len()
        invariant
            j <= lines@.len(),
            lv == lines@.map_values(|l: String| l@),
            out@ == mid + block_output(prefix@, suffix@, lv.take(j as int)),
        decreases lines@.len() - j,
    {
        let line = write_block_line(prefix, suffix, lines[j].as_str());
        push_str(out, line.as_str());
        proof {
            assert(lv.take(j + 1).drop_last() =~= lv.take(j as int));
            assert(lv.take(j + 1).last() == lines@[j as int]@);
        }
        j += 1;
    }
    proof {
        assert(lv.take(lines@.len() as int) =~= lv);
    }
}

/// One step of the rendering: the text from the cursor to the block's output,
/// the block's new output, and what follows from the end of its old output.
proof fn lemma_rendered_step(
    text: Seq<char>,
    bm: Seq<BlockMarkers>,
    pf: Seq<Seq<char>>,
    ov: Seq<Seq<Seq<char>>>,
    suffix: Seq<char>,
    i: int,
    cursor: int,
)
    requires
        0 <= i < bm.len(),
        bm.len() == pf.len() == ov.len(),
    ensures
        rendered(text, bm.skip(i), pf.skip(i), ov.skip(i), suffix, cursor) == text.subrange(
            cursor,
            cut_points(text, bm[i]).0,
        ) + block_output(pf[i], suffix, ov[i]) + rendered(
            text,
            bm.skip(i + 1),
            pf.skip(i + 1),
            ov.skip(i + 1),
            suffix,
            cut_points(text, bm[i]).1,
        ),
{
    assert(bm.skip(i).drop_first() =~= bm.skip(i + 1));
    assert(pf.skip(i).drop_first() =~= pf.skip(i + 1));
    assert(ov.skip(i).drop_first() =~= ov.skip(i + 1));
    assert(bm.skip(i)[0] == bm[i]);
    assert(pf.skip(i)[0] == pf[i]);
    assert(ov.skip(i)[0] == ov[i]);
}

/// Whether the markers of a block stand in order within the characters `cs`,
/// with a line break between the program end and output end markers.
pub fn check_markers_in_order(cs: &[char], m: &BlockMarkers) -> (res: bool)
    ensures
        res == markers_in_order(cs@, *m),
{
    let ps = m.prog_start.span;
    let pe = m.prog_end.span;
    let oe = m.outp_end.span;
    ps.start.index <= ps.end.index && ps.end.index <= pe.start.index && pe.start.index <= pe.end.index
        && pe.end.index <= oe.start.index && oe.start.index <= oe.end.index && oe.end.index <= cs.len()
        && has_newline(cs, pe.end.index, oe.start.index)
}

/// Where the output of a block starts and ends in the characters of the source.
pub fn output_cut(cs: &[char], m: &BlockMarkers) -> (res: (usize, usize))
    requires
        markers_in_order(cs@, *m),
    ensures
        res.0 == cut_points(cs@, *m).0,
        res.1 == cut_points(cs@, *m).1,
        m.prog_end.span.end.index <= res.0 <= res.1 <= m.outp_end.span.start.index,
{
    let pe_e = m.prog_end.span.end.index;
    let oe_s = m.outp_end.span.start.index;
    proof {
        lemma_output_bounds(cs@, pe_e as int, oe_s as int);
    }
    let e = line_end(cs, pe_e);
    let s = if e < cs.len() { e + 1 } else { e };
    let t = line_start(cs, oe_s);
    (s, t)
}

/// Whether the blocks stand in order within `content`, each with its output on
/// lines of its own, as `render_output` requires.
pub fn check_blocks_in_order(content: &str, blocks: &[Block]) -> (res: bool)
    ensures
        res == blocks_in_order(content@, block_markers(blocks@)),
{
    let cs = chars_of(content);
    let ghost bm = block_markers(blocks@);
    let mut k: usize = 0;
    while k < blocks.len()
        invariant
            k <= blocks@.len(),
            cs@ == content@,
            bm == block_markers(blocks@),
            bm.len() == blocks@.len(),
            forall|i: int| 0 <= i < k ==> markers_in_order(cs@, #[trigger] bm[i]),
            forall|i: int, j: int|
                0 <= i < j < k ==> (#[trigger] bm[i]).outp_end.span.end.index <= (#[trigger] bm[j]).prog_start.span.start.index,
        decreases blocks@.len() - k,
    {
        assert(bm[k as int] == blocks@[k as int].markers);
        if !check_markers_in_order(cs.as_slice(), &blocks[k].markers) {
            return false;
        }
        if k > 0 {
            assert(bm[k - 1] == blocks@[k - 1].markers);
            if blocks[k - 1].markers.outp_end.span.end.index > blocks[k].markers.prog_start.span.start.index {
                proof {
                    assert(!((bm[k - 1]).outp_end.span.end.index <= (bm[k as int]).prog_start.span.start.index));
                }
                return false;
            }
            proof {
                assert forall|i: int, j: int| 0 <= i < j < k + 1 implies (#[trigger] bm[i]).outp_end.span.end.index
                    <= (#[trigger] bm[j]).prog_start.span.start.index by {
                    if j == k && i < k - 1 {
                        assert(bm[i].outp_end.span.end.index <= bm[k - 1].prog_start.span.start.index);
                        assert(markers_in_order(cs@, bm[k - 1]));
                    }
                }
            }
        }
        k += 1;
    }
    true
}

/// The new source from `content`, with the output of block `i` replaced by the
/// lines `outputs[i]`, each written with the block's prefix and with `suffix`.
pub fn render_output(content: &str, blocks: &[Block], outputs: &[Vec<String>], suffix: &str) -> (res: String)
    requires
        blocks@.len() == outputs@.len(),
        blocks_in_order(content@, block_markers(blocks@)),
    ensures
        res@ == rendered(
            content@,
            block_markers(blocks@),
            block_prefixes(blocks@),
            output_views(outputs@),
            suffix@,
            0,
        ),
{
    let cs = chars_of(content);
    let ghost text = content@;
    let ghost bm = block_markers(blocks@);
    let ghost pf = block_prefixes(blocks@);
    let ghost ov = output_views(outputs@);
    let mut out = String::new();
    let mut cursor: usize = 0;
    let mut i: usize = 0;
    proof {
        assert(bm.skip(0) =~= bm);
        assert(pf.skip(0) =~= pf);
        assert(ov.skip(0) =~= ov);
        assert(Seq::<char>::empty() + rendered(text, bm, pf, ov, suffix@, 0) =~= rendered(text, bm, pf, ov, suffix@, 0));
    }
    while i < blocks.len()
        invariant
            i <= blocks@.len() == outputs@.len(),
            cs@ == text,
            text == content@,
            bm == block_markers(blocks@),
            pf == block_prefixes(blocks@),
            ov == output_views(outputs@),
            blocks_in_order(text, bm),
            cursor <= text.len(),
            i < blocks@.len() ==> cursor <= bm[i as int].prog_start.span.start.index,
            out@ + rendered(text, bm.skip(i as int), pf.skip(i as int), ov.skip(i as int), suffix@, cursor as int)
                == rendered(text, bm, pf, ov, suffix@, 0),
        decreases blocks@.len() - i,
    {
        let block = &blocks[i];
        let pe_e = block.markers.prog_end.span.end.index;
        let oe_s = block.markers.outp_end.span.start.index;
        proof {
            assert(bm[i as int] == block.markers);
            assert(markers_in_order(text, bm[i as int]));
            lemma_output_bounds(text, pe_e as int, oe_s as int);
            assert(pf[i as int] == block.prog_whitespace_pfx@);
            assert(ov[i as int] == outputs@[i as int]@.map_values(|l: String| l@));
            lemma_rendered_step(text, bm, pf, ov, suffix@, i as int, cursor as int);
        }
        let (s, t) = output_cut(cs.as_slice(), &block.markers);
        push_chars(&mut out, &cs.as_slice()[cursor..s]);
        write_block_output(&mut out, block.prog_whitespace_pfx, suffix, &outputs[i]);
        proof {
            assert(cs@.subrange(cursor as int, s as int) == text.subrange(cursor as int, s as int));
            if i + 1 < blocks@.len() {
                assert(bm[i as int].outp_end.span.end.index <= bm[i + 1].prog_start.span.start.index);
            }
        }
        cursor = t;
        i += 1;
    }
    push_chars(&mut out, &cs.as_slice()[cursor..cs.len()]);
    proof {
        assert(bm.skip(i as int) =~= Seq::<BlockMarkers>::empty());
    }
    out
}

/// When each block's new output is exactly what stands in place of its
/// output, rendering gives back the source unchanged.
pub proof fn lemma_render_unchanged(
    text: Seq<char>,
    blocks: Seq<BlockMarkers>,
    prefixes: Seq<Seq<char>>,
    outputs: Seq<Seq<Seq<char>>>,
    suffix: Seq<char>,
    cursor: int,
)
    requires
        blocks.len() == prefixes.len() == outputs.len(),
        blocks_in_order(text, blocks),
        0 <= cursor <= text.len(),
        blocks.len() > 0 ==> cursor <= blocks[0].prog_start.span.start.index,
        forall|i: int|
            0 <= i < blocks.len() ==> block_output(#[trigger] prefixes[i], suffix, outputs[i])
                == text.subrange(cut_points(text, blocks[i]).0, cut_points(text, blocks[i]).1),
    ensures
        rendered(text, blocks, prefixes, outputs, suffix, cursor) == text.subrange(cursor, text.len() as int),
    decreases blocks.len(),
{
    if blocks.len() > 0 {
        let b = blocks[0];
        assert(markers_in_order(text, b));
        lemma_output_bounds(text, b.prog_end.span.end.index as int, b.outp_end.span.start.index as int);
        let (s, e) = cut_points(text, b);
        let rb = blocks.drop_first();
        assert forall|i: int| 0 <= i < rb.len() implies markers_in_order(text, #[trigger] rb[i]) by {
            assert(rb[i] == blocks[i + 1]);
        }
        assert forall|i: int, j: int| 0 <= i < j < rb.len() implies (#[trigger] rb[i]).outp_end.span.end.index
            <= (#[trigger] rb[j]).prog_start.span.start.index by {
            assert(rb[i] == blocks[i + 1]);
            assert(rb[j] == blocks[j + 1]);
        }
        assert forall|i: int| 0 <= i < rb.len() implies block_output(#[trigger] prefixes.drop_first()[i], suffix, outputs.drop_first()[i])
            == text.subrange(cut_points(text, rb[i]).0, cut_points(text, rb[i]).1) by {
            assert(rb[i] == blocks[i + 1]);
            assert(prefixes.drop_first()[i] == prefixes[i + 1]);
            assert(outputs.drop_first()[i] == outputs[i + 1]);
        }
        if rb.len() > 0 {
            assert(rb[0] == blocks[1]);
            assert(blocks[0].outp_end.span.end.index <= blocks[1].prog_start.span.start.index);
        }
        lemma_render_unchanged(text, rb, prefixes.drop_first(), outputs.drop_first(), suffix, e);
        assert(block_output(prefixes[0], suffix, outputs[0]) == text.subrange(s, e));
        assert(text.subrange(cursor, s) + text.subrange(s, e) + text.subrange(e, text.len() as int)
            =~= text.subrange(cursor, text.len() as int));
    }
}

/// Occurrences found in order end before the later ones start.
proof fn lemma_found_before(text: Seq<char>, found: Seq<FoundModel>, k: int, l: int)
    requires
        found_ordered(text, found),
        0 <= k < l < found.len(),
    ensures
        found[k].2 <= found[l].1,
    decreases l - k,
{
    if l > k + 1 {
        lemma_found_before(text, found, k, l - 1);
        assert(found[l - 1].1 <= found[l - 1].2);
        assert(found[l - 1].2 <= found[l].1);
    } else {
        assert(found[k].2 <= found[k + 1].1);
    }
}

/// The blocks of a successful parse stand in order in the source, each with
/// its output on lines of its own: what `render_output` asks of them.
pub proof fn lemma_parsed_blocks_in_order(text: Seq<char>, found: Seq<FoundModel>, check_lines: bool, blocks: Seq<Block>)
    requires
        parse_succeeded(text, found, check_lines, blocks),
        found_ordered(text, found),
    ensures
        blocks_in_order(text, block_markers(blocks)),
{
    let bm = block_markers(blocks);
    assert forall|g: int| 0 <= g < bm.len() implies markers_in_order(text, #[trigger] bm[g]) by {
        let b = blocks[g];
        assert(bm[g] == b.markers);
        assert(marker_matches(b.markers.prog_start, text, found[3 * g]));
        assert(marker_matches(b.markers.prog_end, text, found[3 * g + 1]));
        assert(marker_matches(b.markers.outp_end, text, found[3 * g + 2]));
        assert(step_ok(text, found, 3 * g + 2, check_lines));
        lemma_found_before(text, found, 3 * g, 3 * g + 1);
        lemma_found_before(text, found, 3 * g + 1, 3 * g + 2);
        let pe_s = found[3 * g + 1].1;
        let pe_e = found[3 * g + 1].2;
        let oe_s = found[3 * g + 2].1;
        assert(has_nl(text, pe_s, oe_s));
        let j = choose|j: int| pe_s <= j < oe_s && text[j] == '\n';
        if j < pe_e {
            assert(has_nl(text, pe_s, pe_e));
        }
        assert(has_nl(text, pe_e, oe_s));
    }
    assert forall|g: int, h: int| 0 <= g < h < bm.len() implies (#[trigger] bm[g]).outp_end.span.end.index
        <= (#[trigger] bm[h]).prog_start.span.start.index by {
        assert(bm[g] == blocks[g].markers);
        assert(bm[h] == blocks[h].markers);
        assert(marker_matches(blocks[g].markers.outp_end, text, found[3 * g + 2]));
        assert(marker_matches(blocks[h].markers.prog_start, text, found[3 * h]));
        lemma_found_before(text, found, 3 * g + 2, 3 * h);
    }
}

} // verus!
