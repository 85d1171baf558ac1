//! Matching the markers found in a text into blocks.
//!
//! Markers must come in the order program start, program end, output end,
//! block after block. When lines are checked, a marker other than a program
//! end must also be on a later line than the marker before it.
use vstd::prelude::*;

use crate::args::{Args, Pipe};
use crate::parse::block::{Block, BlockMarkers};
use crate::parse::errors::{MarkerError, MarkerErrorKind};
use crate::parse::loc::{fits, Loc};
use crate::parse::marker_inst::{loc_at, MarkerInst};
use crate::parse::marker_kind::MarkerKind;
use crate::parse::program::{has_nl, program_lines};
use crate::parse::scan::{find_markers, found_view, marker_views, markers_wf, scan};
use crate::text::chars_of;

verus! {

/// A marker occurrence: kind index, start and end character positions.
pub type FoundModel = (int, int, int);

/// The occurrence a marker of kind index `kind_idx` stands for: its kind and
/// the character positions where it starts and ends.
pub open spec fn occurrence(kind_idx: int, m: MarkerInst) -> FoundModel {
    (kind_idx, m.span.start.index as int, m.span.end.index as int)
}

/// The marker `m` is the occurrence `f` of `text`.
pub open spec fn marker_matches(m: MarkerInst, text: Seq<char>, f: FoundModel) -> bool {
    m.kind.spec_index() == f.0 && m.located_in(text, f.1, f.2)
}

/// The block `b` is the one that occurrences `3g`, `3g+1` and `3g+2` of `found` delimit.
pub open spec fn block_matches(b: Block, text: Seq<char>, found: Seq<FoundModel>, g: int) -> bool {
    &&& marker_matches(b.markers.prog_start, text, found[3 * g])
    &&& marker_matches(b.markers.prog_end, text, found[3 * g + 1])
    &&& marker_matches(b.markers.outp_end, text, found[3 * g + 2])
    &&& b.describes(text, b.markers)
}

/// Occurrence `k` of `found` is acceptable where it stands: it is of the kind
/// expected next; when lines are checked, it is on a later line than the one
/// before it unless it is a program end; and if it closes a block, the
/// program end and output end markers of that block are on different lines.
pub open spec fn step_ok(text: Seq<char>, found: Seq<FoundModel>, k: int, check_lines: bool) -> bool {
    &&& found[k].0 == k % 3
    &&& (check_lines && k > 0 && found[k].0 != 1) ==> has_nl(text, found[k - 1].1, found[k].1)
    &&& k % 3 == 2 ==> program_lines(
        text,
        found[k - 2].1,
        found[k - 2].2,
        found[k - 1].1,
        found[k].1,
    ) is Some
}

/// The first `n` occurrences are acceptable.
pub open spec fn steps_ok(text: Seq<char>, found: Seq<FoundModel>, n: int, check_lines: bool) -> bool {
    forall|k: int| 0 <= k < n ==> step_ok(text, found, k, check_lines)
}

/// The occurrences are markers of `text`, within lines, one after the other.
pub open spec fn found_ordered(text: Seq<char>, found: Seq<FoundModel>) -> bool {
    &&& forall|k: int|
        0 <= k < found.len() ==> 0 <= (#[trigger] found[k]).0 < 3 && 0 <= found[k].1
            <= found[k].2 <= text.len() && !has_nl(text, found[k].1, found[k].2)
    &&& forall|k: int| 0 <= k < found.len() - 1 ==> (#[trigger] found[k]).2 <= found[k + 1].1
}

/// `open` holds the markers of the block that is open before occurrence `k`.
pub open spec fn open_matches(open: Seq<MarkerInst>, text: Seq<char>, found: Seq<FoundModel>, k: int) -> bool {
    &&& open.len() == k % 3
    &&& forall|j: int| 0 <= j < open.len() ==> marker_matches(#[trigger] open[j], text, found[k - k % 3 + j])
}

/// The blocks and open markers after the occurrences `found`.
pub open spec fn state_matches(open: Seq<MarkerInst>, blocks: Seq<Block>, text: Seq<char>, found: Seq<FoundModel>) -> bool {
    &&& open_matches(open, text, found, found.len() as int)
    &&& blocks.len() == found.len() / 3
    &&& forall|g: int| 0 <= g < blocks.len() ==> block_matches(#[trigger] blocks[g], text, found, g)
}

/// Matching `found` into blocks succeeded with `blocks`.
pub open spec fn parse_succeeded(text: Seq<char>, found: Seq<FoundModel>, check_lines: bool, blocks: Seq<Block>) -> bool {
    &&& steps_ok(text, found, found.len() as int, check_lines)
    &&& found.len() % 3 == 0
    &&& blocks.len() == found.len() / 3
    &&& forall|g: int| 0 <= g < blocks.len() ==> block_matches(#[trigger] blocks[g], text, found, g)
}

/// Matching `found` into blocks failed with `e`, at the first occurrence that is
/// not acceptable, or at the end of the text inside a block.
pub open spec fn parse_failed(text: Seq<char>, found: Seq<FoundModel>, check_lines: bool, e: MarkerError) -> bool {
    match e.kind {
        MarkerErrorKind::UnexpectedMarker(m) => exists|k: int|
            0 <= k < found.len() && steps_ok(text, found, k, check_lines) && found[k].0 != k % 3
                && marker_matches(m, text, #[trigger] found[k]) && open_matches(
                e.open_markers@,
                text,
                found,
                k,
            ),
        MarkerErrorKind::MarkerOnSameLine(m) => exists|k: int|
            0 <= k < found.len() && steps_ok(text, found, k, check_lines) && found[k].0 == k % 3
                && !step_ok(text, found, k, check_lines) && marker_matches(
                m,
                text,
                #[trigger] found[k],
            ) && open_matches(e.open_markers@, text, found, k),
        MarkerErrorKind::UnexpectedEOF => steps_ok(text, found, found.len() as int, check_lines)
            && found.len() % 3 != 0 && open_matches(
            e.open_markers@,
            text,
            found,
            found.len() as int,
        ),
    }
}

/// Appending an acceptable occurrence keeps the earlier ones acceptable.
pub proof fn lemma_steps_push(text: Seq<char>, found: Seq<FoundModel>, f: FoundModel, check_lines: bool)
    requires
        steps_ok(text, found, found.len() as int, check_lines),
        step_ok(text, found.push(f), found.len() as int, check_lines),
    ensures
        steps_ok(text, found.push(f), found.len() + 1int, check_lines),
{
    let nf = found.push(f);
    assert forall|k: int| 0 <= k < found.len() + 1 implies step_ok(text, nf, k, check_lines) by {
        if k < found.len() {
            lemma_step_ok_prefix(text, nf, found.len() as int, k, check_lines);
            assert(nf.take(found.len() as int) =~= found);
        }
    }
}

/// Whether an occurrence is acceptable depends only on the occurrences up to it.
pub proof fn lemma_step_ok_prefix(text: Seq<char>, found: Seq<FoundModel>, n: int, k: int, check_lines: bool)
    requires
        0 <= k < n <= found.len(),
    ensures
        step_ok(text, found, k, check_lines) == step_ok(text, found.take(n), k, check_lines),
{
    let t = found.take(n);
    assert(t[k] == found[k]);
    if k > 0 {
        assert(t[k - 1] == found[k - 1]);
    }
    if k > 1 {
        assert(t[k - 2] == found[k - 2]);
    }
}

/// Blocks matched to earlier occurrences stay matched when more are appended.
pub proof fn lemma_blocks_push(blocks: Seq<Block>, text: Seq<char>, found: Seq<FoundModel>, f: FoundModel)
    requires
        blocks.len() <= found.len() / 3,
        forall|g: int| 0 <= g < blocks.len() ==> block_matches(#[trigger] blocks[g], text, found, g),
    ensures
        forall|g: int| 0 <= g < blocks.len() ==> block_matches(#[trigger] blocks[g], text, found.push(f), g),
{
    let nf = found.push(f);
    assert forall|g: int| 0 <= g < blocks.len() implies block_matches(#[trigger] blocks[g], text, nf, g) by {
        assert(block_matches(blocks[g], text, found, g));
        assert(nf[3 * g] == found[3 * g]);
        assert(nf[3 * g + 1] == found[3 * g + 1]);
        assert(nf[3 * g + 2] == found[3 * g + 2]);
    }
}

/// Facts about the first `k` (or `k + 1`) occurrences carry over from a prefix
/// to the whole sequence.
pub proof fn lemma_prefix_facts(text: Seq<char>, fv: Seq<FoundModel>, k: int, check_lines: bool, open: Seq<MarkerInst>)
    requires
        0 <= k < fv.len(),
        steps_ok(text, fv.take(k), k, check_lines),
        !step_ok(text, fv.take(k + 1), k, check_lines),
        open_matches(open, text, fv.take(k), k),
    ensures
        steps_ok(text, fv, k, check_lines),
        !step_ok(text, fv, k, check_lines),
        open_matches(open, text, fv, k),
{
    assert forall|q: int| 0 <= q < k implies step_ok(text, fv, q, check_lines) by {
        lemma_step_ok_prefix(text, fv, k, q, check_lines);
    }
    lemma_step_ok_prefix(text, fv, k + 1, k, check_lines);
    assert forall|j: int| 0 <= j < open.len() implies marker_matches(#[trigger] open[j], text, fv[k - k % 3 + j]) by {
        assert(fv.take(k)[k - k % 3 + j] == fv[k - k % 3 + j]);
    }
}

/// Collects markers into blocks, one block per three markers.
pub struct BlockBuilder<'a> {
    pub content: &'a str,
    pub chars: Vec<char>,
    pub state: Vec<MarkerInst<'a>>,
    pub blocks: Vec<Block<'a>>,
    /// The occurrences pushed so far
    pub found: Ghost<Seq<FoundModel>>,
}

impl<'a> BlockBuilder<'a> {
    /// The builder's state follows from the occurrences pushed so far, all of
    /// them acceptable without line checks.
    pub open spec fn wf(self) -> bool {
        &&& self.chars@ == self.content@
        &&& found_ordered(self.content@, self.found@)
        &&& steps_ok(self.content@, self.found@, self.found@.len() as int, false)
        &&& state_matches(self.state@, self.blocks@, self.content@, self.found@)
    }

    /// An empty builder for the blocks of `content`.
    pub fn new(content: &'a str) -> (res: BlockBuilder<'a>)
        ensures
            res.wf(),
            res.content == content,
            res.found@ == Seq::<FoundModel>::empty(),
    {
        BlockBuilder {
            content,
            chars: chars_of(content),
            state: Vec::new(),
            blocks: Vec::new(),
            found: Ghost(Seq::empty()),
        }
    }

    /// Adds `marker`, a marker of `content` of kind `kind_idx`,
    /// after the markers pushed before. Fails if the kind is not the one
    /// expected next, or if the marker closes a block whose program end and
    /// output end markers share a line.
    #[verifier::spinoff_prover]
    pub fn push_marker(&mut self, kind_idx: usize, marker: MarkerInst<'a>) -> (res: Result<(), MarkerError<'a>>)
        requires
            old(self).wf(),
            kind_idx < 3,
            marker_matches(marker, old(self).content@, occurrence(kind_idx as int, marker)),
            found_ordered(old(self).content@, old(self).found@.push(occurrence(kind_idx as int, marker))),
        ensures
            final(self).content == old(self).content,
            match res {
                Ok(()) => {
                    &&& final(self).wf()
                    &&& final(self).found@ == old(self).found@.push(occurrence(kind_idx as int, marker))
                },
                Err(e) => {
                    &&& *final(self) == *old(self)
                    &&& e.open_markers@ == old(self).state@
                    &&& !step_ok(old(self).content@, old(self).found@.push(occurrence(kind_idx as int, marker)), old(self).found@.len() as int, false)
                    &&& if kind_idx == old(self).state@.len() {
                        e.kind == MarkerErrorKind::MarkerOnSameLine(marker)
                    } else {
                        e.kind == MarkerErrorKind::UnexpectedMarker(marker)
                    }
                },
            },
    {
        let ghost f = occurrence(kind_idx as int, marker);
        let ghost text = self.content@;
        let ghost n = self.found@.len() as int;
        let ghost nf = self.found@.push(f);
        proof {
            assert(nf[n] == f);
            assert forall|k: int| 0 <= k < n implies #[trigger] nf[k] == self.found@[k] by {}
        }
        if kind_idx != self.state.len() {
            let state = self.state.clone();
            proof {
                assert(state@ =~= self.state@);
                assert(n % 3 == self.state@.len());
            }
            return Err(MarkerError { kind: MarkerErrorKind::UnexpectedMarker(marker), open_markers: state });
        }
        if self.state.len() == 2 {
            let markers = BlockMarkers { prog_start: self.state[0], prog_end: self.state[1], outp_end: marker };
            proof {
                let r = 2int;
                assert(marker_matches(self.state@[0], text, self.found@[n - r]));
                assert(marker_matches(self.state@[1], text, self.found@[n - r + 1]));
                assert(nf[n - 2] == self.found@[n - 2]);
                assert(nf[n - 1] == self.found@[n - 1]);
                assert(nf[n - 2].2 <= nf[n - 1].1);
                assert(nf[n - 1].2 <= nf[n].1);
                assert(step_ok(text, self.found@, n - 2, false));
                assert(step_ok(text, self.found@, n - 1, false));
                assert(markers.located_in(text));
            }
            match Block::from_chars(self.content, self.chars.as_slice(), markers) {
                Ok(block) => {
                    let ghost old_blocks = self.blocks@;
                    self.blocks.push(block);
                    self.state = Vec::new();
                    self.found = Ghost(nf);
                    proof {
                        lemma_steps_push(text, old(self).found@, f, false);
                        lemma_blocks_push(old_blocks, text, old(self).found@, f);
                        assert forall|g: int| 0 <= g < self.blocks@.len() implies block_matches(#[trigger] self.blocks@[g], text, nf, g) by {
                            if g < old_blocks.len() {
                                assert(self.blocks@[g] == old_blocks[g]);
                            } else {
                                assert(3 * g == n - 2);
                            }
                        }
                        assert(open_matches(self.state@, text, nf, nf.len() as int));
                    }
                    Ok(())
                },
                Err(_) => {
                    let state = self.state.clone();
                    proof {
                        assert(state@ =~= self.state@);
                    }
                    Err(MarkerError { kind: MarkerErrorKind::MarkerOnSameLine(marker), open_markers: state })
                },
            }
        } else {
            let ghost old_state = self.state@;
            self.state.push(marker);
            self.found = Ghost(nf);
            proof {
                lemma_steps_push(text, old(self).found@, f, false);
                lemma_blocks_push(self.blocks@, text, old(self).found@, f);
                assert forall|j: int| 0 <= j < self.state@.len() implies marker_matches(#[trigger] self.state@[j], text, nf[nf.len() - (nf.len() % 3) + j]) by {
                    if j < old_state.len() {
                        assert(self.state@[j] == old_state[j]);
                        assert(marker_matches(old_state[j], text, old(self).found@[n - n % 3 + j]));
                    }
                }
            }
            Ok(())
        }
    }

    /// The blocks, if no block is left open.
    pub fn finish(self) -> (res: Result<Vec<Block<'a>>, MarkerError<'a>>)
        requires
            self.wf(),
        ensures
            match res {
                Ok(blocks) => parse_succeeded(self.content@, self.found@, false, blocks@),
                Err(e) => parse_failed(self.content@, self.found@, false, e),
            },
    {
        if self.state.len() == 0 {
            Ok(self.blocks)
        } else {
            Err(MarkerError { kind: MarkerErrorKind::UnexpectedEOF, open_markers: self.state })
        }
    }
}

/// A source together with its content and the arguments it is parsed with.
#[derive(Debug)]
pub struct FileContext<'a> {
    /// The filename or input stream containing CogShell block(s)
    pub source: &'a Pipe,
    /// The content of the source
    pub content: String,
    /// Config used to parse the source
    pub config: &'a Args,
}

impl<'a> FileContext<'a> {
    /// The context of `content`, read from `source`.
    pub fn new(source: &'a Pipe, content: String, config: &'a Args) -> (res: FileContext<'a>)
        ensures
            res.source == source,
            res.content == content,
            res.config == config,
    {
        FileContext { source, content, config }
    }
}

/// A parsed source: its context and its blocks.
#[derive(Debug)]
pub struct File<'a> {
    /// The context used to parse the file
    pub ctx: &'a FileContext<'a>,
    /// The CogShell code blocks parsed from the file
    pub blocks: Vec<Block<'a>>,
}

/// The marker occurrences of a text with the markers `ms`.
pub open spec fn text_markers(text: Seq<char>, ms: Seq<Seq<char>>) -> Seq<FoundModel> {
    scan(text, ms, 0)
}

/// A proof that the occurrences that `scan` finds are ordered and within lines.
pub proof fn lemma_scan_ordered(text: Seq<char>, ms: Seq<Seq<char>>, i: int)
    requires
        markers_wf(ms),
        0 <= i,
    ensures
        found_ordered(text, scan(text, ms, i)),
        forall|k: int| 0 <= k < scan(text, ms, i).len() ==> i <= (#[trigger] scan(text, ms, i)[k]).1,
    decreases text.len() - i,
{
    if i < text.len() {
        let s = scan(text, ms, i);
        match crate::parse::scan::kind_at(text, i, ms) {
            Some(k) => {
                let e = i + ms[k].len();
                lemma_scan_ordered(text, ms, e);
                let rest = scan(text, ms, e);
                assert(s == seq![(k, i, e)] + rest);
                assert(text.subrange(i, e) == ms[k]);
                assert forall|j: int| i <= j < e implies text[j] != '\n' by {
                    assert(text[j] == text.subrange(i, e)[j - i]);
                    assert(ms[k][j - i] != '\n');
                }
                assert forall|q: int| 0 <= q < s.len() implies 0 <= (#[trigger] s[q]).0 < 3 && 0 <= s[q].1
                    <= s[q].2 <= text.len() && !has_nl(text, s[q].1, s[q].2) by {
                    if q > 0 {
                        assert(s[q] == rest[q - 1]);
                    }
                }
                assert forall|q: int| 0 <= q < s.len() - 1 implies (#[trigger] s[q]).2 <= s[q + 1].1 by {
                    if q > 0 {
                        assert(s[q] == rest[q - 1]);
                        assert(s[q + 1] == rest[q]);
                    } else {
                        assert(s[1] == rest[0]);
                    }
                }
                assert forall|q: int| 0 <= q < s.len() implies i <= (#[trigger] s[q]).1 by {
                    if q > 0 {
                        assert(s[q] == rest[q - 1]);
                    }
                }
            },
            None => {
                lemma_scan_ordered(text, ms, i + 1);
            },
        }
    }
}

impl<'a> File<'a> {
    /// Parses the blocks of a source: finds the markers and matches them into blocks.
    pub fn from(ctx: &'a FileContext<'a>) -> (res: Result<File<'a>, MarkerError<'a>>)
        requires
            markers_wf(ctx.config.markers.views()),
            fits(loc_at(ctx.content@, ctx.content@.len() as int)),
        ensures
            match res {
                Ok(file) => file.ctx == ctx && parse_succeeded(
                    ctx.content@,
                    text_markers(ctx.content@, ctx.config.markers.views()),
                    false,
                    file.blocks@,
                ),
                Err(e) => parse_failed(
                    ctx.content@,
                    text_markers(ctx.content@, ctx.config.markers.views()),
                    false,
                    e,
                ),
            },
    {
        let content: &'a str = ctx.content.as_str();
        let ms = ctx.config.markers.marker_chars();
        let mut builder = BlockBuilder::new(content);
        let found = find_markers(builder.chars.as_slice(), ms.as_slice());
        let ghost fv = found_view(found@);
        proof {
            lemma_scan_ordered(content@, marker_views(ms@), 0);
        }
        let mut i: usize = 0;
        let mut at = Loc::origin();
        let mut pos: usize = 0;
        proof {
            assert(fv.take(0) =~= Seq::<FoundModel>::empty());
            assert(content@.take(0) =~= Seq::<char>::empty());
            assert(marker_views(ms@) == ctx.config.markers.views());
        }
        while i < found.len()
            invariant
                builder.wf(),
                builder.content == content,
                content@ == ctx.content@,
                fv == found_view(found@),
                fv == scan(content@, marker_views(ms@), 0),
                marker_views(ms@) == ctx.config.markers.views(),
                found_ordered(content@, fv),
                forall|k: int| 0 <= k < found@.len() ==> (#[trigger] found@[k]).0 < 3 && found@[k].1 < found@[k].2 <= content@.len(),
                fits(loc_at(content@, content@.len() as int)),
                i <= found@.len(),
                builder.found@ == fv.take(i as int),
                pos <= content@.len(),
                at.model() == loc_at(content@, pos as int),
                i > 0 ==> pos == found@[i - 1].2,
                i == 0 ==> pos == 0,
            decreases found@.len() - i,
        {
            let (k, s, e) = found[i];
            proof {
                assert(fv[i as int] == (k as int, s as int, e as int));
                if i > 0 {
                    assert(fv[i - 1].2 <= fv[i as int].1);
                }
                crate::parse::loc::lemma_advance_concat((0int, 0int, 0int, 0int), content@.take(pos as int), content@.subrange(pos as int, s as int));
                assert(content@.take(pos as int) + content@.subrange(pos as int, s as int) =~= content@.take(s as int));
                crate::parse::loc::lemma_advance_mono((0int, 0int, 0int, 0int), content@, s as int, content@.len() as int);
                assert(content@.take(content@.len() as int) =~= content@);
                crate::parse::loc::lemma_advance_col_le_offset((0int, 0int, 0int, 0int), content@.take(s as int));
                crate::parse::loc::lemma_advance_components((0int, 0int, 0int, 0int), content@.take(s as int));
            }
            let start_loc = at.add_chars(builder.chars.as_slice(), pos, s);
            let kind = MarkerKind::from_index(k);
            let marker = MarkerInst::locate(kind, content, builder.chars.as_slice(), s, e, start_loc);
            proof {
                assert(fv.take(i as int).push(fv[i as int]) =~= fv.take(i + 1));
                assert forall|q: int| 0 <= q < fv.take(i + 1).len() implies #[trigger] fv.take(i + 1)[q] == fv[q] by {}
            }
            match builder.push_marker(k, marker) {
                Ok(()) => {},
                Err(err) => {
                    proof {
                        lemma_prefix_facts(content@, fv, i as int, false, err.open_markers@);
                        assert(marker_matches(marker, content@, fv[i as int]));
                    }
                    return Err(err);
                },
            }
            at = marker.span.end;
            pos = e;
            i += 1;
        }
        proof {
            assert(fv.take(found@.len() as int) =~= fv);
        }
        match builder.finish() {
            Ok(blocks) => Ok(File { ctx, blocks }),
            Err(e) => Err(e),
        }
    }
}

} // verus!
