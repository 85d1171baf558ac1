//! A source parsed into blocks.
use vstd::prelude::*;

use crate::parse::block::Block;
use crate::args::files::{file_display, Read, ReadOrWrite};
use crate::parse::errors::{err_unexpected_marker, error_report, lemma_failed_error_placed, plain_rendering, MarkerError, ReportKind};
use crate::parse::file::{found_ordered, lemma_prefix_facts, lemma_scan_ordered, marker_matches, parse_failed, parse_succeeded, text_markers, FoundModel};
use crate::parse::loc::{fits, Loc};
use crate::parse::marker_inst::{loc_at, MarkerInst};
use crate::parse::marker_kind::MarkerKind;
use crate::parse::parse_input::ParseInput;
use crate::parse::parse_state::ParseFileState;
use crate::parse::scan::{find_markers, found_view, marker_views, markers_wf, scan};

verus! {

/// A source parsed into blocks.
pub struct ParsedFile<'a, 'i> {
    pub input: &'i ParseInput<'a>,
    pub blocks: Vec<Block<'i>>,
}

impl<'a, 'i> ParsedFile<'a, 'i> {
    /// Parses the blocks of a source: finds the markers and matches them into
    /// blocks, with each marker's line checked against the marker before it.
    pub fn from(input: &'i ParseInput<'a>) -> (res: Result<ParsedFile<'a, 'i>, MarkerError<'i>>)
        requires
            markers_wf(input.args.markers.views()),
            fits(loc_at(input.content@, input.content@.len() as int)),
        ensures
            match res {
                Ok(file) => file.input == input && parse_succeeded(
                    input.content@,
                    text_markers(input.content@, input.args.markers.views()),
                    true,
                    file.blocks@,
                ),
                Err(e) => parse_failed(
                    input.content@,
                    text_markers(input.content@, input.args.markers.views()),
                    true,
                    e,
                ),
            },
    {
        let content: &'i str = input.content.as_str();
        let ms = input.args.markers.marker_chars();
        let mut state = ParseFileState::init(input);
        let found = find_markers(state.builder.chars.as_slice(), ms.as_slice());
        let ghost fv = found_view(found@);
        let ghost text = input.content@;
        proof {
            lemma_scan_ordered(text, marker_views(ms@), 0);
        }
        let mut i: usize = 0;
        let mut at = Loc::origin();
        let mut pos: usize = 0;
        proof {
            assert(fv.take(0) =~= Seq::<FoundModel>::empty());
            assert(text.take(0) =~= Seq::<char>::empty());
        }
        while i < found.len()
            invariant
                state.wf(),
                state.input == input,
                state.builder.content@ == text,
                text == input.content@,
                content@ == text,
                fv == found_view(found@),
                fv == scan(text, marker_views(ms@), 0),
                marker_views(ms@) == input.args.markers.views(),
                found_ordered(text, fv),
                forall|k: int| 0 <= k < found@.len() ==> (#[trigger] found@[k]).0 < 3 && found@[k].1 < found@[k].2 <= text.len(),
                fits(loc_at(text, text.len() as int)),
                i <= found@.len(),
                state.builder.found@ == fv.take(i as int),
                pos <= text.len(),
                at.model() == loc_at(text, pos as int),
                i > 0 ==> pos == found@[i - 1].2,
                i == 0 ==> pos == 0,
            decreases found@.len() - i,
        {
            let (k, s, e) = found[i];
            proof {
                assert(fv[i as int] == (k as int, s as int, e as int));
                if i > 0 {
                    assert(fv[i - 1].2 <= fv[i as int].1);
                }
                crate::parse::loc::lemma_advance_concat((0int, 0int, 0int, 0int), text.take(pos as int), text.subrange(pos as int, s as int));
                assert(text.take(pos as int) + text.subrange(pos as int, s as int) =~= text.take(s as int));
                crate::parse::loc::lemma_advance_mono((0int, 0int, 0int, 0int), text, s as int, text.len() as int);
                assert(text.take(text.len() as int) =~= text);
                crate::parse::loc::lemma_advance_col_le_offset((0int, 0int, 0int, 0int), text.take(s as int));
                crate::parse::loc::lemma_advance_components((0int, 0int, 0int, 0int), text.take(s as int));
            }
            let start_loc = at.add_chars(state.builder.chars.as_slice(), pos, s);
            let kind = MarkerKind::from_index(k);
            let marker = MarkerInst::locate(kind, content, state.builder.chars.as_slice(), s, e, start_loc);
            proof {
                assert(fv.take(i as int).push(fv[i as int]) =~= fv.take(i + 1));
                assert forall|q: int| 0 <= q < fv.take(i + 1).len() implies #[trigger] fv.take(i + 1)[q] == fv[q] by {}
            }
            match state.push_marker(marker) {
                Ok(()) => {},
                Err(err) => {
                    proof {
                        lemma_prefix_facts(text, fv, i as int, true, err.open_markers@);
                        assert(marker_matches(marker, text, fv[i as int]));
                    }
                    return Err(err);
                },
            }
            at = marker.span.end;
            pos = e;
            i += 1;
        }
        proof {
            assert(fv.take(found@.len() as int) =~= fv);
        }
        match state.finalize_file() {
            Ok(blocks) => Ok(ParsedFile { input, blocks }),
            Err(e) => Err(e),
        }
    }
}

/// Parses the blocks of a source, as `ParsedFile::from`; an error comes back
/// as the kind of failure and its report rendered as text, the source shown
/// under the name of the input.
pub fn parse_file<'a, 'i>(input: &'i ParseInput<'a>) -> (res: Result<ParsedFile<'a, 'i>, (ReportKind, String)>)
    requires
        markers_wf(input.args.markers.views()),
        fits(loc_at(input.content@, input.content@.len() as int)),
    ensures
        res matches Ok(file) ==> file.input == input && parse_succeeded(
            input.content@,
            text_markers(input.content@, input.args.markers.views()),
            true,
            file.blocks@,
        ),
        res matches Err((kind, msg)) ==> exists|e: MarkerError|
            parse_failed(input.content@, text_markers(input.content@, input.args.markers.views()), true, e)
                && kind == error_report(e, input.content@, input.args.markers.views()).0 && msg@
                == plain_rendering(
                error_report(e, input.content@, input.args.markers.views()).1,
                input.content@,
                file_display(input.source.arg, Read::spec_label()),
                error_report(e, input.content@, input.args.markers.views()).2,
            ),
{
    match ParsedFile::from(input) {
        Ok(file) => Ok(file),
        Err(e) => {
            proof {
                lemma_failed_error_placed(
                    input.content@,
                    text_markers(input.content@, input.args.markers.views()),
                    true,
                    e,
                );
                crate::parse::loc::lemma_advance_components((0int, 0int, 0int, 0int), input.content@);
                assert(input.content@.take(input.content@.len() as int) =~= input.content@);
            }
            let (kind, msg) = err_unexpected_marker(input, &e);
            Err((kind, msg))
        },
    }
}

} // verus!
