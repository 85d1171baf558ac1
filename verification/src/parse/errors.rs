//! Reports of the errors found while matching markers into blocks: their
//! title, the spans they point at, and their rendering as text.
use vstd::prelude::*;

use crate::args::marker_defs::MarkerDefs;
use crate::parse::file::{marker_matches, open_matches, parse_failed, steps_ok, FoundModel};
use crate::parse::loc::{lemma_advance_components, lemma_advance_mono};
use crate::parse::marker_inst::{origin, MarkerInst};
use crate::parse::marker_kind::MarkerKind;
use crate::parse::parse_input::ParseInput;
use crate::parse::parse_state::lemma_located_wf;
use crate::text::{chars_of, push_str, utf8_len, utf8_len_of};
use crate::args::files::file_display;
use crate::args::files::ReadOrWrite;
use crate::args::files::Read;
use crate::text::lemma_char_boundary_encode;
use vstd::utf8::{encode_utf8, is_char_boundary};

verus! {

/// What went wrong while matching markers into blocks.
#[derive(Debug, Clone, Copy)]
pub enum MarkerErrorKind<'a> {
    /// A marker of another kind than the next one expected
    UnexpectedMarker(MarkerInst<'a>),
    /// A marker on the same line as the marker before it, where its kind must
    /// follow on a line of its own
    MarkerOnSameLine(MarkerInst<'a>),
    /// The text ended inside a block
    UnexpectedEOF,
}

/// A failure to match markers into blocks, with the markers of the block that
/// was open when it was found.
#[derive(Debug)]
pub struct MarkerError<'a> {
    pub kind: MarkerErrorKind<'a>,
    pub open_markers: Vec<MarkerInst<'a>>,
}

/// The kind of failure a report describes.
#[derive(Clone, Copy, Debug, PartialEq, Eq, Structural)]
pub enum ReportKind {
    /// The markers are out of order
    InvalidData,
    /// The text ended inside a block
    UnexpectedEof,
}

/// Whether an annotation marks the place of the error or gives context.
#[derive(Clone, Copy, Debug, PartialEq, Eq, Structural)]
pub enum AnnotationRole {
    Primary,
    Context,
}

/// A labelled span of bytes of the source.
#[derive(Debug)]
pub struct ReportAnnotation {
    pub start: usize,
    pub end: usize,
    pub label: String,
    pub role: AnnotationRole,
}

/// An annotation as plain values: start, end, label, and whether it is primary.
pub type AnnotationView = (usize, usize, Seq<char>, bool);

/// The views of a list of annotations.
pub open spec fn annotation_views(a: Seq<ReportAnnotation>) -> Seq<AnnotationView> {
    a.map_values(|x: ReportAnnotation| (x.start, x.end, x.label@, x.role == AnnotationRole::Primary))
}

/// An error report: its kind, its title and its annotations, in order.
#[derive(Debug)]
pub struct Report {
    pub kind: ReportKind,
    pub title: String,
    pub annotations: Vec<ReportAnnotation>,
}

/// `k` is the byte offset of a character boundary of `text`.
pub open spec fn char_boundary(text: Seq<char>, k: int) -> bool {
    is_char_boundary(encode_utf8(text), k)
}

/// Each annotation covers whole characters of `text`.
pub open spec fn annotations_fit(text: Seq<char>, a: Seq<AnnotationView>) -> bool {
    forall|j: int|
        0 <= j < a.len() ==> (#[trigger] a[j]).0 <= a[j].1 && char_boundary(text, a[j].0 as int)
            && char_boundary(text, a[j].1 as int)
}

/// What `annotate_snippets` renders, without styles, for an error titled
/// `title` whose annotations, each in a snippet of `source` named `path`, are
/// `annotations`.
pub uninterp spec fn plain_rendering(
    title: Seq<char>,
    source: Seq<char>,
    path: Seq<char>,
    annotations: Seq<AnnotationView>,
) -> Seq<char>;

/// Calls `annotate_snippets::Renderer::render` on a plain renderer, for an
/// error group titled `title` with one snippet of `source` per annotation.
/// The text that comes back is a function of the arguments alone; the
/// contract names it. The renderer panics on a span past the end of the
/// source and slices lines at the span's ends, hence the requirement.
#[verifier::external_body]
fn render_plain(title: &str, source: &str, path: &str, annotations: &[ReportAnnotation]) -> (res: String)
    requires
        annotations_fit(source@, annotation_views(annotations@)),
    ensures
        res@ == plain_rendering(title@, source@, path@, annotation_views(annotations@)),
{
    let snippets = annotations.iter().map(|a| {
        let kind = match a.role {
            AnnotationRole::Primary => annotate_snippets::AnnotationKind::Primary,
            AnnotationRole::Context => annotate_snippets::AnnotationKind::Context,
        };
        annotate_snippets::Snippet::source(source).path(path).annotation(kind.span(a.start..a.end).label(a.label.as_str()))
    });
    let group = annotate_snippets::Level::ERROR.primary_title(title).elements(snippets);
    annotate_snippets::Renderer::plain().render(&[group])
}

/// What a marker kind is called in reports.
pub open spec fn kind_desc(k: MarkerKind) -> Seq<char> {
    match k {
        MarkerKind::ProgramStart => "program start marker"@,
        MarkerKind::ProgramEnd => "program end marker"@,
        MarkerKind::OutputEnd => "output end marker"@,
    }
}

fn push_desc(s: &mut String, k: MarkerKind)
    ensures
        final(s)@ == old(s)@ + kind_desc(k),
{
    push_str(s, k.description());
}

/// The text of a marker, as its line holds it.
pub open spec fn marker_text(m: MarkerInst) -> Seq<char> {
    m.line@.subrange(
        m.span.start.index - m.line_start.index,
        m.span.end.index - m.line_start.index,
    )
}

/// The marker stands where its locations say in `text`.
pub open spec fn marker_placed(m: MarkerInst, text: Seq<char>) -> bool {
    m.located_in(text, m.span.start.index as int, m.span.end.index as int)
}

/// The markers an error speaks of stand where their locations say in `text`,
/// and fewer than three markers were open.
pub open spec fn error_placed(e: MarkerError, text: Seq<char>) -> bool {
    &&& e.open_markers@.len() < 3
    &&& forall|j: int| 0 <= j < e.open_markers@.len() ==> marker_placed(#[trigger] e.open_markers@[j], text)
    &&& match e.kind {
        MarkerErrorKind::UnexpectedMarker(m) => marker_placed(m, text),
        MarkerErrorKind::MarkerOnSameLine(m) => marker_placed(m, text),
        MarkerErrorKind::UnexpectedEOF => true,
    }
}

/// The annotation of a marker, as plain values.
pub open spec fn marker_annotation(m: MarkerInst, label: Seq<char>, primary: bool) -> AnnotationView {
    (m.span.start.offset, m.span.end.offset, label, primary)
}

/// The context annotations of a report: each open marker, labelled with its kind.
pub open spec fn context_annotations(open: Seq<MarkerInst>) -> Seq<AnnotationView> {
    Seq::new(
        open.len(),
        |j: int| marker_annotation(open[j], kind_desc(MarkerKind::spec_from_index(j)), false),
    )
}

/// The report of an error: its kind, its title, and its annotations, the
/// primary one first. `markers` are the three markers' texts and `text` the
/// content of the source.
pub open spec fn error_report(e: MarkerError, text: Seq<char>, markers: Seq<Seq<char>>) -> (
    ReportKind,
    Seq<char>,
    Seq<AnnotationView>,
) {
    let sought = e.open_markers@.len() as int;
    let wanted = kind_desc(MarkerKind::spec_from_index(sought)) + " "@ + markers[sought];
    let ctx = context_annotations(e.open_markers@);
    match e.kind {
        MarkerErrorKind::UnexpectedMarker(m) => (
            ReportKind::InvalidData,
            "unexpected "@ + kind_desc(m.kind) + " "@ + marker_text(m) + ", expected "@ + wanted,
            seq![marker_annotation(m, "unexpected "@ + kind_desc(m.kind), true)] + ctx,
        ),
        MarkerErrorKind::MarkerOnSameLine(m) => (
            ReportKind::InvalidData,
            kind_desc(m.kind) + " "@ + marker_text(m) + " must follow the marker before it on a separate line"@,
            seq![marker_annotation(m, "on the same line as the marker before it"@, true)] + ctx,
        ),
        MarkerErrorKind::UnexpectedEOF => {
            let eof = utf8_len(text) as usize;
            (
                ReportKind::UnexpectedEof,
                "unexpected end of file looking for "@ + wanted,
                seq![(eof, eof, "EOF"@, true)] + ctx,
            )
        },
    }
}

/// The views of a report.
pub open spec fn report_view(r: Report) -> (ReportKind, Seq<char>, Seq<AnnotationView>) {
    (r.kind, r.title@, annotation_views(r.annotations@))
}

fn marker_annotation_of(m: &MarkerInst, label: String, role: AnnotationRole) -> (res: ReportAnnotation)
    ensures
        (res.start, res.end, res.label@, res.role == AnnotationRole::Primary) == marker_annotation(
            *m,
            label@,
            role == AnnotationRole::Primary,
        ),
{
    ReportAnnotation { start: m.span.start.offset, end: m.span.end.offset, label, role }
}

/// The report of an error found in `content`, whose markers are `markers`.
pub fn error_report_of(e: &MarkerError, content: &str, markers: &MarkerDefs) -> (res: Report)
    requires
        error_placed(*e, content@),
        utf8_len(content@) <= usize::MAX,
    ensures
        report_view(res) == error_report(*e, content@, markers.views()),
{
    let sought = e.open_markers.len();
    let sought_kind = MarkerKind::from_index(sought);
    let mut wanted = String::new();
    push_desc(&mut wanted, sought_kind);
    push_str(&mut wanted, " ");
    push_str(&mut wanted, markers.0[sought].as_str());
    let mut title = String::new();
    let mut annotations: Vec<ReportAnnotation> = Vec::new();
    let kind = match e.kind {
        MarkerErrorKind::UnexpectedMarker(m) => {
            proof {
                lemma_located_wf(m, content@, m.span.start.index as int, m.span.end.index as int);
            }
            push_str(&mut title, "unexpected ");
            push_desc(&mut title, m.kind);
            push_str(&mut title, " ");
            push_str(&mut title, m.as_str());
            push_str(&mut title, ", expected ");
            push_str(&mut title, wanted.as_str());
            let mut label = "unexpected ".to_owned();
            push_desc(&mut label, m.kind);
            annotations.push(marker_annotation_of(&m, label, AnnotationRole::Primary));
            ReportKind::InvalidData
        },
        MarkerErrorKind::MarkerOnSameLine(m) => {
            proof {
                lemma_located_wf(m, content@, m.span.start.index as int, m.span.end.index as int);
            }
            push_desc(&mut title, m.kind);
            push_str(&mut title, " ");
            push_str(&mut title, m.as_str());
            push_str(&mut title, " must follow the marker before it on a separate line");
            let label = "on the same line as the marker before it".to_owned();
            annotations.push(marker_annotation_of(&m, label, AnnotationRole::Primary));
            ReportKind::InvalidData
        },
        MarkerErrorKind::UnexpectedEOF => {
            push_str(&mut title, "unexpected end of file looking for ");
            push_str(&mut title, wanted.as_str());
            let cs = chars_of(content);
            proof {
                assert(cs@.subrange(0, cs@.len() as int) =~= content@);
            }
            let eof = utf8_len_of(cs.as_slice(), 0, cs.len());
            annotations.push(ReportAnnotation { start: eof, end: eof, label: "EOF".to_owned(), role: AnnotationRole::Primary });
            ReportKind::UnexpectedEof
        },
    };
    let ghost head = annotation_views(annotations@);
    let mut j: usize = 0;
    while j < sought
        invariant
            j <= sought == e.open_markers@.len() < 3,
            head.len() == 1,
            annotation_views(annotations@) == head + context_annotations(e.open_markers@).take(j as int),
        decreases sought - j,
    {
        let mut label = String::new();
        push_desc(&mut label, MarkerKind::from_index(j));
        let ghost before = annotation_views(annotations@);
        annotations.push(marker_annotation_of(&e.open_markers[j], label, AnnotationRole::Context));
        proof {
            assert(context_annotations(e.open_markers@).take(j + 1) =~= context_annotations(
                e.open_markers@,
            ).take(j as int).push(context_annotations(e.open_markers@)[j as int]));
            assert(annotation_views(annotations@) =~= before.push(
                context_annotations(e.open_markers@)[j as int],
            ));
        }
        j += 1;
    }
    proof {
        assert(context_annotations(e.open_markers@).take(sought as int) =~= context_annotations(
            e.open_markers@,
        ));
        assert(markers.views()[sought as int] == markers.0[sought as int]@);
    }
    Report { kind, title, annotations }
}

/// The byte offsets a marker placed in `text` records are character
/// boundaries of `text`, in order.
proof fn lemma_marker_boundaries(m: MarkerInst, text: Seq<char>)
    requires
        marker_placed(m, text),
    ensures
        m.span.start.offset <= m.span.end.offset,
        char_boundary(text, m.span.start.offset as int),
        char_boundary(text, m.span.end.offset as int),
{
    let s = m.span.start.index as int;
    let e = m.span.end.index as int;
    lemma_advance_components(origin(), text.take(s));
    lemma_advance_components(origin(), text.take(e));
    lemma_advance_mono(origin(), text, s, e);
    assert(utf8_len(text.take(s)) == m.span.start.offset);
    assert(utf8_len(text.take(e)) == m.span.end.offset);
    lemma_char_boundary_encode(text, s);
    lemma_char_boundary_encode(text, e);
}

/// The annotations of the report of an error placed in `text` cover whole characters.
pub proof fn lemma_report_fits(e: MarkerError, text: Seq<char>, markers: Seq<Seq<char>>)
    requires
        error_placed(e, text),
        utf8_len(text) <= usize::MAX,
    ensures
        annotations_fit(text, error_report(e, text, markers).2),
{
    let a = error_report(e, text, markers).2;
    let ctx = context_annotations(e.open_markers@);
    assert forall|j: int| 0 <= j < a.len() implies (#[trigger] a[j]).0 <= a[j].1 && char_boundary(
        text,
        a[j].0 as int,
    ) && char_boundary(text, a[j].1 as int) by {
        if j == 0 {
            match e.kind {
                MarkerErrorKind::UnexpectedMarker(m) => lemma_marker_boundaries(m, text),
                MarkerErrorKind::MarkerOnSameLine(m) => lemma_marker_boundaries(m, text),
                MarkerErrorKind::UnexpectedEOF => {
                    assert(text.take(text.len() as int) =~= text);
                    lemma_char_boundary_encode(text, text.len() as int);
                },
            }
        } else {
            assert(a[j] == ctx[j - 1]);
            lemma_marker_boundaries(e.open_markers@[j - 1], text);
        }
    }
}

/// The rendered report of an error found while parsing `input`: the kind of
/// failure and the text that `annotate_snippets` renders for it, with the
/// source shown under the name of the input.
pub fn err_unexpected_marker(input: &ParseInput, e: &MarkerError) -> (res: (ReportKind, String))
    requires
        error_placed(*e, input.content@),
        utf8_len(input.content@) <= usize::MAX,
    ensures
        res.0 == error_report(*e, input.content@, input.args.markers.views()).0,
        res.1@ == plain_rendering(
            error_report(*e, input.content@, input.args.markers.views()).1,
            input.content@,
            file_display(input.source.arg, Read::spec_label()),
            error_report(*e, input.content@, input.args.markers.views()).2,
        ),
{
    let content = input.content.as_str();
    let report = error_report_of(e, content, &input.args.markers);
    let path = input.source.to_string();
    proof {
        lemma_report_fits(*e, input.content@, input.args.markers.views());
    }
    let msg = render_plain(report.title.as_str(), content, path.as_str(), report.annotations.as_slice());
    (report.kind, msg)
}

/// Every error that matching markers into blocks gives (see `parse_failed`)
/// speaks of markers that stand where their locations say.
pub proof fn lemma_failed_error_placed(text: Seq<char>, found: Seq<FoundModel>, check_lines: bool, e: MarkerError)
    requires
        parse_failed(text, found, check_lines, e),
    ensures
        error_placed(e, text),
{
    let k = match e.kind {
        MarkerErrorKind::UnexpectedEOF => found.len() as int,
        _ => choose|k: int|
            0 <= k < found.len() && steps_ok(text, found, k, check_lines) && open_matches(
                e.open_markers@,
                text,
                found,
                k,
            ) && match e.kind {
                MarkerErrorKind::UnexpectedMarker(m) => marker_matches(m, text, #[trigger] found[k]),
                MarkerErrorKind::MarkerOnSameLine(m) => marker_matches(m, text, found[k]),
                MarkerErrorKind::UnexpectedEOF => true,
            },
    };
    assert(open_matches(e.open_markers@, text, found, k));
    assert forall|j: int| 0 <= j < e.open_markers@.len() implies marker_placed(#[trigger] e.open_markers@[j], text) by {
        assert(marker_matches(e.open_markers@[j], text, found[k - k % 3 + j]));
    }
}

} // verus!
