//! Errors of matching the markers of a source into blocks, as spans of bytes,
//! with the source and the markers they were sought with.
use vstd::prelude::*;

use vstd::string::StringSliceAdditionalSpecFns;
use vstd::utf8::{decode_utf8, encode_utf8, encode_utf8_valid_utf8, is_char_boundary};

use crate::args::MarkerDefs;
use crate::parse::errors::{annotation_views, AnnotationRole, AnnotationView, ReportAnnotation};
use crate::source::marker::MarkerKind;
use crate::source::SourceMarker;
use crate::text::{byte_slice, push_str};

verus! {

/// The source and the markers an error was found with, and the markers of the
/// block that was open.
#[derive(Debug)]
pub struct ParseErrorContext<'a> {
    pub markers: &'a MarkerDefs,
    pub filename: &'a str,
    pub content: &'a str,
    pub parse_state: Vec<SourceMarker<'a>>,
}

/// What went wrong while matching markers into blocks.
#[derive(Debug)]
pub enum ParseErrorKind<'a> {
    /// A marker of another kind than the next one expected
    UnexpectedMarker(SourceMarker<'a>),
    /// The source ended inside a block
    UnexpectedEOF,
}

/// A failure to match markers into blocks.
pub struct ParseError<'a> {
    pub kind: ParseErrorKind<'a>,
    pub ctx: ParseErrorContext<'a>,
}

/// What a marker kind is called in these reports.
pub open spec fn kind_name(k: MarkerKind) -> Seq<char> {
    match k {
        MarkerKind::ProgramStart => "program start"@,
        MarkerKind::ProgramEnd => "program end"@,
        MarkerKind::OutputEnd => "output end"@,
    }
}

/// The kind at a position within a block.
pub open spec fn kind_at(i: int) -> MarkerKind {
    if i == 0 {
        MarkerKind::ProgramStart
    } else if i == 1 {
        MarkerKind::ProgramEnd
    } else {
        MarkerKind::OutputEnd
    }
}

pub fn kind_at_index(i: usize) -> (res: MarkerKind)
    ensures
        res == kind_at(i as int),
{
    if i == 0 {
        MarkerKind::ProgramStart
    } else if i == 1 {
        MarkerKind::ProgramEnd
    } else {
        MarkerKind::OutputEnd
    }
}

/// The marker's span covers whole characters of `content`.
pub open spec fn span_fits(m: SourceMarker, content: Seq<char>) -> bool {
    &&& m.span.start.offset <= m.span.end.offset
    &&& is_char_boundary(encode_utf8(content), m.span.start.offset as int)
    &&& is_char_boundary(encode_utf8(content), m.span.end.offset as int)
}

fn span_fits_exec(m: &SourceMarker, content: &str) -> (res: bool)
    ensures
        res == span_fits(*m, content@),
{
    m.span.start.offset <= m.span.end.offset && content.is_char_boundary(m.span.start.offset)
        && content.is_char_boundary(m.span.end.offset)
}

/// The error's markers cover whole characters of the source, and fewer than
/// three were open.
pub open spec fn error_fits(e: ParseError) -> bool {
    &&& e.ctx.parse_state@.len() < 3
    &&& forall|j: int| 0 <= j < e.ctx.parse_state@.len() ==> span_fits(#[trigger] e.ctx.parse_state@[j], e.ctx.content@)
    &&& match e.kind {
        ParseErrorKind::UnexpectedMarker(m) => span_fits(m, m.span.content@) && span_fits(m, e.ctx.content@),
        ParseErrorKind::UnexpectedEOF => true,
    }
}

/// The text of a marker: the characters of the bytes it covers.
pub open spec fn found_text(m: SourceMarker) -> Seq<char> {
    decode_utf8(encode_utf8(m.span.content@).subrange(m.span.start.offset as int, m.span.end.offset as int))
}

/// The report of an error: its title and its annotations. An unexpected
/// marker is annotated where it stands; the end of the file gets no
/// annotation.
pub open spec fn parse_error_report(e: ParseError) -> (Seq<char>, Seq<AnnotationView>) {
    let sought = e.ctx.parse_state@.len() as int;
    let wanted = kind_name(kind_at(sought)) + " marker "@ + e.ctx.markers.views()[sought];
    match e.kind {
        ParseErrorKind::UnexpectedMarker(m) => (
            "unexpected "@ + kind_name(m.kind) + " marker "@ + found_text(m) + ", expected "@ + wanted,
            seq![(m.span.start.offset, m.span.end.offset, "unexpected "@ + kind_name(m.kind) + " marker"@, true)],
        ),
        ParseErrorKind::UnexpectedEOF => ("unexpected end of file, expected "@ + wanted, Seq::empty()),
    }
}

fn push_kind_name(s: &mut String, k: MarkerKind)
    ensures
        final(s)@ == old(s)@ + kind_name(k),
{
    push_str(s, k.description());
}

/// The uniform-styled text `annotate_snippets` renders for an error titled
/// `title` whose annotations, each in a snippet of `source` named `path`, are
/// `annotations`.
pub uninterp spec fn styled_rendering(
    title: Seq<char>,
    source: Seq<char>,
    path: Seq<char>,
    annotations: Seq<AnnotationView>,
) -> Seq<char>;

/// Calls `annotate_snippets::Renderer::render` on a styled renderer, for an
/// error group titled `title` with one snippet of `source` per annotation.
/// The text that comes back is a function of the arguments alone; the
/// contract names it. The renderer panics on a span past the end of the
/// source and slices lines at the span's ends, hence the requirement.
#[verifier::external_body]
fn render_styled(title: &str, source: &str, path: &str, annotations: &[ReportAnnotation]) -> (res: String)
    requires
        crate::parse::errors::annotations_fit(source@, annotation_views(annotations@)),
    ensures
        res@ == styled_rendering(title@, source@, path@, annotation_views(annotations@)),
{
    let snippets = annotations.iter().map(|a| {
        let kind = match a.role {
            AnnotationRole::Primary => annotate_snippets::AnnotationKind::Primary,
            AnnotationRole::Context => annotate_snippets::AnnotationKind::Context,
        };
        annotate_snippets::Snippet::source(source).path(path).annotation(kind.span(a.start..a.end).label(a.label.as_str()))
    });
    let group = annotate_snippets::Level::ERROR.primary_title(title).elements(snippets);
    annotate_snippets::Renderer::styled().render(&[group])
}

impl<'a> ParseError<'a> {
    /// The title and the annotations of the error's report.
    pub fn report(&self) -> (res: (String, Vec<ReportAnnotation>))
        requires
            error_fits(*self),
        ensures
            (res.0@, annotation_views(res.1@)) == parse_error_report(*self),
    {
        let ctx = &self.ctx;
        let sought = ctx.parse_state.len();
        let mut wanted = String::new();
        push_kind_name(&mut wanted, kind_at_index(sought));
        push_str(&mut wanted, " marker ");
        push_str(&mut wanted, ctx.markers.0[sought].as_str());
        let mut title = String::new();
        let mut annotations: Vec<ReportAnnotation> = Vec::new();
        match &self.kind {
            ParseErrorKind::UnexpectedMarker(m) => {
                let found = byte_slice(m.span.content, m.span.start.offset, m.span.end.offset);
                push_str(&mut title, "unexpected ");
                push_kind_name(&mut title, m.kind);
                push_str(&mut title, " marker ");
                push_str(&mut title, found);
                push_str(&mut title, ", expected ");
                push_str(&mut title, wanted.as_str());
                let mut label = "unexpected ".to_owned();
                push_kind_name(&mut label, m.kind);
                push_str(&mut label, " marker");
                annotations.push(ReportAnnotation {
                    start: m.span.start.offset,
                    end: m.span.end.offset,
                    label,
                    role: AnnotationRole::Primary,
                });
            },
            ParseErrorKind::UnexpectedEOF => {
                push_str(&mut title, "unexpected end of file, expected ");
                push_str(&mut title, wanted.as_str());
            },
        }
        proof {
            assert(ctx.markers.views()[sought as int] == ctx.markers.0[sought as int]@);
            assert(annotation_views(annotations@) =~= parse_error_report(*self).1);
        }
        (title, annotations)
    }

    /// Whether the error's spans cover whole characters of the source, as
    /// `report` and `rendered` require.
    pub fn renderable(&self) -> (res: bool)
        ensures
            res == error_fits(*self),
    {
        let content = self.ctx.content;
        let n = self.ctx.parse_state.len();
        if n >= 3 {
            return false;
        }
        proof {
            assert(content.spec_bytes() == encode_utf8(content@));
        }
        let mut j: usize = 0;
        while j < n
            invariant
                j <= n == self.ctx.parse_state@.len() < 3,
                content == self.ctx.content,
                forall|q: int| 0 <= q < j ==> span_fits(#[trigger] self.ctx.parse_state@[q], content@),
            decreases n - j,
        {
            if !span_fits_exec(&self.ctx.parse_state[j], content) {
                return false;
            }
            j += 1;
        }
        match &self.kind {
            ParseErrorKind::UnexpectedMarker(m) => span_fits_exec(m, m.span.content) && span_fits_exec(m, content),
            ParseErrorKind::UnexpectedEOF => true,
        }
    }

    /// The error's report as `annotate_snippets` renders it with styles, the
    /// source shown under the file's name.
    pub fn rendered(&self) -> (res: String)
        requires
            error_fits(*self),
        ensures
            res@ == styled_rendering(
                parse_error_report(*self).0,
                self.ctx.content@,
                self.ctx.filename@,
                parse_error_report(*self).1,
            ),
    {
        let (title, annotations) = self.report();
        let bytes = self.ctx.content.as_bytes();
        let byte_len = bytes.len();
        proof {
            assert(bytes@ == encode_utf8(self.ctx.content@));
            assert(byte_len == encode_utf8(self.ctx.content@).len());
            assert(encode_utf8(self.ctx.content@).len() <= usize::MAX);
            let a = parse_error_report(*self).1;
            assert forall|j: int| 0 <= j < a.len() implies (#[trigger] a[j]).0 <= a[j].1
                && crate::parse::errors::char_boundary(self.ctx.content@, a[j].0 as int)
                && crate::parse::errors::char_boundary(self.ctx.content@, a[j].1 as int) by {
                if let ParseErrorKind::UnexpectedMarker(m) = self.kind {
                    assert(j == 0);
                    assert(a[0] == (m.span.start.offset, m.span.end.offset, "unexpected "@ + kind_name(m.kind) + " marker"@, true));
                }
            }
        }
        render_styled(title.as_str(), self.ctx.content, self.ctx.filename, annotations.as_slice())
    }
}

} // verus!
