use cogshell::args::files::{File, FileArg, Read};
use cogshell::args::marker_defs::MarkerDefs;
use cogshell::args::options::Args;
use cogshell::parse::error::{ParseError, ParseErrorContext, ParseErrorKind};
use cogshell::parse::errors::{err_unexpected_marker, error_report_of, AnnotationRole, MarkerErrorKind, ReportKind};
use cogshell::parse::parse_input::ParseInput;
use cogshell::parse::parsed_file::ParsedFile;
use cogshell::source::marker::MarkerKind as SourceMarkerKind;
use cogshell::source::{SourceLocation, SourceMarker, SourceSpan};

fn args() -> Args {
    Args {
        files: vec![FileArg::Stream],
        output: Some(FileArg::Stream),
        prologue: vec![],
        output_line_suffix: String::new(),
        markers: MarkerDefs::from_str("[[[cogsh ]]] [[[end]]]").unwrap(),
    }
}

/// The kind and the rendered message of the error that parsing `content` gives.
fn parse_failure(content: &str, path: FileArg) -> (ReportKind, String, String, Vec<(usize, usize, String, bool)>) {
    let args = args();
    let source: File<Read> = File::from_arg(&path);
    let input = ParseInput::from(&args, &source, content.to_string());
    let err = match ParsedFile::from(&input) {
        Ok(_) => panic!("expected a parse error"),
        Err(e) => e,
    };
    let report = error_report_of(&err, &input.content, &args.markers);
    let annotations = report
        .annotations
        .iter()
        .map(|a| (a.start, a.end, a.label.clone(), a.role == AnnotationRole::Primary))
        .collect();
    let (kind, msg) = err_unexpected_marker(&input, &err);
    assert_eq!(kind, report.kind);
    (kind, msg, report.title, annotations)
}

#[test]
fn unexpected_marker_is_reported_with_what_was_sought() {
    let (kind, msg, title, annotations) = parse_failure("text\n]]]\n", FileArg::Stream);
    assert_eq!(kind, ReportKind::InvalidData);
    assert_eq!(title, "unexpected program end marker ]]], expected program start marker [[[cogsh");
    assert_eq!(annotations, vec![(5, 8, "unexpected program end marker".to_string(), true)]);
    assert!(msg.contains("unexpected program end marker ]]], expected program start marker [[[cogsh"));
    assert!(msg.contains("<stdin>"));
    assert!(msg.contains("^^^"));
}

#[test]
fn end_of_file_inside_a_block_points_at_the_open_markers() {
    let (kind, msg, title, annotations) = parse_failure("[[[cogsh x ]]]\nout\n", FileArg::OnDisk("doc.md".to_string()));
    assert_eq!(kind, ReportKind::UnexpectedEof);
    assert_eq!(title, "unexpected end of file looking for output end marker [[[end]]]");
    assert_eq!(
        annotations,
        vec![
            (19, 19, "EOF".to_string(), true),
            (0, 8, "program start marker".to_string(), false),
            (11, 14, "program end marker".to_string(), false),
        ]
    );
    assert!(msg.contains("doc.md"));
    assert!(msg.contains("EOF"));
    assert!(msg.contains("program start marker"));
}

#[test]
fn marker_on_the_line_of_the_one_before() {
    let content = "[[[cogsh a ]]]\n[[[end]]] [[[cogsh b ]]]\n[[[end]]]\n";
    let args = args();
    let source: File<Read> = File::from_arg(&FileArg::Stream);
    let input = ParseInput::from(&args, &source, content.to_string());
    let err = match ParsedFile::from(&input) {
        Ok(_) => panic!("expected a parse error"),
        Err(e) => e,
    };
    assert!(matches!(err.kind, MarkerErrorKind::MarkerOnSameLine(_)));
    assert!(err.open_markers.is_empty());
    let report = error_report_of(&err, &input.content, &args.markers);
    assert_eq!(report.kind, ReportKind::InvalidData);
    assert_eq!(
        report.title,
        "program start marker [[[cogsh must follow the marker before it on a separate line"
    );
    assert_eq!(report.annotations[0].start, 25);
    assert_eq!(report.annotations[0].end, 33);
}

#[test]
fn multibyte_text_before_a_marker_counts_in_bytes() {
    let (_, msg, _, annotations) = parse_failure("é ]]]\n", FileArg::Stream);
    assert_eq!(annotations, vec![(3, 6, "unexpected program end marker".to_string(), true)]);
    assert!(msg.contains("é ]]]"));
}

#[test]
fn byte_span_error_report() {
    let content = "ab\n]]]\n";
    let mut line_start = SourceLocation { line: 1, col: 0, offset: 3 };
    let span = SourceSpan::from_range(content, 3..6, &mut line_start);
    let marker = SourceMarker { kind: SourceMarkerKind::ProgramEnd, span };
    let markers = cogshell::args::MarkerDefs::from_str("[[[cogsh ]]] [[[end]]]").unwrap();
    let err = ParseError {
        kind: ParseErrorKind::UnexpectedMarker(marker),
        ctx: ParseErrorContext { markers: &markers, filename: "f.txt", content, parse_state: vec![] },
    };
    let (title, annotations) = err.report();
    assert_eq!(title, "unexpected program end marker ]]], expected program start marker [[[cogsh");
    assert_eq!(annotations.len(), 1);
    assert_eq!((annotations[0].start, annotations[0].end), (3, 6));
    assert_eq!(annotations[0].label, "unexpected program end marker");
    let shown = err.rendered();
    assert!(shown.contains("f.txt"));
    assert!(shown.contains("unexpected program end marker"));
}

#[test]
fn byte_span_end_of_file_report() {
    let content = "[[[cogsh\n";
    let mut line_start = SourceLocation { line: 0, col: 0, offset: 0 };
    let span = SourceSpan::from_range(content, 0..8, &mut line_start);
    let open = SourceMarker { kind: SourceMarkerKind::ProgramStart, span };
    let markers = cogshell::args::MarkerDefs::from_str("[[[cogsh ]]] [[[end]]]").unwrap();
    let err = ParseError {
        kind: ParseErrorKind::UnexpectedEOF,
        ctx: ParseErrorContext { markers: &markers, filename: "f.txt", content, parse_state: vec![open] },
    };
    let (title, annotations) = err.report();
    assert_eq!(title, "unexpected end of file, expected program end marker ]]]");
    assert!(annotations.is_empty());
    let shown = err.rendered();
    assert!(shown.contains("unexpected end of file"));
}

#[test]
fn parse_file_renders_the_error() {
    let args = args();
    let source: File<Read> = File::from_arg(&FileArg::Stream);
    let input = ParseInput::from(&args, &source, "[[[end]]]\n".to_string());
    match cogshell::parse::parsed_file::parse_file(&input) {
        Ok(_) => panic!("expected an error"),
        Err((kind, msg)) => {
            assert_eq!(kind, ReportKind::InvalidData);
            assert!(msg.contains("unexpected output end marker [[[end]]], expected program start marker [[[cogsh"));
        }
    }
    let good = ParseInput::from(&args, &source, "[[[cogsh x]]]\n[[[end]]]\n".to_string());
    let parsed = cogshell::parse::parsed_file::parse_file(&good).ok().unwrap();
    assert_eq!(parsed.blocks.len(), 1);
    assert_eq!(parsed.blocks[0].prog_lines, vec!["x"]);
}
