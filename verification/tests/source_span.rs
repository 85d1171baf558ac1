use cogshell::source::location::SourceLocation as LineLocation;
use cogshell::source::span::SourceSpan as PlainSpan;
use cogshell::source::{SourceLocation, SourceSpan};

#[test]
fn source_test_source_span_init() {
    let content = "abcd\nefgh\nijkl\n";
    let mut line_start = SourceLocation::default();
    let actual_span = SourceSpan::from_range(content, 1..4, &mut line_start);
    let expected_span = SourceSpan {
        content,
        start: SourceLocation {
            line: 0,
            col: 1,
            offset: 1,
        },
        end: SourceLocation {
            line: 0,
            col: 5,
            offset: 5,
        },
        line_start: SourceLocation::default(),
    };
    assert_eq!(actual_span, expected_span)
}

#[test]
fn span_test_source_span_init() {
    let content = "abcd\nefgh\nijkl\n";
    let mut line_start = LineLocation::default();
    let actual_span = PlainSpan::from_range(content, 1..4, &mut line_start);
    assert_eq!(
        actual_span,
        PlainSpan {
            content,
            start: LineLocation {
                line: 0,
                col: 1,
                offset: 1,
            },
            end: LineLocation {
                line: 0,
                col: 5,
                offset: 5,
            },
        }
    );
    assert_eq!(
        line_start,
        LineLocation {
            line: 0,
            col: 0,
            offset: 0
        }
    )
}

#[test]
fn span_locations_follow_newlines() {
    let content = "abcd\nefgh\nijkl\n";
    let mut line_start = LineLocation::default();
    let span = PlainSpan::from_range(content, 3..7, &mut line_start);
    assert_eq!(line_start, LineLocation { line: 1, col: 0, offset: 5 });
    assert_eq!(span.start, LineLocation { line: 0, col: 3, offset: 3 });
    assert_eq!(span.end, LineLocation { line: 1, col: 2, offset: 7 });
}
