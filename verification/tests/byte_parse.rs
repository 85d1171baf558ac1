use cogshell::args::MarkerDefs;
use cogshell::parse::error::ParseErrorKind;
use cogshell::parse::ParsedFile;
use cogshell::source::marker::MarkerKind;
use cogshell::source::SourceLocation;

fn markers() -> MarkerDefs {
    MarkerDefs::from_str("[[[cogsh ]]] [[[end]]]").unwrap()
}

fn loc(line: usize, col: usize, offset: usize) -> SourceLocation {
    SourceLocation { line, col, offset }
}

#[test]
fn blocks_are_found_with_their_locations() {
    let m = markers();
    assert!(m.bytes_usable());
    let content = "head\n<!--[[[cogsh echo hi]]]-->\nold\n<!--[[[end]]]-->\n";
    let parsed = ParsedFile::from_content(content, &m, "page.md").ok().unwrap();
    assert_eq!(parsed.filename, "page.md");
    assert_eq!(parsed.blocks.len(), 1);
    let [ps, pe, oe] = &parsed.blocks[0];
    assert_eq!(ps.kind, MarkerKind::ProgramStart);
    assert_eq!((ps.span.start, ps.span.end), (loc(1, 4, 9), loc(1, 12, 17)));
    assert_eq!(ps.span.line_start, loc(1, 0, 5));
    assert_eq!(pe.kind, MarkerKind::ProgramEnd);
    assert_eq!((pe.span.start.offset, pe.span.end.offset), (25, 28));
    assert_eq!(oe.kind, MarkerKind::OutputEnd);
    assert_eq!((oe.span.start, oe.span.end), (loc(3, 4, 40), loc(3, 13, 49)));
    assert_eq!(oe.text(), "[[[end]]]");
}

#[test]
fn markers_out_of_order_are_an_error() {
    let m = markers();
    let content = "[[[cogsh a]]]\n[[[cogsh\n";
    let err = match ParsedFile::from_content(content, &m, "f") {
        Ok(_) => panic!("expected an error"),
        Err(e) => e,
    };
    match &err.kind {
        ParseErrorKind::UnexpectedMarker(found) => {
            assert_eq!(found.kind, MarkerKind::ProgramStart);
            assert_eq!(found.span.start, loc(1, 0, 14));
        }
        ParseErrorKind::UnexpectedEOF => panic!("expected an unexpected marker"),
    }
    assert_eq!(err.ctx.parse_state.len(), 2);
    let (title, _) = err.report();
    assert_eq!(title, "unexpected program start marker [[[cogsh, expected output end marker [[[end]]]");
    assert!(err.rendered().contains("f"));
}

#[test]
fn end_inside_a_block_is_an_error() {
    let m = markers();
    let err = match ParsedFile::from_content("x [[[cogsh y", &m, "f") {
        Ok(_) => panic!("expected an error"),
        Err(e) => e,
    };
    assert!(matches!(err.kind, ParseErrorKind::UnexpectedEOF));
    assert_eq!(err.ctx.parse_state.len(), 1);
    assert_eq!(err.ctx.parse_state[0].span.start, loc(0, 2, 2));
}

#[test]
fn several_blocks_and_multibyte_text() {
    let m = markers();
    let content = "é[[[cogsh a]]]b[[[end]]]\n[[[cogsh c]]]\n[[[end]]]";
    let parsed = ParsedFile::from_content(content, &m, "f").ok().unwrap();
    assert_eq!(parsed.blocks.len(), 2);
    assert_eq!(parsed.blocks[0][0].span.start, loc(0, 2, 2));
    assert_eq!(parsed.blocks[1][0].span.start, loc(1, 0, 26));
    assert_eq!(parsed.blocks[1][2].span.start, loc(2, 0, 40));
}
