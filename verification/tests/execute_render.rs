use cogshell::args::files::{File, FileArg, Read};
use cogshell::args::marker_defs::MarkerDefs;
use cogshell::args::options::Args;
use cogshell::execute::{
    check_markers_in_order, output_cut, render_output, write_block_line, SegmentReader, Step,
};
use cogshell::parse::parse_input::ParseInput;
use cogshell::parse::parsed_file::ParsedFile;
use cogshell::text::chars_of;

fn args_with(suffix: &str) -> Args {
    Args {
        files: vec![FileArg::Stream],
        output: Some(FileArg::Stream),
        prologue: vec![],
        output_line_suffix: suffix.to_string(),
        markers: MarkerDefs::from_str("[[[cogsh ]]] [[[end]]]").unwrap(),
    }
}

/// Parses `content` and renders it with `outputs` as the blocks' new output lines.
fn render(content: &str, outputs: Vec<Vec<String>>, suffix: &str) -> String {
    let args = args_with(suffix);
    let source: File<Read> = File::from_arg(&FileArg::Stream);
    let input = ParseInput::from(&args, &source, content.to_string());
    let parsed = ParsedFile::from(&input).unwrap();
    let cs = chars_of(&input.content);
    for b in &parsed.blocks {
        assert!(check_markers_in_order(&cs, &b.markers));
    }
    render_output(&input.content, &parsed.blocks, &outputs, &args.output_line_suffix)
}

#[test]
fn replaces_block_output_with_command_output() {
    let input = "<!--[[[cogsh echo hello]]]-->\nSTALE OUTPUT\n<!--[[[end]]]-->\n";
    let out = render(input, vec![vec!["hello\n".to_string()]], "");
    assert_eq!(out, "<!--[[[cogsh echo hello]]]-->\nhello\n<!--[[[end]]]-->\n");
}

#[test]
fn preserves_content_outside_blocks() {
    let input = "header line\n<!--[[[cogsh echo middle]]]-->\nold\n<!--[[[end]]]-->\nfooter line\n";
    let out = render(input, vec![vec!["middle\n".to_string()]], "");
    assert!(out.starts_with("header line\n"));
    assert!(out.ends_with("footer line\n"));
    assert_eq!(
        out,
        "header line\n<!--[[[cogsh echo middle]]]-->\nmiddle\n<!--[[[end]]]-->\nfooter line\n"
    );
}

#[test]
fn appends_suffix_to_each_output_line() {
    let input = "<!--[[[cogsh echo one; echo two]]]-->\n<!--[[[end]]]-->\n";
    let out = render(input, vec![vec!["one\n".to_string(), "two\n".to_string()]], " #");
    assert_eq!(out, "<!--[[[cogsh echo one; echo two]]]-->\none #\ntwo #\n<!--[[[end]]]-->\n");
}

#[test]
fn output_lines_take_the_block_indent() {
    let input = "  [[[cogsh\n  echo a\n  ]]]\n  old\n  [[[end]]]\n";
    let out = render(input, vec![vec!["a\n".to_string(), "b".to_string()]], "");
    assert_eq!(out, "  [[[cogsh\n  echo a\n  ]]]\n  a\n  b\n  [[[end]]]\n");
}

#[test]
fn rendering_the_old_output_gives_back_the_source() {
    let input = "x\n[[[cogsh echo 1]]]\nkept\nalso kept\n[[[end]]]\ny\n[[[cogsh echo 2]]]\n[[[end]]]\n";
    let out = render(
        input,
        vec![vec!["kept\n".to_string(), "also kept\n".to_string()], vec![]],
        "",
    );
    assert_eq!(out, input);
}

#[test]
fn two_blocks_each_get_their_output() {
    let input = "[[[cogsh a]]]\n1\n[[[end]]]\nmid\n[[[cogsh b]]]\n2\n[[[end]]]";
    let out = render(input, vec![vec!["A".to_string()], vec!["B\n".to_string(), "C\n".to_string()]], "");
    assert_eq!(out, "[[[cogsh a]]]\nA\n[[[end]]]\nmid\n[[[cogsh b]]]\nB\nC\n[[[end]]]");
}

#[test]
fn output_cut_points_at_output_lines() {
    let input = "[[[cogsh a]]]\nold\n[[[end]]]\n";
    let args = args_with("");
    let source: File<Read> = File::from_arg(&FileArg::Stream);
    let pi = ParseInput::from(&args, &source, input.to_string());
    let parsed = ParsedFile::from(&pi).unwrap();
    let cs = chars_of(&pi.content);
    let (s, e) = output_cut(&cs, &parsed.blocks[0].markers);
    assert_eq!((s, e), (14, 18));
}

#[test]
fn block_line_is_prefix_line_suffix_newline() {
    assert_eq!(write_block_line("// ", " #", "text\n"), "// text #\n");
    assert_eq!(write_block_line("", "", "no newline"), "no newline\n");
    assert_eq!(write_block_line("> ", "", "\n"), "> \n");
}

#[test]
fn segment_reader_holds_back_one_line() {
    let term = "TERMINATOR0123456789";
    let mut r = SegmentReader::new();
    assert_eq!(r.feed(Some("a\n".to_string()), term), Step::Pending);
    assert_eq!(r.feed(Some("b\n".to_string()), term), Step::Emit("a\n".to_string()));
    assert_eq!(r.feed(Some(format!("{term}\n")), term), Step::Done(Some("b\n".to_string())));
}

#[test]
fn segment_reader_drops_a_last_empty_line() {
    let term = "T";
    let mut r = SegmentReader::new();
    assert_eq!(r.feed(Some("x\n".to_string()), term), Step::Pending);
    assert_eq!(r.feed(Some("\n".to_string()), term), Step::Emit("x\n".to_string()));
    assert_eq!(r.feed(Some("T\n".to_string()), term), Step::Done(None));
}

#[test]
fn segment_reader_terminator_without_newline_is_a_line() {
    let term = "T";
    let mut r = SegmentReader::new();
    assert_eq!(r.feed(Some("T".to_string()), term), Step::Pending);
    assert_eq!(r.feed(Some("T\n".to_string()), term), Step::Done(Some("T".to_string())));
}

#[test]
fn segment_reader_reports_end_of_output() {
    let mut r = SegmentReader::new();
    assert_eq!(r.feed(Some("x\n".to_string()), "T"), Step::Pending);
    assert_eq!(r.feed(None, "T"), Step::UnexpectedEof);
}
