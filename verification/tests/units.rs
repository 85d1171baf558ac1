use cogshell::base64_encode::base64_encode;
use cogshell::common_prefix::{common_prefix_of_chars, leading_whitespace};
use cogshell::parse::checksum::{Checksum, ChecksumKind};
use cogshell::parse::hash::{OutputHash, OutputHashKind};
use cogshell::parse::loc::Loc;
use cogshell::parse::loc_line::LocatedLine;
use cogshell::parse::marker::MarkerInst;
use cogshell::parse::marker_inst::MarkerInst as LineMarker;
use cogshell::parse::marker_kind::MarkerKind;
use cogshell::parse::span::Span;
use cogshell::source::{SourceLocation, SourceMarker, SourceSpan};
use cogshell::utils::common_prefix_len;

#[test]
fn test_base64_encode_empty() {
    assert_eq!(base64_encode(b""), "");
}

#[test]
fn test_base64_encode_no_pad() {
    assert_eq!(base64_encode(b"abcdef"), "YWJjZGVm");
}

#[test]
fn test_base64_encode_pad_one() {
    assert_eq!(base64_encode(b"gobledygook"), "Z29ibGVkeWdvb2s=");
}

#[test]
fn test_base64_encode_pad_two() {
    assert_eq!(base64_encode(b"abcdefg"), "YWJjZGVmZw==");
}

#[test]
fn test_base64_encode_with_nulls() {
    assert_eq!(base64_encode(b"foo\0bar\0bazz\0"), "Zm9vAGJhcgBiYXp6AA==");
}

#[test]
fn base64_of_a_concatenation_at_a_group_boundary() {
    let whole = base64_encode(b"abcdefgh");
    assert_eq!(whole, format!("{}{}", base64_encode(b"abc"), base64_encode(b"defgh")));
    assert_eq!(whole.len(), 4 * ((8 + 2) / 3));
}

#[test]
fn test_common_prefix_no_lines() {
    assert_eq!(common_prefix_of_chars(&[]), None);
}

#[test]
fn test_common_prefix_single_line_any_char() {
    assert_eq!(common_prefix_of_chars(&["hello world"]), None);
}

#[test]
fn test_common_prefix_no_common() {
    assert_eq!(common_prefix_of_chars(&["abc", "xyz"]), Some(""));
}

#[test]
fn test_common_prefix_one_is_prefix_of_other() {
    assert_eq!(common_prefix_of_chars(&["foo", "foobar"]), Some("foo"));
}

#[test]
fn test_common_prefix_other_is_prefix_of_one() {
    assert_eq!(common_prefix_of_chars(&["foobar", "foo"]), Some("foo"));
}

#[test]
fn test_common_prefix_all_identical() {
    assert_eq!(common_prefix_of_chars(&["hello", "hello", "hello"]), Some("hello"));
}

#[test]
fn test_common_prefix_with_empty_string() {
    assert_eq!(common_prefix_of_chars(&["foo", "", "bar"]), Some(""));
}

#[test]
fn test_common_prefix_utf8_multibyte() {
    assert_eq!(common_prefix_of_chars(&["café latte", "cafå mocha"]), Some("caf"));
}

#[test]
fn test_common_prefix_whitespace_all_indented() {
    assert_eq!(common_prefix_of_chars(&["    asdf", "    jkl&b", "    foo"]), Some("    "));
}

#[test]
fn test_common_prefix_whitespace_increasing() {
    assert_eq!(common_prefix_of_chars(&["  asdf", "    jkl", "      foo"]), Some("  "));
}

#[test]
fn test_common_prefix_whitespace_with_empty_line() {
    assert_eq!(common_prefix_of_chars(&["  asdf", "    jkl", "", "      foo"]), Some(""));
}

#[test]
fn test_common_prefix_whitespace_mixed() {
    assert_eq!(common_prefix_of_chars(&["   \tasdf", "\t jkl", "", "      foo"]), Some(""));
}

#[test]
fn leading_whitespace_of_lines() {
    assert_eq!(leading_whitespace("  \tx y"), "  \t");
    assert_eq!(leading_whitespace("x"), "");
    assert_eq!(leading_whitespace("   "), "   ");
    assert_eq!(leading_whitespace(""), "");
}

#[test]
fn common_prefix_len_in_bytes() {
    assert_eq!(common_prefix_len(&[], false), 0);
    assert_eq!(common_prefix_len(&["abc"], false), 3);
    assert_eq!(common_prefix_len(&["abc", "abd"], false), 2);
    assert_eq!(common_prefix_len(&["ab", "abcd"], false), 2);
    assert_eq!(common_prefix_len(&["café", "cafè"], false), 3);
    assert_eq!(common_prefix_len(&["  a", "    b"], true), 2);
    assert_eq!(common_prefix_len(&["\t a", "  b"], true), 0);
    assert_eq!(common_prefix_len(&["  same", "  same"], true), 2);
    assert_eq!(common_prefix_len(&["x", ""], false), 0);
}

#[test]
fn checksums_are_found_after_the_output_end_marker() {
    let c = Checksum::from_block_suffix(" (checksum:5d41402abc4b2a76b9719d911017c592) rest").unwrap();
    assert_eq!(c.kind, ChecksumKind::Md5Hex);
    assert_eq!(c.hash, "5d41402abc4b2a76b9719d911017c592");
    assert!(c.matches("hello"));
    assert!(!c.matches("hello!"));
    let s = Checksum::from_block_suffix("(sum:XUFAKrxLKn)").unwrap();
    assert_eq!(s.kind, ChecksumKind::Md5Base64Prefix10Chars);
    assert!(s.matches("hello"));
    assert!(Checksum::from_block_suffix("x (sum:abc)").is_none());
    assert!(Checksum::from_block_suffix("(sum:)").is_none());
    assert!(Checksum::from_block_suffix("(total:abc)").is_none());
}

#[test]
fn output_hash_labels() {
    assert_eq!(OutputHashKind::Md5Hex.label(), "checksum");
    assert_eq!(OutputHashKind::Md5Base64.label(), "sum");
    assert_eq!(OutputHashKind::from_label("checksum"), Some(OutputHashKind::Md5Hex));
    assert_eq!(OutputHashKind::from_label("sum"), Some(OutputHashKind::Md5Base64));
    assert_eq!(OutputHashKind::from_label("Sum"), None);
    let h = OutputHash::from_block_suffix("  (sum:AbC+/_)").unwrap();
    assert_eq!(h.kind, OutputHashKind::Md5Base64);
    assert_eq!(h.hash, "AbC+/_");
    assert!(OutputHash::from_block_suffix("x(sum:a)").is_none());
}

fn loc(offset: usize) -> Loc {
    Loc { offset, line: 0, col: offset, index: offset }
}

#[test]
fn marker_bytes_are_the_span_of_the_content() {
    let m = MarkerInst::from_span("é[[[x", Span { start: loc(2), end: loc(5) });
    assert_eq!(m.bytes(), "[[[");
    let m = MarkerInst::from_span("é[[[x", Span { start: loc(0), end: loc(2) });
    assert_eq!(m.bytes(), "é");
}

#[test]
fn marker_definitions_round_trip() {
    let d = cogshell::args::MarkerDefs::from_str("<!-- --> <!--end-->").unwrap();
    let again = cogshell::args::MarkerDefs::from_str(&d.to_string()).unwrap();
    assert_eq!(again.0, d.0);
    assert_eq!(d.to_string(), "<!-- --> <!--end-->");
}

#[test]
fn marker_definitions_need_three_words() {
    let err = cogshell::args::MarkerDefs::from_str("a b").err().unwrap();
    assert_eq!(err, "Marker config `a b` does not consist of three whitespace-separated words!");
    let err = cogshell::args::marker_defs::MarkerDefs::from_str("a b c d").err().unwrap();
    assert_eq!(err, "Marker config `a b c d` does not consist of three whitespace-separated words!");
    let d = cogshell::args::marker_defs::MarkerDefs::from_str("a\u{2003}b c").unwrap();
    assert_eq!(d.0, ["a".to_string(), "b".to_string(), "c".to_string()]);
}

#[test]
fn location_display_and_end() {
    let l = Loc { offset: 10, line: 3, col: 4, index: 9 };
    assert_eq!(l.to_string(), ":3:4");
    let end = Loc::end_of("ab\ncé").unwrap();
    assert_eq!((end.offset, end.line, end.col, end.index), (6, 1, 3, 5));
    let e = Loc::end_of("").unwrap();
    assert_eq!((e.offset, e.line, e.col, e.index), (0, 0, 0, 0));
}

#[test]
fn source_marker_text_is_its_bytes() {
    let content = "xé[[[cogsh y";
    let mut ls = SourceLocation { line: 0, col: 0, offset: 0 };
    let span = SourceSpan::from_range(content, 3..11, &mut ls);
    let m = SourceMarker { kind: cogshell::source::marker::MarkerKind::ProgramStart, span };
    assert_eq!(m.text(), "[[[cogsh");
    assert_eq!(m.range(), 3..11);
}

#[test]
fn marker_definitions_usable() {
    let d = cogshell::args::marker_defs::MarkerDefs::from_str("[[[cogsh ]]] [[[end]]]").unwrap();
    assert!(d.usable());
    let bad = cogshell::args::marker_defs::MarkerDefs(["a".to_string(), String::new(), "c".to_string()]);
    assert!(!bad.usable());
    let nl = cogshell::args::marker_defs::MarkerDefs(["a".to_string(), "b\n".to_string(), "c".to_string()]);
    assert!(!nl.usable());
}

#[test]
fn a_marker_made_from_a_match_gives_the_match_back() {
    let content = "ab\n xé[[[y";
    let m = MarkerInst::new(content, 7, 10, 1, 3);
    assert_eq!(m.bytes(), "[[[");
    assert_eq!(m.span.start, Loc { offset: 7, line: 1, col: 4, index: 6 });
    assert_eq!(m.span.end, Loc { offset: 10, line: 1, col: 7, index: 9 });
    assert_eq!(m.span.len(), 3);
}

#[test]
fn a_marker_of_a_located_line_gives_its_text_back() {
    let start = Loc { offset: 3, line: 1, col: 0, index: 3 };
    let located = LocatedLine(start, " é[[[cogsh x\n");
    let m = LineMarker::new(MarkerKind::ProgramStart, 2, 10, &located);
    assert_eq!(m.as_str(), "[[[cogsh");
    assert_eq!(m.span.start, Loc { offset: 6, line: 1, col: 3, index: 5 });
    assert_eq!(m.span.len(), 8);
}

#[test]
fn the_common_prefix_stops_at_a_character_boundary() {
    assert_eq!(common_prefix_len(&["aé", "aè"], false), 1);
    assert_eq!(common_prefix_len(&["aé", "aé"], false), 3);
}
