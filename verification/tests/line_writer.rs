use cogshell::line_transform_writer::{LineSink, LineTransformWriter, LineWriteError};

fn upper(line: String) -> String {
    line.to_uppercase()
}

#[test]
fn complete_lines_are_transformed_and_the_rest_held_back() {
    let mut w = LineTransformWriter::new(String::new(), upper);
    assert_eq!(w.write_bytes(b"ab\ncd").ok(), Some(5));
    assert_eq!(w.inner, "AB\n");
    assert_eq!(w.write_bytes(b"e\nf").ok(), Some(3));
    assert_eq!(w.inner, "AB\nCDE\n");
    assert!(w.flush().is_ok());
    assert_eq!(w.inner, "AB\nCDE\nF");
}

#[test]
fn writing_in_pieces_or_at_once_holds_back_the_same() {
    let mut one = LineTransformWriter::new(String::new(), upper);
    let n_one = one.write_bytes(b"x\ny\nz").unwrap();
    let mut two = LineTransformWriter::new(String::new(), upper);
    let n_two = two.write_bytes(b"x\ny").unwrap() + two.write_bytes(b"\nz").unwrap();
    assert_eq!(n_one, 5);
    assert_eq!(n_one, n_two);
    assert_eq!(one.inner, two.inner);
    one.flush().unwrap();
    two.flush().unwrap();
    assert_eq!(one.inner, "X\nY\nZ");
    assert_eq!(one.inner, two.inner);
}

#[test]
fn a_line_with_an_interior_newline_is_refused() {
    let mut w = LineTransformWriter::new(String::new(), upper);
    let mut line = "a\nb".to_string();
    match w.write_line_transformed(&mut line) {
        Err(e @ LineWriteError::InteriorNewline(1)) => {
            assert_eq!(e.message(), Some("Interior newline found at 1!".to_string()));
        }
        other => panic!("unexpected {:?}", other.map(|_| ())),
    }
    assert_eq!(line, "a\nb");
    assert!(w.inner.is_empty());
    let mut ok = "end\n".to_string();
    assert!(w.write_line_transformed(&mut ok).is_ok());
    assert_eq!(ok, "END\n");
    assert_eq!(w.inner, "END\n");
}

#[test]
fn a_held_back_line_blocks_whole_lines() {
    let mut w = LineTransformWriter::new(String::new(), upper);
    assert_eq!(w.write_bytes(b"partial").ok(), Some(7));
    assert!(w.inner.is_empty());
    let mut line = "whole\n".to_string();
    let err = w.write_line_transformed(&mut line).err().unwrap();
    assert!(matches!(err, LineWriteError::PartialLinePending));
    assert_eq!(err.message(), Some("non-empty `partial_line` state!".to_string()));
    assert_eq!(line, "whole\n");
    assert!(w.inner.is_empty());
}

#[test]
fn bytes_that_are_not_utf8_are_refused() {
    let mut w = LineTransformWriter::new(String::new(), upper);
    let err = w.write_bytes(&[0xff, b'\n']).err().unwrap();
    assert!(matches!(err, LineWriteError::InvalidUtf8(_)));
    assert!(w.inner.is_empty());
    assert_eq!(w.write_bytes(b"ok\n").ok(), Some(3));
    assert_eq!(w.inner, "OK\n");
}

#[test]
fn sink_errors_have_no_message_of_their_own() {
    let err: LineWriteError<String> = LineWriteError::Sink("sink closed".to_string());
    assert_eq!(err.message(), None);
}

#[test]
fn a_string_sink_keeps_all_it_is_given() {
    let mut s = String::from("a");
    assert!(s.write_all_str("bc").is_ok());
    assert!(s.flush_sink().is_ok());
    assert_eq!(s, "abc");
}

#[test]
fn held_bytes_that_are_not_utf8_fail_the_flush() {
    let mut w = LineTransformWriter::new(String::new(), upper);
    assert_eq!(w.write_bytes(&[b'a', 0xff]).ok(), Some(2));
    assert!(w.inner.is_empty());
    let err = w.flush().err().unwrap();
    assert!(matches!(err, LineWriteError::InvalidUtf8(_)));
    assert!(w.inner.is_empty());
}

#[test]
fn flushing_with_nothing_held_writes_no_line() {
    let mut w = LineTransformWriter::new(String::new(), |line: String| format!("<{line}>"));
    assert_eq!(w.write_bytes(b"a\n").ok(), Some(2));
    assert!(w.flush().is_ok());
    assert_eq!(w.inner, "<a\n>");
}

#[test]
fn each_completed_line_is_transformed_once_in_order() {
    let mut w = LineTransformWriter::new(String::new(), |line: String| format!("[{}]", line.len()));
    assert_eq!(w.write_bytes(b"one\ntwo\nthree").ok(), Some(13));
    assert_eq!(w.inner, "[4][4]");
    assert_eq!(w.write_bytes(b"!\n").ok(), Some(2));
    assert_eq!(w.inner, "[4][4][7]");
}
