use cogshell::parse::block::BlockError;
use cogshell::parse::{ParsedBlock, UnparsedBlock};

/// The block of `content` with the default markers `[[[cogsh`, `]]]` and `[[[end]]]`.
fn block_of(content: &str) -> UnparsedBlock<'_> {
    let ps = content.find("[[[cogsh").unwrap();
    let pe = content[ps..].find("]]]").unwrap() + ps;
    let oe = content.find("[[[end]]]").unwrap();
    UnparsedBlock {
        content,
        prog_start: ps..ps + 8,
        prog_end: pe..pe + 3,
        output_end: oe..oe + 9,
    }
}

// Rule 1: prog_start and prog_end on the same line — trim whitespace and return
#[test]
fn test_rule1_same_line() {
    const CONTENT: &str = "[[[cogsh   echo foo  ]]]\n[[[end]]]";
    let block = block_of(CONTENT);
    assert_eq!(ParsedBlock::extract_program(&block), Ok(vec!["echo foo"]));
}

// Rule 2: all lines share a common non-whitespace prefix — strip it, then strip common indent
#[test]
fn test_rule2_shared_prefix() {
    const CONTENT: &str = "prologue\n--[[[cogsh\n--   echo foo bar baz\n--   jq -n '1 + 2 + 3'\n--]]]\nxy0\nxy1\nxy2\n--[[[end]]]\n";
    let block = block_of(CONTENT);
    assert_eq!(
        ParsedBlock::from(&block, "").map(|b| b.program_lines),
        Ok(vec!["echo foo bar baz", "jq -n '1 + 2 + 3'"])
    );
}

// Rule 3: non-whitespace after prog_start on same line becomes first line (trimmed),
// remaining lines get common indent stripped (rule 4)
#[test]
fn test_rule3_inline_first_line() {
    const CONTENT: &str = "[[[cogsh   first line\n    second line\n    third line\n]]]\n[[[end]]]";
    let block = block_of(CONTENT);
    assert_eq!(
        ParsedBlock::extract_program(&block),
        Ok(vec!["first line", "second line", "third line"])
    );
}

// Rule 4: multiline, no shared non-ws prefix — strip common leading whitespace
#[test]
fn test_rule4_common_indent() {
    const CONTENT: &str = "[[[cogsh\n    echo foo\n    echo bar\n]]]\n[[[end]]]";
    let block = block_of(CONTENT);
    assert_eq!(
        ParsedBlock::extract_program(&block),
        Ok(vec!["echo foo", "echo bar"])
    );
}

// Error: prog_end and output_end on the same line
#[test]
fn test_error_prog_end_output_end_same_line() {
    const CONTENT: &str = "[[[cogsh echo foo]]] [[[end]]]";
    let block = block_of(CONTENT);
    assert!(ParsedBlock::extract_program(&block).is_err());
    assert_eq!(
        ParsedBlock::extract_program(&block),
        Err(BlockError::OutputEndOnProgramEndLine)
    );
}
