use cogshell::args::files::{File, FileArg, Read};
use cogshell::args::marker_defs::MarkerDefs;
use cogshell::args::options::Args;
use cogshell::execute::setup::{executor_env, executor_files, output_terminators, source_extension};
use cogshell::execute::terminators::OutputTerminator;
use cogshell::parse::parse_input::ParseInput;
use cogshell::parse::parsed_file::ParsedFile;
use cogshell::text::{decimal_string, join_str_lines, join_string_lines};

#[test]
fn extension_is_what_follows_the_last_dot() {
    assert_eq!(source_extension("notes.md"), "md");
    assert_eq!(source_extension("a.tar.gz"), "gz");
    assert_eq!(source_extension("a.b."), "b");
    assert_eq!(source_extension("Makefile"), "Makefile");
    assert_eq!(source_extension(""), "");
    assert_eq!(source_extension("."), "");
    assert_eq!(source_extension("a.."), "");
    assert_eq!(source_extension("<stdin>"), "<stdin>");
}

#[test]
fn decimal_strings() {
    assert_eq!(decimal_string(0), "0");
    assert_eq!(decimal_string(7), "7");
    assert_eq!(decimal_string(10), "10");
    assert_eq!(decimal_string(1234), "1234");
    assert_eq!(decimal_string(usize::MAX), usize::MAX.to_string());
}

#[test]
fn lines_joined_with_newlines() {
    assert_eq!(join_str_lines(&[]), "");
    assert_eq!(join_str_lines(&["one"]), "one");
    assert_eq!(join_str_lines(&["one", "", "three"]), "one\n\nthree");
    assert_eq!(join_string_lines(&["set -e".to_string(), "x=1".to_string()]), "set -e\nx=1");
}

#[test]
fn terminators_are_twenty_letters_or_digits() {
    let ts = output_terminators(2);
    assert_eq!(ts.len(), 3);
    for t in &ts {
        assert_eq!(t.as_str().len(), 20);
        assert!(t.as_str().chars().all(|c| c.is_ascii_alphanumeric()));
    }
    let t = OutputTerminator::new();
    assert_eq!(t.0.chars().count(), 20);
}

fn parsed_sample<R>(f: impl FnOnce(&ParsedFile<'_, '_>) -> R) -> R {
    let args = Args {
        files: vec![FileArg::OnDisk("docs/page.md".to_string())],
        output: None,
        prologue: vec!["set -e".to_string(), "x=1".to_string()],
        output_line_suffix: String::new(),
        markers: MarkerDefs::from_str("[[[cogsh ]]] [[[end]]]").unwrap(),
    };
    let source: File<Read> = File::from_arg(&FileArg::OnDisk("docs/page.md".to_string()));
    let content = "intro\n  [[[cogsh echo hi]]]\n  old\n  [[[end]]]\n[[[cogsh\nls\npwd\n]]]\n[[[end]]]\n";
    let input = ParseInput::from(&args, &source, content.to_string());
    let parsed = ParsedFile::from(&input).unwrap();
    f(&parsed)
}

#[test]
fn files_for_the_process() {
    parsed_sample(|parsed| {
        let files = executor_files(&parsed.input.args.prologue, &parsed.blocks, "docs/page.md");
        let names: Vec<&str> = files.iter().map(|f| f.name.as_str()).collect();
        assert_eq!(
            names,
            vec!["prologue.sh", "block_1.sh", "output_prev_1md", "block_2.sh", "output_prev_2md"]
        );
        assert_eq!(files[0].content, "set -e\nx=1");
        assert_eq!(files[1].content, "echo hi");
        assert_eq!(files[2].content, "  old\n  ");
        assert_eq!(files[3].content, "ls\npwd");
        assert_eq!(files[4].content, "");
    });
}

#[test]
fn environment_of_the_process() {
    parsed_sample(|parsed| {
        let paths: Vec<String> = (0..5).map(|i| format!("/tmp/t/{i}")).collect();
        let env = executor_env("/tmp/t", "docs/page.md", &parsed.blocks, &paths);
        let pairs: Vec<(&str, &str)> = env.iter().map(|(k, v)| (k.as_str(), v.as_str())).collect();
        assert_eq!(
            pairs,
            vec![
                ("COGSH_TEMP_DIR", "/tmp/t"),
                ("COGSH_SOURCE", "docs/page.md"),
                ("COGSH_NUM_BLOCKS", "2"),
                ("COGSH_PROLOGUE", "/tmp/t/0"),
                ("COGSH_BLOCK_LINE_1", "1"),
                ("COGSH_BLOCK_COL_1", "2"),
                ("COGSH_BLOCK_OFFSET_1", "8"),
                ("COGSH_BLOCK_PROG_1", "/tmp/t/1"),
                ("COGSH_BLOCK_OUTPUT_LINE_PFX_1", "  "),
                ("COGSH_BLOCK_OUTPUT_PREV_1", "/tmp/t/2"),
                ("COGSH_BLOCK_LINE_2", "4"),
                ("COGSH_BLOCK_COL_2", "0"),
                ("COGSH_BLOCK_OFFSET_2", "46"),
                ("COGSH_BLOCK_PROG_2", "/tmp/t/3"),
                ("COGSH_BLOCK_OUTPUT_LINE_PFX_2", ""),
                ("COGSH_BLOCK_OUTPUT_PREV_2", "/tmp/t/4"),
            ]
        );
    });
}
