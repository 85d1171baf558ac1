use cogshell::args::{Args, MarkerDefs, Pipe, SourceAndDestArgs};
use cogshell::parse::file::{File, FileContext};

#[test]
fn test() {
    let content = String::from(
        "\
content before
<!--[[[cogsh echo hello]]]-->
STALE OUTPUT
<!--[[[end]]]-->
content after
",
    );
    let ctx = FileContext {
        source: &Pipe::Stream,
        content,
        config: &Args {
            source_and_dest: SourceAndDestArgs::SingleSourceAndDest(Pipe::Stream, Pipe::Stream),
            prologue: vec![],
            output_line_suffix: String::new(),
            markers: MarkerDefs::from_str("[[[cogsh ]]] [[[end]]]").unwrap(),
        },
    };
    println!("{:?}", File::from(&ctx).unwrap());
}

#[test]
fn previous_output_is_the_text_between_the_markers() {
    let content = String::from("<!--[[[cogsh echo hello]]]-->\nSTALE\n<!--[[[end]]]-->\n");
    let ctx = FileContext {
        source: &Pipe::Stream,
        content,
        config: &Args {
            source_and_dest: SourceAndDestArgs::SingleSourceAndDest(Pipe::Stream, Pipe::Stream),
            prologue: vec![],
            output_line_suffix: String::new(),
            markers: MarkerDefs::from_str("[[[cogsh ]]] [[[end]]]").unwrap(),
        },
    };
    let file = File::from(&ctx).unwrap();
    assert_eq!(file.blocks.len(), 1);
    assert_eq!(file.blocks[0].output_prev, "-->\nSTALE\n<!--");
}

#[test]
fn previous_output_drops_one_newline_at_each_end() {
    let content = String::from("[[[cogsh echo hello]]]\nSTALE\n\n[[[end]]]\n");
    let ctx = FileContext {
        source: &Pipe::Stream,
        content,
        config: &Args {
            source_and_dest: SourceAndDestArgs::SingleSourceAndDest(Pipe::Stream, Pipe::Stream),
            prologue: vec![],
            output_line_suffix: String::new(),
            markers: MarkerDefs::from_str("[[[cogsh ]]] [[[end]]]").unwrap(),
        },
    };
    let file = File::from(&ctx).unwrap();
    assert_eq!(file.blocks[0].output_prev, "STALE\n");
}
