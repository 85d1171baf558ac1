//! What the process that runs a file's blocks is given: the files it reads
//! from a temporary directory, the environment variables that point to them
//! and describe each block, and the terminators that end each program's output.
use vstd::prelude::*;

use crate::execute::terminators::{is_ascii_alnum, OutputTerminator};
use crate::parse::block::{str_views, Block};
use crate::text::{
    decimal, join_lines, join_str_lines, join_string_lines, push_decimal, push_str,
};

verus! {

/// A file to write into the temporary directory: its name there and its content.
#[derive(Debug)]
pub struct TempFile {
    pub name: String,
    pub content: String,
}

/// The extension of a source's name as the process sees it: what follows the
/// last `.` (a final `.` aside), or the whole name if it has no `.`.
pub open spec fn source_ext(source: Seq<char>) -> Seq<char> {
    let s = if source.len() > 0 && source.last() == '.' {
        source.drop_last()
    } else {
        source
    };
    s.skip(last_dot_end(s))
}

/// One past the position of the last `.` in `s`, or 0 if it has none.
pub open spec fn last_dot_end(s: Seq<char>) -> int
    decreases s.len(),
{
    if s.len() == 0 {
        0
    } else if s.last() == '.' {
        s.len() as int
    } else {
        last_dot_end(s.drop_last())
    }
}

proof fn lemma_last_dot_end_bounds(s: Seq<char>)
    ensures
        0 <= last_dot_end(s) <= s.len(),
    decreases s.len(),
{
    if s.len() > 0 && s.last() != '.' {
        lemma_last_dot_end_bounds(s.drop_last());
    }
}

/// The extension of a source's name, as `rsplit_terminator('.')` gives its
/// first piece (the empty string if there is none).
pub fn source_extension(source: &str) -> (res: String)
    ensures
        res@ == source_ext(source@),
{
    let cs = crate::text::chars_of(source);
    let n = if cs.len() > 0 && cs[cs.len() - 1] == '.' {
        cs.len() - 1
    } else {
        cs.len()
    };
    let ghost s = cs@.take(n as int);
    proof {
        assert(s =~= (if source@.len() > 0 && source@.last() == '.' {
            source@.drop_last()
        } else {
            source@
        }));
    }
    let mut k = n;
    proof {
        assert(s.take(n as int) =~= s);
    }
    while k > 0 && cs[k - 1] != '.'
        invariant
            k <= n <= cs@.len(),
            s == cs@.take(n as int),
            last_dot_end(s) == last_dot_end(s.take(k as int)),
        decreases k,
    {
        proof {
            assert(s.take(k as int).drop_last() =~= s.take(k - 1));
        }
        k -= 1;
    }
    proof {
        if k > 0 {
            assert(s.take(k as int).last() == '.');
        } else {
            assert(s.take(0) =~= Seq::<char>::empty());
        }
        lemma_last_dot_end_bounds(s);
    }
    let res = crate::text::string_from_chars(cs.as_slice(), k, n);
    proof {
        assert(res@ =~= s.skip(k as int));
    }
    res
}

/// The files of a run: the prologue's statements, then for each block its
/// program and its previous output.
pub open spec fn temp_files(
    prologue: Seq<Seq<char>>,
    blocks: Seq<Block>,
    ext: Seq<char>,
) -> Seq<(Seq<char>, Seq<char>)>
    decreases blocks.len(),
{
    if blocks.len() == 0 {
        seq![("prologue.sh"@, join_lines(prologue))]
    } else {
        let i1 = blocks.len() as nat;
        let b = blocks.last();
        temp_files(prologue, blocks.drop_last(), ext) + seq![
            ("block_"@ + decimal(i1) + ".sh"@, join_lines(str_views(b.prog_lines@))),
            ("output_prev_"@ + decimal(i1) + ext, b.output_prev@),
        ]
    }
}

/// There is one file for the prologue and two for each block: as many as
/// `executor_env` takes paths.
pub proof fn lemma_temp_files_len(prologue: Seq<Seq<char>>, blocks: Seq<Block>, ext: Seq<char>)
    ensures
        temp_files(prologue, blocks, ext).len() == 1 + 2 * blocks.len(),
    decreases blocks.len(),
{
    if blocks.len() > 0 {
        lemma_temp_files_len(prologue, blocks.drop_last(), ext);
    }
}

/// The views of a list of temporary files.
pub open spec fn temp_file_views(files: Seq<TempFile>) -> Seq<(Seq<char>, Seq<char>)> {
    files.map_values(|f: TempFile| (f.name@, f.content@))
}

/// The files to write into the temporary directory before the process runs.
pub fn executor_files(prologue: &[String], blocks: &[Block], source: &str) -> (res: Vec<TempFile>)
    requires
        blocks@.len() < usize::MAX,
    ensures
        temp_file_views(res@) == temp_files(
            prologue@.map_values(|l: String| l@),
            blocks@,
            source_ext(source@),
        ),
{
    let ext = source_extension(source);
    let ghost pv = prologue@.map_values(|l: String| l@);
    let mut files: Vec<TempFile> = Vec::new();
    files.push(TempFile { name: "prologue.sh".to_owned(), content: join_string_lines(prologue) });
    let mut i: usize = 0;
    proof {
        assert(temp_file_views(files@) =~= temp_files(pv, blocks@.take(0), ext@));
    }
    while i < blocks.len()
        invariant
            i <= blocks@.len() < usize::MAX,
            pv == prologue@.map_values(|l: String| l@),
            temp_file_views(files@) == temp_files(pv, blocks@.take(i as int), ext@),
        decreases blocks@.len() - i,
    {
        let block = &blocks[i];
        let i1 = i + 1;
        let mut prog_name = "block_".to_owned();
        push_decimal(&mut prog_name, i1);
        push_str(&mut prog_name, ".sh");
        let mut prev_name = "output_prev_".to_owned();
        push_decimal(&mut prev_name, i1);
        push_str(&mut prev_name, ext.as_str());
        let ghost before = temp_file_views(files@);
        files.push(TempFile { name: prog_name, content: join_str_lines(block.prog_lines.as_slice()) });
        files.push(TempFile { name: prev_name, content: block.output_prev.to_owned() });
        proof {
            let bt = blocks@.take(i1 as int);
            assert(bt.drop_last() =~= blocks@.take(i as int));
            assert(bt.last() == blocks@[i as int]);
            assert(temp_file_views(files@) =~= before + seq![
                ("block_"@ + decimal(i1 as nat) + ".sh"@, join_lines(str_views(block.prog_lines@))),
                ("output_prev_"@ + decimal(i1 as nat) + ext@, block.output_prev@),
            ]);
        }
        i = i1;
    }
    proof {
        assert(blocks@.take(blocks@.len() as int) =~= blocks@);
    }
    files
}

/// The name of a variable of the run.
pub open spec fn var_name(name: Seq<char>) -> Seq<char> {
    "COGSH_"@ + name
}

/// The name of a variable of block `i1` (counted from 1).
pub open spec fn block_var_name(name: Seq<char>, i1: nat) -> Seq<char> {
    "COGSH_"@ + name + "_"@ + decimal(i1)
}

/// The variables of block `i0` (counted from 0), given the paths of its program
/// and of its previous output.
pub open spec fn block_vars(b: Block, i0: nat, prog_path: Seq<char>, prev_path: Seq<char>) -> Seq<(Seq<char>, Seq<char>)> {
    let i1 = i0 + 1;
    let start = b.markers.prog_start.span.start;
    seq![
        (block_var_name("BLOCK_LINE"@, i1), decimal(start.line as nat)),
        (block_var_name("BLOCK_COL"@, i1), decimal(start.col as nat)),
        (block_var_name("BLOCK_OFFSET"@, i1), decimal(start.offset as nat)),
        (block_var_name("BLOCK_PROG"@, i1), prog_path),
        (block_var_name("BLOCK_OUTPUT_LINE_PFX"@, i1), b.prog_whitespace_pfx@),
        (block_var_name("BLOCK_OUTPUT_PREV"@, i1), prev_path),
    ]
}

/// The variables of the first `blocks.len()` blocks, where the files of
/// block `i0` are at `paths[1 + 2 * i0]` and `paths[2 + 2 * i0]`.
pub open spec fn blocks_vars(blocks: Seq<Block>, paths: Seq<Seq<char>>) -> Seq<(Seq<char>, Seq<char>)>
    decreases blocks.len(),
{
    if blocks.len() == 0 {
        Seq::empty()
    } else {
        let i0 = (blocks.len() - 1) as nat;
        blocks_vars(blocks.drop_last(), paths) + block_vars(
            blocks.last(),
            i0,
            paths[1 + 2 * i0 as int],
            paths[2 + 2 * i0 as int],
        )
    }
}

/// The environment of the process: the temporary directory, the source, the
/// number of blocks, the prologue's path, then the variables of each block.
/// `paths` are the paths of the files of `temp_files`, in the same order.
pub open spec fn executor_vars(
    temp_dir: Seq<char>,
    source: Seq<char>,
    blocks: Seq<Block>,
    paths: Seq<Seq<char>>,
) -> Seq<(Seq<char>, Seq<char>)> {
    seq![
        (var_name("TEMP_DIR"@), temp_dir),
        (var_name("SOURCE"@), source),
        (var_name("NUM_BLOCKS"@), decimal(blocks.len())),
        (var_name("PROLOGUE"@), paths[0]),
    ] + blocks_vars(blocks, paths)
}

/// The views of a list of variables.
pub open spec fn var_views(vars: Seq<(String, String)>) -> Seq<(Seq<char>, Seq<char>)> {
    vars.map_values(|v: (String, String)| (v.0@, v.1@))
}

fn var_named(name: &str, value: String) -> (res: (String, String))
    ensures
        res.0@ == var_name(name@),
        res.1 == value,
{
    let mut n = "COGSH_".to_owned();
    push_str(&mut n, name);
    (n, value)
}

fn block_var_named(name: &str, i1: usize, value: String) -> (res: (String, String))
    ensures
        res.0@ == block_var_name(name@, i1 as nat),
        res.1 == value,
{
    let mut n = "COGSH_".to_owned();
    push_str(&mut n, name);
    push_str(&mut n, "_");
    push_decimal(&mut n, i1);
    (n, value)
}

/// The environment variables of the process, given the temporary directory,
/// the source's name, and the paths where the files of `executor_files` were
/// written, in their order.
pub fn executor_env(temp_dir: &str, source: &str, blocks: &[Block], paths: &[String]) -> (res: Vec<(String, String)>)
    requires
        paths@.len() == 1 + 2 * blocks@.len(),
        blocks@.len() < usize::MAX,
    ensures
        var_views(res@) == executor_vars(
            temp_dir@,
            source@,
            blocks@,
            paths@.map_values(|p: String| p@),
        ),
{
    let ghost pv = paths@.map_values(|p: String| p@);
    let mut env: Vec<(String, String)> = Vec::new();
    env.push(var_named("TEMP_DIR", temp_dir.to_owned()));
    env.push(var_named("SOURCE", source.to_owned()));
    env.push(var_named("NUM_BLOCKS", crate::text::decimal_string(blocks.len())));
    env.push(var_named("PROLOGUE", paths[0].clone()));
    let ghost head = var_views(env@);
    let mut i: usize = 0;
    proof {
        assert(var_views(env@) =~= head + blocks_vars(blocks@.take(0), pv));
    }
    while i < blocks.len()
        invariant
            i <= blocks@.len() < usize::MAX,
            paths@.len() == 1 + 2 * blocks@.len(),
            pv == paths@.map_values(|p: String| p@),
            var_views(env@) == head + blocks_vars(blocks@.take(i as int), pv),
        decreases blocks@.len() - i,
    {
        let block = &blocks[i];
        let i1 = i + 1;
        let start = block.markers.prog_start.span.start;
        let ghost before = var_views(env@);
        assert(2 * i + 2 < paths.len());
        env.push(block_var_named("BLOCK_LINE", i1, crate::text::decimal_string(start.line)));
        env.push(block_var_named("BLOCK_COL", i1, crate::text::decimal_string(start.col)));
        env.push(block_var_named("BLOCK_OFFSET", i1, crate::text::decimal_string(start.offset)));
        env.push(block_var_named("BLOCK_PROG", i1, paths[1 + 2 * i].clone()));
        env.push(block_var_named("BLOCK_OUTPUT_LINE_PFX", i1, block.prog_whitespace_pfx.to_owned()));
        env.push(block_var_named("BLOCK_OUTPUT_PREV", i1, paths[2 + 2 * i].clone()));
        proof {
            let bt = blocks@.take(i1 as int);
            assert(bt.drop_last() =~= blocks@.take(i as int));
            assert(bt.last() == blocks@[i as int]);
            assert(pv[1 + 2 * i] == paths@[1 + 2 * i]@);
            assert(pv[2 + 2 * i] == paths@[2 + 2 * i]@);
            assert(var_views(env@) =~= before + block_vars(*block, i as nat, pv[1 + 2 * i], pv[2 + 2 * i]));
        }
        i = i1;
    }
    proof {
        assert(blocks@.take(blocks@.len() as int) =~= blocks@);
        assert(pv[0] == paths@[0]@);
    }
    env
}

/// One terminator for the prologue and one for each block.
pub fn output_terminators(num_blocks: usize) -> (res: Vec<OutputTerminator>)
    requires
        num_blocks < usize::MAX,
    ensures
        res@.len() == num_blocks + 1,
        forall|i: int| 0 <= i < res@.len() ==> (#[trigger] res@[i]).0@.len() == 20,
        forall|i: int, j: int| 0 <= i < res@.len() && 0 <= j < 20 ==> is_ascii_alnum(#[trigger] res@[i].0@[j]),
{
    let mut res: Vec<OutputTerminator> = Vec::new();
    while res.len() < num_blocks + 1
        invariant
            res@.len() <= num_blocks + 1,
            num_blocks < usize::MAX,
            forall|i: int| 0 <= i < res@.len() ==> (#[trigger] res@[i]).0@.len() == 20,
            forall|i: int, j: int| 0 <= i < res@.len() && 0 <= j < 20 ==> is_ascii_alnum(#[trigger] res@[i].0@[j]),
        decreases num_blocks + 1 - res@.len(),
    {
        res.push(OutputTerminator::new());
    }
    res
}

} // verus!
