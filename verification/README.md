# cogshell

`cogshell` runs shell programs embedded in text files and writes their output
back into the files, between markers:

```
<!--[[[cogsh echo hello]]]-->
hello
<!--[[[end]]]-->
```

The program stands between the program start marker (`[[[cogsh` by default)
and the program end marker (`]]]`); its output replaces whatever stood between
the program end marker's line and the output end marker (`[[[end]]]`). Each
output line gets the indentation the block's markers share, and an optional
suffix. A prologue of shell statements runs once per file before the first
block.

## Layout

- `src/` is the library, verified with Verus: locating markers and matching
  them into blocks (`parse`), extracting each block's program and output
  prefix, output checksums, the environment and files handed to the process
  that runs the programs, reading that process's output segment by segment,
  and writing the file with the new outputs (`execute`), together with the
  laws that relate them (for instance, that writing each block's previous
  output back gives the file unchanged).
- `app/` is the command-line program around it: argument parsing, reading and
  writing files, running `bash`.
- `tests/` holds the tests of the library.
