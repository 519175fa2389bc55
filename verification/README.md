# codem8

`codem8` finds duplicated code and overly complex functions in a source tree.
This crate is its library, written in Verus. Every function in `src/` carries
a contract, and Verus proves all of them except the few small wrappers that
call the standard library, `regex` and `xxhash-rust`: their contracts state
what those calls are documented to do, and are trusted rather than proved.

Layout:

- `src/cli`: the command line (`--report-duplicate`, `--report-complexity`,
  `-file-extension=`, `-files=`, `-git-branch`, limits, `-verbose`), the help
  text and the version read from a lock file.
- `src/language`: the language registry, the per-language patterns of lines
  that only count inside larger duplicates, and line classification.
- `src/line.rs`, `src/duplicate.rs`, `src/block_order.rs`: splitting sources
  into normalized lines and finding duplicate blocks, heaviest first, with a
  check that every block weight fits in 64 bits.
- `src/git.rs`, `src/ranges.rs`: reading what `git` prints (unified diffs,
  quoted paths, path lists) and merging changed line ranges.
- `src/discovery.rs`, `src/paths.rs`: choosing source files and showing paths.
- `src/workflow.rs`: the decisions of a run between its outside steps (scopes
  on a changed branch, what a report holds, the run status).
- `src/report`: the text of both reports.
- `app/`: the program around the library: file system, `git` commands,
  parallel processing, and the complexity metrics of `rust-code-analysis`.
- `tests/`: tests of the library.
