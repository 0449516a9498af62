# riff

Riff colors `diff` output and highlights not only which lines changed, but
which parts of them.

```
git diff | riff
riff file1 file2
riff --file changes.diff
```

## Layout

- `src/` is the highlighting library, verified with Verus. Every public
  function states what it returns in its contract.
  - `tokenizer`, `refiner`, `token_collector`: splitting text into tokens,
    diffing old and new tokens and drawing them as ANSI colored lines.
  - `line_counts`: the proofs that formatting keeps the lines of the texts
    and, stripped of its colors, shows each line behind its prefix.
  - `terminal`: what a terminal does with the escape sequences that are
    written, and what text it shows.
  - `line_collector` and the `*_highlighter` modules: the state machines
    that recognize file headers, hunks, `-` / `+` sections, merge conflicts
    and renames, one input line at a time.
  - `ansi`, `hunk_header`, `commit_line`, `cli`, `pager`, `text`: escape
    sequences, hunk headers, `commit` lines, command line decisions and text
    helpers.
- `app/` is the command line program: argument parsing, reading input,
  running `diff` and a pager, and printing.
- `tests/` exercises the library.
