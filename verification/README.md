# grepclone

A small grep: it prints the lines of a file (or of standard input) that
match a regular expression, optionally counting them, inverting the
selection, numbering and highlighting them, or showing context lines
before, after or around each match, with a separator between groups.

- `src/` is the verified library. `matcher` wraps the `regex` crate behind
  a few trusted functions, `utils` holds the colours (through `owo-colors`),
  number formatting and parsing and the pattern compilation,
  `print_with_context` the grouping of matches with their context lines and
  the rendering of groups, `process` the plain, counting and inverted
  searches and the choice between searches, and `laws` the properties
  proved of them.
- `app/` is the command-line program: argument parsing with `clap`, reading
  the input and writing the selected lines.
- `tests/` runs the library on concrete inputs.
