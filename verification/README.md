# habacode

A source-code line counter: it walks a path, counts the lines of each file that hold
code (neither blank nor inside a comment), and reports totals by language.

- `src/` is the verified library.
  - `config`: the languages, their extensions and comment syntaxes (`lang_by_ext`).
  - `scanner`: the line scanner, its model (`step`, `run`, `feed_spec`, `code_lines`)
    and the proofs that a scan in pieces counts like a scan of the whole input.
  - `chunked`: a scan through a bounded window, as a file is read.
  - `totals`: lines per language and the report order.
  - `walk`: what the directory walk does with each path, and a model of the walk over
    a directory tree with its laws (a deeper limit never lowers a total; a walk adds
    to the totals it starts from).
  - `paths`: lexical `.`/`..` resolution and ignore-file lines.
  - `report`: the scale at which a count is shown and the name column width.
- `app/` is the command-line program: arguments, the file system, printing.
- `tests/` runs the library on concrete inputs.

Usage: `habacode <path> [-d|--max-depth N]` (default depth 50; 0 means the path itself only).
