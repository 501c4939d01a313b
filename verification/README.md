# cargo-spaced

A formatter that inserts deterministic blank lines into Rust source code:
between block-bodied items, around `mod` items, after multiline `let`
statements, block-expression statements, declarations and macro statements,
and (when enabled) between multiline match arms. By default it also collapses
surplus blank lines at those boundaries, removes blank lines between a
comment block and the code it belongs to, and trims blank lines at the ends of
a file.

The library in `src/` is verified with Verus:

- `text` — byte-level primitives: Unicode whitespace, lines, UTF-8 facts.
- `lexer`, `trivia`, `syntax` — a tolerant tokenizer and the parser that finds
  the boundaries between sibling items, statements and match arms.
- `rules` — the spacing rules and the edits they ask for.
- `edit` — edits over byte ranges and their validated application.
- `formatter` — `format_source`, which ties the above together.
- `output` — the rustfmt-style diff printed by `--check`.
- `cli`, `config` — command-line parsing, ignore rules and per-file decisions.
- `laws` — properties proved across functions, such as that formatting
  changes whitespace only.

`app/` is the command-line program around the library: argument handling,
reading `cargo-spaced.toml`, walking directories, reading and writing files, and
shell completions.
