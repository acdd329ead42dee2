# cnlint

Finds comments that contain Chinese characters in source code, lists them, and removes them.

- `src/` is the verified library (Verus):
  - `lexer.rs` — the comment scanner as a state machine over a file's bytes (`step`,
    `scan`), and executable code proved to follow it;
  - `scan_facts.rs` — what holds of every comment found: position, delimiters, line
    numbers, character boundaries, order;
  - `comment.rs` — comment records, Chinese-character detection, selection;
  - `cleaner.rs` — removal of comments and, with `--trim-empty`, deletion of the lines the
    removal leaves blank and collapsing of the other blank lines, with their laws;
  - `line_facts.rs` — splitting a text into lines and joining lines back;
  - `syntax.rs` — the comment syntax of each supported file extension;
  - `scanner.rs`, `utils.rs`, `cli.rs`, `text.rs`, `utf8_facts.rs` — reports, messages,
    command-line types, text helpers, UTF-8 boundary facts.
- `app/main.rs` is the command-line program: argument parsing, directory traversal, reading
  and writing files, printing (plain or JSON).
- `tests/` exercises the library on concrete inputs.
