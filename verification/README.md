# regexp

Regular expression search in the style of elisp regular expressions, with an alternative,
more readable syntax, written in Verus.

- `src/` is the verified library: the two parsers (`parse`, `alt_parse`), the parse tree and
  its shape model (`tree`), definitions and definition files (`defs`), repetition limits
  (`limits`), the character stream (`peekable`), the backtracking search (`walk`) and the
  step-by-step statement of what it computes (`walk_model`), match
  reports (`report`), the text being searched (`text`), errors (`error`), configuration
  (`config`) and the state of an interactive session (`session`).
- `app/` is the command line program around it: argument handling, reading files and
  standard input, printing, and the interactive loop.
- `tests/` holds the tests.

Run `verus` on `src/lib.rs` to verify the library.
