# lox_syntax

The front end of a Lox interpreter: a scanner that turns source text into
tokens and scan errors, and a parser that turns a token sequence into an
expression tree.

- `src/lexical.rs` states the lexical grammar over the UTF-8 bytes of the
  source (`scan`), and proves what every scan guarantees.
- `src/scanning.rs` holds the token types and the scanner, `scan_tokens`,
  proved to compute `scan`.
- `src/parsing.rs` states the expression grammar over token sequences
  (`expression_tree`), holds the parser, `parse_expression`, proved to compute
  it, and proves what every parse guarantees.
- `src/text.rs` builds strings from bytes and from slices of the source.
- `token_line` and `tree_text` give the text that the command-line program
  prints for a token and for a tree.
- `app/main.rs` is the command-line program: `tokenize <file>` and
  `parse <file>`.
