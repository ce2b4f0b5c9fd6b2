# brace_expander

Bash-like brace expansion (`a{b,c}` → `ab ac`, `{1..3}` → `1 2 3`, `{a..e..2}` →
`a c e`, `{006..008}` → `006 007 008`), written and proved in Verus.

- `src/tokenizer.rs` splits the input into tokens; `spec_tokenize` says what the
  tokens are, and lemmas show that they cover the input, that each starts at the
  byte offset where the one before it ends, that runs of whitespace and text are kept
  whole, and that each `{` records the first `}` at which the braces after it balance.
- `src/parser.rs` builds the syntax tree of each whitespace-free section, in strict
  mode (malformed braces are errors) or lenient mode (they stand for themselves).
- `src/expansion.rs` gives the words of a tree: cartesian products, numeric and
  character ranges.
- `src/number.rs` reads and writes decimal integers as Rust's `str::parse` and
  `Display` do.
- `src/lib.rs` holds `BraceExpander::expand`, whose result is `spec_expand` of the
  input, and the laws that relate strict and lenient mode and that say that sections
  separated by whitespace expand to the words of each, one after the other.
- `app/lib.rs` gives the error type `Display` and `std::error::Error`.
