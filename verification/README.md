# rnix

A parser for the Nix language, verified with Verus. It turns a list of
tokens (kind and text) into a lossless syntax tree built with the `rowan`
crate, plus the errors met on the way.

## Layout

- `src/token.rs`: the token kinds and their classes (trivia, values,
  what can start a function argument).
- `src/kinds.rs`: the node kinds of the tree and their raw 16-bit form.
- `src/green.rs`: `rowan`'s tree builder and trees as Verus sees them: a
  mathematical model of trees, and the trusted contracts of the `rowan`
  calls the parser makes.
- `src/grammar.rs`: what the parser builds, as functions of the input:
  for each parsing routine, the trees it adds, where it stops and the
  errors it records.
- `src/parser.rs`: the recursive-descent parser. Each routine is proved to
  build exactly what `grammar` says; `parse` returns a `Root` tree whose
  leaves are the input tokens in order. The parser holds all tokens in a
  `Vec` with a position rather than pulling them from an iterator through a
  small look-ahead buffer: looking two tokens past a `{` is then a read at
  an index, the input that the contracts speak of is one sequence, and
  collecting an iterator (which Verus cannot follow) is left to
  `parse_tokens` in `app/`. What is parsed is the same either way.
- `src/ast.rs`: the result of a parse, with the list of all errors (those
  recorded, and the `Error` nodes of the tree, each with the byte offset
  where its text starts) and its first error.
- `tests/`: the parser's scenarios and properties on concrete inputs.
- `app/`: plain Rust around the library: `rowan`'s typed syntax nodes,
  a displayable error type, and parsing from any iterator of tokens.
