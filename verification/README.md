# reforger_language_server

The verified core of a language server for Enforce script (Arma Reforger):
document snapshots, position tables and work admission; the global symbol
index, its member and completion queries and its pruned copies; syntax-tree
queries and declarator extraction; type-text analysis and expected
construction types; doc-comment formatting; the plain-value parts of
game-data search, inspection and research queries; add-on source
locations and thumbnail colours; and command-line option parsing.

Layout:

- `src/` — the library, written in Verus. Each public function states its
  result in `ensures` over spec functions and views; invariants of the
  symbol index and of the admission table are `wf` predicates that every
  operation keeps. Calls into `png`, `url` and a few `std` functions stand
  behind small trusted wrappers whose contracts name or state what the
  outside code returns.
- `tests/` — ordinary Rust tests of the library on concrete values.
- `app/` — the command-line entry point: argument handling and output.
