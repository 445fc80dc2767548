# desert

A verified frontend for Desert, an indentation-based language that lowers
to Rust. The library in `src/` is written in Verus: every function carries
a contract over a mathematical model of its inputs, and the proofs are
checked by the verifier.

- `text`: character-sequence helpers shared by the other modules.
- `ast`: the syntax tree and its model (`SExpr`, `SStmt`, ...).
- `lexer`: the indentation-aware token stream, specified as a state machine.
- `parser`, `statements`: recursive-descent parsing, specified as a grammar.
- `imports`: Rust imports written in Desert and the `use` paths they lower to.
- `semantic`: the checks a program passes before lowering (scopes,
  mutability, calls, constructors, imports, protocol implementations).
- `resolver`: the scopes used to tell type paths from values.
- `transpiler`: lowering to Rust lines with a source map.
- `sourcemap`, `mirage`: mapping rustc diagnostics back to Desert.
- `formatter`: the canonical Desert text of a program.
- `readback`: proofs that formatted operator expressions, and programs of
  `let`, `mut` and expression lines over them, lex and parse back to what
  was formatted.
- `project`: multi-file programs (import-graph walk, combined text and
  line origins, project scaffolding names).

`app/` holds the `desert` command line (file and process I/O, argument
parsing, JSON and TOML decoding) around the library.

## Syntax beyond the base language

Besides the base language, the parser reads three forms that the syntax
tree has nodes for:

- `enum Name:` followed by an indented block of variants, each
  `Variant` or `Variant(Type, ...)`; it lowers to a Rust `enum` and
  declares `Name` as a type for the checks.
- `|a, b: Type| body`, a lambda whose body is one expression; it lowers to
  a Rust closure.
- `for (a, b) in pairs:`, a tuple pattern (nested as deep as wanted) in a
  `for` loop or a `let`/`mut` binding.

Programs that use none of these parse exactly as in the base language.
