# rox

A single-pass bytecode compiler for Lox, verified with Verus: a token stream goes in, a
chunk of instructions and constants comes out, with a diagnostic for each error found.

- `src/token.rs`, `src/opcode.rs`, `src/precedence.rs`: the tokens, the instructions and the
  operator precedences.
- `src/chunk.rs`: the chunk the compiler writes into.
- `src/frontend.rs`: the locals of the scopes being compiled.
- `src/grammar.rs`: the grammar the compiler reads, as spec functions, and the code each
  construct compiles to.
- `src/compiler.rs`: the compiler, a Pratt parser for expressions and a recursive-descent
  parser for declarations and statements. An error-free run is proved to have read a
  program of the grammar and to have written exactly its code; conversely, a clean
  program (no error tokens, no local declared twice in a scope or past the limit, no local
  read in its own initializer, no loop jumping back too far) is proved to compile without
  error, and the grammar is proved unambiguous, so that a program whose one reading is not
  clean is proved to fail. Every diagnostic points at a token of the input, with one of
  the compiler's messages or the error token's own text. Every run keeps the chunk sound (all jumps patched and in range,
  constant and local indexes valid), and every statement leaves the locals of its scope as
  it found them, unless all the slots were taken.
- `app/lib.rs`: checks the input, runs the compiler and writes the diagnostics on
  standard error.
