# nya virtual machine

A small scripting virtual machine, verified with Verus.

- `src/lexer.rs` — the lexer of the source language: keywords, operators, separators,
  identifiers, integers, numbers, booleans and strings, with the row and column of each
  token.  Its behaviour is stated over a model of the lexer's position (`LexView`) and one
  spec function per lexing step; `tokenize` is proved to follow `lex_run`.
- `src/object.rs` — values: primitives on the stacks, heap objects (tables and strings),
  and tables as association lists with distinct keys.
- `src/garbage_collector.rs` — the heap: slots, mark bits, marking of everything reachable
  from given roots, and sweeping of the rest.
- `src/state.rs` — the machine state: stack frames, variable frames, globals, constants and
  the heap, with garbage collection proved to keep exactly what the state reaches.
- `src/convert.rs` — conversions between Rust values and machine values.
- `src/instruction.rs` — the instructions, the check and execution of one instruction, and
  the run of a program up to its end, a `Halt`, a failing instruction or a floating-point sum.
- `src/functions.rs` — Rust functions called on the machine's stack.
- `src/chars.rs`, `src/assoc.rs` — character classes and UTF-8 lengths; association lists.
- `app/` — the program: the loop that prints what runs print and completes floating-point
  sums, the printable forms of tokens and errors, and the holder of shared callable functions.
