# Muninn

A small statically typed scripting language: source is lexed, parsed,
type-checked and compiled to bytecode for a stack machine. The library in
`src/` is written in Verus; each function carries a contract that Verus
proves.

## Layout

- `lexer`, `parser`, `ast`: tokens and syntax trees; a parsed program gives
  its tokens back in order.
- `typecheck`, `semantics`, `frontend`: typing rules, the symbol model and
  editor queries (definitions, references).
- `compiler`, `growth`: code generation. The compiled module is proved to
  pass `validate`: every function decodes, keeps its operands in range,
  jumps only to instruction starts and keeps the operand stack consistent.
- `bytecode`, `mubc`, `validate`, `roundtrip`: the instruction set, the
  `.mubc` file format and the bytecode validator.
- `project`, `source`, `document`, `lines`, `span`, `text`, `error`,
  `format`: projects, files, positions and diagnostics.
- `interp`: the interpreter's step function. Its semantics is written
  out as a spec function over the bytecode, and `step` is proved to
  follow it: the next state and what the host must do, or the fault.
  Integers, booleans, strings, globals, jumps, calls and fuel are the
  step's own; float and tensor arithmetic and native calls are handed to
  the host as actions.
- `vm`, `runtime`, `natives`, `policy`, `jit`, `shape`, `autodiff`,
  `optim`, `builtins`, `cli`: runtime decisions, tensor shapes and the
  command line's logic.

`app/` holds the command-line program, which does the file I/O, runs the
interpreter loop (natives, floats, tensors, the wall clock) and the
floating-point work; `tests/` holds the tests.
