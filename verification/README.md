# viper

A small Python interpreter whose core is verified with Verus: a lexer, a
parser, a bytecode compiler with a peephole optimizer, a stack-based
virtual machine and a tree-walking interpreter.

## Layout

- `src/` — the verified library.
  - `symbol`, `text`, `token`, `lexer`: names, characters and the lexer,
    specified by `lex_from` (the token stream a text gives, or its error).
  - `ast`, `grammar`, `parser`: the syntax tree and the grammar the parser
    follows exactly.
  - `bytecode`, `codegen`, `compiler`: instructions and values, the code
    each statement and expression compiles to, and the peephole pass
    (`optimized`).
  - `stack`, `frames`: stack depths of compiled code, and the discipline a
    running machine keeps on its shared operand stack.
  - `ops`, `vm`, `builtins`: the operators, one machine step (`step_spec`)
    and the built-in functions.
  - `interpreter`, `interp_ops`, `interp_builtins`, `semantics`: the
    tree-walking interpreter and the evaluation relation it follows.
  - `float`: floating-point operations, supplied by the caller through the
    `FloatOps` trait.
  - `repl`: the decisions of the interactive prompt (which lines to skip,
    when a block opens, when input runs).
  - `bench_programs`: generators of benchmark programs.
  - `laws`: properties that relate several operations.
- `tests/` — tests of the library.
- `app/` — the command-line program (file runner, and the prompt's reading
  and printing around `repl_feed`), the benchmark
  driver, and the `f64` implementation of `FloatOps`.
