# tiro

An interpreter for a small language with Latin keywords (`echo` prints, `sit`
declares a variable, `fvnctio` opens a function, `reddi` returns from it,
`voc` evaluates an expression for its effect), written in Verus.

The pipeline runs in five stages, each a module of the library under `src/`:

- `lexer`: source text to tokens, the longest token at each position;
- `parser`: tokens to a syntax tree; the grammar is given as a printer from
  trees to tokens (`parser/grammar.rs`) and the parser is proved to invert it;
- `analyzer`: name resolution (`analyzer/resolver.rs`) and type checking
  (`analyzer/type_checker.rs`), each proved against a model of what it
  computes (the `model.rs` files);
- `compiler`: analyzed trees to bytecode for a stack machine
  (`bytecode.rs` describes the instructions);
- `interpreter`: runs the bytecode; its behaviour is a step function over a
  model of the machine.

`app/main.rs` reads a source file named on the command line, runs the
pipeline and prints the program's output. The tests under `tests/` exercise
each stage and the whole pipeline.
