# fae

An interpreter for Fae, a small stack language, written in Verus.

- `src/lexer.rs`: source text to tokens with byte spans; its meaning is the
  spec function `lex`.
- `src/ast.rs`: tokens to a tree of nodes; its meaning is `parse`.
- `src/error.rs`: the lines of the source around a span, their numbers, and
  how they are drawn with carets under the marked characters.
- `src/runtime.rs`: values, stacks, type constraints, function tables and
  scopes.
- `src/faestd.rs`: the built-in functions and the stack built-ins.
- `src/machine.rs`: a machine that runs a program one step at a time; each
  step says what the caller must do next (print, compute with floating point,
  report an error, or nothing).
- `src/laws.rs`: properties of the library as a whole.
- `src/text.rs`: UTF-8 offsets and the `String` operations used above.
- `app/main.rs`: the `fae` command: file reading, printing, floating-point
  arithmetic, and the loop that drives the machine.
