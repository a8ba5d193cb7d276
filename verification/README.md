# interpreter

A small interpreter for one-line expressions: a single operand (an integer,
a floating-point number, a double-quoted string or a variable name), a sum
`a + b`, or an assignment `name = value`. It reads expressions from standard
input after a `>> ` prompt until `quit`, or evaluates the lines of the file
named by its first argument.

- `src/` is the verified library: the lexer (`token`, `number`), values
  (`object`), variables (`environment`), evaluation (`eval`), the byte-level
  session helpers (`session`), character utilities (`text`), and the
  properties proved of the whole (`laws`).
- `app/` is the program around it: standard input and output, files, the
  interactive loop, and the `f64` arithmetic that floating-point values need.
- `tests/` exercises the library.
