# dacelo

Dacelo is a small ML-style language: `let` / `let rec ... and ...`,
`case ... of` with algebraic data types and pattern matching, curried
functions, lists and tuples, Hindley-Milner type inference with let
polymorphism.  This crate holds its front end, a tree-walking interpreter
and a native compiler for macOS on Apple Silicon (ARM64 code written
directly into a Mach-O object), verified with Verus.

## Layout

- `src/lexer.rs`, `src/parser.rs`, `src/ast.rs`: tokens (each with the
  position and the text it was read from) and the syntax tree.
- `src/infer.rs`: type inference; its tables are maps, unification keeps
  every binding it made, ground types are shown as written.
- `src/eval.rs`: the interpreter.  Output is append-only; builtins that
  need the host (files, arguments, the shell) stop the run with a request,
  which the host answers before the run is replayed.
- `src/strings.rs`, `src/text.rs`: UTF-8 bytes, decimal spelling and
  parsing, quoting.
- `src/encoder.rs`, `src/codegen.rs`, `src/macho.rs`: ARM64 instruction
  words, code generation (tagged immediates, heap blocks with a header
  word, every symbol reached through a GOT ADRP + LDR pair) and the object
  file layout.
- `src/lib.rs`: the pipelines (`run_with_replies`, `check_items`,
  `compile_source`).
- `app/`: the command line (`dacelo <file.dc>`, `--types`, `--ast`,
  `dacelo dcc <file.dc> -o <out>`), file and process I/O, linking with the
  runtime.
- `tests/`: the language's example programs and the library's own tests.
