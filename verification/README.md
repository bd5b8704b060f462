# jjpwrgem

An RFC 8259 JSON parser and formatter with detailed error messages, written in
Verus: the parsing, formatting and error reporting are proved against their
specifications.

- `src/` is the verified library: the UTF-8 decoder (`bytes2chars`), the lexer
  (`tokens`), the parser and its visitor interface (`traverse`, `ast`,
  `check`), the compact and pretty printers (`format`), JSON Lines
  (`jsonlines`), error messages and diagnostics (`message`, `diagnostics`),
  a small type checker for values (`schema`), LSP positions (`lsp`), the
  command-line rules (`cli`) and the rendering styles (`ui`).
- `app/` is the command-line program and the language server around the
  library: argument parsing, standard input and output, serde support and the
  LSP plumbing.
- `tests/` runs the library on concrete inputs.

Each parser entry point states its outcome through `parse_whole`, a
specification of the grammar over the bytes of the text: a text is accepted
exactly when it is one JSON value, and otherwise the error names what was
expected, what was found and where. The printers are specified over the events
a value produces, so that their outputs can be compared with one another.
