# static_analyser

A front end for exploring Delphi source code — a lexer, a source map that
hands out spans for pieces of a file, and the beginnings of a parser — whose
behaviour is stated in Verus contracts and proved.

Layout:

- `src/text.rs` — characters and their UTF-8 encoding: the character classes
  the lexer uses and the link between character positions and byte offsets.
- `src/lex.rs` — the lexical grammar as spec functions over sequences of
  characters, the tokenizer that follows it, and laws about its output.
- `src/codemap.rs` — `Span`, `FileMap` and `CodeMap`: files, their contents,
  and the byte intervals that spans stand for. A file issues spans through
  the `FileMapMut` handle that `CodeMap::insert_file` and `file_mut` give,
  so the map keeps its files numbered and its spans unique.
- `src/parse/` — the syntax tree nodes and a parser for literals,
  identifiers and dotted names.
- `src/driver.rs` — the `Driver` that owns the `CodeMap`.
- `src/errors.rs` — what lexing and parsing report.
- `app/` — the program entry point, and token kinds with serde support and
  decimal literals read as floats.
