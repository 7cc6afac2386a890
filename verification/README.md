# pdf_engine_core

A PDF engine core written in Verus: the library in `src/` is verified, and
`app/` holds the parts that touch files, C and platform bindings, and
floating-point rendering.

`src/`
- `lexer`, `numbers`, `ast_parser`: tokens, exact numbers and objects read from bytes.
- `object`, `xref`, `document`, `catalog`: the object model, the cross-reference
  table, a document held as bytes, and its page tree.
- `parser`: locating (`find_startxref`), reading (`parse_xref_table`) and
  rebuilding (`rebuild_xref_from_linear_scan`) cross-reference tables.
- `content`, `edit`, `graphics`: content streams, their serialisation and text
  replacement, and what each graphics operator asks for.
- `filter`, `image`, `font`, `crypto`, `text`: stream filters, JPEG images,
  CMaps and TrueType fonts, object keys, text decoding.
- `save`: incremental updates and full rewrites that keep only reachable objects.

Each public function states its result over a specification in `ensures`;
the `law_*` proof functions state properties that span functions.

`app/` is type-checked against the library: file I/O, the C interface,
Android and web bindings, the `f32` graphics state, tiny-skia and Pdfium rendering.
