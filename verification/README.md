# asm_tl

An HTML parser and query-selector engine over byte strings, verified with Verus.

Every public function states what it returns in terms of spec functions over
sequences of bytes, and the parser's steps are described one by one as spec
functions that the executable code is proved against.

## Layout

- `src/scan.rs`: byte-level scanning (runs of a byte class, searches,
  comparisons, selector and HTML tokens).
- `src/document.rs`: a bounded single-pass document scanner that writes
  fixed-size node and attribute records into buffers of a chosen capacity.
- `src/parser/`: the HTML parser: its options, the node types, the parse state
  and its steps (`base.rs`), the shape of a parse (`forest.rs`: the nodes form
  a forest in document order; inner text) and its lookup tables (`tables.rs`).
- `src/queryselector/`: selectors, how they match nodes, and the selector parser.
- `src/vdom.rs`: a parsed document, with lookups by id and by selector.
- `src/bytemap.rs`, `src/stream.rs`, `src/simd.rs`, `src/util.rs`,
  `src/errors.rs`: a small map keyed by byte strings, a cursor, search helpers,
  byte classes and the error type.

The only outside crate is `memchr`, called for the byte searches behind two
trusted wrappers in `src/scan.rs`.
