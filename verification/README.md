# pdf_ast

A PDF reader that builds an abstract syntax graph of a document, written in
Verus: the object syntax, cross-reference tables and streams, the revision
chain, the page tree, the structure tree, reference resolution, diagnostics
and serialization are executable Rust whose behaviour is stated in
`requires` / `ensures` contracts and proved.

## Layout

- `src/object_parser.rs`: the object grammar (`spec_value`,
  `spec_indirect`): numbers, names, strings, arrays, dictionaries,
  references, indirect objects and streams.
- `src/xref.rs`: classic tables (`spec_xref_table`), cross-reference
  streams (`spec_xref_stream`) and linearization dictionaries.
- `src/pdf_file.rs`: the file parser: header, `startxref`, the `/Prev`
  chain of revisions, object loading with indirect stream lengths, object
  streams, the document structure and the page tree.
- `src/reference_resolver.rs`: resolving the references of a graph against
  the file's bytes.
- `src/struct_tree.rs`: the logical structure tree and marked content.
- `src/ast.rs`, `src/types.rs`, `src/document.rs`: the graph, the PDF
  values and the document model.
- `src/limits.rs`, `src/performance.rs`: resource budgets shared through
  atomic counters, and performance guards.
- `src/document_serial.rs`: a whole document in serialized form and back,
  with the round trip of its parts.
- `src/reconstruction.rs`: cutting the bytes of a damaged file into
  fragments (header, object, stream, cross-reference table, trailer,
  unrecognised chunk); object headers are found with the `regex` crate.
- `src/diagnostics.rs`, `src/security.rs`, `src/serialization.rs`,
  `src/schema.rs`, `src/type_names.rs`, `src/encoding.rs`, `src/lazy.rs`,
  `src/recovery.rs`, `src/text.rs`: analyses, exports and helpers.

Work that is charged to a `ResourceBudget` can fail whenever the shared
counters, the cancellation flag or the clock say so; contracts state the
result for every outcome and, where the budget refuses, what was charged.

`app/` holds what the library leaves to the process: the statistics shared
by the whole process, memory monitoring from `/proc/self/status`, and JSON
through serde on copies of the serialized forms.
