# strict-yaml-rust (serde support)

Serialization of Rust values to StrictYAML text and deserialization from it,
with the reading, writing and decision logic verified by Verus.

## Layout

- `src/` — the verified library.
  - `syntax.rs` — what a StrictYAML text denotes: its lines, and the
    documents (block mappings, block sequences, plain, quoted and literal
    scalars) or the reading error that the reader gives for them.
  - `parser.rs` — the reader, proved to give exactly those documents, and the
    event stream of a document stream.
  - `quote.rs` — reading scalars (plain, single- and double-quoted, escapes).
  - `emit.rs` — deciding when a string must be quoted, and escaping it.
  - `scalar.rs` — reading booleans, characters and decimal integers.
  - `de.rs` — the deserializer: each step of serde's data model over the
    event stream, with its errors.
  - `ser.rs` — the serializer: each step of serde's data model as text.
  - `error.rs`, `event.rs` — errors with their messages, and events.
  - `laws.rs` — laws that span several functions: scalars, integers,
    booleans and characters read back as written; error positions; nesting
    levels; one element per document at the root of a stream of many
    documents.
  - `tree_laws.rs` — the laws of whole documents: a tree of strings,
    sequences and mappings, or a struct of them, written by the serializer
    reads back as the same tree; a stream of such documents reads back as one
    document for each, in order.
- `app/` — serde's `Serializer` and `Deserializer` traits over the library,
  the generic entry points `from_str`, `from_str_many` and `to_string`, the
  error type with `Display`, and the reading and writing of floats.
- `tests/` — the tests, run against the compiled library.
