# ropey (verified rope and its property checks)

A rope — a text held as a sequence of UTF-8 chunks — whose queries are proved
against a model of its text, together with the property functions that hold
the rope against slow reference models and the logic of the runner that drives
them.

## Layout

- `src/text.rs` — the text model: a text is a `Seq<char>`, its bytes are its
  UTF-8 encoding. UTF-16 lengths, byte offsets of char indexes, line breaks
  (LF, VT, FF, CR, NEL, LS, PS; CR LF is one break), and the lemmas that tie
  walks over bytes to the chars they encode.
- `src/fnv_hash.rs` — FNV-1a through the `fnv` crate, and
  `ChunkBoundarySensitiveHasher`, which ends every write with a boundary byte.
- `src/rope.rs` — `Rope`, `RopeBuilder`, `RopeSlice` and `Lines`. Every query
  is stated over the text, so no result depends on the chunk layout; leaves
  never part a CR LF pair; hashing
  writes fixed 256-byte blocks whatever the layout.
- `src/etna.rs` — the property functions. Each contract says which result the
  property gives on which input: the properties that always pass are proved to.
- `src/harness.rs` — witness replay on canonical inputs, property names,
  running every property with the measures added up, the text completion for
  non-ASCII generators, and JSON string quoting (with a decoder in spec form
  that it is proved to round-trip through) for the runner's report.
- `tests/` — witness tests and tests on concrete values.
- `app/main.rs` — the runner: command line, timing, the property-testing
  frameworks (proptest, quickcheck, crabcheck, hegel) and the JSON report.
