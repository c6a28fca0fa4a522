# facet-minecraft

Reading and writing values in the Minecraft protocol's binary format, with
the format's rules proved in Verus.

- `src/` is the verified library. Values and shapes are described by its own
  types (`value::Value`, `schema::Schema`, `shape::ShapeModel`,
  `protocol::ProtocolShape`). It holds the variable-length integers, the
  big-endian walk that writes a value part by part (`peek`, `buffer`), the
  resumable walk that reads one (`iter`), the little-endian serializer and
  deserializer (`writer`, `serialize`, `de`, `deserialize`), scalar parsing
  (`parse`, `process`), size hints (`hint`, `result`) and the text of read
  errors (`report`). The laws it proves stand beside the functions they are
  about: `roundtrip` (what is written is read back), `walkback` (what `to_vec`
  writes `from_slice` reads back), `readback`, `value` (a value is written as its
  parts),
  `hint` and `result` (how hints combine), `sizing` (a type's size hint
  admits what is written for its values), `iter` (trailing input and
  resuming a walk that ran out of input).
- `app/` builds those descriptions from `facet` reflection, moves bytes
  through blocking, `futures-lite` and `tokio` readers and writers, fills
  Rust values back from what was read, and renders errors with `ariadne`.
- `tests/` exercises the library on concrete values.
