# nakala

Low-level building blocks of the on-disk format of the Nakala index, written
in Verus and proved against their contracts:

- `src/error.rs`: `FormatError`, an error with a kind and a chain of context
  messages, and the `FormatContext` trait that adds context to a failed
  result.
- `src/prim/read.rs`: `ReadCursor`, a position over a byte slice with
  panic-free reads of little endian integers, varints, length prefixed byte
  strings and strings, and finite state transducers (through the `fst` crate).
- `src/prim/write.rs`: `WriteCursor`, which gathers bytes in a buffer and
  records the position of the next byte.
- `src/prim/varint.rs`: protocol buffer varints, with their decoding and
  encoding stated as spec functions.
- `src/prim/skip.rs`, `src/prim/skip_layout.rs`: a multi-level skip list
  writer and reader, the byte layout of a skip list, and the proof that
  reading back what the writer wrote finds, for every value, the offset
  of the first last-level entry that reaches it.
- `src/prim/skip_size.rs`: the size of a written skip list in closed form.
- `src/prim/roundtrip.rs`: what a read cursor gives back of what a write
  cursor wrote.

`app/` holds what needs `std::io` or `std::fmt`: an `io::Write` adapter for
the write cursor and a displayable copy of the error type.
