# chrysalis

Decoders for two Perl serialisation formats, verified with Verus.

- `storable`: the header of a Storable image (optional `pst0` file magic,
  version bytes, the writer's architecture) and its body, the tagged value
  tree, with back-references by registration index and class names by index.
- `sereal`: the header of a Sereal document (magic, version, encoding, header
  suffix) and its body, with values and class names tracked by offset, a
  nesting limit, and the varint and zigzag encodings.

Decoded values live in a heap (`shared_model::Heap`); a value refers to its
children by their index in the heap, so shared and cyclic structures keep
their identity.  Floating-point numbers are kept as IEEE-754 bit patterns.

Each decoder is stated as a function over the input bytes and the decoder's
state (`storable::grammar`, `sereal::grammar`); the executable decoders are
proved to compute exactly that function, and never to panic.

Layout:

- `src/shared_model.rs`: values, the heap, byte-keyed maps, the seen and class
  tables.
- `src/storable/`, `src/sereal/`: header, grammar (the specification), body
  (the decoder), and for Sereal the cursor and the offset table.
- `src/text.rs`: UTF-8 decoding through std; `src/float_bits.rs`: widening a
  binary32 bit pattern to binary64.
- `tests/`: unit tests of both decoders.
