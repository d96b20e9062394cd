# parity_scale_codec

SCALE (Simple Concatenated Aggregate Little-Endian) is a compact, non-self-describing binary
codec. This crate implements it in Verus: every encoder and decoder carries a contract over a
mathematical model of the bytes, and Verus proves the implementations against those contracts.

## The model

- `Encode::spec_encode` is the encoding of a value, as a sequence of bytes; `encode_to` appends
  exactly that sequence to an output, and `encoded_size` returns its length.
- `Decode::spec_parse` is the length of the encoding of a value at the front of some bytes, if
  they start with one; `decode` then succeeds (unless an input hook refuses, as a memory or
  depth limit does), and reads exactly the encoding of the value it returns. Sets and maps also
  decode items out of order (sorting them) or repeated; their own contracts say what that gives.
- `DecodeLaws` holds the laws that tie the two together: a read never runs past the bytes that
  are there, decoding the encoding of a value reads exactly that encoding, and two values with the
  same encoding are the same value. `lemma_read_back` puts them together: what is read back from
  the front of an encoding is the value that was written, and what follows is left untouched.

## Layout

- `src/` — the verified library.
  - `endian.rs`, `compact_spec.rs`: little-endian numbers and the compact integer encoding as
    functions on numbers and bytes, with their laws (canonical, injective, round trip).
  - `codec.rs`: the `Encode`, `Decode` and `DecodeLaws` traits and the primitive types.
  - `compact.rs`, `sequence.rs`, `composite.rs`, `tuples.rs`, `bit_vec.rs`: compact integers,
    sequences and strings, options, results, tuples (of up to eighteen values), pointers, ranges,
    durations, bit sequences.
  - `io.rs`, `counted_input.rs`, `memory_limit.rs`, `depth_limit.rs`, `decode_all.rs`: inputs
    and outputs, and decoding under limits.
  - `btree.rs`: `BTreeSet` and `BTreeMap`, encoded in ascending order of key.
  - `encode_append.rs`, `encode_like.rs`: appending to an encoded sequence in place, and types
    that encode alike.
  - `max_encoded_len.rs`: the longest encoding a value of a type can have, proved to bound every
    encoding of that type.
  - `derive_rules.rs`, `naming.rs`: the rules that derived implementations follow (variant
    indices, their checks, attribute checks, and the descriptions their decoders give errors).
- `app/` — what stays outside verification: `std::io` readers and writers (an input or output
  implemented outside verified code has none of the models above, so the library's contracts
  say nothing true of it), serde for compact
  values, and conversions to and from the `bitvec` crate's bit vectors.
- `tests/` — tests of the library on concrete values.
