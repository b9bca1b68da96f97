# hex_conservative

Hex encoding and decoding, verified with Verus.

- `src/case.rs`, `src/digit.rs`: what hex digits are, in either direction.
- `src/decode.rs`: what decoding yields, pair by pair, and which character an error names.
- `src/iter/`: the iterators. `HexToBytesIter` decodes from either end, `BytesToHexIter` encodes.
- `src/buf_encoder.rs`: `BufEncoder`, which encodes into a buffer of fixed size.
- `src/utf8.rs`, `src/scratch.rs`: the calls into `core` and `arrayvec`, and what they are trusted
  to do.
- `src/laws.rs`: what holds of the library as a whole, such as that decoding undoes encoding.
- `app/`: the traits of `std` that the verified types do not carry, with the checks that callers
  outside Verus need.
