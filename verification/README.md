# lzw

LZW compression with a bit stream underneath, verified with Verus.

- `src/bits.rs`: bits of byte sequences (least significant bit of every byte
  first), their packing into bytes, and the value of a run of bits.
- `src/bitstream.rs`: `BitStream`, which writes bit sequences of any length
  after each other and reads them back; its contracts say which bits each call
  appends or returns, `lemma_read_after_write` states that a reader over
  what a writer handed back sees exactly the bits written, then zero padding,
  and `lemma_read_back_parts` that reading back several writes in order gives
  each write's bytes, cut to its length.
- `src/lzw.rs`: `encode` and `decode` (codes of 9 to 19 bits, a clear code and
  a fresh dictionary when codes would need 20 bits, an end code last),
  `get_word` and `from_le_bytes_to_u32`, with the encoder and the decoder
  specified as state machines over bits.
- `src/roundtrip.rs`: `lemma_decode_encode`, the proof that decoding what
  `encode` wrote gives back the input.
- `app/main.rs`: the command line (`encode`/`decode` a file), which reads and
  writes the files around the verified functions.
