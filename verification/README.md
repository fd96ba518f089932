# jpeg_core

The core of a baseline JPEG encoder, verified with Verus.

`src/` is the verified library:

- `bitstream` — the model of the entropy-coded segment: bits packed most
  significant first, byte stuffing after 0xFF, padding with one-bits, and the
  facts that the output reads back and holds no marker.
- `bitwriter` — `BitWriter`, proved to keep its buffer equal to the stuffed,
  packed stream of every bit written, with laws over sequences of calls.
- `zigzag`, `quant`, `rle` — zigzag reordering (a proved permutation),
  quantisation (Rust's rounding toward zero), and run-length pairs with ZRL and
  EOB (proved lossless).
- `huffman` — size categories and amplitudes (proved to decode back), and the
  standard tables of baseline JPEG, proved to be the canonical codes of the DHT
  segment the encoder writes.
- `markers` — the SOI, APP0, DQT, SOF0, DHT, SOS and EOI segments.
- `encoder` — `encode_block` and `JpegEncoder`, whose output is the headers,
  the scan of the blocks the DCT returned, and EOI.
- `decode` — a specification of Huffman decoding, and the proof that the
  scan of an encoded file decodes back to the quantised zigzag-ordered
  blocks it was written from whenever every symbol of every block has a
  code.  Only Cb blocks are checked for that while encoding: a Y or Cr AC
  symbol without a code is written as a code of no bits, and such a file
  does not decode back.

`app/` holds what is floating point: RGB to YCbCr conversion, the naive DCT
with its compile-time cosine table, and `encode_rgb`, which converts and then
calls the library.
