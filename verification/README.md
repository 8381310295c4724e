# watermark_core

A blind image-watermarking library whose logic is verified with Verus.

- `src/payload.rs`: the 21-byte payload (version, 16-byte identifier, CRC-32), its bit
  coding, the repetition code and its majority decoder, with round-trip,
  error-correction and single-byte error-detection proofs.
- `src/transform.rs`: the candidate 8x8 blocks of the Haar detail quadrants, the keyed
  block order (SHA-256 seed, ChaCha20 shuffle), and block reads and writes, with proofs
  that blocks stay in their quadrant and never overlap.
- `src/watermark.rs`: profiles, output formats, and the embedding and extraction plans
  that both sides of the pipeline follow.
- `src/hash.rs`: SHA-256 as hexadecimal text and the perceptual average hash.
- `src/batch.rs`, `src/evidence.rs`, `src/export.rs`: the names and decisions of batch
  jobs, the evidence store and evidence export.
- `app/`: the `watermark` command-line tool: image decoding and encoding, the
  floating-point signal processing (Haar transform, DCT, SVD quantization, colour
  conversion, PSNR), the SQLite evidence store and the JSON/CSV/PDF exports.
