# rusty_png (verified core of the parallel DEFLATE path)

A Verus library for the part of a PNG encoder that turns a filtered scanline
stream into one zlib stream, compressed in row-aligned blocks, and for the
accounting of its per-stage profiler.

- `src/pardeflate.rs` — how many blocks to split into, the zlib header, one
  raw DEFLATE block through `flate2`, and the whole stream
  (`[header] [blocks in order] [Adler-32]`), with the laws that tie them.
- `src/split.rs` — the row-aligned block ranges and the laws that they tile
  the input, stay within the block budget and, on a split input, are never
  smaller than a full block.
- `src/checksum.rs` — Adler-32 as RFC 1950 defines it, computed by
  `simd_adler32`, and its big-endian trailer.
- `src/deflate.rs` — the trusted calls into `flate2`, and the names for what
  its compressors produce.
- `src/prof.rs` — the stage totals: opening and closing scopes, resetting,
  and listing the non-empty stages.
- `app/lib.rs` — the threaded, writer-based form of the compressor and the
  thread-local, clock-reading profiler built on the library.
