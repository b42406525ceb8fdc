# cridecoder

Containers and codecs of CRI Middleware — ACB/AWB audio banks, HCA audio and
USM video — as a Verus-verified Rust library.

## Layout

- `src/` — the verified library. Every function carries a contract over
  mathematical models (`Seq`, `Map`, spec functions) and is proved by Verus.
  - `reader.rs` — a byte reader over memory, with big- and little-endian reads.
  - `decimal.rs` — decimal text of integers, for messages and file names.
  - `acb/` — AFS2 archives (`afs.rs`, parsing; `builder.rs`, building), @UTF
    table building (`table.rs`, `strings.rs`), the ACB builder, reading an
    ACB's tables from its bytes (`tables.rs`), the track walk over them
    (`track.rs`) and track extraction (`extractor.rs`).
  - `hca/` — bit reader and writer, cipher tables, CRC-16, header and frame
    sealing, WAV reading and writing, key scoring, seeking.
  - `usm/` — the USM header walk, @UTF tables as USM stores them, chunk
    demultiplexing and the video and audio masks.
- `tests/` — tests run against the compiled library.
- `app/` — the file-level front end: reading and writing files (ACB
  extraction into a directory among them), error types with `Display`, and
  the floating-point sample conversion.

Proof functions named `law_*` state properties that relate several functions
(bits written read back, a built AFS2 archive parses back, a built @UTF
table's header offsets point at its parts, an audio mask
undoes itself, a checksum appended checks to zero).
