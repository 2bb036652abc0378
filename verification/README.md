# dar-forensic

A reader and forensic auditor for Denis Corbin DAR (Disk ARchiver) archives,
written in Verus: the parser, the catalogue walk, extraction, the anomaly audit,
the Sleuth Kit bodyfile export and the directory tree are verified against
specifications stated over the archive's bytes.

## Layout

- `src/` — the verified library.
  - `wire.rs` — byte readers (infinints, NUL-terminated names, timestamps, skips)
    and the error type.
  - `catalog.rs` — inode and file-record grammar and the catalogue walk.
  - `locate.rs` — the version string, the catalogue scan (escape or label, tail
    window first) and the pre-format-8 end trailer.
  - `codec.rs` — codec letters and bounded zlib / bzip2 / zstd / xz decoding,
    whole-stream or block by block (lz4 always in blocks).
  - `reader.rs` — `DarReader`: opening an archive held in memory, listing and
    extracting entries.
  - `findings.rs`, `audit.rs` — anomaly kinds and the audit, sorted most severe
    first.
  - `bodyfile.rs` — Sleuth Kit bodyfile lines.
  - `index.rs`, `tree.rs` — a hash-chained path index and the directory tree
    derived from the flat catalogue.
  - `text.rs` — decimal rendering and string assembly.
- `tests/` — unit, synthetic-archive and law tests.
- `app/` — `Read`/`Write` plumbing, a `std::error::Error` type, serialisable
  records, the `forensicnomicon` observation and the `forensic-vfs` adapter.
- `extras/fixtures.py` — builds the bzip2 streams embedded in
  `tests/real_images.rs`.
