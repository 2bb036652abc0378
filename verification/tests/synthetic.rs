//! Synthetic-byte tests: each builds a minimal DAR archive from raw bytes to
//! exercise one path of the reader, the auditor or the bodyfile export.

use flate2::{write::ZlibEncoder, Compression};
use std::io::Write;
use dar_forensic::{Anomaly, AnomalyKind, DarEntry, DarError, DarReader, EntryKind, Severity};

// ── helpers ───────────────────────────────────────────────────────────────────

fn inf(n: u32) -> [u8; 5] {
    let b = n.to_be_bytes();
    [0x80, b[0], b[1], b[2], b[3]]
}

fn inode_base(bit4: bool) -> Vec<u8> {
    let flags = if bit4 { 0x10u8 } else { 0x00 };
    let mut v = vec![flags];
    v.extend_from_slice(&[0x80, 0x00, 0x00, 0x00, 0x00]); // uid
    v.extend_from_slice(&[0x80, 0x00, 0x00, 0x00, 0x00]); // gid
    v.extend_from_slice(&[0x00, 0x00]); // perms
    for _ in 0..3 {
        v.push(b's'); // timestamp type
        v.extend_from_slice(&[0x80, 0x00, 0x00, 0x00, 0x00]); // seconds
    }
    if bit4 {
        v.extend_from_slice(&[0x80, 0x00, 0x00, 0x00, 0x00]); // nlink
        v.extend_from_slice(&[0x80, 0x00, 0x00, 0x00, 0x00]); // field9
    }
    v
}

/// A valid 21-byte DAR header with TLV count = 0; the archive origin is 21.
fn header() -> Vec<u8> {
    let mut v = vec![0x00u8, 0x00, 0x00, 0x7b]; // magic
    v.extend_from_slice(&[0u8; 10]); // internal_name
    v.extend_from_slice(&[0x00, b'T']); // flag + extension ('T' = TLV / format 8+)
    v.extend_from_slice(&inf(0)); // TLV count = 0
    v
}

/// Catalogue escape + 10-byte label + NUL path.
fn catalog_open() -> Vec<u8> {
    let mut v = vec![0xAD, 0xFD, 0xEA, 0x77, 0x21, 0x43]; // seqt_catalogue
    v.extend_from_slice(&[0u8; 10]); // label
    v.push(0x00); // path NUL
    v
}

/// A `<ROOT>` directory entry (no FSA).
fn root_dir() -> Vec<u8> {
    let mut v = vec![0x04u8]; // cat_sig → 'd'
    v.extend_from_slice(b"<ROOT>\x00");
    v.extend(inode_base(false));
    v
}

/// A named directory entry (no FSA).
fn subdir(name: &str) -> Vec<u8> {
    let mut v = vec![0x04u8];
    v.extend_from_slice(name.as_bytes());
    v.push(0x00);
    v.extend(inode_base(false));
    v
}

/// Inode with 'n'-type (nanosecond-precision) timestamps.
fn inode_ns(bit4: bool) -> Vec<u8> {
    let flags = if bit4 { 0x10u8 } else { 0x00 };
    let mut v = vec![flags];
    v.extend_from_slice(&[0x80, 0x00, 0x00, 0x00, 0x00]); // uid
    v.extend_from_slice(&[0x80, 0x00, 0x00, 0x00, 0x00]); // gid
    v.extend_from_slice(&[0x00, 0x00]); // perms
    for _ in 0..3 {
        v.push(b'n'); // type 'n'
        v.extend_from_slice(&[0x80, 0x00, 0x00, 0x00, 0x00]); // seconds
        v.extend_from_slice(&[0x80, 0x00, 0x00, 0x00, 0x00]); // nanoseconds
    }
    if bit4 {
        v.extend_from_slice(&[0x80, 0x00, 0x00, 0x00, 0x00]); // nlink
        v.extend_from_slice(&[0x80, 0x00, 0x00, 0x00, 0x00]); // field9
    }
    v
}

/// A file catalogue entry with nanosecond-precision timestamps.
fn file_entry_ns(name: &str, enc: u8, comp: u8, archive_offset: u32, size: u32) -> Vec<u8> {
    let mut v = vec![0x06u8]; // cat_sig → 'f'
    v.extend_from_slice(name.as_bytes());
    v.push(0x00);
    v.extend(inode_ns(false));
    v.extend_from_slice(&inf(size));
    v.extend_from_slice(&inf(archive_offset));
    v.extend_from_slice(&inf(size));
    v.push(enc);
    v.push(comp);
    v.extend_from_slice(&inf(0)); // crc_size = 0
    v
}

/// A file catalogue entry.
fn file_entry(name: &str, enc: u8, comp: u8, archive_offset: u32, size: u32) -> Vec<u8> {
    let mut v = vec![0x06u8]; // cat_sig → 'f'
    v.extend_from_slice(name.as_bytes());
    v.push(0x00);
    v.extend(inode_base(false));
    v.extend_from_slice(&inf(size)); // logical size
    v.extend_from_slice(&inf(archive_offset)); // archive_offset
    v.extend_from_slice(&inf(size)); // stored_size
    v.push(enc);
    v.push(comp);
    v.extend_from_slice(&inf(0)); // crc_size = 0
    v
}

const EOD: u8 = 0x1a; // cat_sig → 'z'

/// Minimal archive: header → catalogue at the archive origin → ROOT → file
/// entries → EOD. No file data is embedded.
fn minimal_dar(files: Vec<Vec<u8>>) -> Vec<u8> {
    let mut v = header();
    v.extend(catalog_open());
    v.extend(root_dir());
    for f in files {
        v.extend(f);
    }
    v.push(EOD);
    v
}

fn paths_of(r: &DarReader) -> Vec<String> {
    r.entries().into_iter().map(|e| e.path_lossy().into_owned()).collect()
}

/// The error of an `open` that must fail.
fn open_err(buf: Vec<u8>) -> DarError {
    match DarReader::open(buf) {
        Err(e) => e,
        Ok(_) => panic!("expected Err, got Ok"),
    }
}

// ── header and catalogue location ─────────────────────────────────────────────

#[test]
fn synthetic_corrupt_infinint_in_header_preserves_cause() {
    let mut buf = vec![0x00u8, 0x00, 0x00, 0x7b]; // magic
    buf.extend_from_slice(&[0u8; 10]); // label
    buf.extend_from_slice(&[0x00, b'T']); // flag + extension
    buf.push(0x03); // invalid terminal — two bits set
    buf.extend_from_slice(&[0x00u8; 4]);
    let err = open_err(buf);
    assert!(
        matches!(&err, DarError::Corrupt(s) if s.contains("terminal") || s.contains("infinint")),
        "expected Corrupt mentioning terminal/infinint, got: {err:?}"
    );
}

#[test]
fn synthetic_no_catalog_escape_returns_corrupt() {
    let mut buf = header();
    buf.extend_from_slice(&[0u8; 64]); // body with no seqt_catalogue escape
    assert!(matches!(DarReader::open(buf), Err(DarError::Corrupt(_))));
}

#[test]
fn extract_compressed_size_mismatch_returns_corrupt() {
    // A zlib stream of b"hello" (5 bytes) at the archive origin, declared 10.
    const ZLIB_HELLO: [u8; 13] = [
        0x78, 0xda, 0xcb, 0x48, 0xcd, 0xc9, 0xc9, 0x07, 0x00, 0x06, 0x2c, 0x02, 0x15,
    ];
    let mut buf = header();
    buf.extend_from_slice(&ZLIB_HELLO);
    buf.extend(catalog_open());
    buf.extend(root_dir());
    let mut entry = vec![0x06u8];
    entry.extend_from_slice(b"z.bin\x00");
    entry.extend(inode_base(false));
    entry.extend_from_slice(&inf(10)); // logical size (wrong on purpose)
    entry.extend_from_slice(&inf(0)); // archive_offset
    entry.extend_from_slice(&inf(ZLIB_HELLO.len() as u32)); // stored_size
    entry.push(0x00); // not encrypted
    entry.push(b'z'); // gzip
    entry.extend_from_slice(&inf(0)); // crc_size
    buf.extend(entry);
    buf.push(EOD);

    let r = DarReader::open(buf).expect("open");
    let err = r.extract(b"z.bin").expect_err("size mismatch must error");
    assert!(matches!(&err, DarError::Corrupt(s) if s.contains("declares")));
}

#[test]
fn format_10_compressed_catalogue_lists_entries() {
    const LBL: [u8; 10] = [0xC1, 0xC2, 0xC3, 0xC4, 0xC5, 0xC6, 0xC7, 0xC8, 0xC9, 0xCA];

    let mut cat = Vec::new();
    cat.extend_from_slice(&LBL); // in-catalogue label
    cat.extend(root_dir());
    cat.extend(file_entry("c.txt", 0, b'n', 0, 5));
    cat.push(EOD);
    let mut enc = ZlibEncoder::new(Vec::new(), Compression::default());
    enc.write_all(&cat).unwrap();
    let zcat = enc.finish().unwrap();

    let mut buf = vec![0x00u8, 0x00, 0x00, 0x7b];
    buf.extend_from_slice(&LBL);
    buf.extend_from_slice(&[0x00, b'T']);
    buf.extend_from_slice(&inf(0));
    buf.extend_from_slice(b"0:0\x00"); // format 10
    buf.push(b'z'); // global compression = gzip
    buf.extend_from_slice(&[0xAD, 0xFD, 0xEA, 0x77, 0x21, 0x43]);
    buf.extend_from_slice(&zcat);

    let r = DarReader::open(buf).expect("open format-10 compressed");
    assert_eq!(paths_of(&r), ["c.txt"]);
}

// ── listing ───────────────────────────────────────────────────────────────────

#[test]
fn synthetic_two_files_both_listed() {
    let dar = minimal_dar(vec![file_entry("a.txt", 0, b'n', 0, 0), file_entry("b.txt", 0, b'n', 0, 0)]);
    let r = DarReader::open(dar).expect("open");
    assert_eq!(paths_of(&r), ["a.txt", "b.txt"]);
}

#[test]
fn synthetic_nested_directory_path_is_correct() {
    let mut buf = header();
    buf.extend(catalog_open());
    buf.extend(root_dir());
    buf.extend(subdir("sub"));
    buf.extend(file_entry("file.txt", 0, b'n', 0, 0));
    buf.push(EOD); // close sub
    buf.push(EOD); // close ROOT
    let r = DarReader::open(buf).expect("open");
    let entries = r.entries();
    assert_eq!(paths_of(&r), ["sub", "sub/file.txt"]);
    assert_eq!(entries[0].kind, EntryKind::Directory);
    assert_eq!(entries[1].kind, EntryKind::File);
}

#[test]
fn synthetic_catalog_eof_without_eod_returns_entries() {
    let mut buf = header();
    buf.extend(catalog_open());
    buf.extend(root_dir());
    buf.extend(file_entry("lone.txt", 0, b'n', 0, 0));
    let r = DarReader::open(buf).expect("open");
    assert_eq!(paths_of(&r), ["lone.txt"]);
}

#[test]
fn synthetic_catalog_unknown_entry_type_stops_parsing() {
    let mut buf = header();
    buf.extend(catalog_open());
    buf.extend(root_dir());
    buf.extend(file_entry("before.txt", 0, b'n', 0, 0));
    buf.push(0x01); // cat_sig → 'a', unknown type
    buf.push(EOD); // never reached
    let r = DarReader::open(buf).expect("open");
    assert_eq!(paths_of(&r), ["before.txt"]);
}

#[test]
fn catalog_non_utf8_filename_is_preserved() {
    let mut buf = header();
    buf.extend(catalog_open());
    buf.extend(root_dir());
    buf.push(0x06); // cat_sig 'f'
    buf.extend_from_slice(&[0xFF, 0x80, 0x00]); // invalid UTF-8 name + NUL
    buf.extend(inode_base(false));
    buf.extend_from_slice(&inf(0)); // size
    buf.extend_from_slice(&inf(0)); // archive_offset
    buf.extend_from_slice(&inf(0)); // stored_size
    buf.push(0x00); // file_data_status
    buf.push(b'n'); // comp
    buf.extend_from_slice(&inf(0)); // crc_size
    buf.push(EOD);
    let r = DarReader::open(buf).expect("non-UTF-8 name must not fail open");
    let entries = r.entries();
    assert_eq!(entries.len(), 1);
    assert_eq!(entries[0].path, vec![0xFF, 0x80]);
    assert_eq!(entries[0].path_lossy(), "\u{FFFD}\u{FFFD}");
}

#[test]
fn synthetic_catalog_without_escape_lists_entries() {
    const LABEL: [u8; 10] = [0xA1, 0xB2, 0xC3, 0xD4, 0xE5, 0xF6, 0x07, 0x18, 0x29, 0x3A];
    let mut buf = vec![0x00u8, 0x00, 0x00, 0x7b];
    buf.extend_from_slice(&LABEL);
    buf.extend_from_slice(&[0x00, b'T']);
    buf.extend_from_slice(&inf(0)); // archive_origin = 21
    buf.extend_from_slice(b"FFFFFFFFFFFFFFFF"); // 16 distinct bytes
    buf.extend_from_slice(&LABEL);
    buf.push(0x00); // empty in-place path
    buf.extend(root_dir());
    buf.extend(file_entry("a.txt", 0, b'n', 0, 16));
    buf.push(EOD);
    let r = DarReader::open(buf).expect("open with label-only catalog");
    assert_eq!(paths_of(&r), ["a.txt"]);
}

#[test]
fn synthetic_catalog_without_escape_extracts_correctly() {
    const LABEL: [u8; 10] = [0xA1, 0xB2, 0xC3, 0xD4, 0xE5, 0xF6, 0x07, 0x18, 0x29, 0x3A];
    let mut buf = vec![0x00u8, 0x00, 0x00, 0x7b];
    buf.extend_from_slice(&LABEL);
    buf.extend_from_slice(&[0x00, b'T']);
    buf.extend_from_slice(&inf(0)); // archive_origin = 21
    buf.extend_from_slice(b"HELLOWORLD"); // payload at the archive origin
    buf.extend_from_slice(&LABEL);
    buf.push(0x00);
    buf.extend(root_dir());
    buf.extend(file_entry("f.bin", 0, b'n', 0, 10));
    buf.push(EOD);
    let r = DarReader::open(buf).expect("open");
    assert_eq!(r.extract(b"f.bin").expect("extract"), b"HELLOWORLD");
}

#[test]
fn synthetic_extract_returns_correct_bytes() {
    const PAYLOAD: &[u8] = b"test";
    let mut buf = header(); // archive_origin = 21
    buf.extend_from_slice(PAYLOAD);
    buf.extend(catalog_open());
    buf.extend(root_dir());
    buf.extend(file_entry("out.bin", 0, b'n', 0, PAYLOAD.len() as u32));
    buf.push(EOD);
    let r = DarReader::open(buf).expect("open");
    assert_eq!(r.extract(b"out.bin").expect("extract"), PAYLOAD);
}

#[test]
fn synthetic_nanosecond_timestamp_inode_lists_entry() {
    let dar = minimal_dar(vec![file_entry_ns("hi.bin", 0, b'n', 0, 0)]);
    let r = DarReader::open(dar).expect("open");
    assert_eq!(r.entries().len(), 1);
    assert_eq!(r.entries()[0].path_lossy(), "hi.bin");
}

#[test]
fn synthetic_nanosecond_timestamp_inode_extracts_correctly() {
    const PAYLOAD: &[u8] = b"ns_payload";
    let mut buf = header();
    buf.extend_from_slice(PAYLOAD);
    buf.extend(catalog_open());
    buf.extend(root_dir());
    buf.extend(file_entry_ns("p.bin", 0, b'n', 0, PAYLOAD.len() as u32));
    buf.push(EOD);
    let r = DarReader::open(buf).expect("open");
    assert_eq!(r.extract(b"p.bin").expect("extract"), PAYLOAD);
}

/// A symlink catalogue entry (cat_sig → 'l').
fn symlink_entry(name: &str, target: &str) -> Vec<u8> {
    let mut v = vec![0x0cu8];
    v.extend_from_slice(name.as_bytes());
    v.push(0x00);
    v.extend(inode_base(false));
    v.extend_from_slice(target.as_bytes());
    v.push(0x00);
    v
}

/// seqt_catalogue + label, but no NUL-terminated path before the entries.
fn catalog_open_no_path() -> Vec<u8> {
    let mut v = vec![0xAD, 0xFD, 0xEA, 0x77, 0x21, 0x43];
    v.extend_from_slice(&[0u8; 10]);
    v
}

#[test]
fn synthetic_catalog_without_nul_path_lists_entries() {
    let mut buf = header();
    buf.extend_from_slice(b"090\x00"); // format 9
    buf.extend(catalog_open_no_path());
    buf.extend(root_dir());
    buf.extend(file_entry("f9.txt", 0, b'n', 0, 0));
    buf.push(EOD);
    let r = DarReader::open(buf).expect("open");
    assert_eq!(r.entries().len(), 1);
    assert_eq!(r.entries()[0].path_lossy(), "f9.txt");
}

#[test]
fn catalog_format_10_has_no_inplace_path() {
    let mut buf = header();
    buf.extend_from_slice(b"0:0\x00"); // format 10
    buf.extend(catalog_open_no_path());
    buf.extend(root_dir());
    buf.extend(file_entry("f10.txt", 0, b'n', 0, 0));
    buf.push(EOD);
    let r = DarReader::open(buf).expect("open");
    assert_eq!(r.entries().len(), 1);
    assert_eq!(r.entries()[0].path_lossy(), "f10.txt");
}

/// Inode whose ctime seconds use the 0x40 (8-byte) infinint form.
fn inode_large_ctime_ts() -> Vec<u8> {
    let mut v = vec![0x00u8]; // flags
    v.extend_from_slice(&[0x80, 0x00, 0x00, 0x00, 0x00]); // uid
    v.extend_from_slice(&[0x80, 0x00, 0x00, 0x00, 0x00]); // gid
    v.extend_from_slice(&[0x00, 0x00]); // perms
    v.push(b'n');
    v.push(0x40);
    v.extend_from_slice(&[0x00, 0x00, 0x00, 0x00, 0x5d, 0x15, 0x93, 0x31]); // seconds
    v.extend_from_slice(&[0x80, 0x00, 0x00, 0x00, 0x00]); // nanoseconds
    v.push(b's');
    v.extend_from_slice(&[0x80, 0x00, 0x00, 0x00, 0x00]);
    v.push(b's');
    v.extend_from_slice(&[0x80, 0x00, 0x00, 0x00, 0x00]);
    v
}

fn file_entry_large_ts(name: &str) -> Vec<u8> {
    let mut v = vec![0x06u8];
    v.extend_from_slice(name.as_bytes());
    v.push(0x00);
    v.extend(inode_large_ctime_ts());
    v.extend_from_slice(&inf(0)); // data_size
    v.extend_from_slice(&inf(0)); // archive_offset
    v.extend_from_slice(&inf(0)); // stored_size
    v.push(0x00); // enc = none
    v.push(b'n'); // comp = none
    v.extend_from_slice(&inf(0)); // crc_size = 0
    v
}

#[test]
fn synthetic_file_with_large_timestamp_infinint_is_parseable() {
    let dar = minimal_dar(vec![file_entry_large_ts("big_ts.bin")]);
    let r = DarReader::open(dar).expect("open");
    assert_eq!(r.entries().len(), 1);
    assert_eq!(r.entries()[0].path_lossy(), "big_ts.bin");
}

#[test]
fn synthetic_symlink_entry_does_not_stop_parsing() {
    let dar = minimal_dar(vec![
        file_entry("before.txt", 0, b'n', 0, 0),
        symlink_entry("link.txt", "/etc/target"),
        file_entry("after.txt", 0, b'n', 0, 0),
    ]);
    let r = DarReader::open(dar).expect("open");
    let entries = r.entries();
    assert_eq!(paths_of(&r), ["before.txt", "link.txt", "after.txt"]);
    assert_eq!(entries[1].kind, EntryKind::Symlink);
    assert_eq!(entries[1].symlink_target.as_deref(), Some(&b"/etc/target"[..]));
}

// ── hardening: malicious catalogue fields ─────────────────────────────────────

/// A `u64` as an 8-byte (`0x40`-terminal) infinint.
fn inf64(n: u64) -> Vec<u8> {
    let mut v = vec![0x40u8];
    v.extend_from_slice(&n.to_be_bytes());
    v
}

/// A file entry with 64-bit `archive_offset` and `stored_size`.
fn file_entry_raw_sizes(name: &str, archive_offset: u64, stored_size: u64) -> Vec<u8> {
    let mut v = vec![0x06u8];
    v.extend_from_slice(name.as_bytes());
    v.push(0x00);
    v.extend(inode_base(false));
    v.extend_from_slice(&inf(0)); // logical size = 0
    v.extend(inf64(archive_offset));
    v.extend(inf64(stored_size));
    v.push(0x00); // encryption = none
    v.push(b'n'); // compression = none
    v.extend_from_slice(&inf(0)); // crc_size = 0
    v
}

#[test]
fn synthetic_extract_archive_offset_overflow_returns_corrupt() {
    let mut buf = header();
    buf.extend(catalog_open());
    buf.extend(root_dir());
    buf.extend(file_entry_raw_sizes("evil.bin", u64::MAX, 0));
    buf.push(EOD);
    let r = DarReader::open(buf).expect("open");
    let err = r.extract(b"evil.bin").unwrap_err();
    assert!(matches!(err, DarError::Corrupt(_)), "got {err:?}");
}

#[test]
fn synthetic_extract_stored_size_beyond_archive_returns_corrupt() {
    let mut buf = header();
    buf.extend(catalog_open());
    buf.extend(root_dir());
    buf.extend(file_entry_raw_sizes("toobig.bin", 0, 1 << 20));
    buf.push(EOD);
    let r = DarReader::open(buf).expect("open");
    let err = r.extract(b"toobig.bin").unwrap_err();
    assert!(matches!(err, DarError::Corrupt(_)), "got {err:?}");
}

#[test]
fn synthetic_extract_gigantic_stored_size_does_not_allocate() {
    let mut buf = header();
    buf.extend(catalog_open());
    buf.extend(root_dir());
    buf.extend(file_entry_raw_sizes("bomb.bin", 0, u64::MAX));
    buf.push(EOD);
    let r = DarReader::open(buf).expect("open");
    let err = r.extract(b"bomb.bin").unwrap_err();
    assert!(matches!(err, DarError::Corrupt(_)), "got {err:?}");
}

#[test]
fn extract_compressed_stored_size_beyond_archive_returns_corrupt() {
    let mut buf = header();
    buf.extend(catalog_open());
    buf.extend(root_dir());
    let mut entry = vec![0x06u8];
    entry.extend_from_slice(b"toobig.z");
    entry.push(0x00);
    entry.extend(inode_base(false));
    entry.extend_from_slice(&inf(0)); // logical size = 0
    entry.extend(inf64(0)); // archive_offset
    entry.extend(inf64(1 << 20)); // stored_size = 1 MiB (absent)
    entry.push(0x00); // encryption = none
    entry.push(b'z'); // compression = gzip
    entry.extend_from_slice(&inf(0)); // crc_size = 0
    buf.extend(entry);
    buf.push(EOD);
    let r = DarReader::open(buf).expect("open");
    let err = r.extract(b"toobig.z").unwrap_err();
    assert!(matches!(err, DarError::Corrupt(_)), "got {err:?}");
}

// ── slice-header extension branches ───────────────────────────────────────────

#[test]
fn truncated_tlv_block_returns_corrupt() {
    let mut buf = vec![0x00u8, 0x00, 0x00, 0x7b];
    buf.extend_from_slice(&[0u8; 10]);
    buf.push(0x00); // flag
    buf.push(b'T'); // TLV, but no TLV count follows
    let err = open_err(buf);
    assert!(matches!(&err, DarError::Corrupt(s) if s.contains("truncated TLV")));
}

#[test]
fn unknown_extension_returns_corrupt() {
    let mut buf = vec![0x00u8, 0x00, 0x00, 0x7b];
    buf.extend_from_slice(&[0u8; 10]);
    buf.push(0x00); // flag
    buf.push(0x00); // extension — not 'T'/'N'/'S'
    let err = open_err(buf);
    assert!(matches!(&err, DarError::Corrupt(s) if s.contains("unknown slice-header extension")));
}

#[test]
fn size_extension_consumes_slice_size() {
    let mut buf = vec![0x00u8, 0x00, 0x00, 0x7b];
    buf.extend_from_slice(&[0u8; 10]);
    buf.push(0x00); // flag
    buf.push(b'S'); // extension = size
    buf.extend_from_slice(&inf(0)); // slice-size infinint (consumed)
    buf.extend_from_slice(b"07\x00"); // format 7
    let err = open_err(buf);
    assert!(matches!(err, DarError::Corrupt(_)), "got {err:?}");
}

#[test]
fn legacy_catalogue_past_end_returns_corrupt() {
    let mut buf = vec![0x00u8, 0x00, 0x00, 0x7b];
    buf.extend_from_slice(&[0u8; 10]);
    buf.push(0x00); // flag
    buf.push(b'N'); // legacy
    buf.extend_from_slice(b"07\x00"); // format 7
    buf.extend_from_slice(&inf(10_000)); // catalogue far past the end
    buf.extend_from_slice(&[0x00, 0x00, 0x00, 0xc0]);
    let err = open_err(buf);
    assert!(matches!(&err, DarError::Corrupt(s) if s.contains("past archive end")));
}

#[test]
fn extract_offset_past_archive_end_returns_corrupt() {
    let dar = minimal_dar(vec![file_entry("x.bin", 0, b'n', 100_000, 0)]);
    let r = DarReader::open(dar).expect("open");
    let err = r.extract(b"x.bin").unwrap_err();
    assert!(matches!(&err, DarError::Corrupt(s) if s.contains("past archive end")));
}

// ── FSA blocks ────────────────────────────────────────────────────────────────

#[test]
fn entry_with_fsa_block_is_listed() {
    let mut entry = vec![0x06u8];
    entry.extend_from_slice(b"fsa.txt\x00");
    entry.extend(inode_base(true));
    entry.extend_from_slice(&inf(264)); // FSA family tag
    entry.extend_from_slice(&inf(2)); // FSA data size
    entry.extend_from_slice(&[0xAA, 0xBB]); // FSA data
    entry.extend_from_slice(&inf(0)); // size
    entry.extend_from_slice(&inf(0)); // archive_offset
    entry.extend_from_slice(&inf(0)); // stored_size
    entry.push(0x00);
    entry.push(b'n');
    entry.extend_from_slice(&inf(0));
    let dar = minimal_dar(vec![entry]);
    let r = DarReader::open(dar).expect("open");
    assert_eq!(r.entries()[0].path_lossy(), "fsa.txt");
}

#[test]
fn symlink_with_fsa_block_is_skipped() {
    let mut sym = vec![0x0cu8];
    sym.extend_from_slice(b"link\x00");
    sym.extend(inode_base(true));
    sym.extend_from_slice(&inf(264));
    sym.extend_from_slice(&inf(2));
    sym.extend_from_slice(&[0xAA, 0xBB]);
    sym.extend_from_slice(b"/target\x00");
    let dar = minimal_dar(vec![sym, file_entry("after.txt", 0, b'n', 0, 0)]);
    let r = DarReader::open(dar).expect("open");
    let entries = r.entries();
    assert_eq!(paths_of(&r), ["link", "after.txt"]);
    assert_eq!(entries[0].symlink_target.as_deref(), Some(&b"/target"[..]));
}

// ── guards through the public entry points ────────────────────────────────────

#[test]
fn e2e_archive_with_no_body_is_too_short() {
    let err = open_err(header());
    assert!(matches!(&err, DarError::Corrupt(s) if s.contains("too short")));
}

/// header + escape + ROOT + a file entry whose `size` infinint is `size_bytes`.
fn dar_with_first_file_size(size_bytes: &[u8]) -> Vec<u8> {
    let mut buf = header();
    buf.extend(catalog_open());
    buf.extend(root_dir());
    let mut e = vec![0x06u8];
    e.extend_from_slice(b"f\x00");
    e.extend(inode_base(false));
    e.extend_from_slice(size_bytes);
    buf.extend(e);
    buf.push(EOD);
    buf
}

#[test]
fn e2e_infinint_skip_byte_size_returns_corrupt() {
    let err = open_err(dar_with_first_file_size(&[0x00]));
    assert!(matches!(&err, DarError::Corrupt(s) if s.contains("multi-group")));
}

#[test]
fn e2e_infinint_wide_terminal_size_returns_corrupt() {
    let err = open_err(dar_with_first_file_size(&[0x20]));
    assert!(matches!(&err, DarError::Corrupt(s) if s.contains("exceeds 64-bit")));
}

#[test]
fn e2e_filename_without_nul_is_length_capped() {
    let mut buf = header();
    buf.extend(catalog_open());
    buf.extend(root_dir());
    buf.push(0x06u8);
    buf.extend(std::iter::repeat_n(b'A', 64 * 1024 + 8)); // name, no NUL
    let err = open_err(buf);
    assert!(matches!(&err, DarError::Corrupt(s) if s.contains("exceeds")));
}

#[test]
fn e2e_inplace_path_without_nul_is_length_capped() {
    let mut buf = vec![0x00u8, 0x00, 0x00, 0x7b];
    buf.extend_from_slice(&[0u8; 10]);
    buf.extend_from_slice(&[0x00, b'T']);
    buf.extend_from_slice(&inf(0));
    buf.extend_from_slice(b"0;1\x00"); // format 11.1
    buf.push(b'n'); // stored catalogue
    buf.extend_from_slice(&[0xAD, 0xFD, 0xEA, 0x77, 0x21, 0x43]);
    buf.extend_from_slice(&[0u8; 10]); // in-catalogue label
    buf.extend(std::iter::repeat_n(b'P', 64 * 1024 + 8)); // path, no NUL
    let err = open_err(buf);
    assert!(matches!(&err, DarError::Corrupt(s) if s.contains("exceeds")));
}

/// A format-11.3 archive with a stored catalogue holding one entry `c` whose
/// data is `blob`, compressed with `comp`, declaring `declared_size` bytes.
fn dar_with_compressed_entry(comp: u8, blob: &[u8], declared_size: u32) -> Vec<u8> {
    let mut buf = vec![0x00u8, 0x00, 0x00, 0x7b];
    buf.extend_from_slice(&[0u8; 10]);
    buf.extend_from_slice(&[0x00, b'T']);
    buf.extend_from_slice(&inf(0)); // archive_origin = 21
    buf.extend_from_slice(b"0;3\x00"); // format 11.3
    buf.push(b'n'); // stored catalogue
    let data_off = (buf.len() - 21) as u32;
    buf.extend_from_slice(blob);
    buf.extend_from_slice(&[0xAD, 0xFD, 0xEA, 0x77, 0x21, 0x43]);
    buf.extend_from_slice(&[0u8; 10]);
    buf.push(0x00);
    buf.extend(root_dir());
    let mut e = vec![0x06u8];
    e.extend_from_slice(b"c\x00");
    e.extend(inode_base(false));
    e.extend_from_slice(&inf(declared_size));
    e.extend_from_slice(&inf(data_off));
    e.extend_from_slice(&inf(blob.len() as u32));
    e.push(0x00);
    e.push(comp);
    e.extend_from_slice(&inf(0));
    buf.extend(e);
    buf.push(EOD);
    buf
}

#[test]
fn e2e_gzip_entry_exceeding_declared_size_is_rejected() {
    let mut enc = ZlibEncoder::new(Vec::new(), Compression::default());
    enc.write_all(&[b'X'; 100]).unwrap();
    let blob = enc.finish().unwrap(); // inflates to 100, declared 5
    let dar = dar_with_compressed_entry(b'z', &blob, 5);
    let r = DarReader::open(dar).expect("open");
    let err = r.extract(b"c").unwrap_err();
    assert!(matches!(&err, DarError::Corrupt(s) if s.contains("exceeds bound")));
}

#[test]
fn e2e_xz_entry_exceeding_declared_size_is_rejected() {
    // xz stream of 200 'A' bytes; declared size 5.
    const XZ_200A: [u8; 72] = [
        0xfd, 0x37, 0x7a, 0x58, 0x5a, 0x00, 0x00, 0x04, 0xe6, 0xd6, 0xb4, 0x46, 0x02, 0x00, 0x21,
        0x01, 0x16, 0x00, 0x00, 0x00, 0x74, 0x2f, 0xe5, 0xa3, 0xe0, 0x00, 0xc7, 0x00, 0x06, 0x5d,
        0x00, 0x20, 0xef, 0x66, 0x00, 0x00, 0x00, 0x00, 0x00, 0x00, 0xd5, 0xfd, 0x97, 0x6e, 0x23,
        0x68, 0x20, 0xa1, 0x00, 0x01, 0x22, 0xc8, 0x01, 0x00, 0x00, 0x00, 0x9f, 0xb4, 0xe8, 0xe8,
        0xb1, 0xc4, 0x67, 0xfb, 0x02, 0x00, 0x00, 0x00, 0x00, 0x04, 0x59, 0x5a,
    ];
    let dar = dar_with_compressed_entry(b'x', &XZ_200A, 5);
    let r = DarReader::open(dar).expect("open");
    let err = r.extract(b"c").unwrap_err();
    assert!(matches!(&err, DarError::Corrupt(s) if s.contains("xz decode failed")));
}

/// A legacy ('N', format 7) header followed by `tail`.
fn legacy_with_terminator_tail(tail: &[u8]) -> Vec<u8> {
    let mut buf = vec![0x00u8, 0x00, 0x00, 0x7b];
    buf.extend_from_slice(&[0u8; 10]);
    buf.push(0x00);
    buf.push(b'N');
    buf.extend_from_slice(b"07\x00");
    buf.extend_from_slice(tail);
    buf
}

#[test]
fn e2e_legacy_terminator_padding_too_long_returns_corrupt() {
    let dar = legacy_with_terminator_tail(&[0xFFu8; 513]);
    let err = open_err(dar);
    assert!(matches!(&err, DarError::Corrupt(s) if s.contains("padding too long")));
}

#[test]
fn e2e_legacy_terminator_malformed_bit_run_returns_corrupt() {
    let dar = legacy_with_terminator_tail(&[0xA0]);
    let err = open_err(dar);
    assert!(matches!(&err, DarError::Corrupt(s) if s.contains("malformed terminator")));
}

// ── format edition 1 ──────────────────────────────────────────────────────────

/// A format-1 inode body: uid(u16) · gid(u16) · perm(u16) · atime · mtime.
fn inode_v1() -> Vec<u8> {
    let mut v = vec![0x03, 0xe8, 0x03, 0xe8, 0x01, 0xa4]; // uid 1000, gid 1000, perm 0o644
    v.extend_from_slice(&inf(1_600_000_000)); // atime
    v.extend_from_slice(&inf(1_600_000_000)); // mtime
    v
}

fn zlib(raw: &[u8]) -> Vec<u8> {
    let mut e = ZlibEncoder::new(Vec::new(), Compression::default());
    e.write_all(raw).unwrap();
    e.finish().unwrap()
}

/// A single-file edition-1 archive (`root/hello.txt`), stored or gzip.
fn edition1(comp: u8) -> (Vec<u8>, Vec<u8>) {
    let content: Vec<u8> = if comp == b'z' {
        std::iter::repeat_n(b"edition-1 payload 0123456789 ", 40).flatten().copied().collect()
    } else {
        b"hello format 1\n".to_vec()
    };
    let size = content.len() as u32;
    let data = if comp == b'z' { zlib(&content) } else { content.clone() };

    let data_off: u32 = 4;
    let mut cat = Vec::new();
    cat.push(0x04); // 'd'
    cat.extend_from_slice(b"root\x00");
    cat.extend(inode_v1());
    cat.push(0x06); // 'f'
    cat.extend_from_slice(b"hello.txt\x00");
    cat.extend(inode_v1());
    cat.extend_from_slice(&inf(size));
    cat.extend_from_slice(&inf(data_off));
    cat.push(EOD);
    let cat_on_disk = if comp == b'z' { zlib(&cat) } else { cat };

    let mut buf = vec![0x00u8, 0x00, 0x00, 0x7b];
    buf.extend_from_slice(b"0000000001");
    buf.push(0x00);
    buf.push(b'N'); // archive_origin = 16
    buf.extend_from_slice(b"01\x00"); // format 1
    buf.push(comp);
    buf.extend_from_slice(&data);
    let cat_off = (4 + data.len()) as u32;
    buf.extend_from_slice(&cat_on_disk);
    buf.extend_from_slice(&inf(cat_off));
    buf.extend_from_slice(&[0x00, 0x00, 0x00, 0xc0]);
    (buf, content)
}

#[test]
fn v1_stored_lists_and_extracts() {
    let (dar, content) = edition1(b'n');
    let r = DarReader::open(dar).expect("open edition-1 stored");
    let entries = r.entries();
    assert_eq!(paths_of(&r), ["root/hello.txt"]);
    assert_eq!(entries[0].size, content.len() as u64);
    let f = &entries[0];
    assert_eq!(f.kind, EntryKind::File);
    assert_eq!(f.uid, 1000);
    assert_eq!(f.gid, 1000);
    assert_eq!(f.mode, 0o644);
    assert_eq!(f.atime, 1_600_000_000);
    assert_eq!(f.mtime, 1_600_000_000);
    assert_eq!(f.ctime, None);
    assert_eq!(f.symlink_target, None);
    assert_eq!(r.extract(b"root/hello.txt").expect("extract"), content);
}

#[test]
fn v1_gzip_catalogue_lists_and_extracts() {
    let (dar, content) = edition1(b'z');
    let r = DarReader::open(dar).expect("open edition-1 gzip");
    assert_eq!(paths_of(&r), ["root/hello.txt"]);
    assert_eq!(r.extract(b"root/hello.txt").expect("extract"), content);
}

/// A format-1 gzip archive whose single file `f` has on-disk `data` and
/// declares `size` bytes.
fn edition1_compressed_entry(data: &[u8], size: u32) -> Vec<u8> {
    let mut cat = Vec::new();
    cat.push(0x04);
    cat.extend_from_slice(b"root\x00");
    cat.extend(inode_v1());
    cat.push(0x06);
    cat.extend_from_slice(b"f\x00");
    cat.extend(inode_v1());
    cat.extend_from_slice(&inf(size));
    cat.extend_from_slice(&inf(4)); // archive_offset
    cat.push(EOD);
    let cat_z = zlib(&cat);

    let mut buf = vec![0x00u8, 0x00, 0x00, 0x7b];
    buf.extend_from_slice(b"0000000001");
    buf.push(0x00);
    buf.push(b'N');
    buf.extend_from_slice(b"01\x00");
    buf.push(b'z');
    buf.extend_from_slice(data);
    let cat_off = (4 + data.len()) as u32;
    buf.extend_from_slice(&cat_z);
    buf.extend_from_slice(&inf(cat_off));
    buf.extend_from_slice(&[0x00, 0x00, 0x00, 0xc0]);
    buf
}

#[test]
fn v1_compressed_entry_malformed_returns_corrupt() {
    let dar = edition1_compressed_entry(b"this is not a zlib stream!!", 100);
    let r = DarReader::open(dar).expect("open");
    let err = r.extract(b"root/f").unwrap_err();
    assert!(matches!(&err, DarError::Corrupt(s) if s.contains("zlib decode failed")));
}

#[test]
fn v1_compressed_entry_size_mismatch_returns_corrupt() {
    let blob = zlib(b"short"); // decodes to 5 bytes
    let dar = edition1_compressed_entry(&blob, 100); // catalogue claims 100
    let r = DarReader::open(dar).expect("open");
    let err = r.extract(b"root/f").unwrap_err();
    assert!(matches!(&err, DarError::Corrupt(s) if s.contains("declares")));
}

// ── special inode types and completeness ──────────────────────────────────────

#[test]
fn pipe_and_socket_entries_do_not_stop_parsing() {
    let mut pipe = vec![0x10u8]; // 'p'
    pipe.extend_from_slice(b"fifo\x00");
    pipe.extend(inode_base(true));
    pipe.extend_from_slice(&inf(264));
    pipe.extend_from_slice(&inf(2));
    pipe.extend_from_slice(&[0xAA, 0xBB]);
    let mut sock = vec![0x13u8]; // 's'
    sock.extend_from_slice(b"sock\x00");
    sock.extend(inode_base(false));

    let dar = minimal_dar(vec![pipe, sock, file_entry("after.txt", 0, b'n', 0, 0)]);
    let r = DarReader::open(dar).expect("open");
    let entries = r.entries();
    assert_eq!(paths_of(&r), ["fifo", "sock", "after.txt"]);
    assert_eq!(entries[0].kind, EntryKind::NamedPipe);
    assert_eq!(entries[1].kind, EntryKind::Socket);
    assert_eq!(entries[2].kind, EntryKind::File);
}

#[test]
fn unknown_entry_type_marks_listing_incomplete() {
    // A hardlink ('m', cat_sig 0x0d) is a type this reader does not model.
    let dar = minimal_dar(vec![file_entry("a.txt", 0, b'n', 0, 0), vec![0x0d]]);
    let r = DarReader::open(dar).expect("open");
    assert!(!r.is_complete(), "an unmodelled entry type must mark the listing incomplete");
    assert_eq!(paths_of(&r), ["a.txt"]);
}

#[test]
fn well_formed_archive_is_complete() {
    let dar = minimal_dar(vec![file_entry("a.txt", 0, b'n', 0, 0)]);
    let r = DarReader::open(dar).expect("open");
    assert!(r.is_complete());
}

#[test]
fn entry_count_matches_entries_len() {
    let dar = minimal_dar(vec![file_entry("a.txt", 0, b'n', 0, 0), file_entry("b.txt", 0, b'n', 0, 0)]);
    let r = DarReader::open(dar).expect("open");
    assert_eq!(r.entry_count(), r.entries().len());
    assert_eq!(r.entry_count(), 2);
}

// ── audit ─────────────────────────────────────────────────────────────────────

/// A file entry whose mtime is implausibly far in the future (~year 2103).
fn file_entry_future_mtime(name: &str) -> Vec<u8> {
    let mut v = vec![0x06u8];
    v.extend_from_slice(name.as_bytes());
    v.push(0x00);
    v.push(0x00); // inode flags
    v.extend_from_slice(&inf(0)); // uid
    v.extend_from_slice(&inf(0)); // gid
    v.extend_from_slice(&[0x00, 0x00]); // perms
    v.push(b's');
    v.extend_from_slice(&inf(0)); // atime
    v.push(b's');
    v.extend_from_slice(&inf(4_200_000_000)); // mtime ~2103
    v.push(b's');
    v.extend_from_slice(&inf(0)); // ctime
    v.extend_from_slice(&inf(0)); // data_size
    v.extend_from_slice(&inf(0)); // archive_offset
    v.extend_from_slice(&inf(0)); // stored_size
    v.push(0x00);
    v.push(b'n');
    v.extend_from_slice(&inf(0));
    v
}

fn codes(anomalies: &[Anomaly]) -> Vec<&'static str> {
    anomalies.iter().map(|a| a.code).collect()
}

#[test]
fn audit_clean_archive_reports_no_anomalies() {
    let dar = minimal_dar(vec![file_entry("notes.txt", 0, b'n', 0, 0)]);
    let r = DarReader::open(dar).expect("open");
    assert!(r.audit().is_empty());
}

#[test]
fn audit_flags_incomplete_catalog() {
    let dar = minimal_dar(vec![file_entry("a.txt", 0, b'n', 0, 0), vec![0x0d]]);
    let r = DarReader::open(dar).expect("open");
    let anomalies = r.audit();
    let a = anomalies.iter().find(|a| a.code == "DAR-CATALOG-INCOMPLETE").expect("incomplete-catalog anomaly");
    assert_eq!(a.severity, Severity::High);
    assert!(matches!(a.kind, AnomalyKind::IncompleteCatalog { entries_recovered: 1 }));
}

#[test]
fn audit_flags_absolute_path() {
    let dar = minimal_dar(vec![file_entry("/etc/shadow", 0, b'n', 0, 0)]);
    let r = DarReader::open(dar).expect("open");
    assert!(codes(&r.audit()).contains(&"DAR-PATH-ABSOLUTE"));
}

#[test]
fn audit_flags_parent_traversal() {
    let dar = minimal_dar(vec![file_entry("../../escape", 0, b'n', 0, 0)]);
    let r = DarReader::open(dar).expect("open");
    assert!(codes(&r.audit()).contains(&"DAR-PATH-TRAVERSAL"));
}

#[test]
fn audit_flags_duplicate_path_once() {
    let dar = minimal_dar(vec![file_entry("dup.bin", 0, b'n', 0, 0), file_entry("dup.bin", 0, b'n', 0, 0)]);
    let r = DarReader::open(dar).expect("open");
    let dups: Vec<_> = r.audit().into_iter().filter(|a| a.code == "DAR-PATH-DUPLICATE").collect();
    assert_eq!(dups.len(), 1, "a duplicated path is reported exactly once");
}

#[test]
fn audit_flags_future_timestamp() {
    let dar = minimal_dar(vec![file_entry_future_mtime("backdated.bin")]);
    let r = DarReader::open(dar).expect("open");
    let a = r.audit().into_iter().find(|a| a.code == "DAR-TIME-FUTURE").expect("future-timestamp anomaly");
    assert_eq!(a.severity, Severity::Low);
    assert!(matches!(a.kind, AnomalyKind::FutureTimestamp { field: "mtime", .. }));
}

#[test]
fn audit_flags_control_chars_in_name() {
    let dar = minimal_dar(vec![file_entry("inv\x1bisible", 0, b'n', 0, 0)]);
    let r = DarReader::open(dar).expect("open");
    assert!(codes(&r.audit()).contains(&"DAR-NAME-CONTROL"));
}

#[test]
fn severity_orders_and_displays() {
    assert!(Severity::Info < Severity::Low);
    assert!(Severity::Low < Severity::Medium);
    assert!(Severity::Medium < Severity::High);
    assert!(Severity::High < Severity::Critical);
    assert_eq!(Severity::Info.label(), "INFO");
    assert_eq!(Severity::Low.label(), "LOW");
    assert_eq!(Severity::Medium.label(), "MEDIUM");
    assert_eq!(Severity::High.label(), "HIGH");
    assert_eq!(Severity::Critical.label(), "CRITICAL");
}

#[test]
fn anomaly_display_is_bracketed_severity_code_note() {
    let a = Anomaly::new(AnomalyKind::AbsolutePath { path: "/etc/shadow".into() });
    let s = a.display();
    assert!(s.starts_with("[MEDIUM] DAR-PATH-ABSOLUTE: "));
    assert!(s.contains("/etc/shadow"));
}

// ── bodyfile ──────────────────────────────────────────────────────────────────

fn mk_entry(path: &[u8], kind: EntryKind, mode: u16) -> DarEntry {
    DarEntry {
        path: path.to_vec(),
        kind,
        size: 0,
        uid: 0,
        gid: 0,
        mode,
        atime: 0,
        mtime: 0,
        ctime: None,
        symlink_target: None,
    }
}

#[test]
fn bodyfile_basic_file_line() {
    let e = mk_entry(b"notes.txt", EntryKind::File, 0);
    assert_eq!(e.bodyfile(), "0|notes.txt|0|r/r---------|0|0|0|0|0|0|0");
}

#[test]
fn bodyfile_includes_ids_size_and_times() {
    let e = DarEntry {
        path: b"f".to_vec(),
        kind: EntryKind::File,
        size: 4096,
        uid: 1000,
        gid: 1001,
        mode: 0o644,
        atime: 111,
        mtime: 222,
        ctime: Some(333),
        symlink_target: None,
    };
    assert_eq!(e.bodyfile(), "0|f|0|r/rrw-r--r--|1000|1001|4096|111|222|333|0");
}

#[test]
fn bodyfile_renders_permission_and_special_bits() {
    let mode_str = |mode: u16| mk_entry(b"x", EntryKind::File, mode).bodyfile().split('|').nth(3).unwrap().to_string();
    assert_eq!(mode_str(0o0755), "r/rrwxr-xr-x");
    assert_eq!(mode_str(0o0644), "r/rrw-r--r--");
    assert_eq!(mode_str(0o4755), "r/rrwsr-xr-x"); // setuid + owner exec → s
    assert_eq!(mode_str(0o4644), "r/rrwSr--r--"); // setuid, no owner exec → S
    assert_eq!(mode_str(0o2755), "r/rrwxr-sr-x"); // setgid + group exec → s
    assert_eq!(mode_str(0o2745), "r/rrwxr-Sr-x"); // setgid, no group exec → S
    assert_eq!(mode_str(0o1707), "r/rrwx---rwt"); // sticky + other exec → t
    assert_eq!(mode_str(0o1706), "r/rrwx---rwT"); // sticky, no other exec → T
}

#[test]
fn bodyfile_type_letter_per_kind() {
    let tletter = |kind| mk_entry(b"x", kind, 0).bodyfile().split('|').nth(3).unwrap().chars().next().unwrap();
    assert_eq!(tletter(EntryKind::File), 'r');
    assert_eq!(tletter(EntryKind::Directory), 'd');
    assert_eq!(tletter(EntryKind::Symlink), 'l');
    assert_eq!(tletter(EntryKind::NamedPipe), 'p');
    assert_eq!(tletter(EntryKind::Socket), 's');
    assert_eq!(tletter(EntryKind::CharDevice), 'c');
    assert_eq!(tletter(EntryKind::BlockDevice), 'b');
    assert_eq!(tletter(EntryKind::Hardlink), 'r');
    assert_eq!(tletter(EntryKind::Unknown('q')), '-');
}

#[test]
fn bodyfile_escapes_pipe_backslash_and_control_bytes() {
    // name bytes: a | b \ c <TAB> d <LF>
    let line = mk_entry(b"a|b\\c\td\n", EntryKind::File, 0).bodyfile();
    assert!(line.starts_with("0|a\\|b\\\\c\\x09d\\x0a|0|r/r"), "{line}");
}

#[test]
fn bodyfile_appends_symlink_target() {
    let mut e = mk_entry(b"link", EntryKind::Symlink, 0o777);
    e.symlink_target = Some(b"/etc/passwd".to_vec());
    let line = e.bodyfile();
    assert!(line.contains("|link -> /etc/passwd|"), "{line}");
    assert!(line.split('|').nth(3).unwrap().starts_with("l/l"), "{line}");
}

// ── encrypted entries ────────────────────────────────────────────────────────

#[test]
fn extract_encrypted_entry_returns_corrupt() {
    let dar = minimal_dar(vec![file_entry("secret.bin", 1, b'n', 0, 0)]);
    let r = DarReader::open(dar).expect("open");
    assert!(matches!(r.extract(b"secret.bin"), Err(DarError::Corrupt(_))));
}

#[test]
fn encrypted_entry_is_listed_and_refused_by_name() {
    let dar = minimal_dar(vec![file_entry("secret.bin", 1, b'n', 0, 0)]);
    let r = DarReader::open(dar).expect("open");
    assert_eq!(paths_of(&r), ["secret.bin"]);
    let err = r.extract(b"secret.bin").expect_err("encrypted data must not be handed out");
    assert!(matches!(&err, DarError::Corrupt(s) if s == "'secret.bin' is encrypted"));
}

// ── zstd ─────────────────────────────────────────────────────────────────────

/// A standard zstd frame of the line below repeated six times.
const ZSTD_FRAME: &[u8] = &[
    0x28, 0xb5, 0x2f, 0xfd, 0x24, 0xf0, 0x8d, 0x01, 0x00, 0x84, 0x02, 0x64, 0x61, 0x72, 0x2d, 0x66,
    0x6f, 0x72, 0x65, 0x6e, 0x73, 0x69, 0x63, 0x20, 0x7a, 0x73, 0x74, 0x64, 0x20, 0x64, 0x65, 0x63,
    0x6f, 0x64, 0x65, 0x20, 0x72, 0x6f, 0x75, 0x6e, 0x64, 0x74, 0x72, 0x69, 0x70, 0x20, 0x6c, 0x69,
    0x6e, 0x65, 0x0a, 0x01, 0x00, 0x28, 0x2e, 0x4a, 0x95, 0x01, 0x0a, 0x07, 0x45, 0x88,
];

#[test]
fn zstd_entry_extracts_to_plaintext() {
    let expected = b"dar-forensic zstd decode roundtrip line\n".repeat(6);
    let dar = dar_with_compressed_entry(b'd', ZSTD_FRAME, expected.len() as u32);
    let r = DarReader::open(dar).expect("open");
    assert_eq!(r.extract(b"c").expect("extract zstd entry"), expected);
}

#[test]
fn zstd_entry_exceeding_declared_size_is_rejected() {
    let dar = dar_with_compressed_entry(b'd', ZSTD_FRAME, 10);
    let r = DarReader::open(dar).expect("open");
    let err = r.extract(b"c").unwrap_err();
    assert!(matches!(&err, DarError::Corrupt(s) if s == "zstd decode failed: decompressed data exceeds bound"));
}

#[test]
fn zstd_garbage_frame_is_corrupt() {
    let dar = dar_with_compressed_entry(b'd', &[0x01, 0x02, 0x03, 0x04, 0x05], 10);
    let r = DarReader::open(dar).expect("open");
    let err = r.extract(b"c").unwrap_err();
    assert!(matches!(&err, DarError::Corrupt(s) if s.starts_with("zstd decode failed: ")));
}

#[test]
fn zstd_entry_is_not_flagged_unsupported() {
    let dar = dar_with_compressed_entry(b'd', ZSTD_FRAME, 240);
    let r = DarReader::open(dar).expect("open");
    assert!(!r.audit().iter().any(|a| matches!(a.kind, AnomalyKind::UnsupportedCodec { .. })));
}

// ── xz footer guard ──────────────────────────────────────────────────────────

#[test]
fn xz_stream_with_all_ones_backward_size_is_refused() {
    // Stream header (magic, flags 00 00, CRC32), an empty index (00 00 00 00 +
    // CRC32 of it), then a footer whose backward size is FF FF FF FF: before
    // any check of it lzma-rs would compute (size + 1) << 2 on it.
    let mut blob = vec![0xFD, b'7', b'z', b'X', b'Z', 0x00, 0x00, 0x00, 0xFF, 0x12, 0xD9, 0x41];
    blob.extend_from_slice(&[0x00, 0x00, 0x00, 0x00, 0x1C, 0xDF, 0x44, 0x21]);
    blob.extend_from_slice(&[0x00, 0x00, 0x00, 0x00, 0xFF, 0xFF, 0xFF, 0xFF, 0x00, 0x00, b'Y', b'Z']);
    let dar = dar_with_compressed_entry(b'x', &blob, 0);
    let r = DarReader::open(dar).expect("open");
    let err = r.extract(b"c").unwrap_err();
    assert!(matches!(&err, DarError::Corrupt(s) if s == "xz decode failed: aligned all-ones word in stream"));
}

// ── per-block codecs ─────────────────────────────────────────────────────────

fn extract_block_entry(block_stream: &[u8], comp: u8) -> DarError {
    let dar = dar_with_compressed_entry(comp, block_stream, 64);
    DarReader::open(dar).expect("open").extract(b"c").unwrap_err()
}

#[test]
fn block_eof_with_nonzero_size_is_corrupt() {
    let err = extract_block_entry(&[0x02, 0x80, 0x00, 0x00, 0x00, 0x05], b'q');
    assert!(matches!(&err, DarError::Corrupt(s) if s.contains("end-of-blocks")), "{err:?}");
}

#[test]
fn block_zero_size_data_is_corrupt() {
    let err = extract_block_entry(&[0x01, 0x80, 0x00, 0x00, 0x00, 0x00], b'q');
    assert!(matches!(&err, DarError::Corrupt(s) if s.contains("zero-size")), "{err:?}");
}

#[test]
fn block_size_exceeding_input_is_corrupt() {
    let err = extract_block_entry(&[0x01, 0x80, 0x00, 0x00, 0x03, 0xE8], b'q');
    assert!(matches!(&err, DarError::Corrupt(s) if s.contains("exceeds remaining input")), "{err:?}");
}

#[test]
fn block_unknown_type_is_corrupt() {
    let err = extract_block_entry(&[0x63, 0x80, 0x00, 0x00, 0x00, 0x00], b'q');
    assert!(matches!(&err, DarError::Corrupt(s) if s.contains("unknown compressed block type")), "{err:?}");
}

fn frame(payload: &[u8]) -> Vec<u8> {
    let mut v = vec![0x01u8];
    v.extend_from_slice(&inf(payload.len() as u32));
    v.extend_from_slice(payload);
    v
}

fn end_of_blocks() -> Vec<u8> {
    let mut v = vec![0x02u8];
    v.extend_from_slice(&inf(0));
    v
}

#[test]
fn lz4_blocks_extract_to_plaintext() {
    let first = b"lz4 block one, lz4 block one, lz4 block one\n".to_vec();
    let second = b"and a second block\n".to_vec();
    let mut blob = frame(&lz4_flex::block::compress(&first));
    blob.extend(frame(&lz4_flex::block::compress(&second)));
    blob.extend(end_of_blocks());
    let expected = [first, second].concat();
    let dar = dar_with_compressed_entry(b'q', &blob, expected.len() as u32);
    let r = DarReader::open(dar).expect("open");
    assert_eq!(r.extract(b"c").expect("extract lz4 entry"), expected);
}

#[test]
fn lz4_block_over_declared_size_is_rejected() {
    let data = vec![b'L'; 500];
    let mut blob = frame(&lz4_flex::block::compress(&data));
    blob.extend(end_of_blocks());
    let dar = dar_with_compressed_entry(b'Q', &blob, 100);
    let r = DarReader::open(dar).expect("open");
    assert!(matches!(r.extract(b"c"), Err(DarError::Corrupt(s)) if s.starts_with("lz4 decode failed: ")));
}

#[test]
fn uppercase_zlib_is_decoded_block_by_block() {
    let mut blob = Vec::new();
    for part in [&b"first part "[..], &b"second part"[..]] {
        let mut enc = ZlibEncoder::new(Vec::new(), Compression::default());
        enc.write_all(part).unwrap();
        blob.extend(frame(&enc.finish().unwrap()));
    }
    blob.extend(end_of_blocks());
    let dar = dar_with_compressed_entry(b'Z', &blob, 22);
    let r = DarReader::open(dar).expect("open");
    assert_eq!(r.extract(b"c").expect("extract"), b"first part second part".to_vec());
}

#[test]
fn lz4_entry_is_not_flagged_unsupported() {
    let mut blob = frame(&lz4_flex::block::compress(b"x"));
    blob.extend(end_of_blocks());
    let dar = dar_with_compressed_entry(b'q', &blob, 1);
    let r = DarReader::open(dar).expect("open");
    assert!(!r.audit().iter().any(|a| matches!(a.kind, AnomalyKind::UnsupportedCodec { .. })));
}
