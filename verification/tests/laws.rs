//! Concrete cases of the library's laws and of each error variant.

use dar_forensic::bodyfile::{escape_name, perm_string};
use dar_forensic::catalog::parse_catalog;
use dar_forensic::index::PathIndex;
use dar_forensic::locate::{read_format_value, scan_window, CHUNK};
use dar_forensic::tree::{read_window, unix_nanos, DarTree};
use dar_forensic::{AnomalyKind, DarEntry, DarError, DarReader, EntryKind, Severity};

fn inf(n: u32) -> [u8; 5] {
    let b = n.to_be_bytes();
    [0x80, b[0], b[1], b[2], b[3]]
}

fn inode(mtime: u32) -> Vec<u8> {
    let mut v = vec![0x00u8];
    v.extend_from_slice(&inf(0));
    v.extend_from_slice(&inf(0));
    v.extend_from_slice(&[0x01, 0xA4]);
    v.push(b's');
    v.extend_from_slice(&inf(0));
    v.push(b's');
    v.extend_from_slice(&inf(mtime));
    v.push(b's');
    v.extend_from_slice(&inf(0));
    v
}

fn file(name: &[u8], mtime: u32, offset: u32, size: u32) -> Vec<u8> {
    let mut v = vec![0x06u8];
    v.extend_from_slice(name);
    v.push(0x00);
    v.extend(inode(mtime));
    v.extend_from_slice(&inf(size));
    v.extend_from_slice(&inf(offset));
    v.extend_from_slice(&inf(size));
    v.extend_from_slice(&[0x00, b'n']);
    v.extend_from_slice(&inf(0));
    v
}

fn dir(name: &[u8]) -> Vec<u8> {
    let mut v = vec![0x04u8];
    v.extend_from_slice(name);
    v.push(0x00);
    v.extend(inode(0));
    v
}

/// A stored archive: `data` at the archive origin, then the catalogue
/// (`<ROOT>`, the given records, and `close` end-of-directory markers).
fn archive(data: &[u8], records: Vec<Vec<u8>>, close: usize) -> Vec<u8> {
    let mut buf = vec![0x00u8, 0x00, 0x00, 0x7b];
    buf.extend_from_slice(&[0u8; 10]);
    buf.extend_from_slice(&[0x00, b'T']);
    buf.extend_from_slice(&inf(0));
    buf.extend_from_slice(data);
    buf.extend_from_slice(&[0xAD, 0xFD, 0xEA, 0x77, 0x21, 0x43]);
    buf.extend_from_slice(&[0u8; 10]);
    buf.push(0x00);
    buf.extend(dir(b"<ROOT>"));
    for r in records {
        buf.extend(r);
    }
    for _ in 0..close {
        buf.push(0x1a);
    }
    buf
}

// ── audit order ───────────────────────────────────────────────────────────────

#[test]
fn audit_is_most_severe_first_and_keeps_catalogue_order() {
    let recs = vec![
        file(b"dup", 0, 0, 0),        // 0
        file(b"/abs", 0, 0, 0),       // 1: Medium
        file(b"dup", 0, 0, 0),        // 2: Low (duplicate)
        file(b"a/../b", 0, 0, 0),     // 3: Medium
        file(b"ctl\x07", 0, 0, 0),    // 4: Low
        vec![0x0d],                   // hardlink: parsing stops → High
    ];
    let r = DarReader::open(archive(b"", recs, 0)).expect("open");
    let a = r.audit();
    let codes: Vec<&str> = a.iter().map(|x| x.code).collect();
    assert_eq!(
        codes,
        ["DAR-CATALOG-INCOMPLETE", "DAR-PATH-ABSOLUTE", "DAR-PATH-TRAVERSAL", "DAR-PATH-DUPLICATE", "DAR-NAME-CONTROL"]
    );
    for w in a.windows(2) {
        assert!(w[0].severity >= w[1].severity);
    }
    assert_eq!(a[0].severity, Severity::High);
    assert!(matches!(a[0].kind, AnomalyKind::IncompleteCatalog { entries_recovered: 5 }));
}

#[test]
fn duplicate_path_is_reported_once_at_second_sighting() {
    let recs = vec![file(b"x", 0, 0, 0), file(b"y", 0, 0, 0), file(b"x", 0, 0, 0), file(b"x", 0, 0, 0), file(b"y", 0, 0, 0)];
    let r = DarReader::open(archive(b"", recs, 1)).expect("open");
    let dups: Vec<String> = r
        .audit()
        .into_iter()
        .filter_map(|a| match a.kind {
            AnomalyKind::DuplicatePath { path } => Some(path),
            _ => None,
        })
        .collect();
    assert_eq!(dups, ["x", "y"]);
}

#[test]
fn future_timestamp_names_the_field_and_value() {
    let r = DarReader::open(archive(b"", vec![file(b"f", 4_200_000_000, 0, 0)], 1)).expect("open");
    let a = r.audit();
    assert_eq!(a.len(), 1);
    assert_eq!(
        a[0].kind,
        AnomalyKind::FutureTimestamp { path: "f".into(), field: "mtime", epoch_secs: 4_200_000_000 }
    );
    assert_eq!(
        a[0].display(),
        "[LOW] DAR-TIME-FUTURE: entry `f` mtime is 4200000000 (beyond the year 2100) — implausibly far in the future; consistent with a misconfigured clock or timestamp tampering"
    );
}

// ── bodyfile ──────────────────────────────────────────────────────────────────

/// The fields of a bodyfile line, split at unescaped `|`.
fn fields(line: &str) -> Vec<String> {
    let mut out = vec![String::new()];
    let mut chars = line.chars();
    while let Some(c) = chars.next() {
        match c {
            '\\' => {
                out.last_mut().unwrap().push(c);
                if let Some(n) = chars.next() {
                    out.last_mut().unwrap().push(n);
                }
            }
            '|' => out.push(String::new()),
            _ => out.last_mut().unwrap().push(c),
        }
    }
    out
}

#[test]
fn crafted_names_stay_one_line_of_eleven_fields() {
    let e = DarEntry {
        path: b"evil|name\n0|forged|0\\".to_vec(),
        kind: EntryKind::Symlink,
        size: 7,
        uid: 1,
        gid: 2,
        mode: 0o777,
        atime: -5,
        mtime: 6,
        ctime: None,
        symlink_target: Some(b"t|\x7f".to_vec()),
    };
    let line = e.bodyfile();
    assert!(!line.chars().any(|c| (c as u32) < 0x20 || c as u32 == 0x7f), "{line}");
    let f = fields(&line);
    assert_eq!(f.len(), 11, "{line}");
    assert_eq!(f[1], "evil\\|name\\x0a0\\|forged\\|0\\\\ -> t\\|\\x7f");
    assert_eq!(f[3], "l/lrwxrwxrwx");
    assert_eq!(&f[4..], ["1", "2", "7", "-5", "6", "0", "0"]);
}

#[test]
fn write_bodyfile_is_one_line_per_entry() {
    let r = DarReader::open(archive(b"", vec![dir(b"d"), file(b"f", 9, 0, 0)], 2)).expect("open");
    let mut out = b"head\n".to_vec();
    r.write_bodyfile(&mut out);
    let text = String::from_utf8(out).unwrap();
    assert_eq!(
        text,
        "head\n0|d|0|d/drw-r--r--|0|0|0|0|0|0|0\n0|d/f|0|r/rrw-r--r--|0|0|0|0|9|0|0\n"
    );
}

// ── extraction ────────────────────────────────────────────────────────────────

#[test]
fn extract_returns_exactly_the_stored_bytes() {
    let data = b"ABCDEFGHIJ";
    let r = DarReader::open(archive(data, vec![file(b"one", 0, 0, 4), file(b"two", 0, 4, 6)], 1)).expect("open");
    assert_eq!(r.extract(b"one").unwrap(), b"ABCD");
    assert_eq!(r.extract(b"two").unwrap(), b"EFGHIJ");
}

#[test]
fn extract_takes_the_first_entry_with_the_path() {
    let data = b"firstsecond";
    let r = DarReader::open(archive(data, vec![file(b"p", 0, 0, 5), file(b"p", 0, 5, 6)], 1)).expect("open");
    assert_eq!(r.extract(b"p").unwrap(), b"first");
}

#[test]
fn each_error_variant_has_an_input() {
    assert!(matches!(DarReader::open(b"PK\x03\x04".to_vec()), Err(DarError::NotADar)));
    assert!(matches!(DarReader::open(vec![0, 0, 0, 0x7b, 1]), Err(DarError::Io(_))));
    let mut bad = vec![0, 0, 0, 0x7b];
    bad.extend_from_slice(&[0u8; 10]);
    bad.extend_from_slice(&[0x00, 0x00]);
    assert!(matches!(DarReader::open(bad), Err(DarError::Corrupt(_))));
    let r = DarReader::open(archive(b"", vec![file(b"a", 0, 0, 0)], 1)).expect("open");
    match r.extract(b"no/such/file") {
        Err(DarError::EntryNotFound(p)) => assert_eq!(p, "no/such/file"),
        other => panic!("expected EntryNotFound, got {other:?}"),
    }
}

// ── tree ──────────────────────────────────────────────────────────────────────

#[test]
fn every_entry_is_listed_once_under_its_parent() {
    // d/, d/x, e/ (empty), and "q/z" whose parent q was never listed → root.
    let recs = vec![dir(b"d"), file(b"x", 0, 0, 0), vec![0x1a], dir(b"e"), vec![0x1a], dir(b"q"), file(b"z", 0, 0, 0)];
    let r = DarReader::open(archive(b"", recs, 0)).expect("open");
    let paths: Vec<String> = r.entries().iter().map(|e| e.path_lossy().into_owned()).collect();
    assert_eq!(paths, ["d", "d/x", "e", "q", "q/z"]);
    let t = DarTree::from_entries(&r.entries());
    let root: Vec<u64> = t.read_dir(0).unwrap().into_iter().map(|i| i.id).collect();
    assert_eq!(root, [1, 3, 4]);
    let d: Vec<u64> = t.read_dir(1).unwrap().into_iter().map(|i| i.id).collect();
    assert_eq!(d, [2]);
    let q: Vec<u64> = t.read_dir(4).unwrap().into_iter().map(|i| i.id).collect();
    assert_eq!(q, [5]);
    assert!(t.read_dir(3).unwrap().is_empty());
}

#[test]
fn orphan_is_listed_under_the_root() {
    let entries = vec![DarEntry {
        path: b"missing/parent/leaf".to_vec(),
        kind: EntryKind::File,
        size: 0,
        uid: 0,
        gid: 0,
        mode: 0,
        atime: 0,
        mtime: 0,
        ctime: None,
        symlink_target: None,
    }];
    let t = DarTree::from_entries(&entries);
    let root = t.read_dir(0).unwrap();
    assert_eq!(root.len(), 1);
    assert_eq!(root[0].name, b"leaf");
    assert_eq!(t.node(1).unwrap().path.as_deref(), Some(&b"missing/parent/leaf"[..]));
}

#[test]
fn read_window_and_nanos() {
    assert_eq!(read_window(b"abcdef", 2, 3), b"cde");
    assert_eq!(read_window(b"abcdef", 4, 9), b"ef");
    assert!(read_window(b"abcdef", 6, 9).is_empty());
    assert_eq!(unix_nanos(2), 2_000_000_000);
    assert_eq!(unix_nanos(-1), -1_000_000_000);
}

// ── path index ────────────────────────────────────────────────────────────────

#[test]
fn path_index_finds_the_last_holder_and_second_sightings() {
    let idx = PathIndex::new(vec![b"a".to_vec(), b"b".to_vec(), b"a".to_vec(), b"a".to_vec()]);
    assert_eq!(idx.len(), 4);
    assert_eq!(idx.last_of(b"a"), Some(3));
    assert_eq!(idx.last_of(b"b"), Some(1));
    assert_eq!(idx.last_of(b"c"), None);
    assert!(!idx.seen_once_before(0));
    assert!(!idx.seen_once_before(1));
    assert!(idx.seen_once_before(2));
    assert!(!idx.seen_once_before(3));
}

#[test]
fn permission_and_name_escapes_render_exactly() {
    assert_eq!(perm_string(0o4755), "rwsr-xr-x");
    assert_eq!(perm_string(0o1000), "--------T");
    assert_eq!(perm_string(0o7777), "rwsrwsrwt");
    assert_eq!(escape_name("a|b\\c\u{1b}d\u{7f}"), "a\\|b\\\\c\\x1bd\\x7f");
    assert_eq!(escape_name("plain é"), "plain é");
}

#[test]
fn not_a_dar_exactly_when_the_magic_is_missing() {
    assert!(matches!(DarReader::open(vec![]), Err(DarError::NotADar)));
    assert!(matches!(DarReader::open(b"DAR\x00\x01\x00\x00\x00\x00\x00\x00\x00".to_vec()), Err(DarError::NotADar)));
    assert!(matches!(DarReader::open(vec![0x00, 0x00, 0x00]), Err(DarError::NotADar)));
    // The magic alone: the header is cut short, which is another error.
    assert!(matches!(DarReader::open(vec![0x00, 0x00, 0x00, 0x7b]), Err(DarError::Io(_))));
}

#[test]
fn unknown_extension_letter_is_named() {
    let mut buf = vec![0x00u8, 0x00, 0x00, 0x7b];
    buf.extend_from_slice(&[0u8; 10]);
    buf.extend_from_slice(&[0x00, b'Q']);
    buf.extend_from_slice(&[0u8; 8]);
    assert!(matches!(DarReader::open(buf), Err(DarError::Corrupt(s)) if s == "unknown slice-header extension 0x51"));
}

#[test]
fn catalogue_walk_ends_as_its_records_say() {
    let mut pos = 0u64;
    let (es, done) = parse_catalog(&[0x1a], &mut pos, 11, b'n').expect("end of root");
    assert!(es.is_empty() && done);
    let mut pos = 0u64;
    let (es, done) = parse_catalog(&[], &mut pos, 11, b'n').expect("empty");
    assert!(es.is_empty() && !done);
    let mut pos = 0u64;
    let (es, done) = parse_catalog(&[0x01], &mut pos, 11, b'n').expect("unknown type");
    assert!(es.is_empty() && !done);
    // A file record cut inside its name is an error, never a short listing.
    let mut pos = 0u64;
    assert!(parse_catalog(&[0x06, b'a', b'b'], &mut pos, 11, b'n').is_err());
}

#[test]
fn different_names_escape_differently() {
    assert_ne!(escape_name("a|b"), escape_name("a\\|b"));
    assert_ne!(escape_name("\n"), escape_name("\\x0a"));
    assert_eq!(escape_name("\n"), "\\x0a");
    assert_eq!(escape_name("\\x0a"), "\\\\x0a");
}

#[test]
fn scan_sees_a_marker_across_a_step_boundary() {
    let mut data = vec![0u8; CHUNK as usize + 16];
    let at = CHUNK as usize - 3;
    data[at..at + 6].copy_from_slice(&[0xAD, 0xFD, 0xEA, 0x77, 0x21, 0x43]);
    assert_eq!(scan_window(&data, 0, &[0u8; 10], false), Some((true, (at + 6) as u64)));
    let mut labelled = vec![0u8; CHUNK as usize + 16];
    let label = *b"LABEL-0123";
    let at = CHUNK as usize - 5;
    labelled[at..at + 10].copy_from_slice(&label);
    assert_eq!(scan_window(&labelled, 0, &label, true), Some((false, (at + 10) as u64)));
    assert_eq!(scan_window(&labelled, 0, &label, false), None);
}

#[test]
fn format_value_splits_major_and_fix() {
    let mut pos = 0u64;
    assert_eq!(read_format_value(b"0;3\x00rest", &mut pos), 11 * 256 + 3);
    assert_eq!(pos, 4);
    let mut pos = 0u64;
    assert_eq!(read_format_value(b"08\x00", &mut pos), 8 * 256);
    let mut pos = 0u64;
    assert_eq!(read_format_value(b"0\x00", &mut pos), u32::MAX);
}
