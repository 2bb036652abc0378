//! The directory tree derived from a catalogue, navigated by node id.
//!
//! The archive used here is a stored format-11.3 archive laid out like
//! `dar -c … -g files/hello.txt` writes it: a `files` directory holding
//! `hello.txt` = `"hello corpus\n"` (13 bytes).

use dar_forensic::tree::{leaf, node_kind, read_window, DarTree, NodeKind, TreeError};
use dar_forensic::{DarReader, EntryKind};

const HELLO_CONTENT: &[u8] = b"hello corpus\n";

fn inf(n: u32) -> [u8; 5] {
    let b = n.to_be_bytes();
    [0x80, b[0], b[1], b[2], b[3]]
}

fn inode() -> Vec<u8> {
    let mut v = vec![0x00u8];
    v.extend_from_slice(&inf(501)); // uid
    v.extend_from_slice(&inf(20)); // gid
    v.extend_from_slice(&[0x01, 0xA4]); // perms 0o644
    for _ in 0..3 {
        v.push(b's');
        v.extend_from_slice(&inf(1_700_000_000));
    }
    v
}

fn named(sig: u8, name: &[u8]) -> Vec<u8> {
    let mut v = vec![sig];
    v.extend_from_slice(name);
    v.push(0x00);
    v.extend(inode());
    v
}

/// A stored format-11.3 archive: `files/hello.txt` and, when asked, a symlink
/// `link` → `/etc/passwd` at the top level.
fn hello_archive(with_link: bool) -> Vec<u8> {
    let mut buf = vec![0x00u8, 0x00, 0x00, 0x7b];
    buf.extend_from_slice(&[0u8; 10]);
    buf.extend_from_slice(&[0x00, b'T']);
    buf.extend_from_slice(&inf(0)); // archive origin = 21
    buf.extend_from_slice(b"0;3\x00");
    buf.push(b'n');
    buf.extend_from_slice(HELLO_CONTENT); // at offset 5
    buf.extend_from_slice(&[0xAD, 0xFD, 0xEA, 0x77, 0x21, 0x43]);
    buf.extend_from_slice(&[0u8; 10]);
    buf.push(0x00);
    buf.extend(named(0x04, b"<ROOT>"));
    buf.extend(named(0x04, b"files"));
    let mut f = named(0x06, b"hello.txt");
    f.extend_from_slice(&inf(13)); // size
    f.extend_from_slice(&inf(5)); // offset
    f.extend_from_slice(&inf(13)); // stored
    f.extend_from_slice(&[0x00, b'n']);
    f.extend_from_slice(&inf(0));
    buf.extend(f);
    buf.push(0x1a); // end of files/
    if with_link {
        let mut l = named(0x0c, b"link");
        l.extend_from_slice(b"/etc/passwd\x00");
        buf.extend(l);
    }
    buf.push(0x1a); // end of root
    buf
}

fn open_hello() -> (DarReader, DarTree) {
    let r = DarReader::open(hello_archive(false)).expect("open hello archive");
    let t = DarTree::from_entries(&r.entries());
    (r, t)
}

/// Walk from the root to `files/hello.txt`.
fn hello_id(t: &DarTree) -> u64 {
    let files = t.lookup(t.root(), b"files").expect("lookup files").expect("files dir present");
    t.lookup(files, b"hello.txt").expect("lookup hello.txt").expect("hello.txt present")
}

/// What a read of `cap` bytes at `off` of node `id` returns.
fn read_at(r: &DarReader, t: &DarTree, id: u64, off: u64, cap: usize) -> Vec<u8> {
    match t.data_path(id).expect("node") {
        Some(p) => read_window(&r.extract(p).expect("extract"), off, cap),
        None => Vec::new(),
    }
}

#[test]
fn leaf_splits_on_last_separator() {
    assert_eq!(leaf(b"files/hello.txt"), b"hello.txt");
    assert_eq!(leaf(b"toplevel"), b"toplevel");
    assert_eq!(leaf(b"a/b/c"), b"c");
}

#[test]
fn lists_root_and_reaches_files_dir() {
    let (_, t) = open_hello();
    let names: Vec<Vec<u8>> = t.read_dir(t.root()).expect("read_dir root").into_iter().map(|e| e.name).collect();
    assert!(names.iter().any(|n| n == b"files"), "root should list the 'files' directory, got {names:?}");
    let files = t.lookup(t.root(), b"files").expect("lookup").expect("files");
    assert_eq!(t.node(files).expect("meta files").kind, NodeKind::Dir);
}

#[test]
fn reads_hello_content_and_meta() {
    let (r, t) = open_hello();
    let id = hello_id(&t);
    let m = t.node(id).expect("meta hello");
    assert_eq!(m.kind, NodeKind::File);
    assert_eq!(m.size, HELLO_CONTENT.len() as u64);
    assert_eq!(m.mtime, 1_700_000_000);
    assert_eq!(read_at(&r, &t, id, 0, 64), HELLO_CONTENT);
}

#[test]
fn read_at_content_matches_extract() {
    let (r, t) = open_hello();
    let id = hello_id(&t);
    let mut whole = Vec::new();
    let mut off = 0u64;
    loop {
        let chunk = read_at(&r, &t, id, off, 8);
        if chunk.is_empty() {
            break;
        }
        off += chunk.len() as u64;
        whole.extend(chunk);
    }
    let extracted = r.extract(b"files/hello.txt").expect("extract");
    assert_eq!(whole, extracted);
    assert_eq!(whole, HELLO_CONTENT);
}

#[test]
fn read_at_with_offset_and_past_eof() {
    let (r, t) = open_hello();
    let id = hello_id(&t);
    assert_eq!(read_at(&r, &t, id, 6, 8), b"corpus\n");
    // reading past EOF yields 0
    assert_eq!(read_at(&r, &t, id, 9999, 8).len(), 0);
}

#[test]
fn read_dir_on_a_file_is_loud() {
    let (_, t) = open_hello();
    let id = hello_id(&t);
    assert!(t.read_dir(id).is_err());
}

#[test]
fn wrong_file_id_and_stream_are_loud() {
    let (_, t) = open_hello();
    // An out-of-range node index is refused.
    assert!(matches!(t.node(9_999_999), Err(TreeError::OutOfRange(9_999_999))));
    assert!(t.read_dir(9_999_999).is_err());
    assert!(t.lookup(9_999_999, b"x").is_err());
    assert!(t.read_link(9_999_999, 8).is_err());
}

#[test]
fn lookup_missing_is_none() {
    let (_, t) = open_hello();
    assert!(t.lookup(t.root(), b"NOPE.NOTPRESENT").unwrap().is_none());
}

#[test]
fn node_kind_maps_directory_symlink_and_other() {
    assert_eq!(node_kind(EntryKind::Directory), NodeKind::Dir);
    assert_eq!(node_kind(EntryKind::Symlink), NodeKind::Symlink);
    assert_eq!(node_kind(EntryKind::File), NodeKind::File);
}

#[test]
fn lookup_on_a_file_is_loud() {
    let (_, t) = open_hello();
    let id = hello_id(&t);
    assert!(matches!(t.lookup(id, b"anything"), Err(TreeError::NotADirectory(_))));
}

#[test]
fn read_at_on_a_directory_reads_zero() {
    let (r, t) = open_hello();
    let files = t.lookup(t.root(), b"files").unwrap().unwrap();
    assert_eq!(read_at(&r, &t, files, 0, 8).len(), 0);
}

#[test]
fn empty_forensic_surfaces() {
    let (_, t) = open_hello();
    let id = hello_id(&t);
    assert!(t.read_link(id, 4096).unwrap().is_empty());
}

#[test]
fn read_link_returns_recorded_target_and_honors_cap() {
    let r = DarReader::open(hello_archive(true)).expect("open");
    let t = DarTree::from_entries(&r.entries());
    let id = t.lookup(t.root(), b"link").unwrap().expect("link");
    assert_eq!(t.read_link(id, 4096).unwrap(), b"/etc/passwd");
    // cap truncates the returned target
    assert_eq!(t.read_link(id, 4).unwrap(), b"/etc");
}
