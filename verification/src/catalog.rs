//! The catalogue: inode records, file records, and the walk over the entry
//! stream that turns them into a flat list of paths.

use vstd::prelude::*;

use crate::wire::{
    DarError, Fault, err_view, lemma_readers_plain, not_nad, plain_fault, value_of, spec_read_u8, spec_read_u16, spec_read_infinint,
    spec_read_nul_bytes, spec_skip, spec_read_timestamp, read_u8, read_u16, read_infinint,
    read_nul_bytes, skip, read_timestamp,
};

verus! {

/// The kind of filesystem object a catalogue entry describes.
#[derive(Debug, Clone, Copy, PartialEq, Eq, Structural)]
pub enum EntryKind {
    File,
    Directory,
    Symlink,
    NamedPipe,
    Socket,
    CharDevice,
    BlockDevice,
    Hardlink,
    /// A catalogue entry type this reader does not model (the raw type letter).
    Unknown(char),
}

/// Inode metadata shared by every catalogue entry type.
#[derive(Debug, Clone, Copy, PartialEq, Eq, Structural)]
pub struct Inode {
    pub flags: u8,
    pub uid: u64,
    pub gid: u64,
    pub mode: u16,
    pub atime: i64,
    pub mtime: i64,
    pub ctime: Option<i64>,
}

/// One parsed catalogue entry, with where its data lives in the archive.
#[derive(Debug)]
pub struct EntryRef {
    pub path: Vec<u8>,
    pub kind: EntryKind,
    pub size: u64,
    pub uid: u64,
    pub gid: u64,
    pub mode: u16,
    pub atime: i64,
    pub mtime: i64,
    pub ctime: Option<i64>,
    pub symlink_target: Option<Vec<u8>>,
    pub archive_offset: u64,
    pub stored_size: u64,
    pub compression: u8,
    /// The record's data-status byte (format 8 on) announces encrypted data.
    pub encrypted: bool,
}

/// The mathematical value of an [`EntryRef`].
pub struct EntryModel {
    pub path: Seq<u8>,
    pub kind: EntryKind,
    pub size: u64,
    pub uid: u64,
    pub gid: u64,
    pub mode: u16,
    pub atime: i64,
    pub mtime: i64,
    pub ctime: Option<i64>,
    pub symlink_target: Option<Seq<u8>>,
    pub archive_offset: u64,
    pub stored_size: u64,
    pub compression: u8,
    pub encrypted: bool,
}

pub open spec fn opt_bytes_view(o: Option<Vec<u8>>) -> Option<Seq<u8>> {
    match o {
        Some(v) => Some(v@),
        None => None,
    }
}

impl View for EntryRef {
    type V = EntryModel;

    open spec fn view(&self) -> EntryModel {
        EntryModel {
            path: self.path@,
            kind: self.kind,
            size: self.size,
            uid: self.uid,
            gid: self.gid,
            mode: self.mode,
            atime: self.atime,
            mtime: self.mtime,
            ctime: self.ctime,
            symlink_target: opt_bytes_view(self.symlink_target),
            archive_offset: self.archive_offset,
            stored_size: self.stored_size,
            compression: self.compression,
            encrypted: self.encrypted,
        }
    }
}

/// The views of a vector of entries.
pub open spec fn entries_view(v: Seq<EntryRef>) -> Seq<EntryModel> {
    Seq::new(v.len(), |i: int| v[i]@)
}

// ── specs ───────────────────────────────────────────────────────────────────

/// Whether an inode's flags announce filesystem-specific attributes (FSA),
/// which exist from format 9 on.
pub open spec fn has_fsa(flags: u8, format_major: u32) -> bool {
    format_major >= 9 && flags & 0x10 != 0
}

/// uid and gid: two big-endian `u16` up to format 7, two infinints after.
pub open spec fn spec_read_ids(d: Seq<u8>, p: int, format_major: u32) -> Result<
    ((u64, u64), int),
    Fault,
> {
    if format_major <= 7 {
        match spec_read_u16(d, p) {
            Err(e) => Err(e),
            Ok((u, q)) => match spec_read_u16(d, q) {
                Err(e) => Err(e),
                Ok((g, q2)) => Ok(((u as u64, g as u64), q2)),
            },
        }
    } else {
        match spec_read_infinint(d, p) {
            Err(e) => Err(e),
            Ok((u, q)) => match spec_read_infinint(d, q) {
                Err(e) => Err(e),
                Ok((g, q2)) => Ok(((u, g), q2)),
            },
        }
    }
}

/// atime, mtime, and from format 8 the ctime.
pub open spec fn spec_read_times(d: Seq<u8>, p: int, format_major: u32) -> Result<
    ((i64, i64, Option<i64>), int),
    Fault,
> {
    match spec_read_timestamp(d, p, format_major) {
        Err(e) => Err(e),
        Ok((a, q)) => match spec_read_timestamp(d, q, format_major) {
            Err(e) => Err(e),
            Ok((m, q2)) => if format_major >= 8 {
                match spec_read_timestamp(d, q2, format_major) {
                    Err(e) => Err(e),
                    Ok((c, q3)) => Ok(((a, m, Some(c)), q3)),
                }
            } else {
                Ok(((a, m, None), q2))
            },
        },
    }
}

/// The two FSA inode infinints (format 9+, FSA flag set) are read and dropped.
pub open spec fn spec_skip_fsa_inode_fields(d: Seq<u8>, p: int, flags: u8, format_major: u32) -> Result<
    ((), int),
    Fault,
> {
    if has_fsa(flags, format_major) {
        match spec_read_infinint(d, p) {
            Err(e) => Err(e),
            Ok((_, q)) => match spec_read_infinint(d, q) {
                Err(e) => Err(e),
                Ok((_, q2)) => Ok(((), q2)),
            },
        }
    } else {
        Ok(((), p))
    }
}

/// An inode: a flags byte (format 2+), uid, gid, a `u16` permission field,
/// the timestamps, and the FSA inode fields where present.
#[verifier::opaque]
pub open spec fn spec_read_inode(d: Seq<u8>, p: int, format_major: u32) -> Result<(Inode, int), Fault> {
    let fl = if format_major >= 2 {
        spec_read_u8(d, p)
    } else {
        Ok((0u8, p))
    };
    match fl {
        Err(e) => Err(e),
        Ok((flags, q1)) => match spec_read_ids(d, q1, format_major) {
            Err(e) => Err(e),
            Ok(((uid, gid), q2)) => match spec_read_u16(d, q2) {
                Err(e) => Err(e),
                Ok((mode, q3)) => match spec_read_times(d, q3, format_major) {
                    Err(e) => Err(e),
                    Ok(((atime, mtime, ctime), q4)) => match spec_skip_fsa_inode_fields(
                        d,
                        q4,
                        flags,
                        format_major,
                    ) {
                        Err(e) => Err(e),
                        Ok((_, q5)) => Ok(
                            (Inode { flags, uid, gid, mode, atime, mtime, ctime }, q5),
                        ),
                    },
                },
            },
        },
    }
}

/// An FSA block: a family tag, a data size, and that many data bytes.
pub open spec fn spec_skip_fsa(d: Seq<u8>, p: int) -> Result<((), int), Fault> {
    match spec_read_infinint(d, p) {
        Err(e) => Err(e),
        Ok((_, q)) => match spec_read_infinint(d, q) {
            Err(e) => Err(e),
            Ok((size, q2)) => spec_skip(q2, size),
        },
    }
}

/// A name, its inode, and (format 9+, FSA flag set) the FSA block.
#[verifier::opaque]
pub open spec fn spec_read_named_inode(d: Seq<u8>, p: int, format_major: u32) -> Result<
    ((Seq<u8>, Inode), int),
    Fault,
> {
    match spec_read_nul_bytes(d, p) {
        Err(e) => Err(e),
        Ok((name, q)) => match spec_read_inode(d, q, format_major) {
            Err(e) => Err(e),
            Ok((inode, q2)) => if has_fsa(inode.flags, format_major) {
                match spec_skip_fsa(d, q2) {
                    Err(e) => Err(e),
                    Ok((_, q3)) => Ok(((name, inode), q3)),
                }
            } else {
                Ok(((name, inode), q2))
            },
        },
    }
}

/// The data fields of a file record: `(size, archive_offset, stored_size,
/// compression, status)`. Format 8+: storage size, a status byte (non-zero for
/// encrypted data), the codec byte and a
/// length-prefixed CRC; formats 2 to 7: storage size and a 2-byte CRC, under
/// the archive-wide codec; format 1: no storage size. Before format 8 a
/// storage size of 0 means the data is stored as is.
#[verifier::opaque]
pub open spec fn spec_read_file_fields(d: Seq<u8>, p: int, format_major: u32, global_comp: u8) -> Result<
    ((u64, u64, u64, u8, u8), int),
    Fault,
> {
    match spec_read_infinint(d, p) {
        Err(e) => Err(e),
        Ok((size, q1)) => match spec_read_infinint(d, q1) {
            Err(e) => Err(e),
            Ok((offset, q2)) => {
                let rest: Result<((u64, u8, u8), int), Fault> = if format_major >= 8 {
                    match spec_read_infinint(d, q2) {
                        Err(e) => Err(e),
                        Ok((ss, q3)) => match spec_read_u8(d, q3) {
                            Err(e) => Err(e),
                            Ok((status, q4)) => match spec_read_u8(d, q4) {
                                Err(e) => Err(e),
                                Ok((comp, q5)) => match spec_read_infinint(d, q5) {
                                    Err(e) => Err(e),
                                    Ok((crc, q6)) => match spec_skip(q6, crc) {
                                        Err(e) => Err(e),
                                        Ok((_, q7)) => Ok(((ss, comp, status), q7)),
                                    },
                                },
                            },
                        },
                    }
                } else if format_major >= 2 {
                    match spec_read_infinint(d, q2) {
                        Err(e) => Err(e),
                        Ok((ss, q3)) => match spec_skip(q3, 2) {
                            Err(e) => Err(e),
                            Ok((_, q4)) => Ok(((ss, global_comp, 0u8), q4)),
                        },
                    }
                } else {
                    Ok(((size, global_comp, 0u8), q2))
                };
                match rest {
                    Err(e) => Err(e),
                    Ok(((ss, comp, status), q)) => {
                        let stored = if format_major <= 7 && ss == 0 {
                            size
                        } else {
                            ss
                        };
                        Ok(((size, offset, stored, comp, status), q))
                    },
                }
            },
        },
    }
}

/// A directory stack and a leaf name joined with `/`.
pub open spec fn join_path_spec(stack: Seq<Seq<u8>>, name: Seq<u8>) -> Seq<u8>
    decreases stack.len(),
{
    if stack.len() == 0 {
        name
    } else {
        stack[0] + seq![0x2fu8] + join_path_spec(stack.drop_first(), name)
    }
}

/// A catalogue entry with metadata but no archive data.
pub open spec fn meta_model(
    path: Seq<u8>,
    kind: EntryKind,
    inode: Inode,
    target: Option<Seq<u8>>,
) -> EntryModel {
    EntryModel {
        path,
        kind,
        size: 0,
        uid: inode.uid,
        gid: inode.gid,
        mode: inode.mode,
        atime: inode.atime,
        mtime: inode.mtime,
        ctime: inode.ctime,
        symlink_target: target,
        archive_offset: 0,
        stored_size: 0,
        compression: 0x6e,
        encrypted: false,
    }
}

/// The type letter of a catalogue signature byte: its low five bits plus `0x60`.
pub open spec fn type_letter_of(sig: u8) -> u8 {
    (sig % 32 + 96) as u8
}

/// The name DAR gives its virtual top directory.
pub open spec fn root_marker() -> Seq<u8> {
    seq![0x3cu8, 0x52, 0x4f, 0x4f, 0x54, 0x3e]
}

/// The walk's state between entries.
pub struct WalkState {
    pub entries: Seq<EntryModel>,
    pub stack: Seq<Seq<u8>>,
    pub depth: nat,
}

/// What one catalogue entry does to the walk.
pub enum Step {
    /// The walk ends; `true` when it closed the root directory.
    Stop(bool),
    /// The walk goes on from this state and position.
    Next(WalkState, int),
    /// The entry is malformed.
    Fail(Fault),
}

pub open spec fn pop_stack(s: Seq<Seq<u8>>) -> Seq<Seq<u8>> {
    if s.len() == 0 {
        s
    } else {
        s.drop_last()
    }
}

/// One entry of the catalogue, whose signature byte is at `p`.
#[verifier::opaque]
pub open spec fn catalog_step(
    d: Seq<u8>,
    p: int,
    format_major: u32,
    global_comp: u8,
    st: WalkState,
) -> Step {
    match spec_read_u8(d, p) {
        Err(_) => Step::Stop(false),
        Ok((sig, q)) => {
            let letter = type_letter_of(sig);
            if letter == 0x7a {
                // end of directory
                let depth: nat = if st.depth == 0 {
                    0
                } else {
                    (st.depth - 1) as nat
                };
                if depth == 0 {
                    Step::Stop(true)
                } else {
                    Step::Next(
                        WalkState { entries: st.entries, stack: pop_stack(st.stack), depth },
                        q,
                    )
                }
            } else if letter == 0x64 || letter == 0x66 || letter == 0x6c || letter == 0x70
                || letter == 0x73 {
                match spec_read_named_inode(d, q, format_major) {
                    Err(e) => Step::Fail(e),
                    Ok(((name, inode), q2)) => {
                        let path = join_path_spec(st.stack, name);
                        if letter == 0x64 {
                            // directory
                            let is_root = st.depth == 0;
                            if name == root_marker() {
                                Step::Next(
                                    WalkState {
                                        entries: st.entries,
                                        stack: st.stack,
                                        depth: st.depth + 1,
                                    },
                                    q2,
                                )
                            } else {
                                let entries = if is_root {
                                    st.entries
                                } else {
                                    st.entries.push(
                                        meta_model(path, EntryKind::Directory, inode, None),
                                    )
                                };
                                Step::Next(
                                    WalkState {
                                        entries,
                                        stack: st.stack.push(name),
                                        depth: st.depth + 1,
                                    },
                                    q2,
                                )
                            }
                        } else if letter == 0x66 {
                            // file
                            match spec_read_file_fields(d, q2, format_major, global_comp) {
                                Err(e) => Step::Fail(e),
                                Ok(((size, offset, stored, comp, status), q3)) => Step::Next(
                                    WalkState {
                                        entries: st.entries.push(
                                            EntryModel {
                                                path,
                                                kind: EntryKind::File,
                                                size,
                                                uid: inode.uid,
                                                gid: inode.gid,
                                                mode: inode.mode,
                                                atime: inode.atime,
                                                mtime: inode.mtime,
                                                ctime: inode.ctime,
                                                symlink_target: None,
                                                archive_offset: offset,
                                                stored_size: stored,
                                                compression: comp,
                                                encrypted: status != 0,
                                            },
                                        ),
                                        stack: st.stack,
                                        depth: st.depth,
                                    },
                                    q3,
                                ),
                            }
                        } else if letter == 0x6c {
                            // symbolic link
                            match spec_read_nul_bytes(d, q2) {
                                Err(e) => Step::Fail(e),
                                Ok((target, q3)) => Step::Next(
                                    WalkState {
                                        entries: st.entries.push(
                                            meta_model(path, EntryKind::Symlink, inode, Some(target)),
                                        ),
                                        stack: st.stack,
                                        depth: st.depth,
                                    },
                                    q3,
                                ),
                            }
                        } else {
                            // named pipe or socket
                            let kind = if letter == 0x70 {
                                EntryKind::NamedPipe
                            } else {
                                EntryKind::Socket
                            };
                            Step::Next(
                                WalkState {
                                    entries: st.entries.push(meta_model(path, kind, inode, None)),
                                    stack: st.stack,
                                    depth: st.depth,
                                },
                                q2,
                            )
                        }
                    },
                }
            } else {
                // unknown entry type: the walk stops, incomplete
                Step::Stop(false)
            }
        },
    }
}

/// The whole catalogue walk from position `p`: the entries in catalogue order
/// and whether the walk closed the root directory.
pub open spec fn catalog_walk(
    d: Seq<u8>,
    p: int,
    format_major: u32,
    global_comp: u8,
    st: WalkState,
) -> Result<(Seq<EntryModel>, bool), Fault>
    decreases (if 0 <= p < d.len() {
        d.len() - p
    } else {
        0
    }),
{
    if !(0 <= p < d.len()) {
        Ok((st.entries, false))
    } else {
        match catalog_step(d, p, format_major, global_comp, st) {
            Step::Stop(done) => Ok((st.entries, done)),
            Step::Fail(e) => Err(e),
            Step::Next(st2, p2) => if p2 > p {
                catalog_walk(d, p2, format_major, global_comp, st2)
            } else {
                Ok((st.entries, false))
            },
        }
    }
}

/// The catalogue entries of an archive whose catalogue stream starts at `p`.
pub open spec fn spec_parse_catalog(d: Seq<u8>, p: int, format_major: u32, global_comp: u8) -> Result<
    (Seq<EntryModel>, bool),
    Fault,
> {
    catalog_walk(
        d,
        p,
        format_major,
        global_comp,
        WalkState { entries: Seq::empty(), stack: Seq::empty(), depth: 0 },
    )
}

} // verus!

verus! {

// ── exec ────────────────────────────────────────────────────────────────────

fn read_ids(data: &[u8], pos: &mut u64, format_major: u32) -> (r: Result<(u64, u64), DarError>)
    ensures
        err_view(r) == value_of(spec_read_ids(data@, *old(pos) as int, format_major)),
        r is Ok ==> *final(pos) as int == spec_read_ids(data@, *old(pos) as int, format_major)->Ok_0.1,
        r is Ok ==> *final(pos) >= *old(pos),
{
    if format_major <= 7 {
        let u = read_u16(data, pos)?;
        let g = read_u16(data, pos)?;
        Ok((u as u64, g as u64))
    } else {
        let u = read_infinint(data, pos)?;
        let g = read_infinint(data, pos)?;
        Ok((u, g))
    }
}

fn read_times(data: &[u8], pos: &mut u64, format_major: u32) -> (r: Result<(i64, i64, Option<i64>), DarError>)
    ensures
        err_view(r) == value_of(spec_read_times(data@, *old(pos) as int, format_major)),
        r is Ok ==> *final(pos) as int == spec_read_times(data@, *old(pos) as int, format_major)->Ok_0.1,
        r is Ok ==> *final(pos) >= *old(pos),
{
    let a = read_timestamp(data, pos, format_major)?;
    let m = read_timestamp(data, pos, format_major)?;
    if format_major >= 8 {
        let c = read_timestamp(data, pos, format_major)?;
        Ok((a, m, Some(c)))
    } else {
        Ok((a, m, None))
    }
}

/// Read one inode's base fields.
pub fn read_inode_base(data: &[u8], pos: &mut u64, format_major: u32) -> (r: Result<Inode, DarError>)
    ensures
        err_view(r) == value_of(spec_read_inode(data@, *old(pos) as int, format_major)),
        r is Ok ==> *final(pos) as int == spec_read_inode(data@, *old(pos) as int, format_major)->Ok_0.1,
        r is Ok ==> *final(pos) >= *old(pos),
{
    reveal(spec_read_inode);
    let flags = if format_major >= 2 {
        read_u8(data, pos)?
    } else {
        0u8
    };
    let (uid, gid) = read_ids(data, pos, format_major)?;
    let mode = read_u16(data, pos)?;
    let (atime, mtime, ctime) = read_times(data, pos, format_major)?;
    if format_major >= 9 && flags & 0x10 != 0 {
        read_infinint(data, pos)?;
        read_infinint(data, pos)?;
    }
    Ok(Inode { flags, uid, gid, mode, atime, mtime, ctime })
}

/// Skip one FSA block: a tag, a size, and that many bytes.
pub fn skip_fsa(data: &[u8], pos: &mut u64) -> (r: Result<(), DarError>)
    ensures
        err_view(r) == value_of(spec_skip_fsa(data@, *old(pos) as int)),
        r is Ok ==> *final(pos) as int == spec_skip_fsa(data@, *old(pos) as int)->Ok_0.1,
        r is Ok ==> *final(pos) >= *old(pos),
{
    let _tag = read_infinint(data, pos)?;
    let size = read_infinint(data, pos)?;
    skip(pos, size)
}

fn read_named_inode(data: &[u8], pos: &mut u64, format_major: u32) -> (r: Result<(Vec<u8>, Inode), DarError>)
    ensures
        match r {
            Ok((name, inode)) => spec_read_named_inode(data@, *old(pos) as int, format_major) matches Ok(((n, i), q))
                && n == name@ && i == inode && q == *final(pos) as int,
            Err(e) => spec_read_named_inode(data@, *old(pos) as int, format_major) == Err::<((Seq<u8>, Inode), int), Fault>(e@),
        },
        r is Ok ==> *final(pos) > *old(pos),
{
    reveal(spec_read_named_inode);
    let name = read_nul_bytes(data, pos)?;
    let inode = read_inode_base(data, pos, format_major)?;
    if format_major >= 9 && inode.flags & 0x10 != 0 {
        skip_fsa(data, pos)?;
    }
    Ok((name, inode))
}

/// Read the data fields of a file record: `(size, archive_offset,
/// stored_size, compression, data status)`.
pub fn read_file_fields(data: &[u8], pos: &mut u64, format_major: u32, global_comp: u8) -> (r: Result<(u64, u64, u64, u8, u8), DarError>)
    ensures
        err_view(r) == value_of(spec_read_file_fields(data@, *old(pos) as int, format_major, global_comp)),
        r is Ok ==> *final(pos) as int == spec_read_file_fields(data@, *old(pos) as int, format_major, global_comp)->Ok_0.1,
        r is Ok ==> *final(pos) >= *old(pos),
{
    reveal(spec_read_file_fields);
    let size = read_infinint(data, pos)?;
    let archive_offset = read_infinint(data, pos)?;
    let (ss, compression, status) = if format_major >= 8 {
        let ss = read_infinint(data, pos)?;
        let status = read_u8(data, pos)?;
        let comp = read_u8(data, pos)?;
        let crc_size = read_infinint(data, pos)?;
        skip(pos, crc_size)?;
        (ss, comp, status)
    } else if format_major >= 2 {
        let ss = read_infinint(data, pos)?;
        skip(pos, 2)?;
        (ss, global_comp, 0u8)
    } else {
        (size, global_comp, 0u8)
    };
    let stored_size = if format_major <= 7 && ss == 0 {
        size
    } else {
        ss
    };
    Ok((size, archive_offset, stored_size, compression, status))
}

/// Join a directory stack and a leaf name into a `/`-separated path.
pub fn join_path(stack: &Vec<Vec<u8>>, name: &[u8]) -> (path: Vec<u8>)
    ensures
        path@ == join_path_spec(Seq::new(stack@.len(), |i: int| stack@[i]@), name@),
{
    let ghost st = Seq::new(stack@.len(), |i: int| stack@[i]@);
    let mut path: Vec<u8> = Vec::new();
    let mut i: usize = 0;
    proof {
        assert(st.subrange(0, st.len() as int) =~= st);
        assert(path@ + join_path_spec(st, name@) =~= join_path_spec(st, name@));
    }
    while i < stack.len()
        invariant
            i <= stack@.len(),
            st == Seq::new(stack@.len(), |i: int| stack@[i]@),
            path@ + join_path_spec(st.subrange(i as int, st.len() as int), name@)
                == join_path_spec(st, name@),
        decreases stack.len() - i,
    {
        proof {
            let rest = st.subrange(i as int, st.len() as int);
            assert(rest.drop_first() == st.subrange(i + 1, st.len() as int));
            assert(rest[0] == stack@[i as int]@);
        }
        let comp: &Vec<u8> = &stack[i];
        let ghost before = path@;
        path.extend_from_slice(comp.as_slice());
        path.push(0x2f);
        proof {
            let rest = st.subrange(i as int, st.len() as int);
            assert(path@ == before + comp@ + seq![0x2fu8]);
            assert(join_path_spec(rest, name@) == comp@ + seq![0x2fu8] + join_path_spec(rest.drop_first(), name@));
            assert(before + (comp@ + seq![0x2fu8] + join_path_spec(rest.drop_first(), name@))
                == path@ + join_path_spec(rest.drop_first(), name@));
        }
        i = i + 1;
    }
    let ghost before = path@;
    path.extend_from_slice(name);
    proof {
        assert(st.subrange(st.len() as int, st.len() as int) =~= Seq::<Seq<u8>>::empty());
        assert(path@ == before + name@);
    }
    path
}

/// An entry for a non-file inode (directory, symlink, pipe, socket): metadata,
/// no archive data.
pub fn meta_entry(path: Vec<u8>, kind: EntryKind, inode: &Inode, symlink_target: Option<Vec<u8>>) -> (e: EntryRef)
    ensures
        e@ == meta_model(path@, kind, *inode, opt_bytes_view(symlink_target)),
{
    EntryRef {
        path,
        kind,
        size: 0,
        uid: inode.uid,
        gid: inode.gid,
        mode: inode.mode,
        atime: inode.atime,
        mtime: inode.mtime,
        ctime: inode.ctime,
        symlink_target,
        archive_offset: 0,
        stored_size: 0,
        compression: 0x6e,
        encrypted: false,
    }
}

} // verus!

verus! {

/// The views of a directory stack.
pub open spec fn stack_view(s: Seq<Vec<u8>>) -> Seq<Seq<u8>> {
    Seq::new(s.len(), |i: int| s[i]@)
}

proof fn lemma_entries_push(v: Seq<EntryRef>, e: EntryRef)
    ensures
        entries_view(v.push(e)) == entries_view(v).push(e@),
{
    assert(entries_view(v.push(e)) =~= entries_view(v).push(e@));
}

proof fn lemma_stack_push(v: Seq<Vec<u8>>, e: Vec<u8>)
    ensures
        stack_view(v.push(e)) == stack_view(v).push(e@),
{
    assert(stack_view(v.push(e)) =~= stack_view(v).push(e@));
}

proof fn lemma_stack_pop(v: Seq<Vec<u8>>)
    requires
        v.len() > 0,
    ensures
        stack_view(v.drop_last()) == pop_stack(stack_view(v)),
{
    assert(stack_view(v.drop_last()) =~= stack_view(v).drop_last());
}

fn is_root_marker(name: &Vec<u8>) -> (b: bool)
    ensures
        b == (name@ == root_marker()),
{
    let r = name.len() == 6 && name[0] == 0x3c && name[1] == 0x52 && name[2] == 0x4f
        && name[3] == 0x4f && name[4] == 0x54 && name[5] == 0x3e;
    proof {
        if r {
            assert(name@ =~= root_marker());
        }
    }
    r
}

/// The walk's state, viewed.
pub open spec fn walk_state(entries: Seq<EntryRef>, stack: Seq<Vec<u8>>, depth: u64) -> WalkState {
    WalkState { entries: entries_view(entries), stack: stack_view(stack), depth: depth as nat }
}

/// Read the entry whose signature byte is at `*pos`, updating the walk state.
/// `Ok(Some(done))`: the walk stops; `Ok(None)`: it goes on.
fn walk_step(
    data: &[u8],
    pos: &mut u64,
    format_major: u32,
    global_comp: u8,
    entries: &mut Vec<EntryRef>,
    dir_stack: &mut Vec<Vec<u8>>,
    depth: &mut u64,
) -> (r: Result<Option<bool>, DarError>)
    requires
        *old(depth) <= *old(pos),
    ensures
        catalog_step(data@, *old(pos) as int, format_major, global_comp, walk_state(old(entries)@, old(dir_stack)@, *old(depth))) matches Step::Stop(b)
            ==> r == Ok::<Option<bool>, DarError>(Some(b)) && entries_view(final(entries)@) == entries_view(old(entries)@),
        catalog_step(data@, *old(pos) as int, format_major, global_comp, walk_state(old(entries)@, old(dir_stack)@, *old(depth))) matches Step::Fail(e)
            ==> r is Err && r->Err_0@ == e,
        catalog_step(data@, *old(pos) as int, format_major, global_comp, walk_state(old(entries)@, old(dir_stack)@, *old(depth))) matches Step::Next(st2, p2)
            ==> r == Ok::<Option<bool>, DarError>(None)
                && st2 == walk_state(final(entries)@, final(dir_stack)@, *final(depth))
                && p2 == *final(pos) as int && p2 > *old(pos) && *final(depth) <= *final(pos),
{
    reveal(catalog_step);
    let ghost here = *pos as int;
    let sig = match read_u8(data, pos) {
        Ok(b) => b,
        Err(_) => {
            return Ok(Some(false));
        },
    };
    let letter: u8 = sig % 32 + 96;
    assert(letter == type_letter_of(sig));
    if letter == 0x7a {
        if *depth > 0 {
            *depth = *depth - 1;
        }
        if dir_stack.len() > 0 {
            proof {
                lemma_stack_pop(dir_stack@);
            }
            dir_stack.pop();
        }
        if *depth == 0 {
            return Ok(Some(true));
        }
        assert(catalog_step(data@, here, format_major, global_comp, walk_state(old(entries)@, old(dir_stack)@, *old(depth)))
            == Step::Next(walk_state(entries@, dir_stack@, *depth), *pos as int));
        return Ok(None);
    } else if letter == 0x64 || letter == 0x66 || letter == 0x6c || letter == 0x70 || letter
        == 0x73 {
        let (name, inode) = read_named_inode(data, pos, format_major)?;
        let path = join_path(dir_stack, name.as_slice());
        if letter == 0x64 {
            let is_root = *depth == 0;
            *depth = *depth + 1;
            if !is_root_marker(&name) {
                if !is_root {
                    let e = meta_entry(path, EntryKind::Directory, &inode, None);
                    proof {
                        lemma_entries_push(entries@, e);
                    }
                    entries.push(e);
                }
                proof {
                    lemma_stack_push(dir_stack@, name);
                }
                dir_stack.push(name);
            }
        } else if letter == 0x66 {
            let (size, archive_offset, stored_size, compression, status) = read_file_fields(
                data,
                pos,
                format_major,
                global_comp,
            )?;
            let e = EntryRef {
                path,
                kind: EntryKind::File,
                size,
                uid: inode.uid,
                gid: inode.gid,
                mode: inode.mode,
                atime: inode.atime,
                mtime: inode.mtime,
                ctime: inode.ctime,
                symlink_target: None,
                archive_offset,
                stored_size,
                compression,
                encrypted: status != 0,
            };
            proof {
                lemma_entries_push(entries@, e);
            }
            entries.push(e);
        } else if letter == 0x6c {
            let target = read_nul_bytes(data, pos)?;
            let e = meta_entry(path, EntryKind::Symlink, &inode, Some(target));
            proof {
                lemma_entries_push(entries@, e);
            }
            entries.push(e);
        } else {
            let kind = if letter == 0x70 {
                EntryKind::NamedPipe
            } else {
                EntryKind::Socket
            };
            let e = meta_entry(path, kind, &inode, None);
            proof {
                lemma_entries_push(entries@, e);
            }
            entries.push(e);
        }
        Ok(None)
    } else {
        Ok(Some(false))
    }
}

/// Walk the catalogue stream from `*pos`: every entry in catalogue order, and
/// whether the walk reached the end of the root directory. The walk stops
/// without error at the end of the bytes or at an entry type it does not
/// model; a malformed entry is an error.
pub fn parse_catalog(data: &[u8], pos: &mut u64, format_major: u32, global_comp: u8) -> (r: Result<(Vec<EntryRef>, bool), DarError>)
    ensures
        match r {
            Ok((es, done)) => spec_parse_catalog(data@, *old(pos) as int, format_major, global_comp)
                == Ok::<(Seq<EntryModel>, bool), Fault>((entries_view(es@), done)),
            Err(e) => spec_parse_catalog(data@, *old(pos) as int, format_major, global_comp)
                == Err::<(Seq<EntryModel>, bool), Fault>(e@),
        },
{
    let ghost d = data@;
    let ghost p0 = *old(pos) as int;
    let mut entries: Vec<EntryRef> = Vec::new();
    let mut dir_stack: Vec<Vec<u8>> = Vec::new();
    let mut depth: u64 = 0;
    proof {
        assert(entries_view(entries@) =~= Seq::<EntryModel>::empty());
        assert(stack_view(dir_stack@) =~= Seq::<Seq<u8>>::empty());
    }
    loop
        invariant
            d == data@,
            p0 == *old(pos) as int,
            depth <= *pos,
            spec_parse_catalog(d, p0, format_major, global_comp) == catalog_walk(
                d,
                *pos as int,
                format_major,
                global_comp,
                walk_state(entries@, dir_stack@, depth),
            ),
        decreases (if *pos < data@.len() { data@.len() - *pos } else { 0 }),
    {
        let ghost here = *pos as int;
        let ghost st = walk_state(entries@, dir_stack@, depth);
        if *pos >= data.len() as u64 {
            return Ok((entries, false));
        }
        assert(catalog_walk(d, here, format_major, global_comp, st) == match catalog_step(d, here, format_major, global_comp, st) {
            Step::Stop(done) => Ok((st.entries, done)),
            Step::Fail(e) => Err(e),
            Step::Next(st2, p2) => if p2 > here {
                catalog_walk(d, p2, format_major, global_comp, st2)
            } else {
                Ok((st.entries, false))
            },
        });
        match walk_step(data, pos, format_major, global_comp, &mut entries, &mut dir_stack, &mut depth) {
            Err(e) => {
                return Err(e);
            },
            Ok(Some(done)) => {
                return Ok((entries, done));
            },
            Ok(None) => {},
        }
    }
}


proof fn lemma_step_not_nad(d: Seq<u8>, p: int, format_major: u32, global_comp: u8, st: WalkState)
    ensures
        catalog_step(d, p, format_major, global_comp, st) matches Step::Fail(e) ==> plain_fault(e),
{
    reveal(catalog_step);
    lemma_readers_plain();
    lemma_named_inode_not_nad(d, p + 1, format_major);
    match spec_read_named_inode(d, p + 1, format_major) {
        Ok((_, q2)) => lemma_file_fields_not_nad(d, q2, format_major, global_comp),
        _ => {},
    }
}

proof fn lemma_inode_not_nad(d: Seq<u8>, p: int, format_major: u32)
    ensures
        not_nad(spec_read_inode(d, p, format_major)),
{
    reveal(spec_read_inode);
    lemma_readers_plain();
}

proof fn lemma_named_inode_not_nad(d: Seq<u8>, p: int, format_major: u32)
    ensures
        not_nad(spec_read_named_inode(d, p, format_major)),
{
    reveal(spec_read_named_inode);
    lemma_readers_plain();
    match spec_read_nul_bytes(d, p) {
        Ok((_, q)) => lemma_inode_not_nad(d, q, format_major),
        _ => {},
    }
}

proof fn lemma_file_fields_not_nad(d: Seq<u8>, p: int, format_major: u32, global_comp: u8)
    ensures
        not_nad(spec_read_file_fields(d, p, format_major, global_comp)),
{
    reveal(spec_read_file_fields);
    lemma_readers_plain();
}

/// No catalogue walk fails with the not-a-DAR refusal: that answer belongs to
/// the magic alone.
pub proof fn lemma_walk_not_nad(d: Seq<u8>, p: int, format_major: u32, global_comp: u8, st: WalkState)
    ensures
        not_nad(catalog_walk(d, p, format_major, global_comp, st)),
    decreases (if 0 <= p < d.len() {
        d.len() - p
    } else {
        0
    }),
{
    if 0 <= p < d.len() {
        lemma_step_not_nad(d, p, format_major, global_comp, st);
        match catalog_step(d, p, format_major, global_comp, st) {
            Step::Next(st2, p2) => if p2 > p {
                lemma_walk_not_nad(d, p2, format_major, global_comp, st2);
            },
            _ => {},
        }
    }
}


/// How a catalogue walk ends, record by record: at the end of the data or at
/// an unknown record type it stops with the entries so far, marked
/// incomplete; at an end-of-directory record that closes the root it stops
/// complete; a known record that is cut short or malformed (in its name, its
/// inode, its file fields or its link target) fails the whole walk with that
/// record's error, never a shorter listing.
pub proof fn catalogue_walk_ends(d: Seq<u8>, p: int, format_major: u32, global_comp: u8, st: WalkState)
    ensures
        !(0 <= p < d.len()) ==> catalog_walk(d, p, format_major, global_comp, st) == Ok::<
            (Seq<EntryModel>, bool),
            Fault,
        >((st.entries, false)),
        0 <= p < d.len() ==> ({
            let letter = type_letter_of(d[p]);
            let known = letter == 0x64 || letter == 0x66 || letter == 0x6c || letter == 0x70
                || letter == 0x73;
            let walk = catalog_walk(d, p, format_major, global_comp, st);
            let named = spec_read_named_inode(d, p + 1, format_major);
            let q2 = named->Ok_0.1;
            &&& (letter == 0x7a && st.depth <= 1) ==> walk == Ok::<(Seq<EntryModel>, bool), Fault>(
                (st.entries, true),
            )
            &&& (letter != 0x7a && !known) ==> walk == Ok::<(Seq<EntryModel>, bool), Fault>(
                (st.entries, false),
            )
            &&& (known && spec_read_named_inode(d, p + 1, format_major) is Err) ==> walk == Err::<
                (Seq<EntryModel>, bool),
                Fault,
            >(spec_read_named_inode(d, p + 1, format_major)->Err_0)
            &&& (letter == 0x66 && named is Ok
                && spec_read_file_fields(d, q2, format_major, global_comp) is Err) ==> walk == Err::<
                (Seq<EntryModel>, bool),
                Fault,
            >(spec_read_file_fields(d, q2, format_major, global_comp)->Err_0)
            &&& (letter == 0x6c && named is Ok
                && spec_read_nul_bytes(d, q2) is Err) ==> walk == Err::<(Seq<EntryModel>, bool), Fault>(
                spec_read_nul_bytes(d, q2)->Err_0,
            )
        }),
{
    reveal(catalog_step);
}


/// What each record does to the listing. A directory named `<ROOT>` only
/// opens a level; the top directory (depth 0) opens a level and names the
/// paths below it without being listed; any other directory is listed under
/// its path and opens a level; a file, link, pipe or socket is listed under
/// its path. A path is the enclosing directory names, each followed by `/`,
/// then the record's name. An end-of-directory record below the top closes a
/// level.
pub proof fn catalogue_records_build_entries(d: Seq<u8>, p: int, format_major: u32, global_comp: u8, st: WalkState)
    requires
        0 <= p < d.len(),
    ensures
        ({
            let letter = type_letter_of(d[p]);
            let step = catalog_step(d, p, format_major, global_comp, st);
            let named = spec_read_named_inode(d, p + 1, format_major);
            let name = named->Ok_0.0.0;
            let inode = named->Ok_0.0.1;
            let q2 = named->Ok_0.1;
            let path = join_path_spec(st.stack, name);
            &&& (letter == 0x7a && st.depth > 1) ==> step == Step::Next(
                WalkState { entries: st.entries, stack: pop_stack(st.stack), depth: (st.depth - 1) as nat },
                p + 1,
            )
            &&& (letter == 0x64 && named is Ok && name == root_marker()) ==> step == Step::Next(
                WalkState { entries: st.entries, stack: st.stack, depth: st.depth + 1 },
                q2,
            )
            &&& (letter == 0x64 && named is Ok && name != root_marker() && st.depth == 0) ==> step
                == Step::Next(WalkState { entries: st.entries, stack: st.stack.push(name), depth: 1 }, q2)
            &&& (letter == 0x64 && named is Ok && name != root_marker() && st.depth > 0) ==> step
                == Step::Next(
                WalkState {
                    entries: st.entries.push(meta_model(path, EntryKind::Directory, inode, None)),
                    stack: st.stack.push(name),
                    depth: st.depth + 1,
                },
                q2,
            )
            &&& (letter == 0x70 && named is Ok) ==> step == Step::Next(
                WalkState {
                    entries: st.entries.push(meta_model(path, EntryKind::NamedPipe, inode, None)),
                    stack: st.stack,
                    depth: st.depth,
                },
                q2,
            )
            &&& (letter == 0x73 && named is Ok) ==> step == Step::Next(
                WalkState {
                    entries: st.entries.push(meta_model(path, EntryKind::Socket, inode, None)),
                    stack: st.stack,
                    depth: st.depth,
                },
                q2,
            )
            &&& (letter == 0x6c && named is Ok && spec_read_nul_bytes(d, q2) is Ok) ==> step == Step::Next(
                WalkState {
                    entries: st.entries.push(
                        meta_model(path, EntryKind::Symlink, inode, Some(spec_read_nul_bytes(d, q2)->Ok_0.0)),
                    ),
                    stack: st.stack,
                    depth: st.depth,
                },
                spec_read_nul_bytes(d, q2)->Ok_0.1,
            )
            &&& (letter == 0x66 && named is Ok && spec_read_file_fields(d, q2, format_major, global_comp) is Ok)
                ==> ({
                let ((size, offset, stored, comp, status), q3) = spec_read_file_fields(
                    d,
                    q2,
                    format_major,
                    global_comp,
                )->Ok_0;
                step == Step::Next(
                    WalkState {
                        entries: st.entries.push(
                            EntryModel {
                                path,
                                kind: EntryKind::File,
                                size,
                                uid: inode.uid,
                                gid: inode.gid,
                                mode: inode.mode,
                                atime: inode.atime,
                                mtime: inode.mtime,
                                ctime: inode.ctime,
                                symlink_target: None,
                                archive_offset: offset,
                                stored_size: stored,
                                compression: comp,
                                encrypted: status != 0,
                            },
                        ),
                        stack: st.stack,
                        depth: st.depth,
                    },
                    q3,
                )
            })
        }),
{
    reveal(catalog_step);
}

/// A joined path ends with the record's own name.
pub proof fn joined_path_ends_with_name(stack: Seq<Seq<u8>>, name: Seq<u8>)
    ensures
        join_path_spec(stack, name).len() >= name.len(),
        join_path_spec(stack, name).subrange(
            join_path_spec(stack, name).len() - name.len(),
            join_path_spec(stack, name).len() as int,
        ) == name,
    decreases stack.len(),
{
    if stack.len() == 0 {
        assert(name.subrange(0, name.len() as int) =~= name);
    } else {
        let rest = join_path_spec(stack.drop_first(), name);
        joined_path_ends_with_name(stack.drop_first(), name);
        let whole = stack[0] + seq![0x2fu8] + rest;
        assert(whole.subrange(whole.len() - name.len(), whole.len() as int) =~= rest.subrange(
            rest.len() - name.len(),
            rest.len() as int,
        ));
    }
}


proof fn lemma_inode_forward(d: Seq<u8>, p: int, format_major: u32)
    ensures
        spec_read_inode(d, p, format_major) matches Ok((_, q)) ==> q >= p,
{
    reveal(spec_read_inode);
}

proof fn lemma_named_inode_forward(d: Seq<u8>, p: int, format_major: u32)
    ensures
        spec_read_named_inode(d, p, format_major) matches Ok((_, q)) ==> q > p,
{
    reveal(spec_read_named_inode);
    match spec_read_nul_bytes(d, p) {
        Ok((_, q)) => {
            crate::wire::nul_names_are_bounded(d, p);
            lemma_inode_forward(d, q, format_major);
        },
        _ => {},
    }
}

proof fn lemma_file_fields_forward(d: Seq<u8>, p: int, format_major: u32, global_comp: u8)
    ensures
        spec_read_file_fields(d, p, format_major, global_comp) matches Ok((_, q)) ==> q >= p,
{
    reveal(spec_read_file_fields);
}

/// Every record the walk goes on from moves it forward.
proof fn lemma_step_forward(d: Seq<u8>, p: int, format_major: u32, global_comp: u8, st: WalkState)
    ensures
        catalog_step(d, p, format_major, global_comp, st) matches Step::Next(_, p2) ==> p2 > p,
{
    reveal(catalog_step);
    lemma_named_inode_forward(d, p + 1, format_major);
    match spec_read_named_inode(d, p + 1, format_major) {
        Ok((_, q2)) => {
            lemma_file_fields_forward(d, q2, format_major, global_comp);
            if spec_read_nul_bytes(d, q2) is Ok {
                crate::wire::nul_names_are_bounded(d, q2);
            }
        },
        _ => {},
    }
}

/// The walk goes from position `p` in state `st` to position `r` in state
/// `s2`, one record at a time.
pub open spec fn walk_reaches(
    d: Seq<u8>,
    p: int,
    format_major: u32,
    global_comp: u8,
    st: WalkState,
    r: int,
    s2: WalkState,
) -> bool
    decreases (if 0 <= p < d.len() {
        d.len() - p
    } else {
        0
    }),
{
    (p == r && st == s2) || (0 <= p < d.len() && match catalog_step(d, p, format_major, global_comp, st) {
        Step::Next(st3, p3) => p3 > p && walk_reaches(d, p3, format_major, global_comp, st3, r, s2),
        _ => false,
    })
}

/// Where a walk that stopped at `r` in state `s2` stopped, and whether it is
/// complete: complete exactly when it stopped on an end-of-directory record
/// read at depth 1 or less; otherwise it stopped at the end of the data or at
/// a record of unknown type.
pub open spec fn walk_stopped(d: Seq<u8>, r: int, s2: WalkState, done: bool) -> bool {
    let letter = type_letter_of(d[r]);
    &&& done <==> (0 <= r < d.len() && letter == 0x7a && s2.depth <= 1)
    &&& !done ==> (!(0 <= r < d.len()) || (letter != 0x7a && letter != 0x64 && letter != 0x66
        && letter != 0x6c && letter != 0x70 && letter != 0x73))
}

/// How a catalogue walk comes out. A listing is the entries gathered up to
/// the record where the walk stopped, complete exactly when that record is an
/// end-of-directory at depth 1 or less, incomplete when the data ended before
/// a record or a record of unknown type came; an error is the error of a
/// record the walk reached, cut short or malformed.
pub proof fn catalogue_walk_outcome(d: Seq<u8>, p: int, format_major: u32, global_comp: u8, st: WalkState)
    ensures
        match catalog_walk(d, p, format_major, global_comp, st) {
            Ok((es, done)) => exists|r: int, s2: WalkState|
                #[trigger] walk_reaches(d, p, format_major, global_comp, st, r, s2) && s2.entries == es
                    && walk_stopped(d, r, s2, done),
            Err(e) => exists|r: int, s2: WalkState|
                #[trigger] walk_reaches(d, p, format_major, global_comp, st, r, s2) && 0 <= r < d.len()
                    && catalog_step(d, r, format_major, global_comp, s2) == Step::Fail(e),
        },
    decreases (if 0 <= p < d.len() {
        d.len() - p
    } else {
        0
    }),
{
    reveal(catalog_step);
    lemma_step_forward(d, p, format_major, global_comp, st);
    assert(walk_reaches(d, p, format_major, global_comp, st, p, st));
    if 0 <= p < d.len() {
        match catalog_step(d, p, format_major, global_comp, st) {
            Step::Next(st2, p2) => {
                catalogue_walk_outcome(d, p2, format_major, global_comp, st2);
                match catalog_walk(d, p2, format_major, global_comp, st2) {
                    Ok((es, done)) => {
                        let (r, s2) = choose|r: int, s2: WalkState|
                            #[trigger] walk_reaches(d, p2, format_major, global_comp, st2, r, s2) && s2.entries == es
                                && walk_stopped(d, r, s2, done);
                        assert(walk_reaches(d, p, format_major, global_comp, st, r, s2));
                    },
                    Err(e) => {
                        let (r, s2) = choose|r: int, s2: WalkState|
                            #[trigger] walk_reaches(d, p2, format_major, global_comp, st2, r, s2) && 0 <= r < d.len()
                                && catalog_step(d, r, format_major, global_comp, s2) == Step::Fail(e);
                        assert(walk_reaches(d, p, format_major, global_comp, st, r, s2));
                    },
                }
            },
            _ => {},
        }
    }
}


/// The data fields of a file record, read in order: the logical size and the
/// archive offset (infinints); from format 8 the storage size, the status
/// byte (non-zero: encrypted), the codec byte and a CRC whose length comes
/// first; in formats 2 to 7 the storage size and a 2-byte CRC, under the
/// archive-wide codec and never encrypted, a storage size of 0 meaning the
/// data is stored at its logical size; in format 1 no more, the data being
/// as long as its logical size.
pub proof fn file_fields_layout(d: Seq<u8>, p: int, format_major: u32, global_comp: u8)
    requires
        spec_read_file_fields(d, p, format_major, global_comp) is Ok,
    ensures
        ({
            let ((size, offset, stored, comp, status), q) = spec_read_file_fields(
                d,
                p,
                format_major,
                global_comp,
            )->Ok_0;
            let (sz, q1) = spec_read_infinint(d, p)->Ok_0;
            let (off, q2) = spec_read_infinint(d, q1)->Ok_0;
            let (ss, q3) = spec_read_infinint(d, q2)->Ok_0;
            &&& spec_read_infinint(d, p) is Ok && spec_read_infinint(d, q1) is Ok
            &&& size == sz && offset == off
            &&& format_major >= 8 ==> {
                let (crc, q6) = spec_read_infinint(d, q3 + 2)->Ok_0;
                &&& stored == ss && status == d[q3] && comp == d[q3 + 1]
                &&& q == q6 + crc
            }
            &&& (2 <= format_major < 8) ==> {
                &&& stored == (if ss == 0 {
                    size
                } else {
                    ss
                })
                &&& status == 0 && comp == global_comp && q == q3 + 2
            }
            &&& format_major < 2 ==> stored == size && status == 0 && comp == global_comp && q == q2
        }),
{
    reveal(spec_read_file_fields);
}


/// An inode's fields come in the order DAR writes them: the flags byte
/// (format 2 on), the owner then the group (big-endian 16-bit values up to
/// format 7, infinints from format 8), the 16-bit permission field, then the
/// access, modification and (from format 8) status-change times.
pub proof fn inode_fields_in_order(d: Seq<u8>, p: int, format_major: u32)
    requires
        0 <= p,
        spec_read_inode(d, p, format_major) is Ok,
    ensures
        ({
            let inode = spec_read_inode(d, p, format_major)->Ok_0.0;
            let q1: int = if format_major >= 2 {
                p + 1
            } else {
                p
            };
            let u = spec_read_infinint(d, q1)->Ok_0;
            let g = spec_read_infinint(d, u.1)->Ok_0;
            let q2: int = if format_major <= 7 {
                q1 + 4
            } else {
                g.1
            };
            let a = spec_read_timestamp(d, q2 + 2, format_major)->Ok_0;
            let m = spec_read_timestamp(d, a.1, format_major)->Ok_0;
            let c = spec_read_timestamp(d, m.1, format_major)->Ok_0;
            &&& format_major >= 2 ==> inode.flags == d[p]
            &&& format_major <= 7 ==> inode.uid == d[q1] * 256 + d[q1 + 1] && inode.gid == d[q1 + 2] * 256
                + d[q1 + 3]
            &&& format_major >= 8 ==> inode.uid == u.0 && inode.gid == g.0
            &&& inode.mode == d[q2] * 256 + d[q2 + 1]
            &&& inode.atime == a.0
            &&& inode.mtime == m.0
            &&& format_major >= 8 ==> inode.ctime == Some(c.0)
            &&& format_major < 8 ==> inode.ctime is None
        }),
{
    reveal(spec_read_inode);
}

/// A listed record carries its own inode's metadata: the entry a record adds
/// has that record's owner, group, permissions and times.
pub proof fn listed_entry_keeps_its_inode(d: Seq<u8>, p: int, format_major: u32, global_comp: u8, st: WalkState)
    requires
        0 <= p < d.len(),
        catalog_step(d, p, format_major, global_comp, st) matches Step::Next(st2, _) && st2.entries.len()
            == st.entries.len() + 1,
    ensures
        ({
            let inode = spec_read_named_inode(d, p + 1, format_major)->Ok_0.0.1;
            let e = catalog_step(d, p, format_major, global_comp, st)->Next_0.entries.last();
            &&& spec_read_named_inode(d, p + 1, format_major) is Ok
            &&& e.uid == inode.uid && e.gid == inode.gid && e.mode == inode.mode
            &&& e.atime == inode.atime && e.mtime == inode.mtime && e.ctime == inode.ctime
            &&& e.path == join_path_spec(st.stack, spec_read_named_inode(d, p + 1, format_major)->Ok_0.0.0)
        }),
{
    reveal(catalog_step);
}

} // verus!
