//! The archive reader: the slice header, locating and parsing the catalogue,
//! listing entries, and extracting an entry's bytes.

use std::borrow::Cow;

use vstd::prelude::*;
use vstd::slice::slice_to_vec;

use crate::catalog::{
    EntryKind, EntryModel, EntryRef, WalkState, entries_view, lemma_walk_not_nad, opt_bytes_view,
    parse_catalog, spec_parse_catalog,
};
use crate::codec::{MAX_CATALOGUE_INFLATED, lemma_decode_not_nad, decode_stream, inflate_catalogue, is_compressed, spec_decode, spec_inflate_catalogue, spec_is_compressed};
use crate::locate::{
    FORMAT_11_1, TAIL_SCAN, find_catalogue, lemma_find_not_nad, lemma_terminateur_not_nad, read_format_value, read_terminateur,
    spec_find_catalogue_within, spec_read_format_value, spec_read_terminateur,
};
use crate::audit::{audit_entries, spec_audit};
use crate::findings::{Anomaly, derived};
use crate::index::bytes_eq;
use crate::text::{decimal, push_str, push_u64};
use crate::wire::{
    DarError, Fault, corrupt, corrupt_str, eof_error, eof_fault, err_view, extension_like, hex_byte,
    lemma_not_extension_like, lemma_readers_plain, not_nad,
    push_hex_byte, read_infinint, read_u8, skip, skip_nul_string, spec_read_infinint,
    spec_read_u8, spec_skip, spec_skip_nul_string, value_of,
};

verus! {

/// Upper bound on the compressed catalogue bytes taken from the archive tail.
pub const MAX_CATALOGUE_COMPRESSED: u64 = 536870912;

// ── lossy text ──────────────────────────────────────────────────────────────

/// What `String::from_utf8_lossy` makes of a byte sequence.
pub uninterp spec fn utf8_lossy(bytes: Seq<u8>) -> Seq<char>;

/// Valid UTF-8 comes through lossy decoding unchanged.
pub open spec fn lossy_is_exact(bytes: Seq<u8>) -> bool {
    vstd::utf8::valid_utf8(bytes) ==> utf8_lossy(bytes) == vstd::utf8::decode_utf8(bytes)
}

/// The path, and a link target where there is one, decode exactly when valid.
pub open spec fn entry_text_exact(e: DarEntryModel) -> bool {
    &&& lossy_is_exact(e.path)
    &&& (e.symlink_target matches Some(t) ==> lossy_is_exact(t))
}

/// Decodes bytes as UTF-8, each invalid sequence becoming U+FFFD (std's
/// `String::from_utf8_lossy`, taken as an owned `String`). Trusted: the text
/// is the named function of the bytes, and valid UTF-8 decodes unchanged (as
/// std documents).
#[verifier::external_body]
pub(crate) fn lossy_string(bytes: &[u8]) -> (s: String)
    ensures
        s@ == utf8_lossy(bytes@),
        vstd::utf8::valid_utf8(bytes@) ==> s@ == vstd::utf8::decode_utf8(bytes@),
{
    String::from_utf8_lossy(bytes).into_owned()
}

// ── entries ─────────────────────────────────────────────────────────────────

/// Metadata about one archived filesystem object. Paths and link targets are
/// raw bytes: DAR does not guarantee UTF-8.
#[derive(Debug, Clone)]
pub struct DarEntry {
    /// Path as stored, raw bytes.
    pub path: Vec<u8>,
    /// What kind of filesystem object this entry describes.
    pub kind: EntryKind,
    /// Uncompressed size in bytes (0 for entries without data).
    pub size: u64,
    /// Owner user id.
    pub uid: u64,
    /// Owner group id.
    pub gid: u64,
    /// Permission bits.
    pub mode: u16,
    /// Access time, seconds since the Unix epoch.
    pub atime: i64,
    /// Modification time, seconds since the Unix epoch.
    pub mtime: i64,
    /// Status-change time; `None` before format 8.
    pub ctime: Option<i64>,
    /// Target of a symbolic link, raw bytes; `None` for other kinds.
    pub symlink_target: Option<Vec<u8>>,
}

/// The mathematical value of a [`DarEntry`].
pub struct DarEntryModel {
    pub path: Seq<u8>,
    pub kind: EntryKind,
    pub size: u64,
    pub uid: u64,
    pub gid: u64,
    pub mode: u16,
    pub atime: i64,
    pub mtime: i64,
    pub ctime: Option<i64>,
    pub symlink_target: Option<Seq<u8>>,
}

impl View for DarEntry {
    type V = DarEntryModel;

    open spec fn view(&self) -> DarEntryModel {
        DarEntryModel {
            path: self.path@,
            kind: self.kind,
            size: self.size,
            uid: self.uid,
            gid: self.gid,
            mode: self.mode,
            atime: self.atime,
            mtime: self.mtime,
            ctime: self.ctime,
            symlink_target: opt_bytes_view(self.symlink_target),
        }
    }
}

/// The public metadata of a catalogue entry.
pub open spec fn public_model(e: EntryModel) -> DarEntryModel {
    DarEntryModel {
        path: e.path,
        kind: e.kind,
        size: e.size,
        uid: e.uid,
        gid: e.gid,
        mode: e.mode,
        atime: e.atime,
        mtime: e.mtime,
        ctime: e.ctime,
        symlink_target: e.symlink_target,
    }
}

impl DarEntry {
    /// The path decoded as lossy UTF-8 (invalid sequences become U+FFFD).
    pub fn path_lossy(&self) -> (s: Cow<'_, str>)
        ensures
            s@ == utf8_lossy(self.path@),
            vstd::utf8::valid_utf8(self.path@) ==> s@ == vstd::utf8::decode_utf8(self.path@),
    {
        Cow::Owned(lossy_string(self.path.as_slice()))
    }
}

// ── the reader ──────────────────────────────────────────────────────────────

/// What an opened archive holds: where entry data is addressed from, the
/// format, whether the catalogue closed cleanly, and the entries.
pub struct ArchiveModel {
    pub origin: u64,
    pub format_major: u32,
    pub complete: bool,
    pub entries: Seq<EntryModel>,
}

/// The mathematical value of a [`DarReader`]: the archive bytes and what was
/// parsed from them.
pub struct ReaderModel {
    pub bytes: Seq<u8>,
    pub archive: ArchiveModel,
}

/// Read-only DAR archive reader over the archive's bytes.
pub struct DarReader {
    data: Vec<u8>,
    archive_origin: u64,
    format_major: u32,
    complete: bool,
    entries: Vec<EntryRef>,
}

impl View for DarReader {
    type V = ReaderModel;

    closed spec fn view(&self) -> ReaderModel {
        ReaderModel {
            bytes: self.data@,
            archive: ArchiveModel {
                origin: self.archive_origin,
                format_major: self.format_major,
                complete: self.complete,
                entries: entries_view(self.entries@),
            },
        }
    }
}

// ── header grammar ──────────────────────────────────────────────────────────

/// The DAR magic `00 00 00 7b` opens the data.
pub open spec fn magic_ok(d: Seq<u8>) -> bool {
    d.len() >= 4 && d[0] == 0 && d[1] == 0 && d[2] == 0 && d[3] == 0x7b
}

/// `count` TLV records, each a 2-byte type, an infinint length and that many
/// bytes, skipped.
pub open spec fn tlv_skip(d: Seq<u8>, p: int, count: nat) -> Result<((), int), Fault>
    decreases count,
{
    if count == 0 {
        Ok(((), p))
    } else {
        match spec_skip(p, 2) {
            Err(e) => Err(e),
            Ok((_, q)) => match spec_read_infinint(d, q) {
                Err(e) => Err(e),
                Ok((len, q2)) => match spec_skip(q2, len) {
                    Err(e) => Err(e),
                    Ok((_, q3)) => tlv_skip(d, q3, (count - 1) as nat),
                },
            },
        }
    }
}

/// The archive-wide codec letter after the version string; unreadable counts
/// as stored (`n`).
pub open spec fn global_codec(d: Seq<u8>, p: int) -> u8 {
    match spec_read_u8(d, p) {
        Ok((b, _)) => b,
        Err(_) => 0x6e,
    }
}

/// At most `max` bytes from `p` on (none when `p` is past the end).
pub open spec fn tail_bytes(d: Seq<u8>, p: int, max: u64) -> Seq<u8> {
    if p < 0 || p >= d.len() {
        Seq::empty()
    } else if d.len() - p > max {
        d.subrange(p, p + max)
    } else {
        d.subrange(p, d.len() as int)
    }
}

/// From format 11.1 the catalogue label is followed by the in-place path
/// string, skipped here.
pub open spec fn spec_skip_inplace_path(d: Seq<u8>, p: int, format_value: u32) -> Result<((), int), Fault> {
    if format_value >= FORMAT_11_1 {
        spec_skip_nul_string(d, p)
    } else {
        Ok(((), p))
    }
}

/// The 10-byte in-catalogue label and, from format 11.1, the in-place path
/// string, skipped.
pub open spec fn spec_skip_catalog_label(d: Seq<u8>, p: int, format_value: u32) -> Result<((), int), Fault> {
    match spec_skip(p, 10) {
        Err(e) => Err(e),
        Ok((_, q)) => spec_skip_inplace_path(d, q, format_value),
    }
}

/// A catalogue located by its label, which the scan consumed: the in-place
/// path (format 11.1 on), then the entries.
pub open spec fn catalog_after_path(d: Seq<u8>, p: int, format_value: u32, global_comp: u8) -> Result<
    (Seq<EntryModel>, bool),
    Fault,
> {
    match spec_skip_inplace_path(d, p, format_value) {
        Err(e) => Err(e),
        Ok((_, q)) => spec_parse_catalog(d, q, format_value / 256, global_comp),
    }
}

/// A catalogue that starts with the in-catalogue label (and in-place path).
pub open spec fn catalog_after_label(d: Seq<u8>, p: int, format_value: u32, global_comp: u8) -> Result<
    (Seq<EntryModel>, bool),
    Fault,
> {
    match spec_skip_catalog_label(d, p, format_value) {
        Err(e) => Err(e),
        Ok((_, q)) => spec_parse_catalog(d, q, format_value / 256, global_comp),
    }
}

pub open spec fn with_catalog(origin: int, format_major: u32, c: Result<(Seq<EntryModel>, bool), Fault>) -> Result<
    ArchiveModel,
    Fault,
> {
    match c {
        Err(e) => Err(e),
        Ok((entries, complete)) => Ok(
            ArchiveModel { origin: origin as u64, format_major, complete, entries },
        ),
    }
}

pub open spec fn truncated_tlv_msg() -> Seq<char> {
    "truncated TLV block"@
}

/// Format 8 on: a TLV list, then the catalogue found by its escape or label.
pub open spec fn spec_open_tlv(d: Seq<u8>) -> Result<ArchiveModel, Fault> {
    let label = d.subrange(4, 14);
    match spec_read_infinint(d, 16) {
        Err(Fault::Io(_)) => Err(Fault::Corrupt(truncated_tlv_msg())),
        Err(e) => Err(e),
        Ok((count, p)) => match tlv_skip(d, p, count as nat) {
            Err(e) => Err(e),
            Ok((_, origin)) => {
                let (fv, p1) = spec_read_format_value(d, origin);
                let gc = global_codec(d, p1);
                let fmt = fv / 256;
                match spec_find_catalogue_within(d, origin, label, TAIL_SCAN) {
                    Err(e) => Err(e),
                    Ok((via_escape, pc)) => with_catalog(
                        origin,
                        fmt,
                        if via_escape && spec_is_compressed(gc) {
                            match spec_inflate_catalogue(tail_bytes(d, pc, MAX_CATALOGUE_COMPRESSED), gc) {
                                Err(e) => Err(e),
                                Ok(inflated) => catalog_after_label(inflated, 0, fv, gc),
                            }
                        } else if via_escape {
                            catalog_after_label(d, pc, fv, gc)
                        } else {
                            catalog_after_path(d, pc, fv, gc)
                        },
                    ),
                }
            },
        },
    }
}

pub open spec fn offset_overflow_msg() -> Seq<char> {
    "catalogue offset overflows"@
}

pub open spec fn past_end_msg(start: nat, end: nat) -> Seq<char> {
    "catalogue start "@ + decimal(start) + " past archive end "@ + decimal(end)
}

/// Formats up to 7: no TLV list (`S` adds a slice size); the catalogue is found
/// through the end trailer.
pub open spec fn spec_open_legacy(d: Seq<u8>, ext: u8) -> Result<ArchiveModel, Fault> {
    let o = if ext == 0x53 {
        value_of(spec_read_infinint(d, 16))
    } else {
        Ok(0u64)
    };
    match o {
        Err(e) => Err(e),
        Ok(_) => {
            let origin: int = if ext == 0x53 {
                spec_read_infinint(d, 16)->Ok_0.1
            } else {
                16
            };
            let (fv, p1) = spec_read_format_value(d, origin);
            let gc = global_codec(d, p1);
            let fmt = fv / 256;
            match spec_read_terminateur(d) {
                Err(e) => Err(e),
                Ok(off) => if origin + off > u64::MAX {
                    Err(Fault::Corrupt(offset_overflow_msg()))
                } else if origin + off >= d.len() {
                    Err(Fault::Corrupt(past_end_msg((origin + off) as nat, d.len())))
                } else {
                    let cat_start = origin + off;
                    with_catalog(
                        origin,
                        fmt,
                        if spec_is_compressed(gc) {
                            match spec_inflate_catalogue(tail_bytes(d, cat_start, MAX_CATALOGUE_COMPRESSED), gc) {
                                Err(e) => Err(e),
                                Ok(inflated) => spec_parse_catalog(inflated, 0, fmt, gc),
                            }
                        } else {
                            spec_parse_catalog(d, cat_start, fmt, gc)
                        },
                    )
                },
            }
        },
    }
}

pub open spec fn unknown_extension_msg(ext: u8) -> Seq<char> {
    "unknown slice-header extension "@ + hex_byte(ext)
}

/// Opening an archive: the magic, the 10-byte label, a flag byte, and the
/// header extension letter that selects the layout (`T` for format 8 on, `N`
/// or `S` for the older ones).
pub open spec fn spec_open(d: Seq<u8>) -> Result<ArchiveModel, Fault> {
    if !magic_ok(d) {
        Err(Fault::NotADar)
    } else if d.len() < 16 {
        Err(eof_fault())
    } else {
        let ext = d[15];
        if ext == 0x54 {
            spec_open_tlv(d)
        } else if ext == 0x4e || ext == 0x53 {
            spec_open_legacy(d, ext)
        } else {
            Err(Fault::Corrupt(unknown_extension_msg(ext)))
        }
    }
}

// ── extraction grammar ──────────────────────────────────────────────────────

/// The first catalogue entry with exactly this path.
pub open spec fn find_entry(es: Seq<EntryModel>, path: Seq<u8>) -> Option<int>
    decreases es.len(),
{
    if es.len() == 0 {
        None
    } else if es[0].path == path {
        Some(0)
    } else {
        match find_entry(es.drop_first(), path) {
            Some(i) => Some(i + 1),
            None => None,
        }
    }
}

pub open spec fn quoted(name: Seq<char>) -> Seq<char> {
    seq!['\''] + name + seq!['\'']
}

pub open spec fn encrypted_msg(name: Seq<char>) -> Seq<char> {
    quoted(name) + " is encrypted"@
}

pub open spec fn offset_overflows_msg(name: Seq<char>) -> Seq<char> {
    quoted(name) + " archive offset overflows file position"@
}

pub open spec fn starts_past_end_msg(name: Seq<char>, start: nat, end: nat) -> Seq<char> {
    quoted(name) + " starts at "@ + decimal(start) + ", past archive end "@ + decimal(end)
}

pub open spec fn claims_msg(name: Seq<char>, stored: nat, available: nat) -> Seq<char> {
    quoted(name) + " claims "@ + decimal(stored) + " stored bytes but only "@ + decimal(available)
        + " remain"@
}

pub open spec fn size_mismatch_msg(name: Seq<char>, got: nat, declared: nat) -> Seq<char> {
    quoted(name) + " decompressed to "@ + decimal(got) + " bytes but catalog declares "@ + decimal(
        declared,
    )
}

/// The bytes of the entry `e` of an archive: encrypted data is refused;
/// stored data is the `stored_size` bytes at `origin + archive_offset`;
/// compressed data is decoded (format 1: from that offset to the codec
/// stream's end) and must come to exactly `size` bytes.
pub open spec fn spec_entry_data(d: Seq<u8>, a: ArchiveModel, e: EntryModel, name: Seq<char>) -> Result<
    Seq<u8>,
    Fault,
> {
    if e.encrypted {
        Err(Fault::Corrupt(encrypted_msg(name)))
    } else if a.origin + e.archive_offset > u64::MAX {
        Err(Fault::Corrupt(offset_overflows_msg(name)))
    } else {
        let start = a.origin + e.archive_offset;
        if start > d.len() {
            Err(Fault::Corrupt(starts_past_end_msg(name, start as nat, d.len())))
        } else {
            let available = d.len() - start;
            if !spec_is_compressed(e.compression) {
                if e.stored_size > available {
                    Err(Fault::Corrupt(claims_msg(name, e.stored_size as nat, available as nat)))
                } else {
                    Ok(d.subrange(start, start + e.stored_size))
                }
            } else if a.format_major != 1 && e.stored_size > available {
                Err(Fault::Corrupt(claims_msg(name, e.stored_size as nat, available as nat)))
            } else {
                let input = if a.format_major == 1 {
                    d.subrange(start, d.len() as int)
                } else {
                    d.subrange(start, start + e.stored_size)
                };
                match spec_decode(input, e.compression, e.size) {
                    Err(err) => Err(err),
                    Ok(out) => if out.len() != e.size {
                        Err(Fault::Corrupt(size_mismatch_msg(name, out.len(), e.size as nat)))
                    } else {
                        Ok(out)
                    },
                }
            }
        }
    }
}

/// Extracting by path: the first entry with that path, else `EntryNotFound`.
pub open spec fn spec_extract(r: ReaderModel, path: Seq<u8>) -> Result<Seq<u8>, Fault> {
    match find_entry(r.archive.entries, path) {
        None => Err(Fault::EntryNotFound(utf8_lossy(path))),
        Some(i) => spec_entry_data(r.bytes, r.archive, r.archive.entries[i], utf8_lossy(path)),
    }
}

// ── exec ────────────────────────────────────────────────────────────────────

fn tail_vec(data: &[u8], p: u64, max: u64) -> (v: Vec<u8>)
    ensures
        v@ == tail_bytes(data@, p as int, max),
{
    let len = data.len() as u64;
    if p >= len {
        Vec::new()
    } else {
        let end = if len - p > max {
            p + max
        } else {
            len
        };
        slice_to_vec(&data[p as usize..end as usize])
    }
}

fn skip_catalog_label(data: &[u8], pos: &mut u64, format_value: u32) -> (r: Result<(), DarError>)
    ensures
        match r {
            Ok(_) => spec_skip_catalog_label(data@, *old(pos) as int, format_value) == Ok::<((), int), Fault>(((), *final(pos) as int)),
            Err(e) => spec_skip_catalog_label(data@, *old(pos) as int, format_value) == Err::<((), int), Fault>(e@),
        },
{
    skip(pos, 10)?;
    if format_value >= FORMAT_11_1 {
        skip_nul_string(data, pos)?;
    }
    Ok(())
}

fn catalog_after_path_exec(data: &[u8], p: u64, format_value: u32, global_comp: u8) -> (r: Result<(Vec<EntryRef>, bool), DarError>)
    ensures
        match r {
            Ok((es, done)) => catalog_after_path(data@, p as int, format_value, global_comp)
                == Ok::<(Seq<EntryModel>, bool), Fault>((entries_view(es@), done)),
            Err(e) => catalog_after_path(data@, p as int, format_value, global_comp)
                == Err::<(Seq<EntryModel>, bool), Fault>(e@),
        },
{
    let mut pos = p;
    if format_value >= FORMAT_11_1 {
        skip_nul_string(data, &mut pos)?;
    }
    parse_catalog(data, &mut pos, format_value / 256, global_comp)
}

fn catalog_after_label_exec(data: &[u8], p: u64, format_value: u32, global_comp: u8) -> (r: Result<(Vec<EntryRef>, bool), DarError>)
    ensures
        match r {
            Ok((es, done)) => catalog_after_label(data@, p as int, format_value, global_comp)
                == Ok::<(Seq<EntryModel>, bool), Fault>((entries_view(es@), done)),
            Err(e) => catalog_after_label(data@, p as int, format_value, global_comp)
                == Err::<(Seq<EntryModel>, bool), Fault>(e@),
        },
{
    let mut pos = p;
    skip_catalog_label(data, &mut pos, format_value)?;
    parse_catalog(data, &mut pos, format_value / 256, global_comp)
}

fn tlv_skip_exec(data: &[u8], pos: &mut u64, count: u64) -> (r: Result<(), DarError>)
    ensures
        match r {
            Ok(_) => tlv_skip(data@, *old(pos) as int, count as nat) == Ok::<((), int), Fault>(((), *final(pos) as int)),
            Err(e) => tlv_skip(data@, *old(pos) as int, count as nat) == Err::<((), int), Fault>(e@),
        },
{
    let ghost p0 = *old(pos) as int;
    let mut i: u64 = 0;
    while i < count
        invariant
            p0 == *old(pos) as int,
            i <= count,
            tlv_skip(data@, p0, count as nat) == tlv_skip(data@, *pos as int, (count - i) as nat),
        decreases count - i,
    {
        skip(pos, 2)?;
        let len = read_infinint(data, pos)?;
        skip(pos, len)?;
        i = i + 1;
    }
    Ok(())
}

fn global_codec_exec(data: &[u8], p: u64) -> (b: u8)
    ensures
        b == global_codec(data@, p as int),
{
    let mut q = p;
    match read_u8(data, &mut q) {
        Ok(b) => b,
        Err(_) => 0x6e,
    }
}

impl DarReader {
    fn open_tlv(data: Vec<u8>) -> (r: Result<DarReader, DarError>)
        requires
            data@.len() >= 16,
        ensures
            match r {
                Ok(rd) => spec_open_tlv(data@) == Ok::<ArchiveModel, Fault>(rd@.archive) && rd@.bytes == data@,
                Err(e) => spec_open_tlv(data@) == Err::<ArchiveModel, Fault>(e@),
            },
    {
        let ghost d = data@;
        let mut pos: u64 = 16;
        let count = match read_infinint(data.as_slice(), &mut pos) {
            Ok(c) => c,
            Err(DarError::Io(_)) => {
                return Err(corrupt_str("truncated TLV block"));
            },
            Err(e) => {
                return Err(e);
            },
        };
        tlv_skip_exec(data.as_slice(), &mut pos, count)?;
        let origin = pos;
        let format_value = read_format_value(data.as_slice(), &mut pos);
        let global_comp = global_codec_exec(data.as_slice(), pos);
        let format_major = format_value / 256;
        let (via_escape, cat_pos) = find_catalogue(data.as_slice(), origin, &data.as_slice()[4..14])?;
        assert(data@.subrange(4, 14) == d.subrange(4, 14));
        let (entries, complete) = if via_escape && is_compressed(global_comp) {
            let compressed = tail_vec(data.as_slice(), cat_pos, MAX_CATALOGUE_COMPRESSED);
            let inflated = inflate_catalogue(compressed.as_slice(), global_comp)?;
            catalog_after_label_exec(inflated.as_slice(), 0, format_value, global_comp)?
        } else if via_escape {
            catalog_after_label_exec(data.as_slice(), cat_pos, format_value, global_comp)?
        } else {
            catalog_after_path_exec(data.as_slice(), cat_pos, format_value, global_comp)?
        };
        Ok(DarReader { data, archive_origin: origin, format_major, complete, entries })
    }

    fn open_legacy(data: Vec<u8>, ext: u8) -> (r: Result<DarReader, DarError>)
        requires
            data@.len() >= 16,
        ensures
            match r {
                Ok(rd) => spec_open_legacy(data@, ext) == Ok::<ArchiveModel, Fault>(rd@.archive) && rd@.bytes == data@,
                Err(e) => spec_open_legacy(data@, ext) == Err::<ArchiveModel, Fault>(e@),
            },
    {
        let mut pos: u64 = 16;
        if ext == 0x53 {
            read_infinint(data.as_slice(), &mut pos)?;
        }
        let origin = pos;
        let format_value = read_format_value(data.as_slice(), &mut pos);
        let global_comp = global_codec_exec(data.as_slice(), pos);
        let format_major = format_value / 256;
        let cat_offset = read_terminateur(data.as_slice())?;
        if origin > u64::MAX - cat_offset {
            return Err(corrupt_str("catalogue offset overflows"));
        }
        let cat_start = origin + cat_offset;
        let end = data.len() as u64;
        if cat_start >= end {
            let mut m: Vec<char> = Vec::new();
            push_str(&mut m, "catalogue start ");
            push_u64(&mut m, cat_start);
            push_str(&mut m, " past archive end ");
            push_u64(&mut m, end);
            assert(m@ =~= past_end_msg(cat_start as nat, end as nat));
            return Err(corrupt(&m));
        }
        let (entries, complete) = if is_compressed(global_comp) {
            let compressed = tail_vec(data.as_slice(), cat_start, MAX_CATALOGUE_COMPRESSED);
            let inflated = inflate_catalogue(compressed.as_slice(), global_comp)?;
            let mut p: u64 = 0;
            parse_catalog(inflated.as_slice(), &mut p, format_major, global_comp)?
        } else {
            let mut p = cat_start;
            parse_catalog(data.as_slice(), &mut p, format_major, global_comp)?
        };
        Ok(DarReader { data, archive_origin: origin, format_major, complete, entries })
    }

    /// Open a DAR archive held in `data`: check the magic, read the slice
    /// header, locate and parse the catalogue.
    pub fn open(data: Vec<u8>) -> (r: Result<DarReader, DarError>)
        ensures
            match r {
                Ok(rd) => spec_open(data@) == Ok::<ArchiveModel, Fault>(rd@.archive) && rd@.bytes == data@
                    && rd@.bytes.len() <= u64::MAX,
                Err(e) => spec_open(data@) == Err::<ArchiveModel, Fault>(e@),
            },
    {
        if data.len() < 4 || data[0] != 0 || data[1] != 0 || data[2] != 0 || data[3] != 0x7b {
            return Err(DarError::NotADar);
        }
        if data.len() < 16 {
            return Err(eof_error());
        }
        let ext = data[15];
        if ext == 0x54 {
            DarReader::open_tlv(data)
        } else if ext == 0x4e || ext == 0x53 {
            DarReader::open_legacy(data, ext)
        } else {
            let mut m: Vec<char> = Vec::new();
            push_str(&mut m, "unknown slice-header extension ");
            push_hex_byte(&mut m, ext);
            Err(corrupt(&m))
        }
    }
}

proof fn lemma_find_entry_at(es: Seq<EntryModel>, path: Seq<u8>, i: int)
    requires
        0 <= i < es.len(),
        es[i].path == path,
        forall|j: int| 0 <= j < i ==> es[j].path != path,
    ensures
        find_entry(es, path) == Some(i),
    decreases es.len(),
{
    if i > 0 {
        let rest = es.drop_first();
        assert forall|j: int| 0 <= j < i - 1 implies rest[j].path != path by {
            assert(rest[j] == es[j + 1]);
        }
        lemma_find_entry_at(rest, path, i - 1);
    }
}

proof fn lemma_find_entry_none(es: Seq<EntryModel>, path: Seq<u8>)
    requires
        forall|j: int| 0 <= j < es.len() ==> es[j].path != path,
    ensures
        find_entry(es, path) is None,
    decreases es.len(),
{
    if es.len() > 0 {
        let rest = es.drop_first();
        assert forall|j: int| 0 <= j < rest.len() implies rest[j].path != path by {
            assert(rest[j] == es[j + 1]);
        }
        lemma_find_entry_none(rest, path);
    }
}

fn quote_name(m: &mut Vec<char>, name: &String)
    ensures
        final(m)@ == old(m)@ + quoted(name@),
{
    m.push('\'');
    push_str(m, name.as_str());
    m.push('\'');
    assert(final(m)@ =~= old(m)@ + quoted(name@));
}

fn claims_error(name: &String, stored: u64, available: u64) -> (e: DarError)
    ensures
        e@ == Fault::Corrupt(claims_msg(name@, stored as nat, available as nat)),
{
    let mut m: Vec<char> = Vec::new();
    quote_name(&mut m, name);
    push_str(&mut m, " claims ");
    push_u64(&mut m, stored);
    push_str(&mut m, " stored bytes but only ");
    push_u64(&mut m, available);
    push_str(&mut m, " remain");
    assert(m@ =~= claims_msg(name@, stored as nat, available as nat));
    corrupt(&m)
}

impl DarReader {
    /// Every catalogue entry, in catalogue order.
    pub fn entries(&self) -> (v: Vec<DarEntry>)
        ensures
            v@.len() == self@.archive.entries.len(),
            forall|i: int| 0 <= i < v@.len() ==> #[trigger] v@[i]@ == public_model(self@.archive.entries[i]),
            forall|i: int| 0 <= i < v@.len() ==> {
                let e = self@.archive.entries[i];
                let x = (#[trigger] v@[i])@;
                &&& x.path == e.path && x.kind == e.kind && x.size == e.size
                &&& x.uid == e.uid && x.gid == e.gid && x.mode == e.mode
                &&& x.atime == e.atime && x.mtime == e.mtime && x.ctime == e.ctime
                &&& x.symlink_target == e.symlink_target
            },
    {
        let mut out: Vec<DarEntry> = Vec::new();
        let mut i: usize = 0;
        while i < self.entries.len()
            invariant
                i <= self.entries@.len(),
                self@.archive.entries == entries_view(self.entries@),
                out@.len() == i,
                forall|j: int| 0 <= j < i ==> #[trigger] out@[j]@ == public_model(self@.archive.entries[j]),
            decreases self.entries.len() - i,
        {
            let e = &self.entries[i];
            let target = match &e.symlink_target {
                Some(t) => Some(slice_to_vec(t.as_slice())),
                None => None,
            };
            let d = DarEntry {
                path: slice_to_vec(e.path.as_slice()),
                kind: e.kind,
                size: e.size,
                uid: e.uid,
                gid: e.gid,
                mode: e.mode,
                atime: e.atime,
                mtime: e.mtime,
                ctime: e.ctime,
                symlink_target: target,
            };
            assert(d@ == public_model(e@));
            out.push(d);
            i = i + 1;
        }
        out
    }

    /// Whether the catalogue was parsed to the end of its root directory;
    /// `false` means the listing may be incomplete.
    pub fn is_complete(&self) -> (b: bool)
        ensures
            b == self@.archive.complete,
    {
        self.complete
    }

    /// Number of catalogue entries.
    pub fn entry_count(&self) -> (n: usize)
        ensures
            n == self@.archive.entries.len(),
    {
        self.entries.len()
    }

    fn entry_data(&self, i: usize, name: &String) -> (r: Result<Vec<u8>, DarError>)
        requires
            i < self@.archive.entries.len(),
        ensures
            match r {
                Ok(v) => spec_entry_data(self@.bytes, self@.archive, self@.archive.entries[i as int], name@) == Ok::<Seq<u8>, Fault>(v@),
                Err(e) => spec_entry_data(self@.bytes, self@.archive, self@.archive.entries[i as int], name@) == Err::<Seq<u8>, Fault>(e@),
            },
    {
        let e = &self.entries[i];
        assert(self@.archive.entries[i as int] == e@);
        if e.encrypted {
            let mut m: Vec<char> = Vec::new();
            quote_name(&mut m, name);
            push_str(&mut m, " is encrypted");
            return Err(corrupt(&m));
        }
        if self.archive_origin > u64::MAX - e.archive_offset {
            let mut m: Vec<char> = Vec::new();
            quote_name(&mut m, name);
            push_str(&mut m, " archive offset overflows file position");
            return Err(corrupt(&m));
        }
        let start = self.archive_origin + e.archive_offset;
        let end = self.data.len() as u64;
        if start > end {
            let mut m: Vec<char> = Vec::new();
            quote_name(&mut m, name);
            push_str(&mut m, " starts at ");
            push_u64(&mut m, start);
            push_str(&mut m, ", past archive end ");
            push_u64(&mut m, end);
            assert(m@ =~= starts_past_end_msg(name@, start as nat, end as nat));
            return Err(corrupt(&m));
        }
        let available = end - start;
        if !is_compressed(e.compression) {
            if e.stored_size > available {
                return Err(claims_error(name, e.stored_size, available));
            }
            let s = start as usize;
            let t = (start + e.stored_size) as usize;
            return Ok(slice_to_vec(&self.data.as_slice()[s..t]));
        }
        if self.format_major != 1 && e.stored_size > available {
            return Err(claims_error(name, e.stored_size, available));
        }
        let s = start as usize;
        let t = if self.format_major == 1 {
            end as usize
        } else {
            (start + e.stored_size) as usize
        };
        let out = decode_stream(&self.data.as_slice()[s..t], e.compression, e.size)?;
        if out.len() as u64 != e.size {
            let mut m: Vec<char> = Vec::new();
            quote_name(&mut m, name);
            push_str(&mut m, " decompressed to ");
            push_u64(&mut m, out.len() as u64);
            push_str(&mut m, " bytes but catalog declares ");
            push_u64(&mut m, e.size);
            assert(m@ =~= size_mismatch_msg(name@, out@.len(), e.size as nat));
            return Err(corrupt(&m));
        }
        Ok(out)
    }

    /// Extract the entry with this path, returning its (decompressed) bytes.
    pub fn extract(&self, path: &[u8]) -> (r: Result<Vec<u8>, DarError>)
        ensures
            match r {
                Ok(v) => spec_extract(self@, path@) == Ok::<Seq<u8>, Fault>(v@),
                Err(e) => spec_extract(self@, path@) == Err::<Seq<u8>, Fault>(e@),
            },
            lossy_is_exact(path@),
    {
        let name = lossy_string(path);
        let mut i: usize = 0;
        while i < self.entries.len()
            invariant
                i <= self.entries@.len(),
                name@ == utf8_lossy(path@),
                lossy_is_exact(path@),
                self@.archive.entries == entries_view(self.entries@),
                forall|j: int| 0 <= j < i ==> self@.archive.entries[j].path != path@,
            decreases self.entries.len() - i,
        {
            if bytes_eq(self.entries[i].path.as_slice(), path) {
                proof {
                    lemma_find_entry_at(self@.archive.entries, path@, i as int);
                }
                return self.entry_data(i, &name);
            }
            i = i + 1;
        }
        proof {
            lemma_find_entry_none(self@.archive.entries, path@);
        }
        Err(DarError::EntryNotFound(name))
    }
}

impl DarReader {
    /// Audit the catalogue for forensic anomalies, most severe first; within
    /// one severity the catalogue order is kept.
    pub fn audit(&self) -> (out: Vec<Anomaly>)
        ensures
            out@.len() == spec_audit(self@.archive.entries, self@.archive.complete).len(),
            forall|i: int| 0 <= i < out@.len() ==> {
                &&& (#[trigger] out@[i]).kind@ == spec_audit(self@.archive.entries, self@.archive.complete)[i]
                &&& derived(out@[i])
            },
    {
        audit_entries(self.entries.as_slice(), self.complete)
    }
}

/// What an extraction returns is what the catalogue declares: an encrypted
/// entry is never handed out; a stored entry gives exactly its stored bytes,
/// which lie inside the archive; a compressed entry gives exactly its declared
/// size, however far its stream would inflate.
pub proof fn extraction_matches_catalogue(r: ReaderModel, path: Seq<u8>, i: int)
    requires
        find_entry(r.archive.entries, path) == Some(i),
        spec_extract(r, path) is Ok,
    ensures
        !r.archive.entries[i].encrypted,
        ({
            let e = r.archive.entries[i];
            let v = spec_extract(r, path)->Ok_0;
            let start = r.archive.origin + e.archive_offset;
            &&& !spec_is_compressed(e.compression) ==> start + e.stored_size <= r.bytes.len() && v
                == r.bytes.subrange(start, start + e.stored_size)
            &&& spec_is_compressed(e.compression) ==> v.len() == e.size
        }),
{
}


/// A stored entry extracts byte for byte: an entry that is neither encrypted
/// nor compressed, whose stored bytes lie inside the archive, gives exactly
/// those bytes.
pub proof fn stored_entry_extracts_exactly(r: ReaderModel, path: Seq<u8>, i: int)
    requires
        r.bytes.len() <= u64::MAX,
        find_entry(r.archive.entries, path) == Some(i),
        !r.archive.entries[i].encrypted,
        !spec_is_compressed(r.archive.entries[i].compression),
        r.archive.origin + r.archive.entries[i].archive_offset + r.archive.entries[i].stored_size
            <= r.bytes.len(),
    ensures
        ({
            let e = r.archive.entries[i];
            let start = r.archive.origin + e.archive_offset;
            spec_extract(r, path) == Ok::<Seq<u8>, Fault>(r.bytes.subrange(start, start + e.stored_size))
        }),
{
}

/// An encrypted entry is never extracted: its path gives the error that names
/// it as encrypted.
pub proof fn encrypted_entry_is_refused(r: ReaderModel, path: Seq<u8>, i: int)
    requires
        find_entry(r.archive.entries, path) == Some(i),
        r.archive.entries[i].encrypted,
    ensures
        spec_extract(r, path) == Err::<Seq<u8>, Fault>(Fault::Corrupt(encrypted_msg(utf8_lossy(path)))),
{
}

proof fn lemma_tlv_skip_not_nad(d: Seq<u8>, p: int, count: nat)
    ensures
        not_nad(tlv_skip(d, p, count)),
    decreases count,
{
    lemma_readers_plain();
    if count > 0 {
        match spec_skip(p, 2) {
            Ok((_, q)) => match spec_read_infinint(d, q) {
                Ok((len, q2)) => match spec_skip(q2, len) {
                    Ok((_, q3)) => lemma_tlv_skip_not_nad(d, q3, (count - 1) as nat),
                    _ => {},
                },
                _ => {},
            },
            _ => {},
        }
    }
}

proof fn lemma_catalog_not_nad(d: Seq<u8>, p: int, format_major: u32, global_comp: u8)
    ensures
        not_nad(spec_parse_catalog(d, p, format_major, global_comp)),
{
    lemma_walk_not_nad(
        d,
        p,
        format_major,
        global_comp,
        WalkState { entries: Seq::empty(), stack: Seq::empty(), depth: 0 },
    );
}

proof fn lemma_reader_msgs_plain(start: nat, end: nat)
    ensures
        !extension_like(truncated_tlv_msg()),
        !extension_like(offset_overflow_msg()),
        !extension_like(past_end_msg(start, end)),
{
    reveal_strlit("truncated TLV block");
    reveal_strlit("catalogue offset overflows");
    reveal_strlit("catalogue start ");
    lemma_not_extension_like("truncated TLV block"@, Seq::empty());
    lemma_not_extension_like("catalogue offset overflows"@, Seq::empty());
    lemma_not_extension_like("catalogue start "@, decimal(start) + " past archive end "@ + decimal(end));
    assert(past_end_msg(start, end) =~= "catalogue start "@ + (decimal(start) + " past archive end "@ + decimal(end)));
}

/// Past the header, neither layout fails with a slice-header refusal.
proof fn lemma_layouts_plain(d: Seq<u8>)
    requires
        magic_ok(d),
        d.len() >= 16,
    ensures
        d[15] == 0x54 ==> not_nad(spec_open_tlv(d)),
        (d[15] == 0x4e || d[15] == 0x53) ==> not_nad(spec_open_legacy(d, d[15])),
{
    lemma_readers_plain();
    lemma_reader_msgs_plain(0, 0);
    {
        if d[15] == 0x54 {
            let label = d.subrange(4, 14);
            match spec_read_infinint(d, 16) {
                Ok((count, p)) => {
                    lemma_tlv_skip_not_nad(d, p, count as nat);
                    match tlv_skip(d, p, count as nat) {
                        Ok((_, origin)) => {
                            let (fv, p1) = spec_read_format_value(d, origin);
                            let gc = global_codec(d, p1);
                            lemma_find_not_nad(d, origin, label, TAIL_SCAN);
                            match spec_find_catalogue_within(d, origin, label, TAIL_SCAN) {
                                Ok((via_escape, pc)) => {
                                    lemma_decode_not_nad(tail_bytes(d, pc, MAX_CATALOGUE_COMPRESSED), gc, MAX_CATALOGUE_INFLATED);
                                    match spec_inflate_catalogue(tail_bytes(d, pc, MAX_CATALOGUE_COMPRESSED), gc) {
                                        Ok(inflated) => match spec_skip_catalog_label(inflated, 0, fv) {
                                            Ok((_, q)) => lemma_catalog_not_nad(inflated, q, fv / 256, gc),
                                            _ => {},
                                        },
                                        _ => {},
                                    }
                                    match spec_skip_catalog_label(d, pc, fv) {
                                        Ok((_, q)) => lemma_catalog_not_nad(d, q, fv / 256, gc),
                                        _ => {},
                                    }
                                    match spec_skip_inplace_path(d, pc, fv) {
                                        Ok((_, q)) => lemma_catalog_not_nad(d, q, fv / 256, gc),
                                        _ => {},
                                    }
                                },
                                _ => {},
                            }
                        },
                        _ => {},
                    }
                },
                _ => {},
            }
        } else if d[15] == 0x4e || d[15] == 0x53 {
            lemma_terminateur_not_nad(d);
            let origin: int = if d[15] == 0x53 {
                spec_read_infinint(d, 16)->Ok_0.1
            } else {
                16
            };
            let (fv, p1) = spec_read_format_value(d, origin);
            let gc = global_codec(d, p1);
            match spec_read_terminateur(d) {
                Ok(off) => {
                    let cat_start = origin + off;
                    lemma_reader_msgs_plain((origin + off) as nat, d.len());
                    lemma_decode_not_nad(tail_bytes(d, cat_start, MAX_CATALOGUE_COMPRESSED), gc, MAX_CATALOGUE_INFLATED);
                    match spec_inflate_catalogue(tail_bytes(d, cat_start, MAX_CATALOGUE_COMPRESSED), gc) {
                        Ok(inflated) => lemma_catalog_not_nad(inflated, 0, fv / 256, gc),
                        _ => {},
                    }
                    lemma_catalog_not_nad(d, cat_start, fv / 256, gc);
                },
                _ => {},
            }
        }
    }
}

/// Opening refuses the data as not DAR exactly when the four magic bytes
/// `00 00 00 7b` are missing; no later stage gives that answer.
pub proof fn not_a_dar_iff_no_magic(d: Seq<u8>)
    ensures
        (spec_open(d) == Err::<ArchiveModel, Fault>(Fault::NotADar)) <==> !magic_ok(d),
{
    if magic_ok(d) && d.len() >= 16 {
        lemma_layouts_plain(d);
    }
}

/// Past the magic and the 16 header bytes, the extension letter selects the
/// layout: `T` the TLV layout of format 8 on, `N` or `S` the older one; any
/// other letter is refused as an unknown extension, naming the byte.
pub proof fn extension_selects_layout(d: Seq<u8>)
    requires
        magic_ok(d),
        d.len() >= 16,
    ensures
        d[15] == 0x54 ==> spec_open(d) == spec_open_tlv(d),
        (d[15] == 0x4e || d[15] == 0x53) ==> spec_open(d) == spec_open_legacy(d, d[15]),
        (d[15] != 0x54 && d[15] != 0x4e && d[15] != 0x53) ==> spec_open(d) == Err::<ArchiveModel, Fault>(
            Fault::Corrupt(unknown_extension_msg(d[15])),
        ),
        (d[15] != 0x54 && d[15] != 0x4e && d[15] != 0x53) <==> (exists|x: u8|
            spec_open(d) == Err::<ArchiveModel, Fault>(Fault::Corrupt(#[trigger] unknown_extension_msg(x)))),
{
    reveal_strlit("unknown slice-header extension ");
    lemma_layouts_plain(d);
    assert forall|x: u8| extension_like(#[trigger] unknown_extension_msg(x)) by {
        reveal_strlit("unknown slice-header extension ");
        assert(unknown_extension_msg(x)[8] == 's');
    }
    if d[15] != 0x54 && d[15] != 0x4e && d[15] != 0x53 {
        assert(spec_open(d) == Err::<ArchiveModel, Fault>(Fault::Corrupt(unknown_extension_msg(d[15]))));
    }
}


/// Where the catalogue entries begin. Format values below 11.1 (`11 * 256 +
/// 1`: formats 8 to 10 and 11.0) have no in-place path, so the entries start
/// right after the 10-byte label, or right where a label match leaves the
/// scan; from 11.1 on, a NUL-terminated in-place path comes first and the
/// entries start after its NUL.
pub proof fn catalogue_entries_start_after_label(d: Seq<u8>, p: int, format_value: u32, global_comp: u8)
    requires
        0 <= p,
        p + 10 <= u64::MAX,
    ensures
        format_value < 11 * 256 + 1 ==> catalog_after_label(d, p, format_value, global_comp)
            == spec_parse_catalog(d, p + 10, format_value / 256, global_comp),
        format_value < 11 * 256 + 1 ==> catalog_after_path(d, p, format_value, global_comp)
            == spec_parse_catalog(d, p, format_value / 256, global_comp),
        format_value >= 11 * 256 + 1 ==> catalog_after_label(d, p, format_value, global_comp) == match crate::wire::spec_read_nul_bytes(
            d,
            p + 10,
        ) {
            Ok((_, q)) => spec_parse_catalog(d, q, format_value / 256, global_comp),
            Err(e) => Err(e),
        },
        format_value >= 11 * 256 + 1 ==> catalog_after_path(d, p, format_value, global_comp) == match crate::wire::spec_read_nul_bytes(
            d,
            p,
        ) {
            Ok((_, q)) => spec_parse_catalog(d, q, format_value / 256, global_comp),
            Err(e) => Err(e),
        },
{
}

} // verus!
