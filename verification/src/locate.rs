//! Finding the catalogue: the version string after the slice header, the
//! forward scan for the `seqt_catalogue` escape or the archive label, and the
//! end-of-archive trailer (`terminateur`) of pre-8 formats.

use vstd::prelude::*;

use crate::text::{push_str, decimal};
use crate::wire::{
    DarError, Fault, MAX_NUL_STRING, not_nad, lemma_not_extension_like, lemma_readers_plain, corrupt, corrupt_str, err_view, hex_byte, nul_read_end,
    push_hex_byte, read_infinint, read_nul_bytes, spec_read_infinint, spec_read_nul_bytes,
    value_of,
};

verus! {

/// `AD FD EA 77 21 43`: the escape sequence that marks the catalogue.
pub open spec fn seqt_catalogue() -> Seq<u8> {
    seq![0xADu8, 0xFD, 0xEA, 0x77, 0x21, 0x43]
}

/// Bytes read per scanning step.
pub const CHUNK: u64 = 4194304;

/// Bytes carried from one step to the next, so that a marker split across
/// two steps is still seen.
pub const OVERLAP: u64 = 9;

/// On archives larger than this, the scan first covers only this many bytes
/// before the end (the catalogue lives at the tail).
pub const TAIL_SCAN: u64 = 268435456;

/// First format value with an in-place path in the catalogue header (11.1).
pub const FORMAT_11_1: u32 = 2817;

// ── version string ──────────────────────────────────────────────────────────

pub open spec fn digit_value(b: u8) -> u32 {
    if b >= 48 {
        (b - 48) as u32
    } else {
        0
    }
}

/// `archive_version::value()` of a version string: each byte is a digit plus
/// 48, `major = b0 * 256 + b1`, `fix = b2` (0 when absent), and the value is
/// `major * 256 + fix`. A string shorter than two bytes gives `u32::MAX`, so
/// an unreadable version counts as the newest format.
pub open spec fn format_value_of(b: Seq<u8>) -> u32 {
    if b.len() >= 2 {
        let major = digit_value(b[0]) * 256 + digit_value(b[1]);
        let fix = if b.len() >= 3 {
            digit_value(b[2])
        } else {
            0
        };
        (major * 256 + fix) as u32
    } else {
        u32::MAX
    }
}

/// The version string at `p` read as a format value (a failed read counts as
/// an empty string), and the position after the read.
pub open spec fn spec_read_format_value(d: Seq<u8>, p: int) -> (u32, int) {
    let b = match spec_read_nul_bytes(d, p) {
        Ok((b, _)) => b,
        Err(_) => Seq::empty(),
    };
    (format_value_of(b), nul_read_end(d, p))
}

/// Read the NUL-terminated version string and compute the format value.
pub fn read_format_value(data: &[u8], pos: &mut u64) -> (v: u32)
    ensures
        (v, *final(pos) as int) == spec_read_format_value(data@, *old(pos) as int),
{
    let b = match read_nul_bytes(data, pos) {
        Ok(b) => b,
        Err(_) => Vec::new(),
    };
    proof {
        assert(b@ == (match spec_read_nul_bytes(data@, *old(pos) as int) {
            Ok((b, _)) => b,
            Err(_) => Seq::<u8>::empty(),
        }));
    }
    if b.len() >= 2 {
        let d0: u32 = if b[0] >= 48 { (b[0] - 48) as u32 } else { 0 };
        let d1: u32 = if b[1] >= 48 { (b[1] - 48) as u32 } else { 0 };
        let major: u32 = d0 * 256 + d1;
        let fix: u32 = if b.len() >= 3 {
            if b[2] >= 48 { (b[2] - 48) as u32 } else { 0 }
        } else {
            0
        };
        major * 256 + fix
    } else {
        u32::MAX
    }
}

// ── marker scan ─────────────────────────────────────────────────────────────

/// The first index `i >= from` with `pat` at `d[i..]`, the match lying wholly
/// before `end`.
pub open spec fn first_match(d: Seq<u8>, from: int, end: int, pat: Seq<u8>) -> Option<int>
    decreases end - from,
{
    if from < 0 || pat.len() == 0 || from + pat.len() > end || end > d.len() {
        None
    } else if d.subrange(from, from + pat.len()) == pat {
        Some(from)
    } else {
        first_match(d, from + 1, end, pat)
    }
}

/// Scanning forward from `pos`, `ov` bytes of the previous step carried over:
/// each step covers the carried bytes and the next `CHUNK` bytes; within a
/// step the escape wins over the label. The result is whether the escape (as
/// opposed to the label) was found, and the position just after the match.
pub open spec fn scan(d: Seq<u8>, pos: int, ov: int, label: Seq<u8>, use_label: bool) -> Option<(bool, int)>
    decreases d.len() - pos,
{
    if pos < 0 || pos >= d.len() {
        None
    } else {
        let n = if d.len() - pos < CHUNK {
            d.len() - pos
        } else {
            CHUNK as int
        };
        let ws = pos - ov;
        let we = pos + n;
        match first_match(d, ws, we, seqt_catalogue()) {
            Some(i) => Some((true, i + 6)),
            None => {
                let lm = if use_label {
                    first_match(d, ws, we, label)
                } else {
                    None
                };
                match lm {
                    Some(i) => Some((false, i + 10)),
                    None => scan(d, pos + n, if ov + n < OVERLAP { ov + n } else { OVERLAP as int }, label, use_label),
                }
            },
        }
    }
}

fn match_at(data: &[u8], i: usize, pat: &[u8]) -> (b: bool)
    requires
        i + pat@.len() <= data@.len(),
    ensures
        b == (data@.subrange(i as int, i + pat@.len()) == pat@),
{
    let dl = data.len();
    let mut k: usize = 0;
    while k < pat.len()
        invariant
            dl == data@.len(),
            i + pat@.len() <= data@.len(),
            k <= pat@.len(),
            forall|j: int| 0 <= j < k ==> data@[i + j] == pat@[j],
        decreases pat.len() - k,
    {
        if data[i + k] != pat[k] {
            assert(data@.subrange(i as int, i + pat@.len())[k as int] != pat@[k as int]);
            return false;
        }
        k = k + 1;
    }
    assert(data@.subrange(i as int, i + pat@.len()) =~= pat@);
    true
}

fn find_first(data: &[u8], from: usize, end: usize, pat: &[u8]) -> (r: Option<usize>)
    requires
        end <= data@.len(),
        pat@.len() > 0,
    ensures
        r matches Some(i) ==> i + pat@.len() <= end,
        match r {
            Some(i) => first_match(data@, from as int, end as int, pat@) == Some(i as int),
            None => first_match(data@, from as int, end as int, pat@) is None,
        },
{
    let mut i = from;
    while i <= end && end - i >= pat.len()
        invariant
            end <= data@.len(),
            pat@.len() > 0,
            from <= i,
            first_match(data@, from as int, end as int, pat@) == first_match(data@, i as int, end as int, pat@),
        decreases end - i,
    {
        if match_at(data, i, pat) {
            return Some(i);
        }
        i = i + 1;
    }
    None
}

fn escape_bytes() -> (v: Vec<u8>)
    ensures
        v@ == seqt_catalogue(),
{
    let v: Vec<u8> = vec![0xADu8, 0xFD, 0xEA, 0x77, 0x21, 0x43];
    assert(v@ =~= seqt_catalogue());
    v
}

/// Scan forward from `start` for the escape or (when `use_label`) the label.
pub fn scan_window(data: &[u8], start: u64, label: &[u8], use_label: bool) -> (r: Option<(bool, u64)>)
    requires
        label@.len() == 10,
    ensures
        match r {
            Some((e, q)) => scan(data@, start as int, 0, label@, use_label) == Some((e, q as int)),
            None => scan(data@, start as int, 0, label@, use_label) is None,
        },
{
    let esc = escape_bytes();
    let len = data.len();
    if start >= len as u64 {
        return None;
    }
    let mut pos: usize = start as usize;
    let mut ov: usize = 0;
    loop
        invariant
            len == data@.len(),
            esc@ == seqt_catalogue(),
            label@.len() == 10,
            ov <= OVERLAP,
            ov <= pos,
            scan(data@, start as int, 0, label@, use_label) == scan(data@, pos as int, ov as int, label@, use_label),
        decreases len - pos,
    {
        if pos >= len {
            return None;
        }
        let n: usize = if len - pos < CHUNK as usize {
            len - pos
        } else {
            CHUNK as usize
        };
        let ws = pos - ov;
        let we = pos + n;
        match find_first(data, ws, we, esc.as_slice()) {
            Some(i) => {
                return Some((true, (i + 6) as u64));
            },
            None => {},
        }
        if use_label {
            match find_first(data, ws, we, label) {
                Some(i) => {
                    return Some((false, (i + 10) as u64));
                },
                None => {},
            }
        }
        ov = if ov + n < OVERLAP as usize {
            ov + n
        } else {
            OVERLAP as usize
        };
        pos = pos + n;
    }
}

/// Whether a label can serve as a catalogue marker: an all-zero label is too
/// common in zero-padded archive bodies.
pub open spec fn label_usable(label: Seq<u8>) -> bool {
    exists|i: int| 0 <= i < label.len() && label[i] != 0
}

pub open spec fn too_short_msg() -> Seq<char> {
    "archive body too short"@
}

pub open spec fn not_found_msg() -> Seq<char> {
    "seqt_catalogue not found"@
}

/// Locate the catalogue from `origin`: scan the last `tail_scan` bytes, then,
/// if that misses and does not already cover everything, the whole body from
/// `origin`. `Ok((true, q))`: the escape was found and `q` follows it;
/// `Ok((false, q))`: the label was found and `q` follows it.
pub open spec fn spec_find_catalogue_within(d: Seq<u8>, origin: int, label: Seq<u8>, tail_scan: u64) -> Result<
    (bool, int),
    Fault,
> {
    let use_label = label_usable(label);
    if d.len() <= origin {
        Err(Fault::Corrupt(too_short_msg()))
    } else {
        let back = if d.len() >= tail_scan {
            d.len() - tail_scan
        } else {
            0
        };
        let tail_start = if origin > back {
            origin
        } else {
            back
        };
        match scan(d, tail_start, 0, label, use_label) {
            Some(r) => Ok(r),
            None => if tail_start > origin {
                match scan(d, origin, 0, label, use_label) {
                    Some(r) => Ok(r),
                    None => Err(Fault::Corrupt(not_found_msg())),
                }
            } else {
                Err(Fault::Corrupt(not_found_msg()))
            },
        }
    }
}

fn label_nonzero(label: &[u8]) -> (b: bool)
    ensures
        b == label_usable(label@),
{
    let mut i: usize = 0;
    while i < label.len()
        invariant
            i <= label@.len(),
            forall|j: int| 0 <= j < i ==> label@[j] == 0,
        decreases label.len() - i,
    {
        if label[i] != 0 {
            return true;
        }
        i = i + 1;
    }
    false
}

/// Locate the catalogue, scanning the tail `tail_scan` bytes first.
pub fn find_catalogue_within(data: &[u8], origin: u64, label: &[u8], tail_scan: u64) -> (r: Result<(bool, u64), DarError>)
    requires
        label@.len() == 10,
    ensures
        match r {
            Ok((e, q)) => spec_find_catalogue_within(data@, origin as int, label@, tail_scan) == Ok::<(bool, int), Fault>((e, q as int)),
            Err(err) => spec_find_catalogue_within(data@, origin as int, label@, tail_scan) == Err::<(bool, int), Fault>(err@),
        },
{
    let use_label = label_nonzero(label);
    let end = data.len() as u64;
    if end <= origin {
        return Err(corrupt_str("archive body too short"));
    }
    let back = if end >= tail_scan {
        end - tail_scan
    } else {
        0
    };
    let tail_start = if origin > back {
        origin
    } else {
        back
    };
    if let Some(r) = scan_window(data, tail_start, label, use_label) {
        return Ok(r);
    }
    if tail_start > origin {
        if let Some(r) = scan_window(data, origin, label, use_label) {
            return Ok(r);
        }
    }
    Err(corrupt_str("seqt_catalogue not found"))
}

/// Locate the catalogue with the default tail window.
pub fn find_catalogue(data: &[u8], origin: u64, label: &[u8]) -> (r: Result<(bool, u64), DarError>)
    requires
        label@.len() == 10,
    ensures
        match r {
            Ok((e, q)) => spec_find_catalogue_within(data@, origin as int, label@, TAIL_SCAN) == Ok::<(bool, int), Fault>((e, q as int)),
            Err(err) => spec_find_catalogue_within(data@, origin as int, label@, TAIL_SCAN) == Err::<(bool, int), Fault>(err@),
        },
{
    find_catalogue_within(data, origin, label, TAIL_SCAN)
}

// ── end trailer ─────────────────────────────────────────────────────────────

/// Bits beyond which a run of `0xFF` padding is refused.
pub const MAX_TERMINATOR_BITS: u64 = 4096;

/// The number of leading one bits of a terminator byte whose set bits form a
/// single run from the top; 0 for any other byte.
pub open spec fn lead_ones(t: u8) -> nat {
    if t == 0x80 { 1 }
    else if t == 0xC0 { 2 }
    else if t == 0xE0 { 3 }
    else if t == 0xF0 { 4 }
    else if t == 0xF8 { 5 }
    else if t == 0xFC { 6 }
    else if t == 0xFE { 7 }
    else { 0 }
}

pub open spec fn underflow_msg() -> Seq<char> {
    "terminator underflows archive"@
}

pub open spec fn padding_msg() -> Seq<char> {
    "terminator padding too long"@
}

pub open spec fn bad_terminator_msg(t: u8) -> Seq<char> {
    "invalid terminator byte "@ + hex_byte(t)
}

pub open spec fn bit_run_msg() -> Seq<char> {
    "malformed terminator bit run"@
}

pub open spec fn offset_underflow_msg() -> Seq<char> {
    "terminator offset underflows"@
}

/// Walking back from `pos`: each `0xFF` byte adds 8 bits; the first other byte
/// is the terminator. Gives the terminator, its position and the bits so far.
pub open spec fn term_scan(d: Seq<u8>, pos: int, bits: nat) -> Result<(u8, int, nat), Fault>
    decreases pos,
{
    if pos <= 0 || pos > d.len() {
        Err(Fault::Corrupt(underflow_msg()))
    } else if d[pos - 1] == 0xFF {
        if bits + 8 > MAX_TERMINATOR_BITS {
            Err(Fault::Corrupt(padding_msg()))
        } else {
            term_scan(d, pos - 1, bits + 8)
        }
    } else {
        Ok((d[pos - 1], pos - 1, bits))
    }
}

/// The catalogue offset (relative to the archive origin) that the trailer of a
/// pre-8 archive records: the trailer's bits, times 4, count back from the
/// terminator byte to an infinint.
pub open spec fn spec_read_terminateur(d: Seq<u8>) -> Result<u64, Fault> {
    match term_scan(d, d.len() as int, 0) {
        Err(e) => Err(e),
        Ok((t, tp, bits)) => if t < 0x80 {
            Err(Fault::Corrupt(bad_terminator_msg(t)))
        } else if lead_ones(t) == 0 {
            Err(Fault::Corrupt(bit_run_msg()))
        } else {
            let back = (bits + lead_ones(t)) * 4;
            if tp < back {
                Err(Fault::Corrupt(offset_underflow_msg()))
            } else {
                value_of(spec_read_infinint(d, tp - back))
            }
        },
    }
}

fn lead_ones_exec(t: u8) -> (n: u64)
    ensures
        n == lead_ones(t),
{
    if t == 0x80 { 1 }
    else if t == 0xC0 { 2 }
    else if t == 0xE0 { 3 }
    else if t == 0xF0 { 4 }
    else if t == 0xF8 { 5 }
    else if t == 0xFC { 6 }
    else if t == 0xFE { 7 }
    else { 0 }
}

/// Locate the catalogue of a pre-8 archive through its end trailer, returning
/// the catalogue's offset relative to the archive origin.
pub fn read_terminateur(data: &[u8]) -> (r: Result<u64, DarError>)
    ensures
        err_view(r) == spec_read_terminateur(data@),
{
    let mut pos: usize = data.len();
    let mut bits: u64 = 0;
    loop
        invariant
            pos <= data@.len(),
            bits <= MAX_TERMINATOR_BITS,
            term_scan(data@, data@.len() as int, 0) == term_scan(data@, pos as int, bits as nat),
        decreases pos,
    {
        if pos == 0 {
            return Err(corrupt_str("terminator underflows archive"));
        }
        let b = data[pos - 1];
        if b == 0xFF {
            if bits + 8 > MAX_TERMINATOR_BITS {
                return Err(corrupt_str("terminator padding too long"));
            }
            bits = bits + 8;
            pos = pos - 1;
        } else {
            return terminator_offset(data, b, pos - 1, bits);
        }
    }
}

fn terminator_offset(data: &[u8], terminal: u8, pos: usize, bits: u64) -> (r: Result<u64, DarError>)
    requires
        pos < data@.len(),
        bits <= MAX_TERMINATOR_BITS,
    ensures
        err_view(r) == (if terminal < 0x80 {
            Err(Fault::Corrupt(bad_terminator_msg(terminal)))
        } else if lead_ones(terminal) == 0 {
            Err(Fault::Corrupt(bit_run_msg()))
        } else {
            let back = (bits + lead_ones(terminal)) * 4;
            if pos < back {
                Err(Fault::Corrupt(offset_underflow_msg()))
            } else {
                value_of(spec_read_infinint(data@, pos - back))
            }
        }),
{
    if terminal < 0x80 {
        let mut m: Vec<char> = Vec::new();
        push_str(&mut m, "invalid terminator byte ");
        push_hex_byte(&mut m, terminal);
        return Err(corrupt(&m));
    }
    let ones = lead_ones_exec(terminal);
    if ones == 0 {
        return Err(corrupt_str("malformed terminator bit run"));
    }
    let back: u64 = (bits + ones) * 4;
    if (pos as u64) < back {
        return Err(corrupt_str("terminator offset underflows"));
    }
    let mut p: u64 = pos as u64 - back;
    read_infinint(data, &mut p)
}


proof fn lemma_term_scan_not_nad(d: Seq<u8>, pos: int, bits: nat)
    ensures
        not_nad(term_scan(d, pos, bits)),
    decreases pos,
{
    lemma_locate_msgs_plain(0);
    if pos > 0 && pos <= d.len() && d[pos - 1] == 0xFF && bits + 8 <= MAX_TERMINATOR_BITS {
        lemma_term_scan_not_nad(d, pos - 1, bits + 8);
    }
}

/// The messages of the catalogue search and the trailer read unlike the
/// unknown-extension refusal.
pub proof fn lemma_locate_msgs_plain(t: u8)
    ensures
        !crate::wire::extension_like(too_short_msg()),
        !crate::wire::extension_like(not_found_msg()),
        !crate::wire::extension_like(underflow_msg()),
        !crate::wire::extension_like(padding_msg()),
        !crate::wire::extension_like(bad_terminator_msg(t)),
        !crate::wire::extension_like(bit_run_msg()),
        !crate::wire::extension_like(offset_underflow_msg()),
{
    reveal_strlit("archive body too short");
    reveal_strlit("seqt_catalogue not found");
    reveal_strlit("terminator underflows archive");
    reveal_strlit("terminator padding too long");
    reveal_strlit("invalid terminator byte ");
    reveal_strlit("malformed terminator bit run");
    reveal_strlit("terminator offset underflows");
    lemma_not_extension_like("archive body too short"@, Seq::empty());
    lemma_not_extension_like("seqt_catalogue not found"@, Seq::empty());
    lemma_not_extension_like("terminator underflows archive"@, Seq::empty());
    lemma_not_extension_like("terminator padding too long"@, Seq::empty());
    lemma_not_extension_like("invalid terminator byte "@, hex_byte(t));
    lemma_not_extension_like("malformed terminator bit run"@, Seq::empty());
    lemma_not_extension_like("terminator offset underflows"@, Seq::empty());
}

/// Reading the trailer never gives either slice-header refusal.
pub proof fn lemma_terminateur_not_nad(d: Seq<u8>)
    ensures
        not_nad(spec_read_terminateur(d)),
{
    lemma_term_scan_not_nad(d, d.len() as int, 0);
    lemma_readers_plain();
    match term_scan(d, d.len() as int, 0) {
        Ok((t, _, _)) => lemma_locate_msgs_plain(t),
        _ => {},
    }
}

/// Finding the catalogue never gives either slice-header refusal.
pub proof fn lemma_find_not_nad(d: Seq<u8>, origin: int, label: Seq<u8>, tail_scan: u64)
    ensures
        not_nad(spec_find_catalogue_within(d, origin, label, tail_scan)),
{
    lemma_locate_msgs_plain(0);
}


/// The number of `0xFF` bytes that end the first `pos` bytes.
pub open spec fn ff_run(d: Seq<u8>, pos: int) -> nat
    decreases pos,
{
    if pos <= 0 || pos > d.len() || d[pos - 1] != 0xFF {
        0
    } else {
        ff_run(d, pos - 1) + 1
    }
}

proof fn lemma_term_scan_closed(d: Seq<u8>, pos: int, bits: nat)
    requires
        0 <= pos <= d.len(),
        bits <= MAX_TERMINATOR_BITS,
    ensures
        term_scan(d, pos, bits) == ({
            let r = ff_run(d, pos);
            if bits + 8 * r > MAX_TERMINATOR_BITS {
                Err::<(u8, int, nat), Fault>(Fault::Corrupt(padding_msg()))
            } else if pos - r == 0 {
                Err(Fault::Corrupt(underflow_msg()))
            } else {
                Ok((d[pos - r - 1], pos - r - 1, (bits + 8 * r) as nat))
            }
        }),
    decreases pos,
{
    if pos > 0 && d[pos - 1] == 0xFF && bits + 8 <= MAX_TERMINATOR_BITS {
        lemma_term_scan_closed(d, pos - 1, bits + 8);
    }
}

/// The trailer of a pre-8 archive, read from the end: `m` trailing `0xFF`
/// bytes (at most 512), then a terminator byte `t` whose set bits are one run
/// of `k` bits from the top; the catalogue offset is the infinint that starts
/// `4 * (8 * m + k)` bytes before the terminator. More than 512 padding bytes,
/// padding that fills the whole data, a terminator without its top bit or
/// with a broken run, and an offset before the start are each refused.
pub proof fn terminateur_reads_trailer(d: Seq<u8>)
    ensures
        spec_read_terminateur(d) == ({
            let m = ff_run(d, d.len() as int);
            let tp = d.len() - 1 - m;
            let t = d[tp];
            let back = 4 * (8 * m + lead_ones(t));
            if m > 512 {
                Err::<u64, Fault>(Fault::Corrupt(padding_msg()))
            } else if m == d.len() {
                Err(Fault::Corrupt(underflow_msg()))
            } else if t < 0x80 {
                Err(Fault::Corrupt(bad_terminator_msg(t)))
            } else if lead_ones(t) == 0 {
                Err(Fault::Corrupt(bit_run_msg()))
            } else if tp < back {
                Err(Fault::Corrupt(offset_underflow_msg()))
            } else {
                value_of(spec_read_infinint(d, tp - back))
            }
        }),
{
    lemma_term_scan_closed(d, d.len() as int, 0);
}


/// `pat` occurs in `d` starting at `i`.
pub open spec fn occurs_at(d: Seq<u8>, i: int, pat: Seq<u8>) -> bool {
    0 <= i && i + pat.len() <= d.len() && d.subrange(i, i + pat.len()) == pat
}

proof fn lemma_first_match_sound(d: Seq<u8>, from: int, end: int, pat: Seq<u8>)
    ensures
        first_match(d, from, end, pat) matches Some(i) ==> from <= i && i + pat.len() <= end && occurs_at(
            d,
            i,
            pat,
        ),
    decreases end - from,
{
    if !(from < 0 || pat.len() == 0 || from + pat.len() > end || end > d.len()) && d.subrange(
        from,
        from + pat.len(),
    ) != pat {
        lemma_first_match_sound(d, from + 1, end, pat);
    }
}

proof fn lemma_first_match_complete(d: Seq<u8>, from: int, end: int, pat: Seq<u8>)
    requires
        0 <= from,
        end <= d.len(),
        pat.len() > 0,
        first_match(d, from, end, pat) is None,
    ensures
        forall|i: int| from <= i && i + pat.len() <= end ==> !#[trigger] occurs_at(d, i, pat),
    decreases end - from,
{
    if from + pat.len() <= end {
        lemma_first_match_complete(d, from + 1, end, pat);
        assert forall|i: int| from <= i && i + pat.len() <= end implies !#[trigger] occurs_at(d, i, pat) by {
            if i == from {
            }
        }
    }
}

proof fn lemma_scan_sound(d: Seq<u8>, pos: int, ov: int, label: Seq<u8>, use_label: bool)
    requires
        0 <= ov <= pos,
    ensures
        scan(d, pos, ov, label, use_label) matches Some((e, q)) ==> q >= pos - ov && (e ==> occurs_at(
            d,
            q - 6,
            seqt_catalogue(),
        )) && (!e ==> use_label && (label.len() == 10 ==> occurs_at(d, q - 10, label))),
    decreases d.len() - pos,
{
    if 0 <= pos < d.len() {
        let n = if d.len() - pos < CHUNK {
            d.len() - pos
        } else {
            CHUNK as int
        };
        lemma_first_match_sound(d, pos - ov, pos + n, seqt_catalogue());
        lemma_first_match_sound(d, pos - ov, pos + n, label);
        let ov2 = if ov + n < OVERLAP { ov + n } else { OVERLAP as int };
        lemma_scan_sound(d, pos + n, ov2, label, use_label);
    }
}

proof fn lemma_scan_complete(d: Seq<u8>, pos: int, ov: int, label: Seq<u8>, use_label: bool, pat: Seq<u8>)
    requires
        0 <= ov <= OVERLAP,
        ov <= pos,
        pat == seqt_catalogue() || (use_label && pat == label && label.len() == 10),
        forall|i: int| pos - ov <= i && i + pat.len() <= pos ==> !#[trigger] occurs_at(d, i, pat),
        scan(d, pos, ov, label, use_label) is None,
    ensures
        forall|i: int| pos - ov <= i ==> !#[trigger] occurs_at(d, i, pat),
    decreases d.len() - pos,
{
    if 0 <= pos < d.len() {
        let n = if d.len() - pos < CHUNK {
            d.len() - pos
        } else {
            CHUNK as int
        };
        let ws = pos - ov;
        let we = pos + n;
        assert(first_match(d, ws, we, pat) is None);
        lemma_first_match_complete(d, ws, we, pat);
        let ov2 = if ov + n < OVERLAP { ov + n } else { OVERLAP as int };
        lemma_scan_complete(d, pos + n, ov2, label, use_label, pat);
    } else {
        assert forall|i: int| pos - ov <= i implies !#[trigger] occurs_at(d, i, pat) by {
            if pos >= d.len() && occurs_at(d, i, pat) {
                assert(i + pat.len() <= pos);
            }
        }
    }
}

/// The chunked scan finds what is there and misses nothing: a found escape
/// or label lies in the data at or after `start`, the position returned just
/// after it; when nothing is found, neither the escape nor (when the label is
/// used) the label occurs anywhere at or after `start`, even across the
/// boundary of two steps.
pub proof fn scan_finds_markers(d: Seq<u8>, start: int, label: Seq<u8>, use_label: bool)
    requires
        0 <= start,
        label.len() == 10,
    ensures
        scan(d, start, 0, label, use_label) matches Some((e, q)) ==> q >= start && (e ==> occurs_at(
            d,
            q - 6,
            seqt_catalogue(),
        )) && (!e ==> use_label && occurs_at(d, q - 10, label)),
        scan(d, start, 0, label, use_label) is None ==> forall|i: int|
            start <= i ==> !#[trigger] occurs_at(d, i, seqt_catalogue()) && (use_label ==> !occurs_at(
                d,
                i,
                label,
            )),
{
    lemma_scan_sound(d, start, 0, label, use_label);
    if scan(d, start, 0, label, use_label) is None {
        lemma_scan_complete(d, start, 0, label, use_label, seqt_catalogue());
        if use_label {
            lemma_scan_complete(d, start, 0, label, use_label, label);
        }
    }
}


/// Finding the catalogue: data that ends at or before the origin is too
/// short; otherwise a found marker (the escape, or the label when it has a
/// non-zero byte) lies in the data at or after the origin, the position
/// returned just after it; and "not found" means neither occurs anywhere at
/// or after the origin. The tail window is tried first, so where the marker
/// occurs both in and before it, the one in the tail is taken.
pub proof fn find_catalogue_outcomes(d: Seq<u8>, origin: int, label: Seq<u8>, tail_scan: u64)
    requires
        0 <= origin,
        label.len() == 10,
    ensures
        spec_find_catalogue_within(d, origin, label, tail_scan) == Err::<(bool, int), Fault>(
            Fault::Corrupt(too_short_msg()),
        ) <==> d.len() <= origin,
        spec_find_catalogue_within(d, origin, label, tail_scan) matches Ok((e, q)) ==> q >= origin && (e
            ==> occurs_at(d, q - 6, seqt_catalogue())) && (!e ==> label_usable(label) && occurs_at(
            d,
            q - 10,
            label,
        )),
        spec_find_catalogue_within(d, origin, label, tail_scan) == Err::<(bool, int), Fault>(
            Fault::Corrupt(not_found_msg()),
        ) ==> forall|i: int|
            origin <= i ==> !#[trigger] occurs_at(d, i, seqt_catalogue()) && (label_usable(label)
                ==> !occurs_at(d, i, label)),
{
    reveal_strlit("archive body too short");
    reveal_strlit("seqt_catalogue not found");
    assert(too_short_msg() != not_found_msg()) by {
        assert(too_short_msg()[0] != not_found_msg()[0]);
    }
    let use_label = label_usable(label);
    if d.len() > origin {
        let back = if d.len() >= tail_scan {
            d.len() - tail_scan
        } else {
            0
        };
        let tail_start = if origin > back {
            origin
        } else {
            back
        };
        scan_finds_markers(d, tail_start, label, use_label);
        scan_finds_markers(d, origin, label, use_label);
    }
}


/// A version string of at least two bytes gives the format major
/// `b0 * 256 + b1` (each byte less 48) as the value divided by 256, and the
/// fix byte (0 when absent) as the remainder; a shorter or unreadable string
/// gives `u32::MAX`, the newest format. The position moves past the string.
pub proof fn format_value_parts(d: Seq<u8>, p: int)
    ensures
        ({
            let (v, q) = spec_read_format_value(d, p);
            &&& q == nul_read_end(d, p)
            &&& (spec_read_nul_bytes(d, p) is Ok && spec_read_nul_bytes(d, p)->Ok_0.0.len() >= 2) ==> ({
                let b = spec_read_nul_bytes(d, p)->Ok_0.0;
                &&& v / 256 == digit_value(b[0]) * 256 + digit_value(b[1])
                &&& v % 256 == (if b.len() >= 3 {
                    digit_value(b[2])
                } else {
                    0
                })
            })
            &&& !(spec_read_nul_bytes(d, p) is Ok && spec_read_nul_bytes(d, p)->Ok_0.0.len() >= 2) ==> v
                == u32::MAX
        }),
{
    match spec_read_nul_bytes(d, p) {
        Ok((b, _)) => if b.len() >= 2 {
            let x = digit_value(b[0]) as int;
            let y = digit_value(b[1]) as int;
            let f: int = if b.len() >= 3 {
                digit_value(b[2]) as int
            } else {
                0
            };
            assert(0 <= x < 256 && 0 <= y < 256 && 0 <= f < 256);
            assert((x * 256 + y) * 256 + f < 0x1_0000_0000) by (nonlinear_arith)
                requires
                    0 <= x < 256,
                    0 <= y < 256,
                    0 <= f < 256,
            ;
            assert(((x * 256 + y) * 256 + f) / 256 == x * 256 + y && ((x * 256 + y) * 256 + f) % 256 == f)
                by (nonlinear_arith)
                requires
                    0 <= x < 256,
                    0 <= y < 256,
                    0 <= f < 256,
            ;
        },
        _ => {},
    }
}

} // verus!
