//! The archive's low-level encodings: single bytes, big-endian `u16`,
//! DAR infinints, NUL-terminated names, forward skips and timestamps.
//!
//! Each reader takes the archive bytes and a position and is specified by a
//! spec function of the same inputs, whose `Ok` carries the value and the
//! position just after it.

use vstd::prelude::*;
use vstd::string::StringExecFns;

use crate::text::{chars_to_string, push_str, push_u64, decimal};

verus! {

/// Errors returned while reading an archive.
#[derive(Debug)]
pub enum DarError {
    /// The bytes ran out, or a position left the addressable range.
    Io(String),
    /// The input does not start with the DAR magic.
    NotADar,
    /// The archive is structurally invalid.
    Corrupt(String),
    /// No catalogue entry has the requested path.
    EntryNotFound(String),
}

/// The mathematical value of a [`DarError`]: its variant and message text.
pub enum Fault {
    Io(Seq<char>),
    NotADar,
    Corrupt(Seq<char>),
    EntryNotFound(Seq<char>),
}

impl View for DarError {
    type V = Fault;

    open spec fn view(&self) -> Fault {
        match self {
            DarError::Io(s) => Fault::Io(s@),
            DarError::NotADar => Fault::NotADar,
            DarError::Corrupt(s) => Fault::Corrupt(s@),
            DarError::EntryNotFound(s) => Fault::EntryNotFound(s@),
        }
    }
}

/// The view of a result whose error is a [`DarError`].
pub open spec fn res_view<T: View>(r: Result<T, DarError>) -> Result<T::V, Fault> {
    match r {
        Ok(v) => Ok(v@),
        Err(e) => Err(e@),
    }
}

/// A result with only its error taken by view.
pub open spec fn err_view<T>(r: Result<T, DarError>) -> Result<T, Fault> {
    match r {
        Ok(v) => Ok(v),
        Err(e) => Err(e@),
    }
}

/// The value of a spec reader's outcome, without the position.
pub open spec fn value_of<T>(r: Result<(T, int), Fault>) -> Result<T, Fault> {
    match r {
        Ok((v, _)) => Ok(v),
        Err(e) => Err(e),
    }
}

/// Longest NUL-terminated name the reader accepts (bytes before the NUL).
pub const MAX_NUL_STRING: usize = 65536;

/// Largest forward skip: a skip is a relative seek, whose offset is an `i64`.
pub const MAX_SKIP: u64 = 0x7fff_ffff_ffff_ffff;

// ── messages ────────────────────────────────────────────────────────────────

/// Whether a message reads like the unknown-extension refusal of the slice
/// header (`unknown s...`).
pub open spec fn extension_like(m: Seq<char>) -> bool {
    m.len() > 8 && m[0] == 'u' && m[1] == 'n' && m[2] == 'k' && m[8] == 's'
}

/// Whether a result is neither of the two refusals that belong to the slice
/// header alone: not-a-DAR and the unknown extension.
pub open spec fn not_nad<T>(r: Result<T, Fault>) -> bool {
    match r {
        Err(e) => plain_fault(e),
        Ok(_) => true,
    }
}

/// A fault that is neither slice-header refusal.
pub open spec fn plain_fault(e: Fault) -> bool {
    match e {
        Fault::NotADar => false,
        Fault::Corrupt(m) => !extension_like(m),
        _ => true,
    }
}

pub open spec fn eof_fault() -> Fault {
    Fault::Io("failed to fill whole buffer"@)
}

pub open spec fn seek_fault() -> Fault {
    Fault::Io("invalid seek to a negative or overflowing position"@)
}

pub open spec fn hex_digit(d: int) -> char {
    if d < 10 {
        crate::text::digit_char(d)
    } else if d == 10 { 'a' }
    else if d == 11 { 'b' }
    else if d == 12 { 'c' }
    else if d == 13 { 'd' }
    else if d == 14 { 'e' }
    else { 'f' }
}

/// A byte as `0x` and two lowercase hex digits.
pub open spec fn hex_byte(b: u8) -> Seq<char> {
    seq!['0', 'x', hex_digit(b as int / 16), hex_digit(b as int % 16)]
}

pub open spec fn multi_group_msg() -> Seq<char> {
    "infinint exceeds 64-bit range (multi-group encoding)"@
}

pub open spec fn bad_terminal_msg(t: u8) -> Seq<char> {
    "invalid infinint terminal: "@ + hex_byte(t)
}

pub open spec fn wide_terminal_msg(t: u8, bytes: nat) -> Seq<char> {
    "infinint exceeds 64-bit range: terminal "@ + hex_byte(t) + " implies "@ + decimal(bytes)
        + " bytes"@
}

pub open spec fn long_name_msg() -> Seq<char> {
    "NUL-terminated string exceeds "@ + decimal(MAX_NUL_STRING as nat) + " bytes"@
}

pub open spec fn long_skip_msg(n: u64) -> Seq<char> {
    "skip length "@ + decimal(n as nat) + " exceeds seekable range"@
}

pub fn eof_error() -> (e: DarError)
    ensures
        e@ == eof_fault(),
{
    DarError::Io(String::from_str("failed to fill whole buffer"))
}

fn seek_error() -> (e: DarError)
    ensures
        e@ == seek_fault(),
{
    DarError::Io(String::from_str("invalid seek to a negative or overflowing position"))
}

fn hex_char(d: u8) -> (c: char)
    requires
        d < 16,
    ensures
        c == hex_digit(d as int),
{
    match d {
        0 => '0',
        1 => '1',
        2 => '2',
        3 => '3',
        4 => '4',
        5 => '5',
        6 => '6',
        7 => '7',
        8 => '8',
        9 => '9',
        10 => 'a',
        11 => 'b',
        12 => 'c',
        13 => 'd',
        14 => 'e',
        _ => 'f',
    }
}

pub fn push_hex_byte(out: &mut Vec<char>, b: u8)
    ensures
        final(out)@ == old(out)@ + hex_byte(b),
{
    out.push('0');
    out.push('x');
    out.push(hex_char(b / 16));
    out.push(hex_char(b % 16));
}

/// A `Corrupt` error carrying `msg`.
pub fn corrupt(msg: &Vec<char>) -> (e: DarError)
    ensures
        e@ == Fault::Corrupt(msg@),
{
    DarError::Corrupt(chars_to_string(msg))
}

/// A `Corrupt` error carrying a fixed text.
pub fn corrupt_str(msg: &str) -> (e: DarError)
    ensures
        e@ == Fault::Corrupt(msg@),
{
    DarError::Corrupt(String::from_str(msg))
}

fn long_name_error() -> (e: DarError)
    ensures
        e@ == Fault::Corrupt(long_name_msg()),
{
    let mut m: Vec<char> = Vec::new();
    push_str(&mut m, "NUL-terminated string exceeds ");
    push_u64(&mut m, MAX_NUL_STRING as u64);
    push_str(&mut m, " bytes");
    corrupt(&m)
}

// ── spec readers ────────────────────────────────────────────────────────────

/// One byte.
pub open spec fn spec_read_u8(d: Seq<u8>, p: int) -> Result<(u8, int), Fault> {
    if 0 <= p < d.len() {
        Ok((d[p], p + 1))
    } else {
        Err(eof_fault())
    }
}

/// Two bytes, big-endian.
pub open spec fn spec_read_u16(d: Seq<u8>, p: int) -> Result<(u16, int), Fault> {
    if 0 <= p && p + 2 <= d.len() {
        Ok(((d[p] as int * 256 + d[p + 1] as int) as u16, p + 2))
    } else {
        Err(eof_fault())
    }
}

/// The big-endian value of a byte sequence.
pub open spec fn be_value(s: Seq<u8>) -> nat
    decreases s.len(),
{
    if s.len() == 0 {
        0
    } else {
        be_value(s.drop_last()) * 256 + s.last() as nat
    }
}

/// `256` to the power `k`.
pub open spec fn pow256(k: nat) -> nat
    decreases k,
{
    if k == 0 {
        1
    } else {
        256 * pow256((k - 1) as nat)
    }
}

/// The payload width, in bytes, that an infinint terminal byte announces;
/// `0` for a byte that is not a valid terminal (not exactly one bit set).
pub open spec fn terminal_width(t: u8) -> nat {
    if t == 128 { 4 }
    else if t == 64 { 8 }
    else if t == 32 { 12 }
    else if t == 16 { 16 }
    else if t == 8 { 20 }
    else if t == 4 { 24 }
    else if t == 2 { 28 }
    else if t == 1 { 32 }
    else { 0 }
}

/// A DAR infinint decoded to `u64`: a terminal byte with exactly one bit set,
/// then 4 (terminal `0x80`) or 8 (terminal `0x40`) big-endian payload bytes.
/// Every wider encoding is rejected as corrupt, never truncated.
pub open spec fn spec_read_infinint(d: Seq<u8>, p: int) -> Result<(u64, int), Fault> {
    match spec_read_u8(d, p) {
        Err(e) => Err(e),
        Ok((t, q)) => if t == 0 {
            Err(Fault::Corrupt(multi_group_msg()))
        } else if terminal_width(t) == 0 {
            Err(Fault::Corrupt(bad_terminal_msg(t)))
        } else if terminal_width(t) > 8 {
            Err(Fault::Corrupt(wide_terminal_msg(t, terminal_width(t))))
        } else if q + terminal_width(t) <= d.len() {
            Ok((be_value(d.subrange(q, q + terminal_width(t))) as u64, q + terminal_width(t)))
        } else {
            Err(eof_fault())
        },
    }
}

/// Outcome of scanning for the NUL that ends a name.
pub enum NulScan {
    /// The NUL sits this many bytes after the start.
    Found(int),
    /// More than the cap of non-NUL bytes precede any NUL.
    TooLong,
    /// The bytes end first, at this position.
    Eof(int),
}

/// Scan from `p + j` for a NUL; `cap` non-NUL bytes are allowed before it.
pub open spec fn nul_scan(d: Seq<u8>, p: int, j: int, cap: int) -> NulScan
    decreases cap - j,
{
    if !(0 <= p + j < d.len()) {
        NulScan::Eof(p + j)
    } else if d[p + j] == 0 {
        NulScan::Found(j)
    } else if j >= cap {
        NulScan::TooLong
    } else {
        nul_scan(d, p, j + 1, cap)
    }
}

/// A NUL-terminated byte string (raw bytes, the NUL consumed), at most
/// `MAX_NUL_STRING` bytes long.
pub open spec fn spec_read_nul_bytes(d: Seq<u8>, p: int) -> Result<(Seq<u8>, int), Fault> {
    match nul_scan(d, p, 0, MAX_NUL_STRING as int) {
        NulScan::Found(k) => Ok((d.subrange(p, p + k), p + k + 1)),
        NulScan::TooLong => Err(Fault::Corrupt(long_name_msg())),
        NulScan::Eof(_) => Err(eof_fault()),
    }
}

/// Where the position stands after reading a NUL-terminated string, whether
/// the read succeeded or not.
pub open spec fn nul_read_end(d: Seq<u8>, p: int) -> int {
    match nul_scan(d, p, 0, MAX_NUL_STRING as int) {
        NulScan::Found(k) => p + k + 1,
        NulScan::TooLong => p + MAX_NUL_STRING as int + 1,
        NulScan::Eof(q) => q,
    }
}

/// Skip a NUL-terminated string: the same bytes and errors as reading one.
pub open spec fn spec_skip_nul_string(d: Seq<u8>, p: int) -> Result<((), int), Fault> {
    match spec_read_nul_bytes(d, p) {
        Ok((_, q)) => Ok(((), q)),
        Err(e) => Err(e),
    }
}

/// Move forward `n` bytes. The target may lie past the end (later reads then
/// fail); a length above `i64::MAX` is rejected, so a skip never moves back.
pub open spec fn spec_skip(p: int, n: u64) -> Result<((), int), Fault> {
    if n == 0 {
        Ok(((), p))
    } else if n > MAX_SKIP {
        Err(Fault::Corrupt(long_skip_msg(n)))
    } else if p + n > u64::MAX {
        Err(seek_fault())
    } else {
        Ok(((), p + n))
    }
}

/// A timestamp, as seconds: a bare infinint before format 9; from format 9 a
/// unit byte, the seconds, and for units `n` and `u` a sub-second infinint.
pub open spec fn spec_read_timestamp(d: Seq<u8>, p: int, format_major: u32) -> Result<
    (i64, int),
    Fault,
> {
    if format_major < 9 {
        match spec_read_infinint(d, p) {
            Ok((v, q)) => Ok((v as i64, q)),
            Err(e) => Err(e),
        }
    } else {
        match spec_read_u8(d, p) {
            Err(e) => Err(e),
            Ok((unit, q)) => match spec_read_infinint(d, q) {
                Err(e) => Err(e),
                Ok((secs, q2)) => if unit == 0x6e || unit == 0x75 {
                    match spec_read_infinint(d, q2) {
                        Ok((_, q3)) => Ok((secs as i64, q3)),
                        Err(e) => Err(e),
                    }
                } else {
                    Ok((secs as i64, q2))
                },
            },
        }
    }
}

// ── lemmas ──────────────────────────────────────────────────────────────────

pub proof fn lemma_be_bound(s: Seq<u8>)
    ensures
        be_value(s) < pow256(s.len()),
    decreases s.len(),
{
    if s.len() > 0 {
        lemma_be_bound(s.drop_last());
        let a = be_value(s.drop_last());
        let m = pow256((s.len() - 1) as nat);
        let b = s.last() as nat;
        assert(a * 256 + b < 256 * m) by (nonlinear_arith)
            requires
                a < m,
                b < 256,
        ;
    }
}

proof fn lemma_pow256_8()
    ensures
        pow256(8) == 0x1_0000_0000_0000_0000,
{
    reveal_with_fuel(pow256, 9);
}

proof fn lemma_pow256_mono(i: nat, j: nat)
    requires
        i <= j,
    ensures
        pow256(i) <= pow256(j),
    decreases j,
{
    if i < j {
        lemma_pow256_mono(i, (j - 1) as nat);
    }
}

// ── exec readers ────────────────────────────────────────────────────────────

/// Read one byte.
pub fn read_u8(data: &[u8], pos: &mut u64) -> (r: Result<u8, DarError>)
    ensures
        res_view(r) == (match spec_read_u8(data@, *old(pos) as int) {
            Ok((v, _)) => Ok(v),
            Err(e) => Err(e),
        }),
        r is Ok ==> *final(pos) as int == spec_read_u8(data@, *old(pos) as int)->Ok_0.1,
        r is Err ==> *final(pos) == *old(pos),
{
    if *pos < data.len() as u64 {
        let b = data[*pos as usize];
        *pos = *pos + 1;
        Ok(b)
    } else {
        Err(eof_error())
    }
}

/// Read a big-endian `u16`.
pub fn read_u16(data: &[u8], pos: &mut u64) -> (r: Result<u16, DarError>)
    ensures
        res_view(r) == (match spec_read_u16(data@, *old(pos) as int) {
            Ok((v, _)) => Ok(v),
            Err(e) => Err(e),
        }),
        r is Ok ==> *final(pos) as int == spec_read_u16(data@, *old(pos) as int)->Ok_0.1,
{
    let len = data.len() as u64;
    if *pos < len && len - *pos >= 2 {
        let i = *pos as usize;
        let v: u16 = (data[i] as u16) * 256 + data[i + 1] as u16;
        *pos = *pos + 2;
        Ok(v)
    } else {
        Err(eof_error())
    }
}

/// Read a DAR infinint, decoded to `u64`.
pub fn read_infinint(data: &[u8], pos: &mut u64) -> (r: Result<u64, DarError>)
    ensures
        res_view(r) == (match spec_read_infinint(data@, *old(pos) as int) {
            Ok((v, _)) => Ok(v),
            Err(e) => Err(e),
        }),
        r is Ok ==> *final(pos) as int == spec_read_infinint(data@, *old(pos) as int)->Ok_0.1,
        r is Err ==> *final(pos) == (if *old(pos) < data@.len() {
            *old(pos) + 1
        } else {
            *old(pos) as int
        }),
{
    let ghost p0 = *old(pos) as int;
    let t = read_u8(data, pos)?;
    if t == 0 {
        return Err(corrupt_str("infinint exceeds 64-bit range (multi-group encoding)"));
    }
    let width: u64 = if t == 128 {
        4
    } else if t == 64 {
        8
    } else if t == 32 {
        12
    } else if t == 16 {
        16
    } else if t == 8 {
        20
    } else if t == 4 {
        24
    } else if t == 2 {
        28
    } else if t == 1 {
        32
    } else {
        0
    };
    if width == 0 {
        let mut m: Vec<char> = Vec::new();
        push_str(&mut m, "invalid infinint terminal: ");
        push_hex_byte(&mut m, t);
        return Err(corrupt(&m));
    }
    if width > 8 {
        let mut m: Vec<char> = Vec::new();
        push_str(&mut m, "infinint exceeds 64-bit range: terminal ");
        push_hex_byte(&mut m, t);
        push_str(&mut m, " implies ");
        push_u64(&mut m, width);
        push_str(&mut m, " bytes");
        return Err(corrupt(&m));
    }
    let q = *pos;
    let len = data.len() as u64;
    if q > len || len - q < width {
        return Err(eof_error());
    }
    let ghost d = data@;
    let mut val: u64 = 0;
    let mut i: u64 = 0;
    while i < width
        invariant
            width <= 8,
            q + width <= len,
            len == data@.len(),
            d == data@,
            i <= width,
            val as nat == be_value(d.subrange(q as int, q + i)),
        decreases width - i,
    {
        let b = data[(q + i) as usize];
        proof {
            let s = d.subrange(q as int, q + i);
            lemma_be_bound(s);
            lemma_pow256_mono(i as nat, 7);
            reveal_with_fuel(pow256, 8);
            assert(pow256(7) == 0x100_0000_0000_0000);
            assert(d.subrange(q as int, q + i + 1).drop_last() == s);
            assert(val * 256 + b < 0x1_0000_0000_0000_0000) by (nonlinear_arith)
                requires
                    val < 0x100_0000_0000_0000,
                    b < 256,
            ;
        }
        val = val * 256 + b as u64;
        i = i + 1;
    }
    *pos = q + width;
    Ok(val)
}

/// Read a NUL-terminated byte string; the NUL is consumed, not returned.
pub fn read_nul_bytes(data: &[u8], pos: &mut u64) -> (r: Result<Vec<u8>, DarError>)
    ensures
        res_view(r) == (match spec_read_nul_bytes(data@, *old(pos) as int) {
            Ok((v, _)) => Ok(v),
            Err(e) => Err(e),
        }),
        *final(pos) as int == nul_read_end(data@, *old(pos) as int),
        r is Ok ==> *final(pos) > *old(pos),
{
    let ghost p = *old(pos) as int;
    let ghost d = data@;
    let mut bytes: Vec<u8> = Vec::new();
    let mut j: usize = 0;
    loop
        invariant
            d == data@,
            p == *old(pos) as int,
            j <= MAX_NUL_STRING,
            j > 0 ==> p + j <= d.len(),
            *pos as int == p + j,
            bytes@ == Seq::new(j as nat, |k: int| d[p + k]),
            nul_scan(d, p, 0, MAX_NUL_STRING as int) == nul_scan(d, p, j as int, MAX_NUL_STRING as int),
        decreases MAX_NUL_STRING - j,
    {
        let b = match read_u8(data, pos) {
            Ok(b) => b,
            Err(e) => {
                return Err(e);
            },
        };
        if b == 0 {
            assert(bytes@ =~= d.subrange(p, p + j));
            return Ok(bytes);
        }
        if j >= MAX_NUL_STRING {
            return Err(long_name_error());
        }
        bytes.push(b);
        assert(bytes@ =~= Seq::new((j + 1) as nat, |k: int| d[p + k]));
        j = j + 1;
    }
}

/// Skip a NUL-terminated string without keeping its bytes.
pub fn skip_nul_string(data: &[u8], pos: &mut u64) -> (r: Result<(), DarError>)
    ensures
        res_view(r) == (match spec_skip_nul_string(data@, *old(pos) as int) {
            Ok((v, _)) => Ok(v),
            Err(e) => Err(e),
        }),
        *final(pos) as int == nul_read_end(data@, *old(pos) as int),
{
    let ghost p = *old(pos) as int;
    let ghost d = data@;
    let mut len: usize = 0;
    loop
        invariant
            d == data@,
            p == *old(pos) as int,
            len <= MAX_NUL_STRING,
            len > 0 ==> p + len <= d.len(),
            *pos as int == p + len,
            nul_scan(d, p, 0, MAX_NUL_STRING as int) == nul_scan(d, p, len as int, MAX_NUL_STRING as int),
        decreases MAX_NUL_STRING - len,
    {
        let b = read_u8(data, pos)?;
        if b == 0 {
            return Ok(());
        }
        if len >= MAX_NUL_STRING {
            return Err(long_name_error());
        }
        len = len + 1;
    }
}

/// Move forward `n` bytes (a relative seek).
pub fn skip(pos: &mut u64, n: u64) -> (r: Result<(), DarError>)
    ensures
        res_view(r) == (match spec_skip(*old(pos) as int, n) {
            Ok((v, _)) => Ok(v),
            Err(e) => Err(e),
        }),
        r is Ok ==> *final(pos) as int == spec_skip(*old(pos) as int, n)->Ok_0.1,
        r is Err ==> *final(pos) == *old(pos),
{
    if n == 0 {
        return Ok(());
    }
    if n > MAX_SKIP {
        let mut m: Vec<char> = Vec::new();
        push_str(&mut m, "skip length ");
        push_u64(&mut m, n);
        push_str(&mut m, " exceeds seekable range");
        return Err(corrupt(&m));
    }
    if *pos > u64::MAX - n {
        return Err(seek_error());
    }
    *pos = *pos + n;
    Ok(())
}

/// Read one timestamp as seconds since the epoch.
pub fn read_timestamp(data: &[u8], pos: &mut u64, format_major: u32) -> (r: Result<i64, DarError>)
    ensures
        res_view(r) == (match spec_read_timestamp(data@, *old(pos) as int, format_major) {
            Ok((v, _)) => Ok(v),
            Err(e) => Err(e),
        }),
        r is Ok ==> *final(pos) as int == spec_read_timestamp(
            data@,
            *old(pos) as int,
            format_major,
        )->Ok_0.1,
{
    if format_major < 9 {
        let v = read_infinint(data, pos)?;
        return Ok(v as i64);
    }
    let unit = read_u8(data, pos)?;
    let secs = read_infinint(data, pos)?;
    if unit == 0x6e || unit == 0x75 {
        read_infinint(data, pos)?;
    }
    Ok(secs as i64)
}

// ── laws ────────────────────────────────────────────────────────────────────

proof fn lemma_nul_scan_found(d: Seq<u8>, p: int, j: int, cap: int)
    requires
        0 <= j,
    ensures
        nul_scan(d, p, j, cap) matches NulScan::Found(k) ==> j <= k && k <= if j <= cap { cap } else { j }
            && 0 <= p + k < d.len() && d[p + k] == 0,
    decreases cap - j,
{
    if 0 <= p + j < d.len() && d[p + j] != 0 && j < cap {
        lemma_nul_scan_found(d, p, j + 1, cap);
    }
}

/// A NUL-terminated name is at most `MAX_NUL_STRING` bytes, holds no NUL,
/// and the read ends just past its terminator: an unterminated run of bytes
/// cannot grow a name without bound.
pub proof fn nul_names_are_bounded(d: Seq<u8>, p: int)
    requires
        spec_read_nul_bytes(d, p) is Ok,
    ensures
        ({
            let (v, q) = spec_read_nul_bytes(d, p)->Ok_0;
            &&& v.len() <= MAX_NUL_STRING
            &&& q == p + v.len() + 1
            &&& d[q - 1] == 0
            &&& forall|i: int| 0 <= i < v.len() ==> v[i] != 0
        }),
{
    lemma_nul_scan_found(d, p, 0, MAX_NUL_STRING as int);
    lemma_nul_scan_prefix(d, p, 0, MAX_NUL_STRING as int);
    let (v, q) = spec_read_nul_bytes(d, p)->Ok_0;
    assert forall|i: int| 0 <= i < v.len() implies v[i] != 0 by {
        assert(v[i] == d[p + i]);
    }
}

proof fn lemma_nul_scan_prefix(d: Seq<u8>, p: int, j: int, cap: int)
    requires
        0 <= j,
        forall|i: int| p <= i < p + j ==> d[i] != 0,
    ensures
        nul_scan(d, p, j, cap) matches NulScan::Found(k) ==> forall|i: int| p <= i < p + k ==> d[i] != 0,
    decreases cap - j,
{
    if 0 <= p + j < d.len() && d[p + j] != 0 && j < cap {
        lemma_nul_scan_prefix(d, p, j + 1, cap);
    }
}

/// A skip never moves backwards: it succeeds exactly when the count is at
/// most `i64::MAX` (or zero) and the end stays addressable, and then lands
/// `n` bytes further on.
pub proof fn skip_never_moves_back(p: int, n: u64)
    ensures
        spec_skip(p, n) is Ok <==> (n == 0 || (n <= MAX_SKIP && p + n <= u64::MAX)),
        spec_skip(p, n) matches Ok((_, q)) ==> q == p + n && q >= p,
{
}

/// An infinint decodes to the exact big-endian value of its 4- or 8-byte
/// payload, which always fits a `u64`: no encoding is silently truncated.
pub proof fn infinint_is_exact(d: Seq<u8>, p: int)
    requires
        spec_read_infinint(d, p) is Ok,
    ensures
        ({
            let (v, q) = spec_read_infinint(d, p)->Ok_0;
            &&& q == p + 5 || q == p + 9
            &&& v as int == be_value(d.subrange(p + 1, q))
        }),
{
    let t = d[p];
    let s = d.subrange(p + 1, p + 1 + terminal_width(t));
    lemma_be_bound(s);
    lemma_pow256_8();
    if terminal_width(t) == 4 {
        lemma_pow256_mono(4, 8);
    }
}


/// A message whose first character is not `u` reads unlike the
/// unknown-extension refusal, whatever follows it.
pub proof fn lemma_not_extension_like(a: Seq<char>, b: Seq<char>)
    requires
        a.len() > 0,
        a[0] != 'u',
    ensures
        !extension_like(a + b),
        !extension_like(a),
{
    assert((a + b)[0] == a[0]);
}

/// The byte readers' messages read unlike the unknown-extension refusal.
pub proof fn lemma_wire_msgs_plain(t: u8, n: u64, bytes: nat)
    ensures
        !extension_like(multi_group_msg()),
        !extension_like(bad_terminal_msg(t)),
        !extension_like(wide_terminal_msg(t, bytes)),
        !extension_like(long_name_msg()),
        !extension_like(long_skip_msg(n)),
{
    reveal_strlit("infinint exceeds 64-bit range (multi-group encoding)");
    reveal_strlit("invalid infinint terminal: ");
    reveal_strlit("infinint exceeds 64-bit range: terminal ");
    reveal_strlit("NUL-terminated string exceeds ");
    reveal_strlit("skip length ");
    lemma_not_extension_like("infinint exceeds 64-bit range (multi-group encoding)"@, Seq::empty());
    lemma_not_extension_like("invalid infinint terminal: "@, hex_byte(t));
    lemma_not_extension_like("infinint exceeds 64-bit range: terminal "@, hex_byte(t) + " implies "@ + decimal(bytes) + " bytes"@);
    assert(wide_terminal_msg(t, bytes) =~= "infinint exceeds 64-bit range: terminal "@ + (hex_byte(t) + " implies "@ + decimal(bytes) + " bytes"@));
    lemma_not_extension_like("NUL-terminated string exceeds "@, decimal(MAX_NUL_STRING as nat) + " bytes"@);
    assert(long_name_msg() =~= "NUL-terminated string exceeds "@ + (decimal(MAX_NUL_STRING as nat) + " bytes"@));
    lemma_not_extension_like("skip length "@, decimal(n as nat) + " exceeds seekable range"@);
    assert(long_skip_msg(n) =~= "skip length "@ + (decimal(n as nat) + " exceeds seekable range"@));
}


/// No byte reader fails with either slice-header refusal.
pub proof fn lemma_readers_plain()
    ensures
        forall|d: Seq<u8>, p: int| not_nad(#[trigger] spec_read_u8(d, p)),
        forall|d: Seq<u8>, p: int| not_nad(#[trigger] spec_read_u16(d, p)),
        forall|d: Seq<u8>, p: int| not_nad(#[trigger] spec_read_infinint(d, p)),
        forall|d: Seq<u8>, p: int| not_nad(#[trigger] spec_read_nul_bytes(d, p)),
        forall|d: Seq<u8>, p: int| not_nad(#[trigger] spec_skip_nul_string(d, p)),
        forall|p: int, n: u64| not_nad(#[trigger] spec_skip(p, n)),
        forall|d: Seq<u8>, p: int, f: u32| not_nad(#[trigger] spec_read_timestamp(d, p, f)),
{
    reveal_strlit("failed to fill whole buffer");
    reveal_strlit("invalid seek to a negative or overflowing position");
    assert forall|d: Seq<u8>, p: int| not_nad(#[trigger] spec_read_infinint(d, p)) by {
        match spec_read_u8(d, p) {
            Ok((t, q)) => lemma_wire_msgs_plain(t, 0, terminal_width(t)),
            _ => {},
        }
    }
    assert forall|d: Seq<u8>, p: int| not_nad(#[trigger] spec_read_nul_bytes(d, p)) by {
        lemma_wire_msgs_plain(0, 0, 0);
    }
    assert forall|d: Seq<u8>, p: int| not_nad(#[trigger] spec_skip_nul_string(d, p)) by {
        lemma_wire_msgs_plain(0, 0, 0);
    }
    assert forall|p: int, n: u64| not_nad(#[trigger] spec_skip(p, n)) by {
        lemma_wire_msgs_plain(0, n, 0);
    }
    assert forall|d: Seq<u8>, p: int, f: u32| not_nad(#[trigger] spec_read_timestamp(d, p, f)) by {
        assert(not_nad(spec_read_infinint(d, p)));
        match spec_read_u8(d, p) {
            Ok((_, q)) => {
                assert(not_nad(spec_read_infinint(d, q)));
                match spec_read_infinint(d, q) {
                    Ok((_, q2)) => assert(not_nad(spec_read_infinint(d, q2))),
                    _ => {},
                }
            },
            _ => {},
        }
    }
}


/// What reading an infinint gives: from a `0x80` terminal, the next 4 bytes
/// big-endian; from a `0x40` terminal, the next 8; a zero terminal, one with
/// several bits set, or one announcing more than 8 bytes is corrupt; data that
/// ends before the terminal or inside the value is an I/O error.
pub proof fn infinint_outcomes(d: Seq<u8>, p: int)
    ensures
        !(0 <= p < d.len()) ==> spec_read_infinint(d, p) == Err::<(u64, int), Fault>(eof_fault()),
        0 <= p < d.len() ==> ({
            let t = d[p];
            let r = spec_read_infinint(d, p);
            &&& (t == 0x80 && p + 5 <= d.len()) ==> r == Ok::<(u64, int), Fault>(
                (be_value(d.subrange(p + 1, p + 5)) as u64, p + 5),
            )
            &&& (t == 0x40 && p + 9 <= d.len()) ==> r == Ok::<(u64, int), Fault>(
                (be_value(d.subrange(p + 1, p + 9)) as u64, p + 9),
            )
            &&& ((t == 0x80 && p + 5 > d.len()) || (t == 0x40 && p + 9 > d.len())) ==> r == Err::<
                (u64, int),
                Fault,
            >(eof_fault())
            &&& t == 0 ==> r == Err::<(u64, int), Fault>(Fault::Corrupt(multi_group_msg()))
            &&& (t != 0 && t != 0x80 && t != 0x40 && t != 0x20 && t != 0x10 && t != 0x08 && t != 0x04
                && t != 0x02 && t != 0x01) ==> r == Err::<(u64, int), Fault>(Fault::Corrupt(bad_terminal_msg(t)))
            &&& (t == 0x20 || t == 0x10 || t == 0x08 || t == 0x04 || t == 0x02 || t == 0x01) ==> r == Err::<
                (u64, int),
                Fault,
            >(Fault::Corrupt(wide_terminal_msg(t, terminal_width(t))))
        }),
{
}


proof fn lemma_nul_scan_closed(d: Seq<u8>, p: int, j: int, cap: int)
    requires
        0 <= p,
        0 <= j <= cap,
        j > 0 ==> p + j <= d.len(),
        forall|i: int| 0 <= i < j ==> p + i < d.len() && (#[trigger] d[p + i]) != 0,
    ensures
        match nul_scan(d, p, j, cap) {
            NulScan::Found(k) => j <= k <= cap && p + k < d.len() && d[p + k] == 0 && forall|i: int|
                0 <= i < k ==> p + i < d.len() && (#[trigger] d[p + i]) != 0,
            NulScan::TooLong => p + cap < d.len() && forall|i: int| 0 <= i <= cap ==> (#[trigger] d[p + i]) != 0,
            NulScan::Eof(e) => j <= e - p <= cap && e >= d.len() && (p <= d.len() ==> e == d.len()) && forall|i: int|
                0 <= i < e - p ==> (#[trigger] d[p + i]) != 0,
        },
    decreases cap - j,
{
    if p + j < d.len() && d[p + j] != 0 && j < cap {
        assert forall|i: int| 0 <= i < j + 1 implies p + i < d.len() && (#[trigger] d[p + i]) != 0 by {
            if i < j {
            }
        }
        lemma_nul_scan_closed(d, p, j + 1, cap);
    } else if p + j < d.len() && d[p + j] != 0 {
        assert(j == cap);
        assert forall|i: int| 0 <= i <= cap implies (#[trigger] d[p + i]) != 0 by {
            if i < j {
                assert(p + i < d.len() && d[p + i] != 0);
            }
        }
    }
}

/// What reading a NUL-terminated string gives: the bytes before the first NUL
/// (the NUL consumed) when it comes within `MAX_NUL_STRING` bytes; corrupt
/// when `MAX_NUL_STRING + 1` bytes pass without one; an I/O error when the
/// data ends first.
pub proof fn nul_string_outcomes(d: Seq<u8>, p: int)
    requires
        0 <= p,
    ensures
        match spec_read_nul_bytes(d, p) {
            Ok((v, q)) => q == p + v.len() + 1 && q <= d.len() && v == d.subrange(p, q - 1) && d[q - 1]
                == 0 && v.len() <= MAX_NUL_STRING && forall|i: int| 0 <= i < v.len() ==> (#[trigger] v[i]) != 0,
            Err(e) => (e == Fault::Corrupt(long_name_msg()) && p + MAX_NUL_STRING < d.len() && forall|i: int|
                0 <= i <= MAX_NUL_STRING ==> (#[trigger] d[p + i]) != 0) || (e == eof_fault() && forall|i: int|
                0 <= i < d.len() - p ==> (#[trigger] d[p + i]) != 0),
        },
{
    lemma_nul_scan_closed(d, p, 0, MAX_NUL_STRING as int);
    match nul_scan(d, p, 0, MAX_NUL_STRING as int) {
        NulScan::Found(k) => {
            let v = d.subrange(p, p + k);
            assert forall|i: int| 0 <= i < v.len() implies (#[trigger] v[i]) != 0 by {
                assert(v[i] == d[p + i]);
            }
        },
        _ => {},
    }
}

} // verus!
