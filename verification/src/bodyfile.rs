//! Sleuth Kit bodyfile lines — the pipe-delimited input of TSK's `mactime`:
//! `MD5|name|inode|mode|UID|GID|size|atime|mtime|ctime|crtime`. DAR records no
//! content hash, inode address or birth time, so those fields are `0`.

use vstd::prelude::*;

use crate::catalog::EntryKind;
use crate::reader::{DarEntry, DarEntryModel, DarReader, entry_text_exact, lossy_string, public_model, utf8_lossy};
use crate::catalog::EntryModel;
use crate::text::{chars_to_string, decimal, push_i64, push_str, push_u64, signed_decimal, string_chars};
use crate::wire::hex_digit;

verus! {

/// TSK type letter of an entry kind.
pub open spec fn kind_letter(kind: EntryKind) -> char {
    match kind {
        EntryKind::File => 'r',
        EntryKind::Hardlink => 'r',
        EntryKind::Directory => 'd',
        EntryKind::Symlink => 'l',
        EntryKind::NamedPipe => 'p',
        EntryKind::Socket => 's',
        EntryKind::CharDevice => 'c',
        EntryKind::BlockDevice => 'b',
        EntryKind::Unknown(_) => '-',
    }
}

pub fn type_letter(kind: EntryKind) -> (c: char)
    ensures
        c == kind_letter(kind),
{
    match kind {
        EntryKind::File => 'r',
        EntryKind::Hardlink => 'r',
        EntryKind::Directory => 'd',
        EntryKind::Symlink => 'l',
        EntryKind::NamedPipe => 'p',
        EntryKind::Socket => 's',
        EntryKind::CharDevice => 'c',
        EntryKind::BlockDevice => 'b',
        EntryKind::Unknown(_) => '-',
    }
}

/// Whether the mode bit of weight `d` is set.
pub open spec fn bit(mode: u16, d: int) -> bool {
    (mode as int / d) % 2 == 1
}

pub open spec fn slot(mode: u16, d: int, c: char) -> char {
    if bit(mode, d) {
        c
    } else {
        '-'
    }
}

/// An execute slot that also shows a special bit (weight `sd`): lowercase when
/// the execute bit is set too, uppercase when not.
pub open spec fn special_slot(mode: u16, d: int, sd: int, lower: char, upper: char) -> char {
    if bit(mode, sd) {
        if bit(mode, d) {
            lower
        } else {
            upper
        }
    } else {
        slot(mode, d, 'x')
    }
}

/// The 9-character symbolic permissions (`rwxr-xr-x`), with setuid/setgid
/// (`s`/`S`) and sticky (`t`/`T`) on the execute slots.
pub open spec fn perm_chars(mode: u16) -> Seq<char> {
    seq![
        slot(mode, 256, 'r'),
        slot(mode, 128, 'w'),
        special_slot(mode, 64, 2048, 's', 'S'),
        slot(mode, 32, 'r'),
        slot(mode, 16, 'w'),
        special_slot(mode, 8, 1024, 's', 'S'),
        slot(mode, 4, 'r'),
        slot(mode, 2, 'w'),
        special_slot(mode, 1, 512, 't', 'T'),
    ]
}

fn bit_set(mode: u16, d: u16) -> (b: bool)
    requires
        d > 0,
    ensures
        b == bit(mode, d as int),
{
    (mode / d) % 2 == 1
}

fn slot_exec(mode: u16, d: u16, c: char) -> (r: char)
    requires
        d > 0,
    ensures
        r == slot(mode, d as int, c),
{
    if bit_set(mode, d) {
        c
    } else {
        '-'
    }
}

fn special_exec(mode: u16, d: u16, sd: u16, lower: char, upper: char) -> (r: char)
    requires
        d > 0,
        sd > 0,
    ensures
        r == special_slot(mode, d as int, sd as int, lower, upper),
{
    let base = slot_exec(mode, d, 'x');
    if bit_set(mode, sd) {
        if base == 'x' {
            lower
        } else {
            upper
        }
    } else {
        base
    }
}

/// Append the permission string of `mode`.
pub fn push_perm(out: &mut Vec<char>, mode: u16)
    ensures
        final(out)@ == old(out)@ + perm_chars(mode),
{
    out.push(slot_exec(mode, 256, 'r'));
    out.push(slot_exec(mode, 128, 'w'));
    out.push(special_exec(mode, 64, 2048, 's', 'S'));
    out.push(slot_exec(mode, 32, 'r'));
    out.push(slot_exec(mode, 16, 'w'));
    out.push(special_exec(mode, 8, 1024, 's', 'S'));
    out.push(slot_exec(mode, 4, 'r'));
    out.push(slot_exec(mode, 2, 'w'));
    out.push(special_exec(mode, 1, 512, 't', 'T'));
    assert(final(out)@ =~= old(out)@ + perm_chars(mode));
}

/// The permission string of `mode`.
pub fn perm_string(mode: u16) -> (s: String)
    ensures
        s@ == perm_chars(mode),
{
    let mut v: Vec<char> = Vec::new();
    push_perm(&mut v, mode);
    assert(v@ =~= perm_chars(mode));
    chars_to_string(&v)
}

/// A control character: below `0x20`, or `0x7f`.
pub open spec fn is_control(c: char) -> bool {
    (c as u32) < 0x20 || c as u32 == 0x7f
}

/// One character escaped for a pipe-delimited field: `\` and `|` get a
/// backslash, control characters become `\xNN`.
pub open spec fn escape_char(c: char) -> Seq<char> {
    if c == '\\' {
        seq!['\\', '\\']
    } else if c == '|' {
        seq!['\\', '|']
    } else if is_control(c) {
        seq!['\\', 'x', hex_digit(c as u32 as int / 16), hex_digit(c as u32 as int % 16)]
    } else {
        seq![c]
    }
}

pub open spec fn escape_chars(s: Seq<char>) -> Seq<char>
    decreases s.len(),
{
    if s.len() == 0 {
        Seq::empty()
    } else {
        escape_chars(s.drop_last()) + escape_char(s.last())
    }
}

fn hex_char_of(d: u32) -> (c: char)
    requires
        d < 16,
    ensures
        c == hex_digit(d as int),
{
    match d {
        0 => '0',
        1 => '1',
        2 => '2',
        3 => '3',
        4 => '4',
        5 => '5',
        6 => '6',
        7 => '7',
        8 => '8',
        9 => '9',
        10 => 'a',
        11 => 'b',
        12 => 'c',
        13 => 'd',
        14 => 'e',
        _ => 'f',
    }
}

fn push_escaped_char(out: &mut Vec<char>, c: char)
    ensures
        final(out)@ == old(out)@ + escape_char(c),
{
    let u = c as u32;
    if c == '\\' {
        out.push('\\');
        out.push('\\');
    } else if c == '|' {
        out.push('\\');
        out.push('|');
    } else if u < 0x20 || u == 0x7f {
        out.push('\\');
        out.push('x');
        out.push(hex_char_of(u / 16));
        out.push(hex_char_of(u % 16));
    } else {
        out.push(c);
    }
    assert(final(out)@ =~= old(out)@ + escape_char(c));
}

/// Append the escaped form of `s`.
pub fn push_escaped(out: &mut Vec<char>, s: &str)
    ensures
        final(out)@ == old(out)@ + escape_chars(s@),
{
    let chars = string_chars(s);
    let ghost start = out@;
    let mut i: usize = 0;
    assert(chars@.subrange(0, 0) =~= Seq::<char>::empty());
    assert(start =~= start + escape_chars(chars@.subrange(0, 0)));
    while i < chars.len()
        invariant
            chars@ == s@,
            i <= chars@.len(),
            out@ == start + escape_chars(chars@.subrange(0, i as int)),
        decreases chars.len() - i,
    {
        let c = chars[i];
        push_escaped_char(out, c);
        proof {
            let t = chars@.subrange(0, i + 1);
            assert(t.drop_last() =~= chars@.subrange(0, i as int));
            assert(t.last() == c);
            vstd::seq_lib::lemma_concat_associative(start, escape_chars(chars@.subrange(0, i as int)), escape_char(c));
        }
        i = i + 1;
    }
    assert(chars@.subrange(0, chars@.len() as int) =~= chars@);
}

/// Escape a name for the pipe-delimited line.
pub fn escape_name(name: &str) -> (s: String)
    ensures
        s@ == escape_chars(name@),
{
    let mut v: Vec<char> = Vec::new();
    push_escaped(&mut v, name);
    assert(v@ =~= escape_chars(name@));
    chars_to_string(&v)
}

/// The name field: the escaped lossy path, and for a symlink ` -> ` and the
/// escaped lossy target.
pub open spec fn name_field(e: DarEntryModel) -> Seq<char> {
    escape_chars(utf8_lossy(e.path)) + match e.symlink_target {
        Some(t) => " -> "@ + escape_chars(utf8_lossy(t)),
        None => Seq::empty(),
    }
}

/// The mode field in TSK's `type/type+perms` form.
pub open spec fn mode_field(e: DarEntryModel) -> Seq<char> {
    seq![kind_letter(e.kind), '/', kind_letter(e.kind)] + perm_chars(e.mode)
}

pub open spec fn ctime_or_zero(e: DarEntryModel) -> i64 {
    match e.ctime {
        Some(c) => c,
        None => 0,
    }
}

/// One bodyfile line (no trailing newline).
pub open spec fn bodyfile_line(e: DarEntryModel) -> Seq<char> {
    "0|"@ + name_field(e) + "|0|"@ + mode_field(e) + tail_fields(e)
}

/// Append the name field of `entry`.
fn push_name(out: &mut Vec<char>, entry: &DarEntry)
    ensures
        final(out)@ == old(out)@ + name_field(entry@),
        entry_text_exact(entry@),
{
    let ghost start = out@;
    let path = lossy_string(entry.path.as_slice());
    push_escaped(out, path.as_str());
    match &entry.symlink_target {
        Some(t) => {
            push_str(out, " -> ");
            let target = lossy_string(t.as_slice());
            push_escaped(out, target.as_str());
        },
        None => {},
    }
    assert(out@ =~= start + name_field(entry@));
}

/// Append the mode field of `entry`.
fn push_mode(out: &mut Vec<char>, entry: &DarEntry)
    ensures
        final(out)@ == old(out)@ + mode_field(entry@),
{
    let ghost start = out@;
    let t = type_letter(entry.kind);
    out.push(t);
    out.push('/');
    out.push(t);
    push_perm(out, entry.mode);
    assert(out@ =~= start + mode_field(entry@));
}

/// `|`, a number, and what follows it.
pub open spec fn num_field(num: Seq<char>, rest: Seq<char>) -> Seq<char> {
    seq!['|'] + num + rest
}

/// The fields after the mode: `|uid|gid|size|atime|mtime|ctime|0`.
pub open spec fn tail_fields(e: DarEntryModel) -> Seq<char> {
    num_field(
        decimal(e.uid as nat),
        num_field(
            decimal(e.gid as nat),
            num_field(
                decimal(e.size as nat),
                num_field(
                    signed_decimal(e.atime as int),
                    num_field(signed_decimal(e.mtime as int), num_field(signed_decimal(ctime_or_zero(e) as int), "|0"@)),
                ),
            ),
        ),
    )
}

proof fn lemma_num_field_assoc(s: Seq<char>, num: Seq<char>, rest: Seq<char>)
    ensures
        s + num_field(num, rest) == (s + seq!['|'] + num) + rest,
{
    assert(s + num_field(num, rest) =~= (s + seq!['|'] + num) + rest);
}

fn push_num_u64(out: &mut Vec<char>, n: u64)
    ensures
        final(out)@ == old(out)@ + seq!['|'] + decimal(n as nat),
{
    let ghost s = out@;
    out.push('|');
    assert(out@ =~= s + seq!['|']);
    push_u64(out, n);
}

fn push_num_i64(out: &mut Vec<char>, v: i64)
    ensures
        final(out)@ == old(out)@ + seq!['|'] + signed_decimal(v as int),
{
    let ghost s = out@;
    out.push('|');
    assert(out@ =~= s + seq!['|']);
    push_i64(out, v);
}

fn push_tail(out: &mut Vec<char>, entry: &DarEntry)
    ensures
        final(out)@ == old(out)@ + tail_fields(entry@),
{
    let ghost e = entry@;
    let ghost s0 = out@;
    push_num_u64(out, entry.uid);
    let ghost s1 = out@;
    push_num_u64(out, entry.gid);
    let ghost s2 = out@;
    push_num_u64(out, entry.size);
    let ghost s3 = out@;
    push_num_i64(out, entry.atime);
    let ghost s4 = out@;
    push_num_i64(out, entry.mtime);
    let ghost s5 = out@;
    let c = match entry.ctime {
        Some(c) => c,
        None => 0,
    };
    push_num_i64(out, c);
    let ghost s6 = out@;
    push_str(out, "|0");
    proof {
        let end = "|0"@;
        let r5 = num_field(signed_decimal(ctime_or_zero(e) as int), end);
        let r4 = num_field(signed_decimal(e.mtime as int), r5);
        let r3 = num_field(signed_decimal(e.atime as int), r4);
        let r2 = num_field(decimal(e.size as nat), r3);
        let r1 = num_field(decimal(e.gid as nat), r2);
        lemma_num_field_assoc(s0, decimal(e.uid as nat), r1);
        lemma_num_field_assoc(s1, decimal(e.gid as nat), r2);
        lemma_num_field_assoc(s2, decimal(e.size as nat), r3);
        lemma_num_field_assoc(s3, signed_decimal(e.atime as int), r4);
        lemma_num_field_assoc(s4, signed_decimal(e.mtime as int), r5);
        lemma_num_field_assoc(s5, signed_decimal(ctime_or_zero(e) as int), end);
    }
}

/// Append the bodyfile line of `entry`.
pub fn push_line(out: &mut Vec<char>, entry: &DarEntry)
    ensures
        final(out)@ == old(out)@ + bodyfile_line(entry@),
        entry_text_exact(entry@),
{
    let ghost start = out@;
    push_str(out, "0|");
    push_name(out, entry);
    push_str(out, "|0|");
    push_mode(out, entry);
    push_tail(out, entry);
    assert(out@ =~= start + bodyfile_line(entry@));
}

/// One bodyfile line for `entry`.
pub fn line(entry: &DarEntry) -> (s: String)
    ensures
        s@ == bodyfile_line(entry@),
        entry_text_exact(entry@),
{
    let mut v: Vec<char> = Vec::new();
    push_line(&mut v, entry);
    assert(v@ =~= bodyfile_line(entry@));
    chars_to_string(&v)
}

impl DarEntry {
    /// One Sleuth Kit bodyfile line for this entry (no trailing newline).
    pub fn bodyfile(&self) -> (s: String)
        ensures
            s@ == bodyfile_line(self@),
            entry_text_exact(self@),
    {
        line(self)
    }
}

/// Sleuth Kit bodyfile formatting for a parsed entry.
pub trait DarBodyfile {
    /// One bodyfile line for this entry (no trailing newline):
    /// `MD5|name|inode|mode|UID|GID|size|atime|mtime|ctime|crtime`.
    fn bodyfile(&self) -> String;
}

impl DarBodyfile for DarEntry {
    fn bodyfile(&self) -> (s: String)
        ensures
            s@ == bodyfile_line(self@),
    {
        line(self)
    }
}

/// The bodyfile of a catalogue: one newline-terminated line per entry, in
/// catalogue order.
pub open spec fn bodyfile_text(es: Seq<EntryModel>) -> Seq<char>
    decreases es.len(),
{
    if es.len() == 0 {
        Seq::empty()
    } else {
        bodyfile_text(es.drop_last()) + bodyfile_line(public_model(es.last())) + seq!['\n']
    }
}

impl DarReader {
    /// Append the UTF-8 bodyfile of the catalogue to `out`: one line per
    /// entry, each ended by a newline.
    pub fn write_bodyfile(&self, out: &mut Vec<u8>)
        ensures
            final(out)@ == old(out)@ + vstd::utf8::encode_utf8(bodyfile_text(self@.archive.entries)),
            forall|j: int| 0 <= j < self@.archive.entries.len() ==> #[trigger] entry_text_exact(
                public_model(self@.archive.entries[j]),
            ),
    {
        let entries = self.entries();
        let ghost es = self@.archive.entries;
        let mut text: Vec<char> = Vec::new();
        let mut i: usize = 0;
        while i < entries.len()
            invariant
                entries@.len() == es.len(),
                forall|j: int| 0 <= j < entries@.len() ==> #[trigger] entries@[j]@ == public_model(es[j]),
                i <= entries@.len(),
                text@ == bodyfile_text(es.subrange(0, i as int)),
                forall|j: int| 0 <= j < i ==> #[trigger] entry_text_exact(public_model(es[j])),
            decreases entries.len() - i,
        {
            push_line(&mut text, &entries[i]);
            text.push('\n');
            proof {
                let t = es.subrange(0, i + 1);
                assert(t.drop_last() =~= es.subrange(0, i as int));
                assert(t.last() == es[i as int]);
            }
            i = i + 1;
        }
        assert(es.subrange(0, es.len() as int) =~= es);
        let s = chars_to_string(&text);
        let bytes = s.as_str().as_bytes();
        let ghost start = out@;
        let mut k: usize = 0;
        while k < bytes.len()
            invariant
                forall|j: int| 0 <= j < es.len() ==> #[trigger] entry_text_exact(public_model(es[j])),
                bytes@ == vstd::utf8::encode_utf8(bodyfile_text(es)),
                k <= bytes@.len(),
                out@ == start + bytes@.subrange(0, k as int),
            decreases bytes.len() - k,
        {
            out.push(bytes[k]);
            k = k + 1;
            assert(out@ =~= start + bytes@.subrange(0, k as int));
        }
        assert(bytes@.subrange(0, bytes@.len() as int) =~= bytes@);
    }
}

// ── one entry, one line ─────────────────────────────────────────────────────

/// `s` holds no control character.
pub open spec fn no_control(s: Seq<char>) -> bool {
    forall|k: int| 0 <= k < s.len() ==> !is_control(#[trigger] s[k])
}

proof fn lemma_no_control_concat(a: Seq<char>, b: Seq<char>)
    requires
        no_control(a),
        no_control(b),
    ensures
        no_control(a + b),
{
    assert forall|k: int| 0 <= k < (a + b).len() implies !is_control(#[trigger] (a + b)[k]) by {
        if k < a.len() {
            assert((a + b)[k] == a[k]);
        } else {
            assert((a + b)[k] == b[k - a.len()]);
        }
    }
}

proof fn lemma_decimal_no_control(n: nat)
    ensures
        no_control(decimal(n)),
    decreases n,
{
    if n >= 10 {
        lemma_decimal_no_control(n / 10);
        assert(no_control(seq![crate::text::digit_char((n % 10) as int)]));
        lemma_no_control_concat(decimal(n / 10), seq![crate::text::digit_char((n % 10) as int)]);
        assert(decimal(n) =~= decimal(n / 10) + seq![crate::text::digit_char((n % 10) as int)]);
    }
}

proof fn lemma_signed_no_control(v: int)
    ensures
        no_control(signed_decimal(v)),
{
    if v < 0 {
        lemma_decimal_no_control((-v) as nat);
        lemma_no_control_concat(seq!['-'], decimal((-v) as nat));
    } else {
        lemma_decimal_no_control(v as nat);
    }
}

/// Escaped text holds no control character: a name with an embedded newline
/// or other control byte cannot break the line it is written on.
pub proof fn escaped_text_has_no_control(s: Seq<char>)
    ensures
        no_control(escape_chars(s)),
    decreases s.len(),
{
    if s.len() > 0 {
        escaped_text_has_no_control(s.drop_last());
        let c = s.last();
        assert(no_control(escape_char(c)));
        lemma_no_control_concat(escape_chars(s.drop_last()), escape_char(c));
    }
}

proof fn lemma_num_field_no_control(num: Seq<char>, rest: Seq<char>)
    requires
        no_control(num),
        no_control(rest),
    ensures
        no_control(num_field(num, rest)),
{
    lemma_no_control_concat(seq!['|'], num);
    lemma_no_control_concat(seq!['|'] + num, rest);
}

proof fn lemma_tail_no_control(e: DarEntryModel)
    ensures
        no_control(tail_fields(e)),
{
    reveal_strlit("|0");
    lemma_decimal_no_control(e.uid as nat);
    lemma_decimal_no_control(e.gid as nat);
    lemma_decimal_no_control(e.size as nat);
    lemma_signed_no_control(e.atime as int);
    lemma_signed_no_control(e.mtime as int);
    lemma_signed_no_control(ctime_or_zero(e) as int);
    let end = "|0"@;
    let r5 = num_field(signed_decimal(ctime_or_zero(e) as int), end);
    lemma_num_field_no_control(signed_decimal(ctime_or_zero(e) as int), end);
    let r4 = num_field(signed_decimal(e.mtime as int), r5);
    lemma_num_field_no_control(signed_decimal(e.mtime as int), r5);
    let r3 = num_field(signed_decimal(e.atime as int), r4);
    lemma_num_field_no_control(signed_decimal(e.atime as int), r4);
    let r2 = num_field(decimal(e.size as nat), r3);
    lemma_num_field_no_control(decimal(e.size as nat), r3);
    let r1 = num_field(decimal(e.gid as nat), r2);
    lemma_num_field_no_control(decimal(e.gid as nat), r2);
    lemma_num_field_no_control(decimal(e.uid as nat), r1);
}

proof fn lemma_name_no_control(e: DarEntryModel)
    ensures
        no_control(name_field(e)),
{
    reveal_strlit(" -> ");
    escaped_text_has_no_control(utf8_lossy(e.path));
    match e.symlink_target {
        Some(t) => {
            escaped_text_has_no_control(utf8_lossy(t));
            lemma_no_control_concat(" -> "@, escape_chars(utf8_lossy(t)));
            lemma_no_control_concat(escape_chars(utf8_lossy(e.path)), " -> "@ + escape_chars(utf8_lossy(t)));
        },
        None => {
            lemma_no_control_concat(escape_chars(utf8_lossy(e.path)), Seq::empty());
        },
    }
}

/// A bodyfile line holds no control character, a newline least of all: one
/// entry is one line, whatever bytes its name or link target holds.
pub proof fn bodyfile_line_is_one_line(e: DarEntryModel)
    ensures
        no_control(bodyfile_line(e)),
{
    reveal_strlit("0|");
    reveal_strlit("|0|");
    lemma_name_no_control(e);
    lemma_tail_no_control(e);
    assert(no_control(mode_field(e)));
    lemma_no_control_concat("0|"@, name_field(e));
    lemma_no_control_concat("0|"@ + name_field(e), "|0|"@);
    lemma_no_control_concat("0|"@ + name_field(e) + "|0|"@, mode_field(e));
    lemma_no_control_concat("0|"@ + name_field(e) + "|0|"@ + mode_field(e), tail_fields(e));
}

// ── eleven fields ───────────────────────────────────────────────────────────

/// The field separators of `s` read left to right: an unescaped `|`; a
/// backslash escapes the character after it.
pub open spec fn separators(s: Seq<char>) -> nat
    decreases s.len(),
{
    if s.len() == 0 {
        0
    } else if s[0] == '\\' {
        if s.len() >= 2 {
            separators(s.subrange(2, s.len() as int))
        } else {
            0
        }
    } else if s[0] == '|' {
        1 + separators(s.drop_first())
    } else {
        separators(s.drop_first())
    }
}

/// `s` holds neither a `|` nor a backslash.
pub open spec fn plain(s: Seq<char>) -> bool {
    forall|k: int| 0 <= k < s.len() ==> #[trigger] s[k] != '|' && s[k] != '\\'
}

proof fn lemma_plain_concat(a: Seq<char>, b: Seq<char>)
    requires
        plain(a),
        plain(b),
    ensures
        plain(a + b),
{
    assert forall|k: int| 0 <= k < (a + b).len() implies #[trigger] (a + b)[k] != '|' && (a + b)[k] != '\\' by {
        if k < a.len() {
            assert((a + b)[k] == a[k]);
        } else {
            assert((a + b)[k] == b[k - a.len()]);
        }
    }
}

proof fn lemma_plain_skip(p: Seq<char>, rest: Seq<char>)
    requires
        plain(p),
    ensures
        separators(p + rest) == separators(rest),
    decreases p.len(),
{
    if p.len() > 0 {
        assert((p + rest)[0] == p[0]);
        assert((p + rest).drop_first() =~= p.drop_first() + rest);
        lemma_plain_skip(p.drop_first(), rest);
    } else {
        assert(p + rest =~= rest);
    }
}

proof fn lemma_bar(rest: Seq<char>)
    ensures
        separators(seq!['|'] + rest) == 1 + separators(rest),
{
    assert((seq!['|'] + rest).drop_first() =~= rest);
}

proof fn lemma_escape_char_skip(c: char, rest: Seq<char>)
    ensures
        separators(escape_char(c) + rest) == separators(rest),
{
    let x = escape_char(c) + rest;
    if c == '\\' || c == '|' {
        assert(x.subrange(2, x.len() as int) =~= rest);
    } else if is_control(c) {
        let tail = seq![hex_digit(c as u32 as int / 16), hex_digit(c as u32 as int % 16)];
        assert(x.subrange(2, x.len() as int) =~= tail + rest);
        assert(plain(tail));
        lemma_plain_skip(tail, rest);
    } else {
        assert(x.drop_first() =~= rest);
    }
}

proof fn lemma_escape_skip(s: Seq<char>, rest: Seq<char>)
    ensures
        separators(escape_chars(s) + rest) == separators(rest),
    decreases s.len(),
{
    if s.len() > 0 {
        let c = s.last();
        assert(escape_chars(s) + rest =~= escape_chars(s.drop_last()) + (escape_char(c) + rest));
        lemma_escape_skip(s.drop_last(), escape_char(c) + rest);
        lemma_escape_char_skip(c, rest);
    } else {
        assert(escape_chars(s) + rest =~= rest);
    }
}

proof fn lemma_decimal_plain(n: nat)
    ensures
        plain(decimal(n)),
    decreases n,
{
    if n >= 10 {
        lemma_decimal_plain(n / 10);
        lemma_plain_concat(decimal(n / 10), seq![crate::text::digit_char((n % 10) as int)]);
        assert(decimal(n) =~= decimal(n / 10) + seq![crate::text::digit_char((n % 10) as int)]);
    }
}

proof fn lemma_signed_plain(v: int)
    ensures
        plain(signed_decimal(v)),
{
    if v < 0 {
        lemma_decimal_plain((-v) as nat);
        lemma_plain_concat(seq!['-'], decimal((-v) as nat));
    } else {
        lemma_decimal_plain(v as nat);
    }
}

proof fn lemma_number_field(num: Seq<char>, rest: Seq<char>)
    requires
        plain(num),
    ensures
        separators(num_field(num, rest)) == 1 + separators(rest),
{
    assert(seq!['|'] + num + rest =~= seq!['|'] + (num + rest));
    lemma_bar(num + rest);
    lemma_plain_skip(num, rest);
}

proof fn lemma_tail_separators(e: DarEntryModel)
    ensures
        separators(tail_fields(e)) == 7,
{
    reveal_strlit("|0");
    let end = "|0"@;
    assert(end =~= seq!['|'] + seq!['0']);
    assert(plain(seq!['0']));
    lemma_plain_skip(seq!['0'], Seq::empty());
    assert(seq!['0'] + Seq::<char>::empty() =~= seq!['0']);
    lemma_bar(seq!['0']);
    lemma_decimal_plain(e.uid as nat);
    lemma_decimal_plain(e.gid as nat);
    lemma_decimal_plain(e.size as nat);
    lemma_signed_plain(e.atime as int);
    lemma_signed_plain(e.mtime as int);
    lemma_signed_plain(ctime_or_zero(e) as int);
    let r5 = num_field(signed_decimal(ctime_or_zero(e) as int), end);
    lemma_number_field(signed_decimal(ctime_or_zero(e) as int), end);
    let r4 = num_field(signed_decimal(e.mtime as int), r5);
    lemma_number_field(signed_decimal(e.mtime as int), r5);
    let r3 = num_field(signed_decimal(e.atime as int), r4);
    lemma_number_field(signed_decimal(e.atime as int), r4);
    let r2 = num_field(decimal(e.size as nat), r3);
    lemma_number_field(decimal(e.size as nat), r3);
    let r1 = num_field(decimal(e.gid as nat), r2);
    lemma_number_field(decimal(e.gid as nat), r2);
    lemma_number_field(decimal(e.uid as nat), r1);
}

/// What follows the name: `|0|`, the mode and the numeric fields.
pub open spec fn after_name(e: DarEntryModel) -> Seq<char> {
    "|0|"@ + mode_field(e) + tail_fields(e)
}

proof fn lemma_after_name_separators(e: DarEntryModel)
    ensures
        separators(after_name(e)) == 9,
{
    reveal_strlit("|0|");
    let bar = seq!['|'];
    lemma_tail_separators(e);
    assert(plain(mode_field(e)));
    lemma_plain_skip(mode_field(e), tail_fields(e));
    assert(plain(seq!['0']));
    assert(after_name(e) =~= bar + (seq!['0'] + (bar + (mode_field(e) + tail_fields(e)))));
    lemma_bar(seq!['0'] + (bar + (mode_field(e) + tail_fields(e))));
    lemma_plain_skip(seq!['0'], bar + (mode_field(e) + tail_fields(e)));
    lemma_bar(mode_field(e) + tail_fields(e));
}

proof fn lemma_name_separators(e: DarEntryModel, rest: Seq<char>)
    ensures
        separators(name_field(e) + rest) == separators(rest),
{
    reveal_strlit(" -> ");
    let lossy = utf8_lossy(e.path);
    match e.symlink_target {
        Some(t) => {
            let arrow = " -> "@;
            assert(plain(arrow));
            assert(name_field(e) + rest =~= escape_chars(lossy) + (arrow + (escape_chars(utf8_lossy(t)) + rest)));
            lemma_escape_skip(lossy, arrow + (escape_chars(utf8_lossy(t)) + rest));
            lemma_plain_skip(arrow, escape_chars(utf8_lossy(t)) + rest);
            lemma_escape_skip(utf8_lossy(t), rest);
        },
        None => {
            assert(name_field(e) + rest =~= escape_chars(lossy) + rest);
            lemma_escape_skip(lossy, rest);
        },
    }
}

/// A bodyfile line has exactly ten field separators, so eleven fields: a `|`
/// in a name or link target is escaped and cannot forge a field.
pub proof fn bodyfile_line_has_eleven_fields(e: DarEntryModel)
    ensures
        separators(bodyfile_line(e)) == 10,
{
    reveal_strlit("0|");
    let bar = seq!['|'];
    let mid = after_name(e);
    lemma_after_name_separators(e);
    lemma_name_separators(e, mid);
    assert(plain(seq!['0']));
    assert(bodyfile_line(e) =~= seq!['0'] + (bar + (name_field(e) + mid)));
    lemma_plain_skip(seq!['0'], bar + (name_field(e) + mid));
    lemma_bar(name_field(e) + mid);
}

/// The number of newlines in `s`.
pub open spec fn newlines(s: Seq<char>) -> nat
    decreases s.len(),
{
    if s.len() == 0 {
        0
    } else {
        newlines(s.drop_last()) + if s.last() == '\n' {
            1nat
        } else {
            0nat
        }
    }
}

proof fn lemma_newlines_concat(a: Seq<char>, b: Seq<char>)
    ensures
        newlines(a + b) == newlines(a) + newlines(b),
    decreases b.len(),
{
    if b.len() == 0 {
        assert(a + b =~= a);
    } else {
        assert((a + b).drop_last() =~= a + b.drop_last());
        lemma_newlines_concat(a, b.drop_last());
    }
}

proof fn lemma_no_control_no_newline(s: Seq<char>)
    requires
        no_control(s),
    ensures
        newlines(s) == 0,
    decreases s.len(),
{
    if s.len() > 0 {
        assert(!is_control(s[s.len() - 1]));
        assert(s.drop_last().len() == s.len() - 1);
        assert forall|k: int| 0 <= k < s.drop_last().len() implies !is_control(#[trigger] s.drop_last()[k]) by {
            assert(s.drop_last()[k] == s[k]);
        }
        lemma_no_control_no_newline(s.drop_last());
    }
}

/// A catalogue's bodyfile has exactly one line per entry: as many newlines as
/// entries, each line ending one entry's record.
pub proof fn bodyfile_has_one_line_per_entry(es: Seq<EntryModel>)
    ensures
        newlines(bodyfile_text(es)) == es.len(),
    decreases es.len(),
{
    if es.len() > 0 {
        bodyfile_has_one_line_per_entry(es.drop_last());
        let l = bodyfile_line(public_model(es.last()));
        bodyfile_line_is_one_line(public_model(es.last()));
        lemma_no_control_no_newline(l);
        lemma_newlines_concat(bodyfile_text(es.drop_last()), l);
        lemma_newlines_concat(bodyfile_text(es.drop_last()) + l, seq!['\n']);
        assert(seq!['\n'].drop_last() =~= Seq::<char>::empty());
        assert(newlines(Seq::<char>::empty()) == 0);
        assert(seq!['\n'].last() == '\n');
        assert(newlines(seq!['\n']) == 1);
        assert(bodyfile_text(es) == bodyfile_text(es.drop_last()) + l + seq!['\n']);
    }
}


proof fn lemma_escape_concat(a: Seq<char>, b: Seq<char>)
    ensures
        escape_chars(a + b) == escape_chars(a) + escape_chars(b),
    decreases b.len(),
{
    if b.len() == 0 {
        assert(a + b =~= a);
        assert(escape_chars(a) + escape_chars(b) =~= escape_chars(a));
    } else {
        assert((a + b).drop_last() =~= a + b.drop_last());
        assert((a + b).last() == b.last());
        lemma_escape_concat(a, b.drop_last());
        vstd::seq_lib::lemma_concat_associative(escape_chars(a), escape_chars(b.drop_last()), escape_char(b.last()));
    }
}

proof fn lemma_escape_front(s: Seq<char>)
    requires
        s.len() > 0,
    ensures
        escape_chars(s) == escape_char(s[0]) + escape_chars(s.drop_first()),
{
    assert(s =~= seq![s[0]] + s.drop_first());
    lemma_escape_concat(seq![s[0]], s.drop_first());
    let one = seq![s[0]];
    assert(one.drop_last() =~= Seq::<char>::empty());
    assert(escape_chars(Seq::<char>::empty()) == Seq::<char>::empty());
    assert(escape_chars(one) == escape_chars(one.drop_last()) + escape_char(one.last()));
    assert(escape_chars(one) =~= escape_char(s[0]));
}

proof fn lemma_hex_digit_injective(a: int, b: int)
    requires
        0 <= a < 16,
        0 <= b < 16,
        hex_digit(a) == hex_digit(b),
    ensures
        a == b,
{
}

proof fn lemma_escape_char_prefix(c1: char, c2: char, r1: Seq<char>, r2: Seq<char>)
    requires
        escape_char(c1) + r1 == escape_char(c2) + r2,
    ensures
        c1 == c2,
        r1 == r2,
{
    let o = escape_char(c1) + r1;
    let e1 = escape_char(c1);
    let e2 = escape_char(c2);
    assert(o[0] == e1[0] && o[0] == e2[0]);
    if e1.len() >= 2 && e2.len() >= 2 {
        assert(o[1] == e1[1] && o[1] == e2[1]);
    }
    if is_control(c1) && is_control(c2) {
        assert(o[2] == e1[2] && o[2] == e2[2]);
        assert(o[3] == e1[3] && o[3] == e2[3]);
        lemma_hex_digit_injective(c1 as u32 as int / 16, c2 as u32 as int / 16);
        lemma_hex_digit_injective(c1 as u32 as int % 16, c2 as u32 as int % 16);
        assert(c1 as u32 == c2 as u32);
    }
    assert(c1 == c2);
    assert(r1 =~= o.subrange(e1.len() as int, o.len() as int));
    assert(r2 =~= o.subrange(e2.len() as int, o.len() as int));
}

/// Escaping is injective: two different names never escape to the same text,
/// so an escaped field names exactly one path.
pub proof fn escaping_is_injective(s1: Seq<char>, s2: Seq<char>)
    requires
        escape_chars(s1) == escape_chars(s2),
    ensures
        s1 == s2,
    decreases s1.len(),
{
    if s1.len() == 0 || s2.len() == 0 {
        if s1.len() > 0 {
            lemma_escape_front(s1);
        }
        if s2.len() > 0 {
            lemma_escape_front(s2);
        }
        assert(s1 =~= s2);
    } else {
        lemma_escape_front(s1);
        lemma_escape_front(s2);
        lemma_escape_char_prefix(s1[0], s2[0], escape_chars(s1.drop_first()), escape_chars(s2.drop_first()));
        escaping_is_injective(s1.drop_first(), s2.drop_first());
        assert(s1 =~= seq![s1[0]] + s1.drop_first());
        assert(s2 =~= seq![s2[0]] + s2.drop_first());
    }
}


/// The fields of a bodyfile line, in order: MD5 `0`, the name (the escaped
/// lossy path, and for a link ` -> ` and the escaped lossy target), inode
/// `0`, the mode (type letter, `/`, type letter, permission string), uid,
/// gid, size, atime, mtime, ctime (`0` when absent) and crtime `0`, joined by
/// `|`; no field holds an unescaped `|`.
pub proof fn bodyfile_line_fields(e: DarEntryModel)
    ensures
        bodyfile_line(e) == "0|"@ + name_field(e) + "|0|"@ + mode_field(e) + seq!['|'] + decimal(
            e.uid as nat,
        ) + seq!['|'] + decimal(e.gid as nat) + seq!['|'] + decimal(e.size as nat) + seq!['|']
            + signed_decimal(e.atime as int) + seq!['|'] + signed_decimal(e.mtime as int) + seq!['|']
            + signed_decimal(ctime_or_zero(e) as int) + "|0"@,
        separators(name_field(e)) == 0,
        plain(mode_field(e)),
        plain(decimal(e.uid as nat)),
        plain(decimal(e.gid as nat)),
        plain(decimal(e.size as nat)),
        plain(signed_decimal(e.atime as int)),
        plain(signed_decimal(e.mtime as int)),
        plain(signed_decimal(ctime_or_zero(e) as int)),
{
    lemma_line_flat(e);
    lemma_fields_plain(e);
}

#[verifier::rlimit(60)]
proof fn lemma_line_flat(e: DarEntryModel)
    ensures
        bodyfile_line(e) == "0|"@ + name_field(e) + "|0|"@ + mode_field(e) + seq!['|'] + decimal(
            e.uid as nat,
        ) + seq!['|'] + decimal(e.gid as nat) + seq!['|'] + decimal(e.size as nat) + seq!['|']
            + signed_decimal(e.atime as int) + seq!['|'] + signed_decimal(e.mtime as int) + seq!['|']
            + signed_decimal(ctime_or_zero(e) as int) + "|0"@,
{
    assert(bodyfile_line(e) =~= "0|"@ + name_field(e) + "|0|"@ + mode_field(e) + seq!['|'] + decimal(
        e.uid as nat,
    ) + seq!['|'] + decimal(e.gid as nat) + seq!['|'] + decimal(e.size as nat) + seq!['|']
        + signed_decimal(e.atime as int) + seq!['|'] + signed_decimal(e.mtime as int) + seq!['|']
        + signed_decimal(ctime_or_zero(e) as int) + "|0"@);
}

proof fn lemma_fields_plain(e: DarEntryModel)
    ensures
        separators(name_field(e)) == 0,
        plain(mode_field(e)),
        plain(decimal(e.uid as nat)),
        plain(decimal(e.gid as nat)),
        plain(decimal(e.size as nat)),
        plain(signed_decimal(e.atime as int)),
        plain(signed_decimal(e.mtime as int)),
        plain(signed_decimal(ctime_or_zero(e) as int)),
{
    lemma_name_separators(e, Seq::empty());
    assert(name_field(e) + Seq::<char>::empty() =~= name_field(e));
    assert(separators(Seq::<char>::empty()) == 0);
    lemma_decimal_plain(e.uid as nat);
    lemma_decimal_plain(e.gid as nat);
    lemma_decimal_plain(e.size as nat);
    lemma_signed_plain(e.atime as int);
    lemma_signed_plain(e.mtime as int);
    lemma_signed_plain(ctime_or_zero(e) as int);
    assert(plain(mode_field(e)));
}

} // verus!
