//! Forensic findings: severity, anomaly classification, and the anomaly
//! record whose severity, code and note are derived from its kind.
//!
//! An anomaly is an observation, never an assertion of intent: the notes say
//! "consistent with …", and the examiner draws the conclusions.

use vstd::prelude::*;
use vstd::string::StringExecFns;

use crate::text::{chars_to_string, decimal, push_i64, push_str, push_u64, signed_decimal};

verus! {

/// Severity scale, ordered `Info < Low < Medium < High < Critical`.
#[derive(Debug, Clone, Copy, PartialEq, Eq, Structural, PartialOrd, Ord, Hash)]
pub enum Severity {
    Info,
    Low,
    Medium,
    High,
    Critical,
}

/// The position of a severity on the scale (`Info` = 0 … `Critical` = 4).
pub open spec fn rank(s: Severity) -> int {
    match s {
        Severity::Info => 0,
        Severity::Low => 1,
        Severity::Medium => 2,
        Severity::High => 3,
        Severity::Critical => 4,
    }
}

pub open spec fn severity_label(s: Severity) -> Seq<char> {
    match s {
        Severity::Info => "INFO"@,
        Severity::Low => "LOW"@,
        Severity::Medium => "MEDIUM"@,
        Severity::High => "HIGH"@,
        Severity::Critical => "CRITICAL"@,
    }
}

impl Severity {
    /// The upper-case display label (`INFO`, `LOW`, `MEDIUM`, `HIGH`, `CRITICAL`).
    pub fn label(&self) -> (s: &'static str)
        ensures
            s@ == severity_label(*self),
    {
        match self {
            Severity::Info => "INFO",
            Severity::Low => "LOW",
            Severity::Medium => "MEDIUM",
            Severity::High => "HIGH",
            Severity::Critical => "CRITICAL",
        }
    }

    /// The position on the scale, `Info` = 0 … `Critical` = 4.
    pub fn rank(&self) -> (r: u8)
        ensures
            r == rank(*self),
    {
        match self {
            Severity::Info => 0,
            Severity::Low => 1,
            Severity::Medium => 2,
            Severity::High => 3,
            Severity::Critical => 4,
        }
    }
}

/// Classification of a DAR forensic anomaly; each variant carries the evidence
/// that reproduces the observation.
#[derive(Debug, Clone, PartialEq, Eq)]
pub enum AnomalyKind {
    /// Catalogue parsing stopped before a clean root end-of-directory.
    IncompleteCatalog {
        /// Number of entries recovered before parsing stopped.
        entries_recovered: usize,
    },
    /// An entry is compressed with a codec this reader recognises but does not
    /// decode.
    UnsupportedCodec {
        /// The entry path (lossy UTF-8).
        path: String,
        /// The codec letter as stored.
        codec: char,
    },
    /// An entry's path begins with `/`.
    AbsolutePath {
        path: String,
    },
    /// An entry's path has a `..` component.
    ParentTraversal {
        path: String,
    },
    /// More than one catalogue entry records the same path.
    DuplicatePath {
        path: String,
    },
    /// An entry timestamp lies beyond the year 2100.
    FutureTimestamp {
        path: String,
        /// Which timestamp: `atime`, `mtime`, or `ctime`.
        field: &'static str,
        /// The timestamp, seconds since the Unix epoch.
        epoch_secs: i64,
    },
    /// An entry's name holds control bytes (below `0x20`, or `0x7f`).
    ControlCharsInName {
        path: String,
    },
}

/// The mathematical value of an [`AnomalyKind`].
pub enum KindModel {
    IncompleteCatalog(nat),
    UnsupportedCodec(Seq<char>, char),
    AbsolutePath(Seq<char>),
    ParentTraversal(Seq<char>),
    DuplicatePath(Seq<char>),
    FutureTimestamp(Seq<char>, Seq<char>, i64),
    ControlCharsInName(Seq<char>),
}

impl View for AnomalyKind {
    type V = KindModel;

    open spec fn view(&self) -> KindModel {
        match self {
            AnomalyKind::IncompleteCatalog { entries_recovered } => KindModel::IncompleteCatalog(
                *entries_recovered as nat,
            ),
            AnomalyKind::UnsupportedCodec { path, codec } => KindModel::UnsupportedCodec(
                path@,
                *codec,
            ),
            AnomalyKind::AbsolutePath { path } => KindModel::AbsolutePath(path@),
            AnomalyKind::ParentTraversal { path } => KindModel::ParentTraversal(path@),
            AnomalyKind::DuplicatePath { path } => KindModel::DuplicatePath(path@),
            AnomalyKind::FutureTimestamp { path, field, epoch_secs } => KindModel::FutureTimestamp(
                path@,
                field@,
                *epoch_secs,
            ),
            AnomalyKind::ControlCharsInName { path } => KindModel::ControlCharsInName(path@),
        }
    }
}

/// Severity assigned to each kind: a truncated catalogue `High`; extraction
/// hazards and undecodable data `Medium`; listing irregularities with common
/// benign explanations `Low`.
pub open spec fn severity_of(k: KindModel) -> Severity {
    match k {
        KindModel::IncompleteCatalog(_) => Severity::High,
        KindModel::UnsupportedCodec(_, _) => Severity::Medium,
        KindModel::AbsolutePath(_) => Severity::Medium,
        KindModel::ParentTraversal(_) => Severity::Medium,
        KindModel::DuplicatePath(_) => Severity::Low,
        KindModel::FutureTimestamp(_, _, _) => Severity::Low,
        KindModel::ControlCharsInName(_) => Severity::Low,
    }
}

/// Stable machine-readable code of each kind.
pub open spec fn code_of(k: KindModel) -> Seq<char> {
    match k {
        KindModel::IncompleteCatalog(_) => "DAR-CATALOG-INCOMPLETE"@,
        KindModel::UnsupportedCodec(_, _) => "DAR-CODEC-UNSUPPORTED"@,
        KindModel::AbsolutePath(_) => "DAR-PATH-ABSOLUTE"@,
        KindModel::ParentTraversal(_) => "DAR-PATH-TRAVERSAL"@,
        KindModel::DuplicatePath(_) => "DAR-PATH-DUPLICATE"@,
        KindModel::FutureTimestamp(_, _, _) => "DAR-TIME-FUTURE"@,
        KindModel::ControlCharsInName(_) => "DAR-NAME-CONTROL"@,
    }
}

pub open spec fn ticked(s: Seq<char>) -> Seq<char> {
    seq!['`'] + s + seq!['`']
}

/// Human-readable note of each kind.
pub open spec fn note_of(k: KindModel) -> Seq<char> {
    match k {
        KindModel::IncompleteCatalog(n) => "catalogue parsing stopped after recovering "@
            + decimal(n)
            + " entries, before a clean root end-of-directory — the listing may be truncated; consistent with a partial or damaged archive, or an entry type this reader does not model"@,
        KindModel::UnsupportedCodec(path, codec) => "entry "@ + ticked(path)
            + " is compressed with codec "@ + ticked(seq![codec])
            + ", which this reader recognises but does not decode — its data cannot be extracted; consistent with an archive written by a dar build with more codecs"@,
        KindModel::AbsolutePath(path) => "entry "@ + ticked(path)
            + " has an absolute path — DAR stores paths relative to the archive root, so on naive extraction this would write outside the destination directory; consistent with an archive crafted to overwrite system paths"@,
        KindModel::ParentTraversal(path) => "entry "@ + ticked(path)
            + " contains a `..` parent-directory component — on naive extraction this could escape the destination directory (a path-traversal / 'zip-slip' vector)"@,
        KindModel::DuplicatePath(path) => "path "@ + ticked(path)
            + " is recorded by more than one catalogue entry — consistent with a crafted archive in which a later entry shadows an earlier one on extraction"@,
        KindModel::FutureTimestamp(path, field, secs) => "entry "@ + ticked(path) + seq![' ']
            + field + " is "@ + signed_decimal(secs as int)
            + " (beyond the year 2100) — implausibly far in the future; consistent with a misconfigured clock or timestamp tampering"@,
        KindModel::ControlCharsInName(path) => "entry "@ + ticked(path)
            + " contains non-printable control byte(s) in its name — consistent with an attempt to obscure the true filename in a terminal listing"@,
    }
}

fn push_ticked(m: &mut Vec<char>, s: &String)
    ensures
        final(m)@ == old(m)@ + ticked(s@),
{
    m.push('`');
    push_str(m, s.as_str());
    m.push('`');
    assert(final(m)@ =~= old(m)@ + ticked(s@));
}

impl AnomalyKind {
    /// Severity assigned to this kind.
    pub fn severity(&self) -> (s: Severity)
        ensures
            s == severity_of(self@),
    {
        match self {
            AnomalyKind::IncompleteCatalog { .. } => Severity::High,
            AnomalyKind::UnsupportedCodec { .. } => Severity::Medium,
            AnomalyKind::AbsolutePath { .. } => Severity::Medium,
            AnomalyKind::ParentTraversal { .. } => Severity::Medium,
            AnomalyKind::DuplicatePath { .. } => Severity::Low,
            AnomalyKind::FutureTimestamp { .. } => Severity::Low,
            AnomalyKind::ControlCharsInName { .. } => Severity::Low,
        }
    }

    /// Stable machine-readable code.
    pub fn code(&self) -> (c: &'static str)
        ensures
            c@ == code_of(self@),
    {
        match self {
            AnomalyKind::IncompleteCatalog { .. } => "DAR-CATALOG-INCOMPLETE",
            AnomalyKind::UnsupportedCodec { .. } => "DAR-CODEC-UNSUPPORTED",
            AnomalyKind::AbsolutePath { .. } => "DAR-PATH-ABSOLUTE",
            AnomalyKind::ParentTraversal { .. } => "DAR-PATH-TRAVERSAL",
            AnomalyKind::DuplicatePath { .. } => "DAR-PATH-DUPLICATE",
            AnomalyKind::FutureTimestamp { .. } => "DAR-TIME-FUTURE",
            AnomalyKind::ControlCharsInName { .. } => "DAR-NAME-CONTROL",
        }
    }

    /// Human-readable description (an observation, not a conclusion).
    pub fn note(&self) -> (n: String)
        ensures
            n@ == note_of(self@),
    {
        let mut m: Vec<char> = Vec::new();
        match self {
            AnomalyKind::IncompleteCatalog { entries_recovered } => {
                push_str(&mut m, "catalogue parsing stopped after recovering ");
                push_u64(&mut m, *entries_recovered as u64);
                push_str(
                    &mut m,
                    " entries, before a clean root end-of-directory — the listing may be truncated; consistent with a partial or damaged archive, or an entry type this reader does not model",
                );
            },
            AnomalyKind::UnsupportedCodec { path, codec } => {
                push_str(&mut m, "entry ");
                push_ticked(&mut m, path);
                push_str(&mut m, " is compressed with codec ");
                m.push('`');
                m.push(*codec);
                m.push('`');
                push_str(
                    &mut m,
                    ", which this reader recognises but does not decode — its data cannot be extracted; consistent with an archive written by a dar build with more codecs",
                );
            },
            AnomalyKind::AbsolutePath { path } => {
                push_str(&mut m, "entry ");
                push_ticked(&mut m, path);
                push_str(
                    &mut m,
                    " has an absolute path — DAR stores paths relative to the archive root, so on naive extraction this would write outside the destination directory; consistent with an archive crafted to overwrite system paths",
                );
            },
            AnomalyKind::ParentTraversal { path } => {
                push_str(&mut m, "entry ");
                push_ticked(&mut m, path);
                push_str(
                    &mut m,
                    " contains a `..` parent-directory component — on naive extraction this could escape the destination directory (a path-traversal / 'zip-slip' vector)",
                );
            },
            AnomalyKind::DuplicatePath { path } => {
                push_str(&mut m, "path ");
                push_ticked(&mut m, path);
                push_str(
                    &mut m,
                    " is recorded by more than one catalogue entry — consistent with a crafted archive in which a later entry shadows an earlier one on extraction",
                );
            },
            AnomalyKind::FutureTimestamp { path, field, epoch_secs } => {
                push_str(&mut m, "entry ");
                push_ticked(&mut m, path);
                m.push(' ');
                push_str(&mut m, field);
                push_str(&mut m, " is ");
                push_i64(&mut m, *epoch_secs);
                push_str(
                    &mut m,
                    " (beyond the year 2100) — implausibly far in the future; consistent with a misconfigured clock or timestamp tampering",
                );
            },
            AnomalyKind::ControlCharsInName { path } => {
                push_str(&mut m, "entry ");
                push_ticked(&mut m, path);
                push_str(
                    &mut m,
                    " contains non-printable control byte(s) in its name — consistent with an attempt to obscure the true filename in a terminal listing",
                );
            },
        }
        assert(m@ =~= note_of(self@));
        chars_to_string(&m)
    }
}

/// A forensic anomaly: a kind with its derived severity, code and note.
#[derive(Debug, Clone, PartialEq, Eq)]
pub struct Anomaly {
    /// Severity, derived from `kind`.
    pub severity: Severity,
    /// Stable machine-readable code, derived from `kind`.
    pub code: &'static str,
    /// The classified anomaly with its evidence.
    pub kind: AnomalyKind,
    /// Human-readable note, derived from `kind`.
    pub note: String,
}

/// Whether an anomaly's severity, code and note are those of its kind.
pub open spec fn derived(a: Anomaly) -> bool {
    &&& a.severity == severity_of(a.kind@)
    &&& a.code@ == code_of(a.kind@)
    &&& a.note@ == note_of(a.kind@)
}

pub open spec fn display_of(a: Anomaly) -> Seq<char> {
    seq!['['] + severity_label(a.severity) + "] "@ + a.code@ + ": "@ + a.note@
}

impl Anomaly {
    /// Build an anomaly, deriving severity, code and note from `kind`.
    pub fn new(kind: AnomalyKind) -> (a: Anomaly)
        ensures
            a.kind@ == kind@,
            derived(a),
    {
        let severity = kind.severity();
        let code = kind.code();
        let note = kind.note();
        Anomaly { severity, code, kind, note }
    }

    /// The display line `[SEVERITY] CODE: note`.
    pub fn display(&self) -> (s: String)
        ensures
            s@ == display_of(*self),
    {
        let mut m: Vec<char> = Vec::new();
        m.push('[');
        push_str(&mut m, self.severity.label());
        push_str(&mut m, "] ");
        push_str(&mut m, self.code);
        push_str(&mut m, ": ");
        push_str(&mut m, self.note.as_str());
        assert(m@ =~= display_of(*self));
        chars_to_string(&m)
    }
}


/// The path a kind concerns; the incomplete-catalogue kind concerns none.
pub open spec fn path_of(k: KindModel) -> Option<Seq<char>> {
    match k {
        KindModel::IncompleteCatalog(_) => None,
        KindModel::UnsupportedCodec(p, _) => Some(p),
        KindModel::AbsolutePath(p) => Some(p),
        KindModel::ParentTraversal(p) => Some(p),
        KindModel::DuplicatePath(p) => Some(p),
        KindModel::FutureTimestamp(p, _, _) => Some(p),
        KindModel::ControlCharsInName(p) => Some(p),
    }
}

proof fn lemma_prefix(a: Seq<char>, b: Seq<char>)
    ensures
        (a + b).subrange(0, a.len() as int) == a,
{
    assert((a + b).subrange(0, a.len() as int) =~= a);
}

/// A note opens with what it is about: a note on an entry starts with
/// `entry ` and the path in backticks (a duplicate's with `path `); the
/// incomplete-catalogue note starts with the number of entries recovered.
/// Each note also names the evidence: the codec letter, the timestamp field
/// and its value.
pub proof fn note_names_its_subject(k: KindModel)
    ensures
        k matches KindModel::DuplicatePath(p) ==> note_of(k).subrange(0, 5 + p.len() as int + 2) == "path "@
            + ticked(p),
        (path_of(k) is Some && !(k is DuplicatePath)) ==> note_of(k).subrange(
            0,
            6 + path_of(k)->Some_0.len() as int + 2,
        ) == "entry "@ + ticked(path_of(k)->Some_0),
        k matches KindModel::IncompleteCatalog(n) ==> note_of(k).subrange(
            0,
            ("catalogue parsing stopped after recovering "@.len() + decimal(n).len()) as int,
        ) == "catalogue parsing stopped after recovering "@ + decimal(n),
        k matches KindModel::UnsupportedCodec(p, c) ==> note_of(k).subrange(
            6 + p.len() as int + 2 + 26,
            6 + p.len() as int + 2 + 26 + 3,
        ) == ticked(seq![c]),
        k matches KindModel::FutureTimestamp(p, f, t) ==> note_of(k).subrange(
            6 + p.len() as int + 3,
            6 + p.len() as int + 3 + f.len() + 4 + signed_decimal(t as int).len(),
        ) == f + " is "@ + signed_decimal(t as int),
{
    reveal_strlit("entry ");
    reveal_strlit("path ");
    reveal_strlit(" is compressed with codec ");
    reveal_strlit(" is ");
    match k {
        KindModel::IncompleteCatalog(n) => {
            let a = "catalogue parsing stopped after recovering "@ + decimal(n);
            let b = " entries, before a clean root end-of-directory — the listing may be truncated; consistent with a partial or damaged archive, or an entry type this reader does not model"@;
            lemma_prefix(a, b);
        },
        KindModel::UnsupportedCodec(p, c) => {
            let a = "entry "@ + ticked(p);
            let rest = " is compressed with codec "@ + ticked(seq![c])
                + ", which this reader recognises but does not decode — its data cannot be extracted; consistent with an archive written by a dar build with more codecs"@;
            assert(note_of(k) =~= a + rest);
            lemma_prefix(a, rest);
            assert(note_of(k).subrange(6 + p.len() as int + 2 + 26, 6 + p.len() as int + 2 + 26 + 3) =~= ticked(seq![c]));
        },
        KindModel::AbsolutePath(p) => {
            let a = "entry "@ + ticked(p);
            assert(note_of(k) =~= a + note_of(k).subrange(a.len() as int, note_of(k).len() as int));
            lemma_prefix(a, note_of(k).subrange(a.len() as int, note_of(k).len() as int));
        },
        KindModel::ParentTraversal(p) => {
            let a = "entry "@ + ticked(p);
            assert(note_of(k) =~= a + note_of(k).subrange(a.len() as int, note_of(k).len() as int));
            lemma_prefix(a, note_of(k).subrange(a.len() as int, note_of(k).len() as int));
        },
        KindModel::ControlCharsInName(p) => {
            let a = "entry "@ + ticked(p);
            assert(note_of(k) =~= a + note_of(k).subrange(a.len() as int, note_of(k).len() as int));
            lemma_prefix(a, note_of(k).subrange(a.len() as int, note_of(k).len() as int));
        },
        KindModel::DuplicatePath(p) => {
            let a = "path "@ + ticked(p);
            assert(note_of(k) =~= a + note_of(k).subrange(a.len() as int, note_of(k).len() as int));
            lemma_prefix(a, note_of(k).subrange(a.len() as int, note_of(k).len() as int));
        },
        KindModel::FutureTimestamp(p, f, t) => {
            let a = "entry "@ + ticked(p);
            assert(note_of(k) =~= a + note_of(k).subrange(a.len() as int, note_of(k).len() as int));
            lemma_prefix(a, note_of(k).subrange(a.len() as int, note_of(k).len() as int));
            assert(note_of(k).subrange(6 + p.len() as int + 3, 6 + p.len() as int + 3 + f.len() + 4 + signed_decimal(
                t as int,
            ).len()) =~= f + " is "@ + signed_decimal(t as int));
        },
    }
}

} // verus!
