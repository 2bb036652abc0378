//! The catalogue audit: which anomalies each entry shows, and their order,
//! most severe first, catalogue order kept within one severity.

use vstd::prelude::*;
use vstd::slice::slice_to_vec;

use crate::catalog::{EntryModel, EntryRef, entries_view};
use crate::codec::{spec_unsupported_codec, unsupported_codec};
use crate::findings::{Anomaly, AnomalyKind, KindModel, Severity, derived, rank, severity_of};
use crate::index::{PathIndex, count_path_before, paths_view};
use crate::reader::{lossy_string, utf8_lossy};

verus! {

/// Epoch seconds of 2100-01-01T00:00:00Z; later timestamps are flagged.
pub const FAR_FUTURE_EPOCH_SECS: i64 = 4102444800;

/// One observation, before its text is rendered: the entry it concerns (by
/// catalogue index) and the evidence.
#[derive(Debug, Clone, Copy, PartialEq, Eq, Structural)]
pub enum Finding {
    Incomplete,
    Codec(usize, char),
    Absolute(usize),
    Traversal(usize),
    Control(usize),
    /// Timestamp field: 0 atime, 1 mtime, 2 ctime.
    Future(usize, u8, i64),
    Duplicate(usize),
}

pub open spec fn finding_severity(f: Finding) -> Severity {
    match f {
        Finding::Incomplete => Severity::High,
        Finding::Codec(_, _) => Severity::Medium,
        Finding::Absolute(_) => Severity::Medium,
        Finding::Traversal(_) => Severity::Medium,
        Finding::Control(_) => Severity::Low,
        Finding::Future(_, _, _) => Severity::Low,
        Finding::Duplicate(_) => Severity::Low,
    }
}

/// Whether a `/`-separated path has a component that is exactly `..`.
pub open spec fn has_parent_component(p: Seq<u8>) -> bool {
    exists|i: int| #[trigger] dotdot_at(p, i)
}

/// A `..` component starts at `i`.
pub open spec fn dotdot_at(p: Seq<u8>, i: int) -> bool {
    0 <= i && i + 2 <= p.len() && (i == 0 || p[i - 1] == 0x2f) && p[i] == 0x2e && p[i + 1]
        == 0x2e && (i + 2 == p.len() || p[i + 2] == 0x2f)
}

/// Whether a path holds a control byte (below `0x20`, or `0x7f`).
pub open spec fn has_control_byte(p: Seq<u8>) -> bool {
    exists|i: int| 0 <= i < p.len() && (p[i] < 0x20 || p[i] == 0x7f)
}

/// The paths of the entries, in catalogue order.
pub open spec fn path_list(es: Seq<EntryModel>) -> Seq<Seq<u8>> {
    es.map_values(|e: EntryModel| e.path)
}

pub open spec fn opt(b: bool, f: Finding) -> Seq<Finding> {
    if b {
        seq![f]
    } else {
        Seq::empty()
    }
}

pub open spec fn codec_part(e: EntryModel, u: usize) -> Seq<Finding> {
    match spec_unsupported_codec(e.compression) {
        Some(c) => seq![Finding::Codec(u, c)],
        None => Seq::empty(),
    }
}

pub open spec fn name_part(e: EntryModel, u: usize) -> Seq<Finding> {
    opt(e.path.len() > 0 && e.path[0] == 0x2f, Finding::Absolute(u)) + opt(
        has_parent_component(e.path),
        Finding::Traversal(u),
    ) + opt(has_control_byte(e.path), Finding::Control(u))
}

pub open spec fn ctime_part(e: EntryModel, u: usize) -> Seq<Finding> {
    match e.ctime {
        Some(c) => opt(c > FAR_FUTURE_EPOCH_SECS, Finding::Future(u, 2, c)),
        None => Seq::empty(),
    }
}

pub open spec fn time_part(e: EntryModel, u: usize) -> Seq<Finding> {
    opt(e.atime > FAR_FUTURE_EPOCH_SECS, Finding::Future(u, 0, e.atime)) + opt(
        e.mtime > FAR_FUTURE_EPOCH_SECS,
        Finding::Future(u, 1, e.mtime),
    ) + ctime_part(e, u)
}

/// The findings of entry `i`, in the order they are checked: an undecodable
/// codec, an absolute path, a `..` component, control bytes, each timestamp
/// beyond 2100, and a duplicated path (reported once, at its second sighting).
pub open spec fn entry_findings(es: Seq<EntryModel>, i: int) -> Seq<Finding> {
    codec_part(es[i], i as usize) + name_part(es[i], i as usize) + time_part(es[i], i as usize)
        + opt(
            count_path_before(path_list(es), es[i].path, i) == 1,
            Finding::Duplicate(i as usize),
        )
}

/// The findings of the first `n` entries, in catalogue order.
pub open spec fn findings_upto(es: Seq<EntryModel>, n: int) -> Seq<Finding>
    decreases n,
{
    if n <= 0 {
        Seq::empty()
    } else {
        findings_upto(es, n - 1) + entry_findings(es, n - 1)
    }
}

/// Every finding: an incomplete catalogue first, then the entries' findings.
pub open spec fn raw_findings(es: Seq<EntryModel>, complete: bool) -> Seq<Finding> {
    opt(!complete, Finding::Incomplete) + findings_upto(es, es.len() as int)
}

/// The findings of severity `s`, in their input order.
pub open spec fn pick(fs: Seq<Finding>, s: Severity) -> Seq<Finding>
    decreases fs.len(),
{
    if fs.len() == 0 {
        Seq::empty()
    } else if finding_severity(fs.last()) == s {
        pick(fs.drop_last(), s).push(fs.last())
    } else {
        pick(fs.drop_last(), s)
    }
}

/// The findings ordered most severe first, keeping the input order within
/// one severity (a stable sort by descending severity).
pub open spec fn by_severity(fs: Seq<Finding>) -> Seq<Finding> {
    pick(fs, Severity::Critical) + pick(fs, Severity::High) + pick(fs, Severity::Medium) + pick(
        fs,
        Severity::Low,
    ) + pick(fs, Severity::Info)
}

pub open spec fn field_name(w: u8) -> Seq<char> {
    if w == 0 {
        "atime"@
    } else if w == 1 {
        "mtime"@
    } else {
        "ctime"@
    }
}

/// The anomaly kind a finding renders to.
pub open spec fn kind_of(es: Seq<EntryModel>, f: Finding) -> KindModel {
    match f {
        Finding::Incomplete => KindModel::IncompleteCatalog(es.len()),
        Finding::Codec(i, c) => KindModel::UnsupportedCodec(utf8_lossy(es[i as int].path), c),
        Finding::Absolute(i) => KindModel::AbsolutePath(utf8_lossy(es[i as int].path)),
        Finding::Traversal(i) => KindModel::ParentTraversal(utf8_lossy(es[i as int].path)),
        Finding::Control(i) => KindModel::ControlCharsInName(utf8_lossy(es[i as int].path)),
        Finding::Future(i, w, t) => KindModel::FutureTimestamp(
            utf8_lossy(es[i as int].path),
            field_name(w),
            t,
        ),
        Finding::Duplicate(i) => KindModel::DuplicatePath(utf8_lossy(es[i as int].path)),
    }
}

/// The audit of a catalogue: its findings, most severe first, rendered.
pub open spec fn spec_audit(es: Seq<EntryModel>, complete: bool) -> Seq<KindModel> {
    by_severity(raw_findings(es, complete)).map_values(|f: Finding| kind_of(es, f))
}

// ── exec ────────────────────────────────────────────────────────────────────

fn severity_of_finding(f: Finding) -> (s: Severity)
    ensures
        s == finding_severity(f),
{
    match f {
        Finding::Incomplete => Severity::High,
        Finding::Codec(_, _) => Severity::Medium,
        Finding::Absolute(_) => Severity::Medium,
        Finding::Traversal(_) => Severity::Medium,
        Finding::Control(_) => Severity::Low,
        Finding::Future(_, _, _) => Severity::Low,
        Finding::Duplicate(_) => Severity::Low,
    }
}

/// Whether a path has a `..` component.
pub fn parent_component(p: &[u8]) -> (b: bool)
    ensures
        b == has_parent_component(p@),
{
    let n = p.len();
    let mut i: usize = 0;
    while i < n && n - i >= 2
        invariant
            n == p@.len(),
            forall|k: int| 0 <= k < i ==> !#[trigger] dotdot_at(p@, k),
        decreases n - i,
    {
        if (i == 0 || p[i - 1] == 0x2f) && p[i] == 0x2e && p[i + 1] == 0x2e && (i + 2 == n || p[i
            + 2] == 0x2f) {
            assert(dotdot_at(p@, i as int));
            return true;
        }
        i = i + 1;
    }
    assert forall|k: int| !dotdot_at(p@, k) by {
        if 0 <= k < i {
        }
    }
    false
}

/// Whether a path holds a control byte.
pub fn control_byte(p: &[u8]) -> (b: bool)
    ensures
        b == has_control_byte(p@),
{
    let mut i: usize = 0;
    while i < p.len()
        invariant
            i <= p@.len(),
            forall|k: int| 0 <= k < i ==> !(p@[k] < 0x20 || p@[k] == 0x7f),
        decreases p.len() - i,
    {
        if p[i] < 0x20 || p[i] == 0x7f {
            return true;
        }
        i = i + 1;
    }
    false
}

fn push_opt(out: &mut Vec<Finding>, b: bool, f: Finding)
    ensures
        final(out)@ == old(out)@ + opt(b, f),
{
    if b {
        out.push(f);
        assert(final(out)@ =~= old(out)@ + seq![f]);
    } else {
        assert(old(out)@ + Seq::<Finding>::empty() =~= old(out)@);
    }
}

fn push_codec(out: &mut Vec<Finding>, e: &EntryRef, i: usize)
    ensures
        final(out)@ == old(out)@ + codec_part(e@, i),
{
    match unsupported_codec(e.compression) {
        Some(c) => {
            out.push(Finding::Codec(i, c));
            assert(final(out)@ =~= old(out)@ + codec_part(e@, i));
        },
        None => {
            assert(old(out)@ =~= old(out)@ + codec_part(e@, i));
        },
    }
}

fn push_name(out: &mut Vec<Finding>, e: &EntryRef, i: usize)
    ensures
        final(out)@ == old(out)@ + name_part(e@, i),
{
    let ghost s0 = out@;
    push_opt(out, e.path.len() > 0 && e.path[0] == 0x2f, Finding::Absolute(i));
    push_opt(out, parent_component(e.path.as_slice()), Finding::Traversal(i));
    push_opt(out, control_byte(e.path.as_slice()), Finding::Control(i));
    assert(out@ =~= s0 + name_part(e@, i));
}

fn push_times(out: &mut Vec<Finding>, e: &EntryRef, i: usize)
    ensures
        final(out)@ == old(out)@ + time_part(e@, i),
{
    let ghost s0 = out@;
    push_opt(out, e.atime > FAR_FUTURE_EPOCH_SECS, Finding::Future(i, 0, e.atime));
    push_opt(out, e.mtime > FAR_FUTURE_EPOCH_SECS, Finding::Future(i, 1, e.mtime));
    let ghost s2 = out@;
    match e.ctime {
        Some(c) => {
            push_opt(out, c > FAR_FUTURE_EPOCH_SECS, Finding::Future(i, 2, c));
        },
        None => {},
    }
    assert(out@ =~= s2 + ctime_part(e@, i));
    assert(out@ =~= s0 + time_part(e@, i));
}

/// Append the findings of entry `i`.
fn push_entry_findings(out: &mut Vec<Finding>, es: &[EntryRef], index: &PathIndex, i: usize)
    requires
        i < es@.len(),
        index.wf(),
        index.paths() == path_list(entries_view(es@)),
    ensures
        final(out)@ == old(out)@ + entry_findings(entries_view(es@), i as int),
{
    let ghost v = entries_view(es@);
    let e = &es[i];
    let ghost em = e@;
    assert(v[i as int] == em);
    let ghost s0 = out@;
    push_codec(out, e, i);
    let ghost s1 = out@;
    push_name(out, e, i);
    let ghost s2 = out@;
    push_times(out, e, i);
    let ghost s3 = out@;
    let dup = index.seen_once_before(i);
    push_opt(out, dup, Finding::Duplicate(i));
    proof {
        let a = codec_part(em, i);
        let b = name_part(em, i);
        let c = time_part(em, i);
        let d = opt(dup, Finding::Duplicate(i));
        vstd::seq_lib::lemma_concat_associative(s0, a, b);
        vstd::seq_lib::lemma_concat_associative(s0, a + b, c);
        vstd::seq_lib::lemma_concat_associative(s0, a + b + c, d);
        assert(entry_findings(v, i as int) == a + b + c + d);
    }
}

/// Every finding of the catalogue, unsorted.
/// The paths of `es`, indexed.
fn path_index(es: &[EntryRef]) -> (index: PathIndex)
    ensures
        index.wf(),
        index.paths() == path_list(entries_view(es@)),
{
    let ghost v = entries_view(es@);
    let mut paths: Vec<Vec<u8>> = Vec::new();
    let mut i: usize = 0;
    while i < es.len()
        invariant
            v == entries_view(es@),
            i <= es@.len(),
            paths@.len() == i,
            paths_view(paths@) == path_list(v).subrange(0, i as int),
        decreases es.len() - i,
    {
        let p = slice_to_vec(es[i].path.as_slice());
        assert(p@ == v[i as int].path);
        let ghost old_paths = paths@;
        paths.push(p);
        proof {
            let t = path_list(v).subrange(0, i + 1);
            assert forall|k: int| 0 <= k <= i implies #[trigger] paths_view(paths@)[k] == t[k] by {
                if k < i {
                    assert(paths@[k] == old_paths[k]);
                    assert(paths_view(old_paths)[k] == old_paths[k]@);
                }
            }
            assert(paths_view(paths@) =~= t);
        }
        i = i + 1;
    }
    assert(path_list(v).subrange(0, v.len() as int) =~= path_list(v));
    PathIndex::new(paths)
}

fn collect_findings(es: &[EntryRef], complete: bool) -> (out: Vec<Finding>)
    ensures
        out@ == raw_findings(entries_view(es@), complete),
{
    let ghost v = entries_view(es@);
    let index = path_index(es);
    let mut out: Vec<Finding> = Vec::new();
    push_opt(&mut out, !complete, Finding::Incomplete);
    let ghost head = out@;
    assert(findings_upto(v, 0) =~= Seq::<Finding>::empty());
    assert(head =~= head + findings_upto(v, 0));
    let mut i: usize = 0;
    while i < es.len()
        invariant
            i <= es@.len(),
            v == entries_view(es@),
            head == opt(!complete, Finding::Incomplete),
            out@ == head + findings_upto(v, i as int),
            index.wf(),
            index.paths() == path_list(v),
        decreases es.len() - i,
    {
        push_entry_findings(&mut out, es, &index, i);
        proof {
            assert(findings_upto(v, i + 1) == findings_upto(v, i as int) + entry_findings(v, i as int));
            assert(out@ =~= head + findings_upto(v, i + 1));
        }
        i = i + 1;
    }
    out
}

/// The findings of one severity, in order.
fn pick_exec(fs: &Vec<Finding>, s: Severity, out: &mut Vec<Finding>)
    ensures
        final(out)@ == old(out)@ + pick(fs@, s),
{
    let ghost start = out@;
    let mut i: usize = 0;
    assert(fs@.subrange(0, 0) =~= Seq::<Finding>::empty());
    assert(start =~= start + pick(fs@.subrange(0, 0), s));
    while i < fs.len()
        invariant
            i <= fs@.len(),
            out@ == start + pick(fs@.subrange(0, i as int), s),
        decreases fs.len() - i,
    {
        let f = fs[i];
        proof {
            assert(fs@.subrange(0, i + 1).drop_last() =~= fs@.subrange(0, i as int));
            assert(fs@.subrange(0, i + 1).last() == f);
        }
        if severity_of_finding(f) == s {
            out.push(f);
            assert(out@ =~= start + pick(fs@.subrange(0, i + 1), s));
        }
        i = i + 1;
    }
    assert(fs@.subrange(0, fs@.len() as int) =~= fs@);
}

/// A stable sort of the findings by descending severity.
fn sort_findings(fs: &Vec<Finding>) -> (out: Vec<Finding>)
    ensures
        out@ == by_severity(fs@),
{
    let mut out: Vec<Finding> = Vec::new();
    pick_exec(fs, Severity::Critical, &mut out);
    pick_exec(fs, Severity::High, &mut out);
    pick_exec(fs, Severity::Medium, &mut out);
    pick_exec(fs, Severity::Low, &mut out);
    pick_exec(fs, Severity::Info, &mut out);
    assert(out@ =~= by_severity(fs@));
    out
}

/// The anomaly a finding renders to.
fn render(es: &[EntryRef], f: Finding) -> (a: Anomaly)
    requires
        match f {
            Finding::Incomplete => true,
            Finding::Codec(i, _) => i < es@.len(),
            Finding::Absolute(i) => i < es@.len(),
            Finding::Traversal(i) => i < es@.len(),
            Finding::Control(i) => i < es@.len(),
            Finding::Future(i, _, _) => i < es@.len(),
            Finding::Duplicate(i) => i < es@.len(),
        },
    ensures
        a.kind@ == kind_of(entries_view(es@), f),
        derived(a),
{
    let ghost v = entries_view(es@);
    let kind = match f {
        Finding::Incomplete => AnomalyKind::IncompleteCatalog { entries_recovered: es.len() },
        Finding::Codec(i, c) => {
            assert(v[i as int] == es@[i as int]@);
            AnomalyKind::UnsupportedCodec { path: lossy_string(es[i].path.as_slice()), codec: c }
        },
        Finding::Absolute(i) => {
            assert(v[i as int] == es@[i as int]@);
            AnomalyKind::AbsolutePath { path: lossy_string(es[i].path.as_slice()) }
        },
        Finding::Traversal(i) => {
            assert(v[i as int] == es@[i as int]@);
            AnomalyKind::ParentTraversal { path: lossy_string(es[i].path.as_slice()) }
        },
        Finding::Control(i) => {
            assert(v[i as int] == es@[i as int]@);
            AnomalyKind::ControlCharsInName { path: lossy_string(es[i].path.as_slice()) }
        },
        Finding::Future(i, w, t) => {
            assert(v[i as int] == es@[i as int]@);
            let field: &'static str = if w == 0 {
                "atime"
            } else if w == 1 {
                "mtime"
            } else {
                "ctime"
            };
            AnomalyKind::FutureTimestamp {
                path: lossy_string(es[i].path.as_slice()),
                field,
                epoch_secs: t,
            }
        },
        Finding::Duplicate(i) => {
            assert(v[i as int] == es@[i as int]@);
            AnomalyKind::DuplicatePath { path: lossy_string(es[i].path.as_slice()) }
        },
    };
    Anomaly::new(kind)
}

/// Every finding refers to an existing entry.
pub open spec fn finding_in_range(f: Finding, n: int) -> bool {
    match f {
        Finding::Incomplete => true,
        Finding::Codec(i, _) => i < n,
        Finding::Absolute(i) => i < n,
        Finding::Traversal(i) => i < n,
        Finding::Control(i) => i < n,
        Finding::Future(i, _, _) => i < n,
        Finding::Duplicate(i) => i < n,
    }
}

pub open spec fn all_in_range(fs: Seq<Finding>, n: int) -> bool {
    forall|k: int| 0 <= k < fs.len() ==> finding_in_range(#[trigger] fs[k], n)
}

proof fn lemma_opt_in_range(b: bool, f: Finding, n: int)
    requires
        finding_in_range(f, n),
    ensures
        all_in_range(opt(b, f), n),
{
}

proof fn lemma_entry_in_range(es: Seq<EntryModel>, i: int)
    requires
        0 <= i < es.len(),
    ensures
        all_in_range(entry_findings(es, i), es.len() as int),
{
    let n = es.len() as int;
    let e = es[i];
    let u = i as usize;
    lemma_opt_in_range(e.path.len() > 0 && e.path[0] == 0x2f, Finding::Absolute(u), n);
    lemma_opt_in_range(has_parent_component(e.path), Finding::Traversal(u), n);
    lemma_opt_in_range(has_control_byte(e.path), Finding::Control(u), n);
    lemma_concat_in_range(opt(e.path.len() > 0 && e.path[0] == 0x2f, Finding::Absolute(u)), opt(has_parent_component(e.path), Finding::Traversal(u)), n);
    lemma_concat_in_range(opt(e.path.len() > 0 && e.path[0] == 0x2f, Finding::Absolute(u)) + opt(has_parent_component(e.path), Finding::Traversal(u)), opt(has_control_byte(e.path), Finding::Control(u)), n);
    assert(all_in_range(name_part(e, u), n));
    lemma_opt_in_range(e.atime > FAR_FUTURE_EPOCH_SECS, Finding::Future(u, 0, e.atime), n);
    lemma_opt_in_range(e.mtime > FAR_FUTURE_EPOCH_SECS, Finding::Future(u, 1, e.mtime), n);
    match e.ctime {
        Some(c) => lemma_opt_in_range(c > FAR_FUTURE_EPOCH_SECS, Finding::Future(u, 2, c), n),
        None => {},
    }
    lemma_concat_in_range(opt(e.atime > FAR_FUTURE_EPOCH_SECS, Finding::Future(u, 0, e.atime)), opt(e.mtime > FAR_FUTURE_EPOCH_SECS, Finding::Future(u, 1, e.mtime)), n);
    lemma_concat_in_range(opt(e.atime > FAR_FUTURE_EPOCH_SECS, Finding::Future(u, 0, e.atime)) + opt(e.mtime > FAR_FUTURE_EPOCH_SECS, Finding::Future(u, 1, e.mtime)), ctime_part(e, u), n);
    assert(all_in_range(time_part(e, u), n));
    assert(all_in_range(codec_part(e, u), n));
    lemma_opt_in_range(count_path_before(path_list(es), es[i].path, i) == 1, Finding::Duplicate(u), n);
    lemma_concat_in_range(codec_part(e, u), name_part(e, u), n);
    lemma_concat_in_range(codec_part(e, u) + name_part(e, u), time_part(e, u), n);
    lemma_concat_in_range(codec_part(e, u) + name_part(e, u) + time_part(e, u), opt(count_path_before(path_list(es), es[i].path, i) == 1, Finding::Duplicate(u)), n);
}

proof fn lemma_findings_in_range(es: Seq<EntryModel>, n: int)
    requires
        0 <= n <= es.len(),
    ensures
        all_in_range(findings_upto(es, n), es.len() as int),
    decreases n,
{
    if n > 0 {
        lemma_findings_in_range(es, n - 1);
        lemma_entry_in_range(es, n - 1);
        lemma_concat_in_range(findings_upto(es, n - 1), entry_findings(es, n - 1), es.len() as int);
    }
}

proof fn lemma_pick_in_range(fs: Seq<Finding>, s: Severity, n: int)
    requires
        all_in_range(fs, n),
    ensures
        all_in_range(pick(fs, s), n),
    decreases fs.len(),
{
    if fs.len() > 0 {
        let d = fs.drop_last();
        assert forall|k: int| 0 <= k < d.len() implies finding_in_range(#[trigger] d[k], n) by {
            assert(d[k] == fs[k]);
        }
        lemma_pick_in_range(d, s, n);
        assert(finding_in_range(fs[fs.len() - 1], n));
        let p = pick(d, s);
        if finding_severity(fs.last()) == s {
            assert forall|k: int| 0 <= k < p.push(fs.last()).len() implies finding_in_range(#[trigger] p.push(fs.last())[k], n) by {
                if k < p.len() {
                    assert(p.push(fs.last())[k] == p[k]);
                }
            }
        }
    }
}

proof fn lemma_concat_in_range(a: Seq<Finding>, b: Seq<Finding>, n: int)
    requires
        all_in_range(a, n),
        all_in_range(b, n),
    ensures
        all_in_range(a + b, n),
{
    assert forall|k: int| 0 <= k < (a + b).len() implies finding_in_range(#[trigger] (a + b)[k], n) by {
        if k < a.len() {
            assert((a + b)[k] == a[k]);
        } else {
            assert((a + b)[k] == b[k - a.len()]);
        }
    }
}

proof fn lemma_sorted_in_range(es: Seq<EntryModel>, complete: bool)
    ensures
        all_in_range(by_severity(raw_findings(es, complete)), es.len() as int),
{
    let n = es.len() as int;
    lemma_findings_in_range(es, n);
    let head = opt(!complete, Finding::Incomplete);
    lemma_opt_in_range(!complete, Finding::Incomplete, n);
    lemma_concat_in_range(head, findings_upto(es, n), n);
    let fs = raw_findings(es, complete);
    lemma_pick_in_range(fs, Severity::Critical, n);
    lemma_pick_in_range(fs, Severity::High, n);
    lemma_pick_in_range(fs, Severity::Medium, n);
    lemma_pick_in_range(fs, Severity::Low, n);
    lemma_pick_in_range(fs, Severity::Info, n);
    let p0 = pick(fs, Severity::Critical);
    let p1 = pick(fs, Severity::High);
    let p2 = pick(fs, Severity::Medium);
    let p3 = pick(fs, Severity::Low);
    let p4 = pick(fs, Severity::Info);
    lemma_concat_in_range(p0, p1, n);
    lemma_concat_in_range(p0 + p1, p2, n);
    lemma_concat_in_range(p0 + p1 + p2, p3, n);
    lemma_concat_in_range(p0 + p1 + p2 + p3, p4, n);
}

/// Audit a catalogue: every anomaly, most severe first, catalogue order kept
/// within one severity.
pub fn audit_entries(es: &[EntryRef], complete: bool) -> (out: Vec<Anomaly>)
    ensures
        out@.len() == spec_audit(entries_view(es@), complete).len(),
        forall|i: int| 0 <= i < out@.len() ==> {
            &&& (#[trigger] out@[i]).kind@ == spec_audit(entries_view(es@), complete)[i]
            &&& derived(out@[i])
        },
{
    let ghost v = entries_view(es@);
    let raw = collect_findings(es, complete);
    let sorted = sort_findings(&raw);
    proof {
        lemma_sorted_in_range(v, complete);
    }
    let mut out: Vec<Anomaly> = Vec::new();
    let mut i: usize = 0;
    while i < sorted.len()
        invariant
            v == entries_view(es@),
            sorted@ == by_severity(raw_findings(v, complete)),
            all_in_range(sorted@, v.len() as int),
            i <= sorted@.len(),
            out@.len() == i,
            forall|k: int| 0 <= k < i ==> {
                &&& (#[trigger] out@[k]).kind@ == kind_of(v, sorted@[k])
                &&& derived(out@[k])
            },
        decreases sorted.len() - i,
    {
        let f = sorted[i];
        assert(finding_in_range(sorted@[i as int], v.len() as int));
        let a = render(es, f);
        out.push(a);
        i = i + 1;
    }
    out
}

// ── laws ────────────────────────────────────────────────────────────────────

/// The kinds of `ks` with severity `s`, in their order.
pub open spec fn kinds_of_severity(ks: Seq<KindModel>, s: Severity) -> Seq<KindModel>
    decreases ks.len(),
{
    if ks.len() == 0 {
        Seq::empty()
    } else if severity_of(ks.last()) == s {
        kinds_of_severity(ks.drop_last(), s).push(ks.last())
    } else {
        kinds_of_severity(ks.drop_last(), s)
    }
}

proof fn lemma_kind_severity(es: Seq<EntryModel>, f: Finding)
    ensures
        severity_of(kind_of(es, f)) == finding_severity(f),
{
}

proof fn lemma_pick_all(fs: Seq<Finding>, s: Severity)
    ensures
        forall|k: int| 0 <= k < pick(fs, s).len() ==> finding_severity(#[trigger] pick(fs, s)[k]) == s,
    decreases fs.len(),
{
    if fs.len() > 0 {
        lemma_pick_all(fs.drop_last(), s);
    }
}

proof fn lemma_pick_concat(a: Seq<Finding>, b: Seq<Finding>, s: Severity)
    ensures
        pick(a + b, s) == pick(a, s) + pick(b, s),
    decreases b.len(),
{
    if b.len() == 0 {
        assert(a + b =~= a);
        assert(pick(b, s) =~= Seq::<Finding>::empty());
        assert(pick(a, s) + pick(b, s) =~= pick(a, s));
    } else {
        lemma_pick_concat(a, b.drop_last(), s);
        assert((a + b).drop_last() =~= a + b.drop_last());
        assert((a + b).last() == b.last());
        if finding_severity(b.last()) == s {
            assert(pick(a, s) + pick(b.drop_last(), s).push(b.last()) =~= (pick(a, s) + pick(
                b.drop_last(),
                s,
            )).push(b.last()));
        }
    }
}

proof fn lemma_pick_pick(fs: Seq<Finding>, s: Severity, t: Severity)
    ensures
        pick(pick(fs, s), t) == if s == t {
            pick(fs, s)
        } else {
            Seq::<Finding>::empty()
        },
    decreases fs.len(),
{
    if fs.len() > 0 {
        lemma_pick_pick(fs.drop_last(), s, t);
        if finding_severity(fs.last()) == s {
            let p = pick(fs.drop_last(), s).push(fs.last());
            assert(p.drop_last() =~= pick(fs.drop_last(), s));
        }
    } else {
        assert(pick(pick(fs, s), t) =~= Seq::<Finding>::empty());
    }
}

/// Every finding has exactly one severity, so the five picks together are
/// as long as the whole.
proof fn lemma_pick_lengths(fs: Seq<Finding>)
    ensures
        pick(fs, Severity::Critical).len() + pick(fs, Severity::High).len() + pick(fs, Severity::Medium).len()
            + pick(fs, Severity::Low).len() + pick(fs, Severity::Info).len() == fs.len(),
    decreases fs.len(),
{
    if fs.len() > 0 {
        lemma_pick_lengths(fs.drop_last());
    }
}

proof fn lemma_kinds_map(es: Seq<EntryModel>, fs: Seq<Finding>, s: Severity)
    ensures
        kinds_of_severity(fs.map_values(|f: Finding| kind_of(es, f)), s) == pick(fs, s).map_values(
            |f: Finding| kind_of(es, f),
        ),
    decreases fs.len(),
{
    let m = fs.map_values(|f: Finding| kind_of(es, f));
    if fs.len() > 0 {
        lemma_kinds_map(es, fs.drop_last(), s);
        assert(m.drop_last() =~= fs.drop_last().map_values(|f: Finding| kind_of(es, f)));
        lemma_kind_severity(es, fs.last());
        if finding_severity(fs.last()) == s {
            assert(pick(fs, s).map_values(|f: Finding| kind_of(es, f)) =~= pick(fs.drop_last(), s).map_values(
                |f: Finding| kind_of(es, f),
            ).push(kind_of(es, fs.last())));
        }
    } else {
        assert(m =~= Seq::<KindModel>::empty());
        assert(pick(fs, s).map_values(|f: Finding| kind_of(es, f)) =~= Seq::<KindModel>::empty());
    }
}

/// The findings of `by_severity(fs)` at or above the block of `s` come first.
proof fn lemma_by_severity_sorted(fs: Seq<Finding>)
    ensures
        forall|i: int, j: int|
            0 <= i < j < by_severity(fs).len() ==> rank(finding_severity(#[trigger] by_severity(fs)[i]))
                >= rank(finding_severity(#[trigger] by_severity(fs)[j])),
{
    let p0 = pick(fs, Severity::Critical);
    let p1 = pick(fs, Severity::High);
    let p2 = pick(fs, Severity::Medium);
    let p3 = pick(fs, Severity::Low);
    let p4 = pick(fs, Severity::Info);
    lemma_pick_all(fs, Severity::Critical);
    lemma_pick_all(fs, Severity::High);
    lemma_pick_all(fs, Severity::Medium);
    lemma_pick_all(fs, Severity::Low);
    lemma_pick_all(fs, Severity::Info);
    let b = by_severity(fs);
    let l0 = p0.len() as int;
    let l1 = l0 + p1.len();
    let l2 = l1 + p2.len();
    let l3 = l2 + p3.len();
    assert forall|k: int| 0 <= k < b.len() implies rank(finding_severity(#[trigger] b[k])) == if k < l0 {
        4int
    } else if k < l1 {
        3int
    } else if k < l2 {
        2int
    } else if k < l3 {
        1int
    } else {
        0int
    } by {
        if k < l0 {
            assert(b[k] == p0[k]);
        } else if k < l1 {
            assert(b[k] == p1[k - l0]);
        } else if k < l2 {
            assert(b[k] == p2[k - l1]);
        } else if k < l3 {
            assert(b[k] == p3[k - l2]);
        } else {
            assert(b[k] == p4[k - l3]);
        }
    }
}

/// The audit lists anomalies most severe first: no anomaly is followed by a
/// more severe one.
pub proof fn audit_most_severe_first(es: Seq<EntryModel>, complete: bool)
    ensures
        forall|i: int, j: int|
            0 <= i < j < spec_audit(es, complete).len() ==> rank(severity_of(#[trigger] spec_audit(es, complete)[i]))
                >= rank(severity_of(#[trigger] spec_audit(es, complete)[j])),
{
    let fs = raw_findings(es, complete);
    let b = by_severity(fs);
    lemma_by_severity_sorted(fs);
    assert forall|i: int, j: int| 0 <= i < j < spec_audit(es, complete).len() implies rank(
        severity_of(#[trigger] spec_audit(es, complete)[i]),
    ) >= rank(severity_of(#[trigger] spec_audit(es, complete)[j])) by {
        lemma_kind_severity(es, b[i]);
        lemma_kind_severity(es, b[j]);
    }
}

/// Sorting by severity loses and adds nothing, and within one severity keeps
/// the catalogue order: the anomalies of each severity are exactly the
/// findings of that severity, in the order the catalogue walk produced them.
pub proof fn audit_keeps_catalogue_order(es: Seq<EntryModel>, complete: bool, s: Severity)
    ensures
        spec_audit(es, complete).len() == raw_findings(es, complete).len(),
        kinds_of_severity(spec_audit(es, complete), s) == pick(raw_findings(es, complete), s).map_values(
            |f: Finding| kind_of(es, f),
        ),
{
    let fs = raw_findings(es, complete);
    let p0 = pick(fs, Severity::Critical);
    let p1 = pick(fs, Severity::High);
    let p2 = pick(fs, Severity::Medium);
    let p3 = pick(fs, Severity::Low);
    let p4 = pick(fs, Severity::Info);
    lemma_pick_lengths(fs);
    lemma_pick_concat(p0, p1, s);
    lemma_pick_concat(p0 + p1, p2, s);
    lemma_pick_concat(p0 + p1 + p2, p3, s);
    lemma_pick_concat(p0 + p1 + p2 + p3, p4, s);
    lemma_pick_pick(fs, Severity::Critical, s);
    lemma_pick_pick(fs, Severity::High, s);
    lemma_pick_pick(fs, Severity::Medium, s);
    lemma_pick_pick(fs, Severity::Low, s);
    lemma_pick_pick(fs, Severity::Info, s);
    assert(pick(by_severity(fs), s) =~= pick(fs, s));
    lemma_kinds_map(es, by_severity(fs), s);
}

proof fn lemma_count_monotone(ps: Seq<Seq<u8>>, q: Seq<u8>, a: int, b: int)
    requires
        0 <= a <= b,
    ensures
        count_path_before(ps, q, a) <= count_path_before(ps, q, b),
    decreases b - a,
{
    if a < b {
        lemma_count_monotone(ps, q, a, b - 1);
    }
}

proof fn lemma_second_sighting(ps: Seq<Seq<u8>>, q: Seq<u8>, n: int)
    requires
        count_path_before(ps, q, n) >= 2,
    ensures
        exists|k: int| 0 <= k < n && ps[k] == q && #[trigger] count_path_before(ps, q, k) == 1,
    decreases n,
{
    if n > 0 {
        if count_path_before(ps, q, n - 1) >= 2 {
            lemma_second_sighting(ps, q, n - 1);
        } else {
            assert(ps[n - 1] == q && count_path_before(ps, q, n - 1) == 1);
        }
    }
}

/// Whether the audit reports entry `i` as a duplicated path.
pub open spec fn reported_duplicate(es: Seq<EntryModel>, i: int) -> bool {
    entry_findings(es, i).contains(Finding::Duplicate(i as usize))
}

/// A duplicated path is reported once, at its second sighting: of two entries
/// with the same path, at most one is reported, and an entry with that path
/// no later than the second of the two is.
pub proof fn duplicate_reported_once(es: Seq<EntryModel>, i: int, j: int)
    requires
        0 <= i < j < es.len(),
        es[i].path == es[j].path,
    ensures
        !(reported_duplicate(es, i) && reported_duplicate(es, j)),
        exists|k: int| 0 <= k <= j && es[k].path == es[i].path && #[trigger] reported_duplicate(es, k),
{
    let ps = path_list(es);
    let q = es[i].path;
    assert(ps[i] == q && ps[j] == q);
    lemma_count_monotone(ps, q, i + 1, j);
    assert(count_path_before(ps, q, j + 1) >= 2);
    lemma_second_sighting(ps, q, j + 1);
    let k = choose|k: int| 0 <= k < j + 1 && ps[k] == q && #[trigger] count_path_before(ps, q, k) == 1;
    lemma_reported_iff(es, i);
    lemma_reported_iff(es, j);
    lemma_reported_iff(es, k);
}

/// Entry `i` is reported as a duplicate exactly when one earlier entry has
/// its path.
pub proof fn lemma_reported_iff(es: Seq<EntryModel>, i: int)
    requires
        0 <= i < es.len(),
    ensures
        reported_duplicate(es, i) <==> count_path_before(path_list(es), es[i].path, i) == 1,
{
    let u = i as usize;
    let e = es[i];
    let front = codec_part(e, u) + name_part(e, u) + time_part(e, u);
    let d = opt(count_path_before(path_list(es), es[i].path, i) == 1, Finding::Duplicate(u));
    assert(entry_findings(es, i) == front + d);
    assert forall|k: int| 0 <= k < front.len() implies front[k] != Finding::Duplicate(u) by {
        lemma_front_no_duplicate(e, u, k);
    }
    if count_path_before(path_list(es), es[i].path, i) == 1 {
        assert((front + d)[front.len() as int] == Finding::Duplicate(u));
    } else {
        assert(front + d =~= front);
    }
}

proof fn lemma_front_no_duplicate(e: EntryModel, u: usize, k: int)
    requires
        0 <= k < (codec_part(e, u) + name_part(e, u) + time_part(e, u)).len(),
    ensures
        !((codec_part(e, u) + name_part(e, u) + time_part(e, u))[k] is Duplicate),
{
    let a = codec_part(e, u);
    let b = name_part(e, u);
    let c = time_part(e, u);
    let x = (a + b + c)[k];
    if k < a.len() {
        assert(x == a[k]);
    } else if k < a.len() + b.len() {
        assert(x == b[k - a.len()]);
        let b0 = opt(e.path.len() > 0 && e.path[0] == 0x2f, Finding::Absolute(u));
        let b1 = opt(has_parent_component(e.path), Finding::Traversal(u));
        let b2 = opt(has_control_byte(e.path), Finding::Control(u));
        assert(b == b0 + b1 + b2);
    } else {
        assert(x == c[k - a.len() - b.len()]);
    }
}


/// How many times `f` occurs in `fs`.
pub open spec fn occurrences(fs: Seq<Finding>, f: Finding) -> nat
    decreases fs.len(),
{
    if fs.len() == 0 {
        0
    } else {
        occurrences(fs.drop_last(), f) + if fs.last() == f {
            1nat
        } else {
            0nat
        }
    }
}

/// The entry a finding concerns, if any.
pub open spec fn finding_entry(f: Finding) -> Option<usize> {
    match f {
        Finding::Incomplete => None,
        Finding::Codec(i, _) => Some(i),
        Finding::Absolute(i) => Some(i),
        Finding::Traversal(i) => Some(i),
        Finding::Control(i) => Some(i),
        Finding::Future(i, _, _) => Some(i),
        Finding::Duplicate(i) => Some(i),
    }
}

proof fn lemma_occ_concat(a: Seq<Finding>, b: Seq<Finding>, f: Finding)
    ensures
        occurrences(a + b, f) == occurrences(a, f) + occurrences(b, f),
    decreases b.len(),
{
    if b.len() == 0 {
        assert(a + b =~= a);
    } else {
        assert((a + b).drop_last() =~= a + b.drop_last());
        lemma_occ_concat(a, b.drop_last(), f);
    }
}

proof fn lemma_occ_push(a: Seq<Finding>, x: Finding, f: Finding)
    ensures
        occurrences(a.push(x), f) == occurrences(a, f) + if x == f {
            1nat
        } else {
            0nat
        },
{
    assert(a.push(x).drop_last() =~= a);
}

proof fn lemma_occ_pick(fs: Seq<Finding>, s: Severity, f: Finding)
    ensures
        occurrences(pick(fs, s), f) == if finding_severity(f) == s {
            occurrences(fs, f)
        } else {
            0
        },
    decreases fs.len(),
{
    if fs.len() > 0 {
        lemma_occ_pick(fs.drop_last(), s, f);
        if finding_severity(fs.last()) == s {
            lemma_occ_push(pick(fs.drop_last(), s), fs.last(), f);
        }
    }
}

proof fn lemma_occ_by_severity(fs: Seq<Finding>, f: Finding)
    ensures
        occurrences(by_severity(fs), f) == occurrences(fs, f),
{
    let a = pick(fs, Severity::Critical);
    let b = pick(fs, Severity::High);
    let c = pick(fs, Severity::Medium);
    let d = pick(fs, Severity::Low);
    let e = pick(fs, Severity::Info);
    lemma_occ_concat(a, b, f);
    lemma_occ_concat(a + b, c, f);
    lemma_occ_concat(a + b + c, d, f);
    lemma_occ_concat(a + b + c + d, e, f);
    lemma_occ_pick(fs, Severity::Critical, f);
    lemma_occ_pick(fs, Severity::High, f);
    lemma_occ_pick(fs, Severity::Medium, f);
    lemma_occ_pick(fs, Severity::Low, f);
    lemma_occ_pick(fs, Severity::Info, f);
}

proof fn lemma_occ_opt(b: bool, g: Finding, f: Finding)
    ensures
        occurrences(opt(b, g), f) == if b && g == f {
            1nat
        } else {
            0nat
        },
{
    assert(occurrences(Seq::<Finding>::empty(), f) == 0);
    if b {
        assert(seq![g].drop_last() =~= Seq::<Finding>::empty());
        assert(occurrences(seq![g], f) == occurrences(seq![g].drop_last(), f) + if g == f {
            1nat
        } else {
            0nat
        });
    }
}

proof fn lemma_occ_entry(es: Seq<EntryModel>, j: int, f: Finding)
    requires
        0 <= j < es.len(),
    ensures
        ({
            let e = es[j];
            let u = j as usize;
            occurrences(entry_findings(es, j), f) == occurrences(codec_part(e, u), f)
                + occurrences(opt(e.path.len() > 0 && e.path[0] == 0x2f, Finding::Absolute(u)), f)
                + occurrences(opt(has_parent_component(e.path), Finding::Traversal(u)), f)
                + occurrences(opt(has_control_byte(e.path), Finding::Control(u)), f)
                + occurrences(time_part(e, u), f)
                + occurrences(opt(count_path_before(path_list(es), e.path, j) == 1, Finding::Duplicate(u)), f)
        }),
{
    let e = es[j];
    let u = j as usize;
    let a = codec_part(e, u);
    let b0 = opt(e.path.len() > 0 && e.path[0] == 0x2f, Finding::Absolute(u));
    let b1 = opt(has_parent_component(e.path), Finding::Traversal(u));
    let b2 = opt(has_control_byte(e.path), Finding::Control(u));
    let c = time_part(e, u);
    let dd = opt(count_path_before(path_list(es), e.path, j) == 1, Finding::Duplicate(u));
    lemma_occ_concat(b0, b1, f);
    lemma_occ_concat(b0 + b1, b2, f);
    lemma_occ_concat(a, name_part(e, u), f);
    lemma_occ_concat(a + name_part(e, u), c, f);
    lemma_occ_concat(a + name_part(e, u) + c, dd, f);
}

/// A finding about entry `i` that is no codec or timestamp finding.
pub open spec fn name_or_duplicate(f: Finding, u: usize) -> bool {
    f == Finding::Absolute(u) || f == Finding::Traversal(u) || f == Finding::Control(u) || f
        == Finding::Duplicate(u)
}

proof fn lemma_occ_other_parts(e: EntryModel, u: usize, f: Finding, v: usize)
    requires
        name_or_duplicate(f, v),
    ensures
        occurrences(codec_part(e, u), f) == 0,
        occurrences(time_part(e, u), f) == 0,
{
    match spec_unsupported_codec(e.compression) {
        Some(c) => lemma_occ_opt(true, Finding::Codec(u, c), f),
        None => {},
    }
    let t0 = opt(e.atime > FAR_FUTURE_EPOCH_SECS, Finding::Future(u, 0, e.atime));
    let t1 = opt(e.mtime > FAR_FUTURE_EPOCH_SECS, Finding::Future(u, 1, e.mtime));
    lemma_occ_opt(e.atime > FAR_FUTURE_EPOCH_SECS, Finding::Future(u, 0, e.atime), f);
    lemma_occ_opt(e.mtime > FAR_FUTURE_EPOCH_SECS, Finding::Future(u, 1, e.mtime), f);
    match e.ctime {
        Some(c) => lemma_occ_opt(c > FAR_FUTURE_EPOCH_SECS, Finding::Future(u, 2, c), f),
        None => {},
    }
    lemma_occ_concat(t0, t1, f);
    lemma_occ_concat(t0 + t1, ctime_part(e, u), f);
}

proof fn lemma_occ_upto(es: Seq<EntryModel>, n: int, i: int, f: Finding)
    requires
        0 <= i < es.len() <= usize::MAX,
        0 <= n <= es.len(),
        name_or_duplicate(f, i as usize),
    ensures
        occurrences(findings_upto(es, n), f) == if i < n {
            occurrences(entry_findings(es, i), f)
        } else {
            0
        },
    decreases n,
{
    if n > 0 {
        lemma_occ_upto(es, n - 1, i, f);
        lemma_occ_concat(findings_upto(es, n - 1), entry_findings(es, n - 1), f);
        let j = n - 1;
        let e = es[j];
        let u = j as usize;
        lemma_occ_entry(es, j, f);
        lemma_occ_other_parts(e, u, f, i as usize);
        lemma_occ_opt(e.path.len() > 0 && e.path[0] == 0x2f, Finding::Absolute(u), f);
        lemma_occ_opt(has_parent_component(e.path), Finding::Traversal(u), f);
        lemma_occ_opt(has_control_byte(e.path), Finding::Control(u), f);
        lemma_occ_opt(count_path_before(path_list(es), e.path, j) == 1, Finding::Duplicate(u), f);
        if j != i {
            assert(j as usize != i as usize);
        }
    }
}

/// The audit flags each entry by its path: exactly one absolute-path finding
/// when the path starts with `/` (none otherwise), exactly one `..` finding
/// when a component is `..`, exactly one control-byte finding when the path
/// holds a byte below `0x20` or `0x7f`, and exactly one duplicate finding
/// when exactly one earlier entry has the same raw path (its second
/// sighting), none otherwise. The first two are of medium severity, the
/// others low.
pub proof fn audit_flags_each_entry(es: Seq<EntryModel>, complete: bool, i: int)
    requires
        0 <= i < es.len() <= usize::MAX,
    ensures
        ({
            let fs = by_severity(raw_findings(es, complete));
            let p = es[i].path;
            let u = i as usize;
            &&& occurrences(fs, Finding::Absolute(u)) == if p.len() > 0 && p[0] == 0x2f {
                1nat
            } else {
                0nat
            }
            &&& occurrences(fs, Finding::Traversal(u)) == if has_parent_component(p) {
                1nat
            } else {
                0nat
            }
            &&& occurrences(fs, Finding::Control(u)) == if has_control_byte(p) {
                1nat
            } else {
                0nat
            }
            &&& occurrences(fs, Finding::Duplicate(u)) == if count_path_before(path_list(es), p, i) == 1 {
                1nat
            } else {
                0nat
            }
            &&& finding_severity(Finding::Absolute(u)) == Severity::Medium
            &&& finding_severity(Finding::Traversal(u)) == Severity::Medium
            &&& finding_severity(Finding::Control(u)) == Severity::Low
            &&& finding_severity(Finding::Duplicate(u)) == Severity::Low
            &&& kind_of(es, Finding::Absolute(u)) == KindModel::AbsolutePath(utf8_lossy(p))
            &&& kind_of(es, Finding::Traversal(u)) == KindModel::ParentTraversal(utf8_lossy(p))
            &&& kind_of(es, Finding::Control(u)) == KindModel::ControlCharsInName(utf8_lossy(p))
            &&& kind_of(es, Finding::Duplicate(u)) == KindModel::DuplicatePath(utf8_lossy(p))
        }),
{
    lemma_occ_named(es, complete, i, Finding::Absolute(i as usize));
    lemma_occ_named(es, complete, i, Finding::Traversal(i as usize));
    lemma_occ_named(es, complete, i, Finding::Control(i as usize));
    lemma_occ_named(es, complete, i, Finding::Duplicate(i as usize));
}

proof fn lemma_occ_named(es: Seq<EntryModel>, complete: bool, i: int, f: Finding)
    requires
        0 <= i < es.len() <= usize::MAX,
        name_or_duplicate(f, i as usize),
    ensures
        ({
            let p = es[i].path;
            let u = i as usize;
            occurrences(by_severity(raw_findings(es, complete)), f) == (if p.len() > 0 && p[0] == 0x2f
                && f == Finding::Absolute(u) {
                1nat
            } else {
                0nat
            }) + (if has_parent_component(p) && f == Finding::Traversal(u) {
                1nat
            } else {
                0nat
            }) + (if has_control_byte(p) && f == Finding::Control(u) {
                1nat
            } else {
                0nat
            }) + (if count_path_before(path_list(es), p, i) == 1 && f == Finding::Duplicate(u) {
                1nat
            } else {
                0nat
            })
        }),
{
    let raw = raw_findings(es, complete);
    let u = i as usize;
    let e = es[i];
    lemma_occ_by_severity(raw, f);
    lemma_occ_concat(opt(!complete, Finding::Incomplete), findings_upto(es, es.len() as int), f);
    lemma_occ_opt(!complete, Finding::Incomplete, f);
    lemma_occ_upto(es, es.len() as int, i, f);
    lemma_occ_entry(es, i, f);
    lemma_occ_other_parts(e, u, f, u);
    lemma_occ_opt(e.path.len() > 0 && e.path[0] == 0x2f, Finding::Absolute(u), f);
    lemma_occ_opt(has_parent_component(e.path), Finding::Traversal(u), f);
    lemma_occ_opt(has_control_byte(e.path), Finding::Control(u), f);
    lemma_occ_opt(count_path_before(path_list(es), e.path, i) == 1, Finding::Duplicate(u), f);
}


proof fn lemma_occ_time_part(e: EntryModel, u: usize, f: Finding)
    ensures
        occurrences(time_part(e, u), f) == (if e.atime > FAR_FUTURE_EPOCH_SECS && Finding::Future(u, 0, e.atime)
            == f {
            1nat
        } else {
            0nat
        }) + (if e.mtime > FAR_FUTURE_EPOCH_SECS && Finding::Future(u, 1, e.mtime) == f {
            1nat
        } else {
            0nat
        }) + (match e.ctime {
            Some(c) => if c > FAR_FUTURE_EPOCH_SECS && Finding::Future(u, 2, c) == f {
                1nat
            } else {
                0nat
            },
            None => 0nat,
        }),
{
    let t0 = opt(e.atime > FAR_FUTURE_EPOCH_SECS, Finding::Future(u, 0, e.atime));
    let t1 = opt(e.mtime > FAR_FUTURE_EPOCH_SECS, Finding::Future(u, 1, e.mtime));
    lemma_occ_opt(e.atime > FAR_FUTURE_EPOCH_SECS, Finding::Future(u, 0, e.atime), f);
    lemma_occ_opt(e.mtime > FAR_FUTURE_EPOCH_SECS, Finding::Future(u, 1, e.mtime), f);
    match e.ctime {
        Some(c) => lemma_occ_opt(c > FAR_FUTURE_EPOCH_SECS, Finding::Future(u, 2, c), f),
        None => {},
    }
    lemma_occ_concat(t0, t1, f);
    lemma_occ_concat(t0 + t1, ctime_part(e, u), f);
}

proof fn lemma_occ_codec_part(e: EntryModel, u: usize, f: Finding)
    ensures
        occurrences(codec_part(e, u), f) == match spec_unsupported_codec(e.compression) {
            Some(c) => if Finding::Codec(u, c) == f {
                1nat
            } else {
                0nat
            },
            None => 0nat,
        },
{
    match spec_unsupported_codec(e.compression) {
        Some(c) => lemma_occ_opt(true, Finding::Codec(u, c), f),
        None => {},
    }
}

/// The findings of one entry never concern another entry.
proof fn lemma_occ_other_entry(es: Seq<EntryModel>, j: int, f: Finding)
    requires
        0 <= j < es.len(),
        finding_entry(f) != Some(j as usize),
    ensures
        occurrences(entry_findings(es, j), f) == 0,
{
    let e = es[j];
    let u = j as usize;
    lemma_occ_entry(es, j, f);
    lemma_occ_codec_part(e, u, f);
    lemma_occ_time_part(e, u, f);
    lemma_occ_opt(e.path.len() > 0 && e.path[0] == 0x2f, Finding::Absolute(u), f);
    lemma_occ_opt(has_parent_component(e.path), Finding::Traversal(u), f);
    lemma_occ_opt(has_control_byte(e.path), Finding::Control(u), f);
    lemma_occ_opt(count_path_before(path_list(es), e.path, j) == 1, Finding::Duplicate(u), f);
}

proof fn lemma_occ_upto_entry(es: Seq<EntryModel>, n: int, i: int, f: Finding)
    requires
        0 <= i < es.len() <= usize::MAX,
        0 <= n <= es.len(),
        finding_entry(f) == Some(i as usize),
    ensures
        occurrences(findings_upto(es, n), f) == if i < n {
            occurrences(entry_findings(es, i), f)
        } else {
            0
        },
    decreases n,
{
    if n > 0 {
        lemma_occ_upto_entry(es, n - 1, i, f);
        lemma_occ_concat(findings_upto(es, n - 1), entry_findings(es, n - 1), f);
        if n - 1 != i {
            assert((n - 1) as usize != i as usize);
            lemma_occ_other_entry(es, n - 1, f);
        }
    }
}

/// In the audit, the findings about entry `i` are those of `entry_findings`.
proof fn lemma_occ_audit_entry(es: Seq<EntryModel>, complete: bool, i: int, f: Finding)
    requires
        0 <= i < es.len() <= usize::MAX,
        finding_entry(f) == Some(i as usize),
    ensures
        occurrences(by_severity(raw_findings(es, complete)), f) == occurrences(entry_findings(es, i), f),
{
    let raw = raw_findings(es, complete);
    lemma_occ_by_severity(raw, f);
    lemma_occ_concat(opt(!complete, Finding::Incomplete), findings_upto(es, es.len() as int), f);
    lemma_occ_opt(!complete, Finding::Incomplete, f);
    lemma_occ_upto_entry(es, es.len() as int, i, f);
}

/// The audit flags each timestamp of an entry that lies beyond 2100-01-01
/// (epoch second 4102444800): exactly one finding for the access time when it
/// is later, one for the modification time, one for the status-change time
/// when there is one; each names its field and carries the value, with low
/// severity. No other timestamp finding concerns the entry.
pub proof fn audit_flags_future_times(es: Seq<EntryModel>, complete: bool, i: int)
    requires
        0 <= i < es.len() <= usize::MAX,
    ensures
        ({
            let fs = by_severity(raw_findings(es, complete));
            let e = es[i];
            let u = i as usize;
            &&& occurrences(fs, Finding::Future(u, 0, e.atime)) == if e.atime > 4102444800 {
                1nat
            } else {
                0nat
            }
            &&& occurrences(fs, Finding::Future(u, 1, e.mtime)) == if e.mtime > 4102444800 {
                1nat
            } else {
                0nat
            }
            &&& e.ctime matches Some(c) ==> occurrences(fs, Finding::Future(u, 2, c)) == if c > 4102444800 {
                1nat
            } else {
                0nat
            }
            &&& forall|w: u8, t: i64|
                #[trigger] occurrences(fs, Finding::Future(u, w, t)) > 0 ==> t > 4102444800 && ((w == 0 && t
                    == e.atime) || (w == 1 && t == e.mtime) || (w == 2 && e.ctime == Some(t)))
            &&& forall|w: u8, t: i64| #[trigger] finding_severity(Finding::Future(u, w, t)) == Severity::Low
            &&& kind_of(es, Finding::Future(u, 0, e.atime)) == KindModel::FutureTimestamp(
                utf8_lossy(e.path),
                "atime"@,
                e.atime,
            )
            &&& kind_of(es, Finding::Future(u, 1, e.mtime)) == KindModel::FutureTimestamp(
                utf8_lossy(e.path),
                "mtime"@,
                e.mtime,
            )
            &&& e.ctime matches Some(c) ==> kind_of(es, Finding::Future(u, 2, c))
                == KindModel::FutureTimestamp(utf8_lossy(e.path), "ctime"@, c)
        }),
{
    let e = es[i];
    let u = i as usize;
    assert forall|w: u8, t: i64|
        #[trigger] occurrences(by_severity(raw_findings(es, complete)), Finding::Future(u, w, t)) > 0 implies t
        > 4102444800 && ((w == 0 && t == e.atime) || (w == 1 && t == e.mtime) || (w == 2 && e.ctime == Some(
        t,
    ))) by {
        lemma_future_occ(es, complete, i, w, t);
        lemma_occ_time_part(e, u, Finding::Future(u, w, t));
    }
    lemma_future_occ(es, complete, i, 0, e.atime);
    lemma_future_occ(es, complete, i, 1, e.mtime);
    lemma_occ_time_part(e, u, Finding::Future(u, 0, e.atime));
    lemma_occ_time_part(e, u, Finding::Future(u, 1, e.mtime));
    match e.ctime {
        Some(c) => {
            lemma_future_occ(es, complete, i, 2, c);
            lemma_occ_time_part(e, u, Finding::Future(u, 2, c));
        },
        None => {},
    }
}

proof fn lemma_future_occ(es: Seq<EntryModel>, complete: bool, i: int, w: u8, t: i64)
    requires
        0 <= i < es.len() <= usize::MAX,
    ensures
        occurrences(by_severity(raw_findings(es, complete)), Finding::Future(i as usize, w, t)) == occurrences(
            time_part(es[i], i as usize),
            Finding::Future(i as usize, w, t),
        ),
{
    let e = es[i];
    let u = i as usize;
    let f = Finding::Future(u, w, t);
    lemma_occ_audit_entry(es, complete, i, f);
    lemma_occ_entry(es, i, f);
    lemma_occ_codec_part(e, u, f);
    lemma_occ_opt(e.path.len() > 0 && e.path[0] == 0x2f, Finding::Absolute(u), f);
    lemma_occ_opt(has_parent_component(e.path), Finding::Traversal(u), f);
    lemma_occ_opt(has_control_byte(e.path), Finding::Control(u), f);
    lemma_occ_opt(count_path_before(path_list(es), e.path, i) == 1, Finding::Duplicate(u), f);
}


proof fn lemma_occ_no_entry_upto(es: Seq<EntryModel>, n: int, f: Finding)
    requires
        0 <= n <= es.len(),
        finding_entry(f) is None,
    ensures
        occurrences(findings_upto(es, n), f) == 0,
    decreases n,
{
    if n > 0 {
        lemma_occ_no_entry_upto(es, n - 1, f);
        lemma_occ_concat(findings_upto(es, n - 1), entry_findings(es, n - 1), f);
        lemma_occ_other_entry(es, n - 1, f);
    }
}

/// The audit reports an incomplete catalogue exactly once when the walk did
/// not close the root (with high severity), and never otherwise; and it
/// flags an entry's codec exactly when the codec letter, in either case, is
/// one of the lzo letters `l`, `j`, `k`, naming the letter as stored, with
/// medium severity.
pub proof fn audit_flags_incomplete_and_codec(es: Seq<EntryModel>, complete: bool, i: int)
    requires
        0 <= i < es.len() <= usize::MAX,
    ensures
        ({
            let fs = by_severity(raw_findings(es, complete));
            let e = es[i];
            let u = i as usize;
            let b = e.compression;
            let lzo = b == 0x6c || b == 0x6a || b == 0x6b || b == 0x4c || b == 0x4a || b == 0x4b;
            &&& occurrences(fs, Finding::Incomplete) == if complete {
                0nat
            } else {
                1nat
            }
            &&& finding_severity(Finding::Incomplete) == Severity::High
            &&& kind_of(es, Finding::Incomplete) == KindModel::IncompleteCatalog(es.len())
            &&& occurrences(fs, Finding::Codec(u, b as char)) == if lzo {
                1nat
            } else {
                0nat
            }
            &&& forall|c: char| #[trigger] occurrences(fs, Finding::Codec(u, c)) > 0 ==> lzo && c == b as char
            &&& forall|c: char| #[trigger] finding_severity(Finding::Codec(u, c)) == Severity::Medium
        }),
{
    let raw = raw_findings(es, complete);
    let e = es[i];
    let u = i as usize;
    lemma_occ_by_severity(raw, Finding::Incomplete);
    lemma_occ_concat(opt(!complete, Finding::Incomplete), findings_upto(es, es.len() as int), Finding::Incomplete);
    lemma_occ_opt(!complete, Finding::Incomplete, Finding::Incomplete);
    lemma_occ_no_entry_upto(es, es.len() as int, Finding::Incomplete);
    assert forall|c: char| #[trigger] occurrences(by_severity(raw), Finding::Codec(u, c)) == match spec_unsupported_codec(
        e.compression,
    ) {
        Some(x) => if x == c {
            1nat
        } else {
            0nat
        },
        None => 0nat,
    } by {
        let f = Finding::Codec(u, c);
        lemma_occ_audit_entry(es, complete, i, f);
        lemma_occ_entry(es, i, f);
        lemma_occ_codec_part(e, u, f);
        lemma_occ_time_part(e, u, f);
        lemma_occ_opt(e.path.len() > 0 && e.path[0] == 0x2f, Finding::Absolute(u), f);
        lemma_occ_opt(has_parent_component(e.path), Finding::Traversal(u), f);
        lemma_occ_opt(has_control_byte(e.path), Finding::Control(u), f);
        lemma_occ_opt(count_path_before(path_list(es), e.path, i) == 1, Finding::Duplicate(u), f);
    }
    assert(occurrences(by_severity(raw), Finding::Codec(u, e.compression as char)) >= 0);
}

} // verus!
