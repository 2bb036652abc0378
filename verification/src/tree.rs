//! The directory tree of an archive. DAR's catalogue is a flat list of full
//! `/`-separated paths; the tree is derived from it: node 0 is a synthetic
//! root, entry `i` becomes node `i + 1`, and each entry is listed under the
//! node of its parent path (the last entry with that path), or under the root
//! where no entry has it.

use vstd::prelude::*;
use vstd::slice::slice_to_vec;

use crate::catalog::{EntryKind, join_path_spec};
use crate::index::{PathIndex, bytes_eq, last_with_path, names, paths_view};
use crate::reader::{DarEntry, DarEntryModel};

verus! {

/// The kind of a tree node.
#[derive(Debug, Clone, Copy, PartialEq, Eq, Structural)]
pub enum NodeKind {
    File,
    Dir,
    Symlink,
}

/// Directories and symlinks keep their kind; every other entry is a file.
pub open spec fn kind_of_entry(kind: EntryKind) -> NodeKind {
    match kind {
        EntryKind::Directory => NodeKind::Dir,
        EntryKind::Symlink => NodeKind::Symlink,
        _ => NodeKind::File,
    }
}

pub fn node_kind(kind: EntryKind) -> (k: NodeKind)
    ensures
        k == kind_of_entry(kind),
{
    match kind {
        EntryKind::Directory => NodeKind::Dir,
        EntryKind::Symlink => NodeKind::Symlink,
        _ => NodeKind::File,
    }
}

/// The position of the last `/` in `p`.
pub open spec fn last_slash(p: Seq<u8>) -> Option<int>
    decreases p.len(),
{
    if p.len() == 0 {
        None
    } else if p.last() == 0x2f {
        Some(p.len() - 1)
    } else {
        last_slash(p.drop_last())
    }
}

/// The last `/`-separated component of `p`; a path with no `/` is its own
/// name.
pub open spec fn leaf_of(p: Seq<u8>) -> Seq<u8> {
    match last_slash(p) {
        Some(i) => p.subrange(i + 1, p.len() as int),
        None => p,
    }
}

/// What precedes the last `/` of `p`, where `p` has one.
pub open spec fn parent_path(p: Seq<u8>) -> Option<Seq<u8>> {
    match last_slash(p) {
        Some(i) => Some(p.subrange(0, i)),
        None => None,
    }
}

proof fn lemma_last_slash(p: Seq<u8>)
    ensures
        match last_slash(p) {
            Some(i) => 0 <= i < p.len() && p[i] == 0x2f && forall|k: int| i < k < p.len() ==> p[k] != 0x2f,
            None => forall|k: int| 0 <= k < p.len() ==> p[k] != 0x2f,
        },
    decreases p.len(),
{
    if p.len() > 0 {
        lemma_last_slash(p.drop_last());
        assert forall|k: int| 0 <= k < p.len() - 1 implies p.drop_last()[k] == p[k] by {}
    }
}

proof fn lemma_last_slash_at(p: Seq<u8>, i: int)
    requires
        0 <= i < p.len(),
        p[i] == 0x2f,
        forall|k: int| i < k < p.len() ==> p[k] != 0x2f,
    ensures
        last_slash(p) == Some(i),
    decreases p.len(),
{
    if p.len() - 1 > i {
        lemma_last_slash_at(p.drop_last(), i);
    }
}

/// The position of the last `/` in `p`.
pub fn rfind_slash(p: &[u8]) -> (r: Option<usize>)
    ensures
        match r {
            Some(i) => i < p@.len() && last_slash(p@) == Some(i as int),
            None => last_slash(p@) is None,
        },
{
    let mut i: usize = p.len();
    while i > 0
        invariant
            i <= p@.len(),
            forall|k: int| i <= k < p@.len() ==> p@[k] != 0x2f,
        decreases i,
    {
        if p[i - 1] == 0x2f {
            proof {
                lemma_last_slash_at(p@, i - 1);
            }
            return Some(i - 1);
        }
        i = i - 1;
    }
    proof {
        lemma_last_slash(p@);
    }
    None
}

/// The last `/`-separated component of a raw path.
pub fn leaf(path: &[u8]) -> (name: Vec<u8>)
    ensures
        name@ == leaf_of(path@),
{
    match rfind_slash(path) {
        Some(pos) => {
            assert(path@.len() == path.len());
            slice_to_vec(&path[pos + 1..path.len()])
        },
        None => slice_to_vec(path),
    }
}

/// The node a parent lists entry `i` under.
pub open spec fn parent_id(es: Seq<DarEntryModel>, i: int) -> int {
    match parent_path(es[i].path) {
        Some(q) => match last_with_path(entry_paths(es), q, es.len() as int) {
            Some(j) => j + 1,
            None => 0,
        },
        None => 0,
    }
}

pub open spec fn entry_paths(es: Seq<DarEntryModel>) -> Seq<Seq<u8>> {
    es.map_values(|e: DarEntryModel| e.path)
}

/// The children of node `n` among the first `upto` entries, in catalogue
/// order.
pub open spec fn children_of(es: Seq<DarEntryModel>, n: int, upto: int) -> Seq<u64>
    decreases upto,
{
    if upto <= 0 {
        Seq::empty()
    } else {
        children_of(es, n, upto - 1) + if parent_id(es, upto - 1) == n {
            seq![upto as u64]
        } else {
            Seq::<u64>::empty()
        }
    }
}

/// One node of the tree.
pub struct Node {
    /// The full archive path; `None` only for the synthetic root.
    pub path: Option<Vec<u8>>,
    /// The last path component, the name a parent lists this node under.
    pub name: Vec<u8>,
    pub kind: NodeKind,
    pub size: u64,
    pub uid: u32,
    pub gid: u32,
    pub mode: u16,
    pub atime: i64,
    pub mtime: i64,
    pub ctime: Option<i64>,
    pub symlink_target: Option<Vec<u8>>,
    /// Node ids of the children, in catalogue order.
    pub children: Vec<u64>,
}

pub struct NodeModel {
    pub path: Option<Seq<u8>>,
    pub name: Seq<u8>,
    pub kind: NodeKind,
    pub size: u64,
    pub uid: u32,
    pub gid: u32,
    pub mode: u16,
    pub atime: i64,
    pub mtime: i64,
    pub ctime: Option<i64>,
    pub symlink_target: Option<Seq<u8>>,
    pub children: Seq<u64>,
}

pub open spec fn opt_view(o: Option<Vec<u8>>) -> Option<Seq<u8>> {
    match o {
        Some(v) => Some(v@),
        None => None,
    }
}

impl View for Node {
    type V = NodeModel;

    open spec fn view(&self) -> NodeModel {
        NodeModel {
            path: opt_view(self.path),
            name: self.name@,
            kind: self.kind,
            size: self.size,
            uid: self.uid,
            gid: self.gid,
            mode: self.mode,
            atime: self.atime,
            mtime: self.mtime,
            ctime: self.ctime,
            symlink_target: opt_view(self.symlink_target),
            children: self.children@,
        }
    }
}

/// An id above `u32::MAX` saturates.
pub open spec fn clamp_u32(v: u64) -> u32 {
    if v <= u32::MAX {
        v as u32
    } else {
        u32::MAX
    }
}

/// The synthetic root over `es`.
pub open spec fn root_model(es: Seq<DarEntryModel>) -> NodeModel {
    NodeModel {
        path: None,
        name: Seq::empty(),
        kind: NodeKind::Dir,
        size: 0,
        uid: 0,
        gid: 0,
        mode: 0,
        atime: 0,
        mtime: 0,
        ctime: None,
        symlink_target: None,
        children: children_of(es, 0, es.len() as int),
    }
}

/// The node of entry `i`.
pub open spec fn entry_node(es: Seq<DarEntryModel>, i: int) -> NodeModel {
    let e = es[i];
    NodeModel {
        path: Some(e.path),
        name: leaf_of(e.path),
        kind: kind_of_entry(e.kind),
        size: e.size,
        uid: clamp_u32(e.uid),
        gid: clamp_u32(e.gid),
        mode: e.mode,
        atime: e.atime,
        mtime: e.mtime,
        ctime: e.ctime,
        symlink_target: e.symlink_target,
        children: children_of(es, i + 1, es.len() as int),
    }
}

/// The tree of `es`: the root, then one node per entry.
pub open spec fn tree_of(es: Seq<DarEntryModel>) -> Seq<NodeModel> {
    Seq::new((es.len() + 1) as nat, |k: int| if k == 0 { root_model(es) } else { entry_node(es, k - 1) })
}

pub open spec fn entries_model(es: Seq<DarEntry>) -> Seq<DarEntryModel> {
    es.map_values(|e: DarEntry| e@)
}

/// The node with its children replaced.
pub open spec fn with_children(m: NodeModel, c: Seq<u64>) -> NodeModel {
    NodeModel { children: c, ..m }
}

fn clamp(v: u64) -> (r: u32)
    ensures
        r == clamp_u32(v),
{
    if v <= 0xffff_ffff {
        v as u32
    } else {
        u32::MAX
    }
}

fn opt_clone(o: &Option<Vec<u8>>) -> (r: Option<Vec<u8>>)
    ensures
        opt_view(r) == opt_view(*o),
{
    match o {
        Some(v) => Some(slice_to_vec(v.as_slice())),
        None => None,
    }
}

/// The nodes of `es` with no children yet.
fn bare_nodes(entries: &[DarEntry]) -> (nodes: Vec<Node>)
    ensures
        nodes@.len() == entries@.len() + 1,
        forall|k: int| 0 <= k < nodes@.len() ==> #[trigger] nodes@[k]@ == with_children(
            tree_of(entries_model(entries@))[k],
            Seq::empty(),
        ),
{
    let ghost es = entries_model(entries@);
    let mut nodes: Vec<Node> = Vec::new();
    nodes.push(
        Node {
            path: None,
            name: Vec::new(),
            kind: NodeKind::Dir,
            size: 0,
            uid: 0,
            gid: 0,
            mode: 0,
            atime: 0,
            mtime: 0,
            ctime: None,
            symlink_target: None,
            children: Vec::new(),
        },
    );
    assert(nodes@[0]@ =~= with_children(tree_of(es)[0], Seq::empty()));
    let mut i: usize = 0;
    while i < entries.len()
        invariant
            es == entries_model(entries@),
            i <= entries@.len(),
            nodes@.len() == i + 1,
            forall|k: int| 0 <= k < nodes@.len() ==> #[trigger] nodes@[k]@ == with_children(
                tree_of(es)[k],
                Seq::empty(),
            ),
        decreases entries.len() - i,
    {
        let e = &entries[i];
        let n = Node {
            path: Some(slice_to_vec(e.path.as_slice())),
            name: leaf(e.path.as_slice()),
            kind: node_kind(e.kind),
            size: e.size,
            uid: clamp(e.uid),
            gid: clamp(e.gid),
            mode: e.mode,
            atime: e.atime,
            mtime: e.mtime,
            ctime: e.ctime,
            symlink_target: opt_clone(&e.symlink_target),
            children: Vec::new(),
        };
        assert(es[i as int] == e@);
        assert(n@ =~= with_children(tree_of(es)[i + 1], Seq::empty()));
        nodes.push(n);
        i = i + 1;
    }
    nodes
}

proof fn lemma_children_step(es: Seq<DarEntryModel>, n: int, i: int)
    requires
        0 <= i,
    ensures
        children_of(es, n, i + 1) == children_of(es, n, i) + if parent_id(es, i) == n {
            seq![(i + 1) as u64]
        } else {
            Seq::<u64>::empty()
        },
{
}

/// The node id of entry `i`'s parent.
fn find_parent(index: &PathIndex, entries: &[DarEntry], i: usize) -> (p: usize)
    requires
        index.wf(),
        index.paths() == entry_paths(entries_model(entries@)),
        i < entries@.len(),
    ensures
        p == parent_id(entries_model(entries@), i as int),
        p <= entries@.len(),
{
    let ghost es = entries_model(entries@);
    let path = entries[i].path.as_slice();
    assert(es[i as int].path == path@);
    match rfind_slash(path) {
        Some(pos) => {
            let q = &path[0..pos];
            assert(q@ == path@.subrange(0, pos as int));
            match index.last_of(q) {
                Some(j) => j + 1,
                None => 0,
            }
        },
        None => 0,
    }
}

/// Derive the tree of `entries`: node 0 is the root, entry `i` is node
/// `i + 1`, each listed under its parent.
pub fn build_tree(entries: &[DarEntry]) -> (nodes: Vec<Node>)
    requires
        entries@.len() < u64::MAX,
    ensures
        nodes@.len() == entries@.len() + 1,
        forall|k: int| 0 <= k < nodes@.len() ==> #[trigger] nodes@[k]@ == tree_of(entries_model(entries@))[k],
{
    let ghost es = entries_model(entries@);
    let mut paths: Vec<Vec<u8>> = Vec::new();
    let mut i: usize = 0;
    while i < entries.len()
        invariant
            es == entries_model(entries@),
            i <= entries@.len(),
            paths@.len() == i,
            paths_view(paths@) == entry_paths(es).subrange(0, i as int),
        decreases entries.len() - i,
    {
        let p = slice_to_vec(entries[i].path.as_slice());
        assert(p@ == es[i as int].path);
        let ghost old_paths = paths@;
        paths.push(p);
        proof {
            let t = entry_paths(es).subrange(0, i + 1);
            assert forall|k: int| 0 <= k <= i implies #[trigger] paths_view(paths@)[k] == t[k] by {
                if k < i {
                    assert(paths@[k] == old_paths[k]);
                    assert(paths_view(old_paths)[k] == old_paths[k]@);
                }
            }
            assert(paths_view(paths@) =~= t);
        }
        i = i + 1;
    }
    assert(entry_paths(es).subrange(0, es.len() as int) =~= entry_paths(es));
    let index = PathIndex::new(paths);
    let mut nodes = bare_nodes(entries);
    let mut i: usize = 0;
    while i < entries.len()
        invariant
            es == entries_model(entries@),
            entries@.len() < u64::MAX,
            index.wf(),
            index.paths() == entry_paths(es),
            i <= entries@.len(),
            nodes@.len() == entries@.len() + 1,
            forall|k: int| 0 <= k < nodes@.len() ==> #[trigger] nodes@[k]@ == with_children(
                tree_of(es)[k],
                children_of(es, k, i as int),
            ),
        decreases entries.len() - i,
    {
        let p = find_parent(&index, entries, i);
        let ghost before = nodes@;
        nodes[p].children.push((i + 1) as u64);
        proof {
            assert forall|k: int| 0 <= k < nodes@.len() implies #[trigger] nodes@[k]@ == with_children(
                tree_of(es)[k],
                children_of(es, k, i + 1),
            ) by {
                lemma_children_step(es, k, i as int);
                if k == p {
                    assert(parent_id(es, i as int) == k);
                    assert(children_of(es, k, i + 1) =~= children_of(es, k, i as int).push((i + 1) as u64));
                    assert(nodes@[k]@ == with_children(before[k]@, before[k]@.children.push((i + 1) as u64)));
                    assert(nodes@[k]@ =~= with_children(tree_of(es)[k], children_of(es, k, i + 1)));
                } else {
                    assert(nodes@[k] == before[k]);
                    assert(children_of(es, k, i + 1) =~= children_of(es, k, i as int));
                }
            }
        }
        i = i + 1;
    }
    proof {
        assert forall|k: int| 0 <= k < nodes@.len() implies #[trigger] nodes@[k]@ == tree_of(es)[k] by {
            assert(nodes@[k]@ =~= tree_of(es)[k]);
        }
    }
    nodes
}

proof fn lemma_children_in_range(es: Seq<DarEntryModel>, n: int, upto: int, k: int)
    requires
        0 <= k < children_of(es, n, upto).len(),
        upto <= u64::MAX,
    ensures
        1 <= children_of(es, n, upto)[k] <= upto,
    decreases upto,
{
    if upto > 0 {
        let prev = children_of(es, n, upto - 1);
        lemma_children_step(es, n, upto - 1);
        if k < prev.len() {
            lemma_children_in_range(es, n, upto - 1, k);
        }
    }
}

/// Every child id names a node of the tree.
pub open spec fn children_in_range(nodes: Seq<NodeModel>) -> bool {
    forall|k: int, c: int|
        0 <= k < nodes.len() && 0 <= c < nodes[k].children.len() ==> #[trigger] nodes[k].children[c] < nodes.len()
}

proof fn lemma_tree_children_in_range(es: Seq<DarEntryModel>)
    requires
        es.len() < u64::MAX,
    ensures
        children_in_range(tree_of(es)),
{
    let t = tree_of(es);
    assert forall|k: int, c: int| 0 <= k < t.len() && 0 <= c < t[k].children.len() implies #[trigger] t[k].children[c]
        < t.len() by {
        lemma_children_in_range(es, k, es.len() as int, c);
    }
}

/// Why a node could not be used as asked.
#[derive(Debug, Clone, Copy, PartialEq, Eq, Structural)]
pub enum TreeError {
    /// No node has this id.
    OutOfRange(u64),
    /// The node is not a directory.
    NotADirectory(u64),
}

/// One listing of a directory: a child's name, id and kind.
pub struct DirItem {
    pub name: Vec<u8>,
    pub id: u64,
    pub kind: NodeKind,
}

/// The first child of `children` (from position `k` on) whose name is `name`.
pub open spec fn first_named(nodes: Seq<NodeModel>, children: Seq<u64>, name: Seq<u8>, k: int) -> Option<u64>
    decreases children.len() - k,
{
    if k < 0 || k >= children.len() {
        None
    } else if nodes[children[k] as int].name == name {
        Some(children[k])
    } else {
        first_named(nodes, children, name, k + 1)
    }
}

/// What a directory listing of node `id` returns.
pub open spec fn listing_ok(nodes: Seq<NodeModel>, id: u64, items: Seq<DirItem>) -> bool {
    let ch = nodes[id as int].children;
    &&& items.len() == ch.len()
    &&& forall|i: int| 0 <= i < items.len() ==> {
        &&& (#[trigger] items[i]).id == ch[i]
        &&& items[i].name@ == nodes[ch[i] as int].name
        &&& items[i].kind == nodes[ch[i] as int].kind
    }
}

/// The at most `cap` first bytes of a symlink target; other nodes read as
/// an empty target.
pub open spec fn link_prefix(n: NodeModel, cap: usize) -> Seq<u8> {
    match n.symlink_target {
        Some(t) => if t.len() <= cap {
            t
        } else {
            t.subrange(0, cap as int)
        },
        None => Seq::empty(),
    }
}

/// The bytes of `data` from `off` on, at most `cap` of them.
pub open spec fn window(data: Seq<u8>, off: u64, cap: usize) -> Seq<u8> {
    if off >= data.len() {
        Seq::empty()
    } else if data.len() - off <= cap {
        data.subrange(off as int, data.len() as int)
    } else {
        data.subrange(off as int, off + cap)
    }
}

/// The bytes of `data` from `off` on, at most `cap` of them: what a read of
/// `cap` bytes at `off` gets from a file holding `data`.
pub fn read_window(data: &[u8], off: u64, cap: usize) -> (w: Vec<u8>)
    ensures
        w@ == window(data@, off, cap),
{
    let len = data.len();
    if off >= len as u64 {
        return Vec::new();
    }
    let start = off as usize;
    let rest = len - start;
    let n = if rest <= cap {
        rest
    } else {
        cap
    };
    slice_to_vec(&data[start..start + n])
}

/// Nanoseconds since the Unix epoch of a timestamp in seconds.
pub fn unix_nanos(secs: i64) -> (n: i128)
    ensures
        n == secs * 1_000_000_000,
{
    assert(-9223372036854775808 * 1_000_000_000 <= secs * 1_000_000_000 <= 9223372036854775807 * 1_000_000_000)
        by (nonlinear_arith);
    (secs as i128) * 1_000_000_000
}

/// The directory tree of an archive, for navigation by node id.
pub struct DarTree {
    nodes: Vec<Node>,
}

impl View for DarTree {
    type V = Seq<NodeModel>;

    closed spec fn view(&self) -> Seq<NodeModel> {
        self.nodes@.map_values(|n: Node| n@)
    }
}

impl DarTree {
    #[verifier::type_invariant]
    closed spec fn wf(self) -> bool {
        &&& children_in_range(self@)
        &&& self.nodes@.len() >= 1
        &&& self.nodes@.len() <= u64::MAX
    }

    /// The tree of a catalogue listing.
    pub fn from_entries(entries: &[DarEntry]) -> (t: DarTree)
        requires
            entries@.len() < u64::MAX,
        ensures
            t@ == tree_of(entries_model(entries@)),
    {
        let nodes = build_tree(entries);
        proof {
            lemma_tree_children_in_range(entries_model(entries@));
        }
        let t = DarTree { nodes };
        assert(t@ =~= tree_of(entries_model(entries@)));
        t
    }

    /// The id of the synthetic root.
    pub fn root(&self) -> (id: u64)
        ensures
            id == 0,
    {
        0
    }

    /// Number of nodes.
    pub fn len(&self) -> (n: usize)
        ensures
            n == self@.len(),
    {
        self.nodes.len()
    }

    fn child(&self, c: u64) -> (n: &Node)
        requires
            c < self@.len(),
        ensures
            n@ == self@[c as int],
    {
        assert(self@.len() == self.nodes@.len());
        let len = self.nodes.len();
        assert(c < len);
        let k = c as usize;
        assert(self@[k as int] == self.nodes@[k as int]@);
        &self.nodes[k]
    }

    /// The node with this id.
    pub fn node(&self, id: u64) -> (r: Result<&Node, TreeError>)
        ensures
            match r {
                Ok(n) => id < self@.len() && n@ == self@[id as int],
                Err(e) => id >= self@.len() && e == TreeError::OutOfRange(id),
            },
    {
        if id < self.nodes.len() as u64 {
            Ok(&self.nodes[id as usize])
        } else {
            Err(TreeError::OutOfRange(id))
        }
    }

    /// The children of a directory node, in catalogue order.
    pub fn read_dir(&self, id: u64) -> (r: Result<Vec<DirItem>, TreeError>)
        ensures
            match r {
                Ok(items) => id < self@.len() && self@[id as int].kind == NodeKind::Dir && listing_ok(
                    self@,
                    id,
                    items@,
                ),
                Err(e) => if id >= self@.len() {
                    e == TreeError::OutOfRange(id)
                } else {
                    self@[id as int].kind != NodeKind::Dir && e == TreeError::NotADirectory(id)
                },
            },
    {
        proof {
            use_type_invariant(self);
        }
        let node = self.node(id)?;
        if node.kind != NodeKind::Dir {
            return Err(TreeError::NotADirectory(id));
        }
        let ghost t = self@;
        let mut out: Vec<DirItem> = Vec::new();
        let mut i: usize = 0;
        while i < node.children.len()
            invariant
                t == self@,
                children_in_range(t),
                id < t.len(),
                node@ == t[id as int],
                i <= node.children@.len(),
                out@.len() == i,
                forall|j: int| 0 <= j < i ==> {
                    &&& (#[trigger] out@[j]).id == node.children@[j]
                    &&& out@[j].name@ == t[node.children@[j] as int].name
                    &&& out@[j].kind == t[node.children@[j] as int].kind
                },
            decreases node.children.len() - i,
        {
            let c = node.children[i];
            assert(t[id as int].children[i as int] == c);
            let child = self.child(c);
            out.push(DirItem { name: slice_to_vec(child.name.as_slice()), id: c, kind: child.kind });
            i = i + 1;
        }
        Ok(out)
    }

    /// The first child of directory `parent` named `name`.
    pub fn lookup(&self, parent: u64, name: &[u8]) -> (r: Result<Option<u64>, TreeError>)
        ensures
            match r {
                Ok(found) => parent < self@.len() && self@[parent as int].kind == NodeKind::Dir && found
                    == first_named(self@, self@[parent as int].children, name@, 0),
                Err(e) => if parent >= self@.len() {
                    e == TreeError::OutOfRange(parent)
                } else {
                    self@[parent as int].kind != NodeKind::Dir && e == TreeError::NotADirectory(parent)
                },
            },
    {
        proof {
            use_type_invariant(self);
        }
        let node = self.node(parent)?;
        if node.kind != NodeKind::Dir {
            return Err(TreeError::NotADirectory(parent));
        }
        let ghost t = self@;
        let ghost ch = node.children@;
        let mut i: usize = 0;
        while i < node.children.len()
            invariant
                t == self@,
                children_in_range(t),
                parent < t.len(),
                node@ == t[parent as int],
                t[parent as int].kind == NodeKind::Dir,
                ch == node.children@,
                i <= ch.len(),
                first_named(t, ch, name@, 0) == first_named(t, ch, name@, i as int),
            decreases node.children.len() - i,
        {
            let c = node.children[i];
            assert(t[parent as int].children[i as int] == c);
            let child = self.child(c);
            if bytes_eq(child.name.as_slice(), name) {
                assert(t[ch[i as int] as int].name == name@);
                assert(first_named(t, ch, name@, i as int) == Some(c));
                return Ok(Some(c));
            }
            assert(first_named(t, ch, name@, i as int) == first_named(t, ch, name@, i + 1));
            i = i + 1;
        }
        Ok(None)
    }

    /// The symlink target of a node, cut to at most `cap` bytes; a node with
    /// no target reads as empty.
    pub fn read_link(&self, id: u64, cap: usize) -> (r: Result<Vec<u8>, TreeError>)
        ensures
            match r {
                Ok(v) => id < self@.len() && v@ == link_prefix(self@[id as int], cap),
                Err(e) => id >= self@.len() && e == TreeError::OutOfRange(id),
            },
    {
        let node = self.node(id)?;
        match &node.symlink_target {
            Some(t) => {
                let n = if t.len() <= cap {
                    t.len()
                } else {
                    cap
                };
                Ok(slice_to_vec(&t.as_slice()[0..n]))
            },
            None => Ok(Vec::new()),
        }
    }

    /// The archive path whose data a read of node `id` returns: a file's path;
    /// `None` for directories, symlinks and the root, which read as empty.
    pub fn data_path(&self, id: u64) -> (r: Result<Option<&Vec<u8>>, TreeError>)
        ensures
            match r {
                Ok(p) => id < self@.len() && match p {
                    Some(v) => self@[id as int].kind == NodeKind::File && self@[id as int].path == Some(v@),
                    None => self@[id as int].kind != NodeKind::File || self@[id as int].path is None,
                },
                Err(e) => id >= self@.len() && e == TreeError::OutOfRange(id),
            },
    {
        let node = self.node(id)?;
        if node.kind != NodeKind::File {
            return Ok(None);
        }
        match &node.path {
            Some(p) => Ok(Some(p)),
            None => Ok(None),
        }
    }
}

proof fn lemma_children_sorted(es: Seq<DarEntryModel>, n: int, upto: int)
    requires
        0 <= upto <= u64::MAX,
    ensures
        forall|a: int, b: int|
            0 <= a < b < children_of(es, n, upto).len() ==> #[trigger] children_of(es, n, upto)[a]
                < #[trigger] children_of(es, n, upto)[b],
        forall|i: int|
            0 <= i < upto ==> (children_of(es, n, upto).contains((i + 1) as u64) <==> parent_id(es, i) == n),
    decreases upto,
{
    if upto > 0 {
        lemma_children_sorted(es, n, upto - 1);
        let prev = children_of(es, n, upto - 1);
        let cur = children_of(es, n, upto);
        lemma_children_step(es, n, upto - 1);
        assert forall|k: int| 0 <= k < prev.len() implies prev[k] < upto by {
            lemma_children_in_range(es, n, upto - 1, k);
        }
        assert forall|i: int| 0 <= i < upto implies (cur.contains((i + 1) as u64) <==> parent_id(es, i) == n) by {
            if parent_id(es, upto - 1) == n {
                assert(cur == prev.push(upto as u64));
                if i < upto - 1 {
                    if cur.contains((i + 1) as u64) {
                        let k = choose|k: int| 0 <= k < cur.len() && cur[k] == (i + 1) as u64;
                        if k < prev.len() {
                            assert(prev[k] == (i + 1) as u64);
                        }
                    }
                    if prev.contains((i + 1) as u64) {
                        let k = choose|k: int| 0 <= k < prev.len() && prev[k] == (i + 1) as u64;
                        assert(cur[k] == (i + 1) as u64);
                    }
                } else {
                    assert(cur[prev.len() as int] == upto as u64);
                }
            } else {
                assert(cur =~= prev);
                if i == upto - 1 && cur.contains((i + 1) as u64) {
                    let k = choose|k: int| 0 <= k < cur.len() && cur[k] == (i + 1) as u64;
                    lemma_children_in_range(es, n, upto - 1, k);
                }
            }
        }
    }
}

/// Every entry is listed exactly once, under its parent: node `i + 1` is a
/// child of node `n` exactly when `n` is the parent of entry `i`, and each
/// children list is strictly increasing, so it names no node twice.
pub proof fn tree_lists_each_entry_once(es: Seq<DarEntryModel>, n: int, i: int)
    requires
        0 <= i < es.len(),
        es.len() < u64::MAX,
    ensures
        children_of(es, n, es.len() as int).contains((i + 1) as u64) <==> parent_id(es, i) == n,
        forall|a: int, b: int|
            0 <= a < b < children_of(es, n, es.len() as int).len() ==> #[trigger] children_of(
                es,
                n,
                es.len() as int,
            )[a] < #[trigger] children_of(es, n, es.len() as int)[b],
{
    lemma_children_sorted(es, n, es.len() as int);
}

proof fn lemma_last_slash_concat(a: Seq<u8>, b: Seq<u8>)
    ensures
        last_slash(a + b) == match last_slash(b) {
            Some(i) => Some(a.len() + i),
            None => last_slash(a),
        },
    decreases b.len(),
{
    if b.len() == 0 {
        assert(a + b =~= a);
    } else {
        assert((a + b).drop_last() =~= a + b.drop_last());
        assert((a + b).last() == b.last());
        lemma_last_slash_concat(a, b.drop_last());
    }
}

proof fn lemma_no_slash(p: Seq<u8>)
    requires
        forall|k: int| 0 <= k < p.len() ==> p[k] != 0x2f,
    ensures
        last_slash(p) is None,
{
    lemma_last_slash(p);
}

proof fn lemma_join_split(stack: Seq<Seq<u8>>, name: Seq<u8>)
    requires
        stack.len() > 0,
    ensures
        join_path_spec(stack, name) == join_path_spec(stack.drop_last(), stack.last()) + seq![0x2fu8] + name,
    decreases stack.len(),
{
    let rest = stack.drop_first();
    if rest.len() == 0 {
        assert(stack.drop_last() =~= Seq::<Seq<u8>>::empty());
        assert(join_path_spec(rest, name) == name);
    } else {
        lemma_join_split(rest, name);
        assert(stack.drop_last().drop_first() =~= rest.drop_last());
        assert(stack.drop_last()[0] == stack[0]);
        assert(rest.last() == stack.last());
        assert(join_path_spec(stack.drop_last(), stack.last()) == stack[0] + seq![0x2fu8] + join_path_spec(
            rest.drop_last(),
            rest.last(),
        ));
        assert(join_path_spec(stack, name) =~= join_path_spec(stack.drop_last(), stack.last()) + seq![0x2fu8]
            + name);
    }
}

/// What the catalogue nests, the tree nests: an entry named `name` inside the
/// directories `stack` gets a node named `name`, and its parent path is the
/// path of the innermost directory (none at the top level), wherever the name
/// itself holds no `/`.
pub proof fn tree_follows_catalogue_nesting(stack: Seq<Seq<u8>>, name: Seq<u8>)
    requires
        forall|k: int| 0 <= k < name.len() ==> name[k] != 0x2f,
    ensures
        leaf_of(join_path_spec(stack, name)) == name,
        stack.len() == 0 ==> parent_path(join_path_spec(stack, name)) is None,
        stack.len() > 0 ==> parent_path(join_path_spec(stack, name)) == Some(
            join_path_spec(stack.drop_last(), stack.last()),
        ),
{
    lemma_no_slash(name);
    if stack.len() > 0 {
        let pre = join_path_spec(stack.drop_last(), stack.last());
        let slash = seq![0x2fu8];
        let j = join_path_spec(stack, name);
        lemma_join_split(stack, name);
        lemma_last_slash_concat(pre + slash, name);
        lemma_last_slash_concat(pre, slash);
        assert(last_slash(slash) == Some(0int));
        assert(last_slash(j) == Some(pre.len() as int));
        assert(j.subrange(pre.len() as int + 1, j.len() as int) =~= name);
        assert(j.subrange(0, pre.len() as int) =~= pre);
    }
}


proof fn lemma_last_with_path_below(paths: Seq<Seq<u8>>, q: Seq<u8>, n: int)
    ensures
        last_with_path(paths, q, n) matches Some(j) ==> 0 <= j < n,
    decreases n,
{
    if n > 0 {
        lemma_last_with_path_below(paths, q, n - 1);
    }
}

/// The shape of the tree: one node more than there are entries; node 0 is
/// the synthetic root directory, with no path; node `i + 1` carries entry
/// `i`'s path and, as its name, the path's last component; and entry `i` is
/// listed in exactly one children list, that of its parent (the node of the
/// last entry whose path is the part before its last `/`, else the root),
/// once, every children list being in catalogue order.
pub proof fn tree_places_each_entry_once(es: Seq<DarEntryModel>, i: int)
    requires
        0 <= i < es.len(),
        es.len() < u64::MAX,
    ensures
        tree_of(es).len() == es.len() + 1,
        tree_of(es)[0].path is None,
        tree_of(es)[0].kind == NodeKind::Dir,
        tree_of(es)[i + 1].path == Some(es[i].path),
        tree_of(es)[i + 1].name == leaf_of(es[i].path),
        0 <= parent_id(es, i) <= es.len(),
        forall|m: int|
            0 <= m <= es.len() ==> (#[trigger] tree_of(es)[m].children.contains((i + 1) as u64) <==> m
                == parent_id(es, i)),
        forall|m: int, a: int, b: int|
            0 <= m <= es.len() && 0 <= a < b < tree_of(es)[m].children.len() ==> #[trigger] tree_of(
                es,
            )[m].children[a] < #[trigger] tree_of(es)[m].children[b],
{
    match parent_path(es[i].path) {
        Some(q) => lemma_last_with_path_below(entry_paths(es), q, es.len() as int),
        None => {},
    }
    assert forall|m: int| 0 <= m <= es.len() implies (#[trigger] tree_of(es)[m].children.contains(
        (i + 1) as u64,
    ) <==> m == parent_id(es, i)) by {
        tree_lists_each_entry_once(es, m, i);
        assert(tree_of(es)[m].children == children_of(es, m, es.len() as int));
    }
    assert forall|m: int, a: int, b: int|
        0 <= m <= es.len() && 0 <= a < b < tree_of(es)[m].children.len() implies #[trigger] tree_of(
            es,
        )[m].children[a] < #[trigger] tree_of(es)[m].children[b] by {
        tree_lists_each_entry_once(es, m, i);
        assert(tree_of(es)[m].children == children_of(es, m, es.len() as int));
    }
}


/// Each entry's node carries that entry's own metadata: its owner and group
/// (saturated to `u32::MAX` when larger), size, permissions, times and link
/// target, a directory kind exactly when the entry is a directory and a link
/// kind exactly when it is a symbolic link (any other entry is a file).
pub proof fn tree_node_carries_entry_metadata(es: Seq<DarEntryModel>, i: int)
    requires
        0 <= i < es.len(),
    ensures
        ({
            let n = tree_of(es)[i + 1];
            let e = es[i];
            &&& e.uid <= u32::MAX ==> n.uid == e.uid
            &&& e.uid > u32::MAX ==> n.uid == u32::MAX
            &&& e.gid <= u32::MAX ==> n.gid == e.gid
            &&& e.gid > u32::MAX ==> n.gid == u32::MAX
            &&& n.size == e.size && n.mode == e.mode
            &&& n.atime == e.atime && n.mtime == e.mtime && n.ctime == e.ctime
            &&& n.symlink_target == e.symlink_target
            &&& (n.kind == NodeKind::Dir) == (e.kind == EntryKind::Directory)
            &&& (n.kind == NodeKind::Symlink) == (e.kind == EntryKind::Symlink)
        }),
{
}

} // verus!
