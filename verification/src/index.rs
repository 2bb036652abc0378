//! An index over a list of byte paths that finds, for a path, the last list
//! position holding it. Paths are bucketed by a 64-bit FNV-1a hash; each
//! position links to the previous position with the same hash, so a lookup
//! walks only the positions that share the hash of the path it seeks.
//! The buckets live in a `HashMap` keyed by the hash: vstd specifies a
//! `HashMap` with integer keys, while a set keyed by the byte strings
//! themselves would carry no usable specification.

use std::collections::HashMap;

use vstd::prelude::*;

verus! {

broadcast use vstd::std_specs::hash::group_hash_axioms;

pub const FNV_OFFSET: u64 = 0xcbf29ce484222325;

pub const FNV_PRIME: u64 = 0x100000001b3;

/// FNV-1a over the bytes of `s`.
pub open spec fn path_hash(s: Seq<u8>) -> u64
    decreases s.len(),
{
    if s.len() == 0 {
        FNV_OFFSET
    } else {
        vstd::wrapping::u64_specs::wrapping_mul(path_hash(s.drop_last()) ^ (s.last() as u64), FNV_PRIME)
    }
}

/// The last position before `n` whose path is `q`.
pub open spec fn last_with_path(paths: Seq<Seq<u8>>, q: Seq<u8>, n: int) -> Option<int>
    decreases n,
{
    if n <= 0 {
        None
    } else if paths[n - 1] == q {
        Some(n - 1)
    } else {
        last_with_path(paths, q, n - 1)
    }
}

/// The last position before `n` whose hash is `h`.
pub open spec fn last_with_hash(hs: Seq<u64>, h: u64, n: int) -> Option<int>
    decreases n,
{
    if n <= 0 {
        None
    } else if hs[n - 1] == h {
        Some(n - 1)
    } else {
        last_with_hash(hs, h, n - 1)
    }
}

/// How many positions before `n` hold the path `q`.
pub open spec fn count_path_before(paths: Seq<Seq<u8>>, q: Seq<u8>, n: int) -> nat
    decreases n,
{
    if n <= 0 {
        0
    } else {
        count_path_before(paths, q, n - 1) + if paths[n - 1] == q {
            1nat
        } else {
            0nat
        }
    }
}

proof fn lemma_last_with_hash(hs: Seq<u64>, h: u64, n: int)
    requires
        n <= hs.len(),
    ensures
        match last_with_hash(hs, h, n) {
            Some(j) => 0 <= j < n && hs[j] == h && forall|k: int| j < k < n ==> hs[k] != h,
            None => forall|k: int| 0 <= k < n ==> hs[k] != h,
        },
    decreases n,
{
    if n > 0 {
        lemma_last_with_hash(hs, h, n - 1);
    }
}

proof fn lemma_last_with_path_found(paths: Seq<Seq<u8>>, q: Seq<u8>, j: int, n: int)
    requires
        0 <= j < n <= paths.len(),
        paths[j] == q,
        forall|k: int| j < k < n ==> paths[k] != q,
    ensures
        last_with_path(paths, q, n) == Some(j),
    decreases n,
{
    if n - 1 > j {
        lemma_last_with_path_found(paths, q, j, n - 1);
    }
}

proof fn lemma_last_with_path_skip(paths: Seq<Seq<u8>>, q: Seq<u8>, a: int, n: int)
    requires
        0 <= a <= n <= paths.len(),
        forall|k: int| a <= k < n ==> paths[k] != q,
    ensures
        last_with_path(paths, q, n) == last_with_path(paths, q, a),
    decreases n,
{
    if n > a {
        lemma_last_with_path_skip(paths, q, a, n - 1);
    }
}

proof fn lemma_count_skip(paths: Seq<Seq<u8>>, q: Seq<u8>, a: int, n: int)
    requires
        0 <= a <= n <= paths.len(),
        forall|k: int| a <= k < n ==> paths[k] != q,
    ensures
        count_path_before(paths, q, n) == count_path_before(paths, q, a),
    decreases n,
{
    if n > a {
        lemma_count_skip(paths, q, a, n - 1);
    }
}

proof fn lemma_last_with_path_none(paths: Seq<Seq<u8>>, q: Seq<u8>, n: int)
    requires
        0 <= n <= paths.len(),
        forall|k: int| 0 <= k < n ==> paths[k] != q,
    ensures
        last_with_path(paths, q, n) is None,
        count_path_before(paths, q, n) == 0,
    decreases n,
{
    if n > 0 {
        lemma_last_with_path_none(paths, q, n - 1);
    }
}

/// The FNV-1a hash of `s`.
pub fn hash_path(s: &[u8]) -> (h: u64)
    ensures
        h == path_hash(s@),
{
    let mut h: u64 = FNV_OFFSET;
    let mut i: usize = 0;
    while i < s.len()
        invariant
            i <= s@.len(),
            h == path_hash(s@.subrange(0, i as int)),
        decreases s.len() - i,
    {
        let ghost t = s@.subrange(0, i + 1);
        assert(t.drop_last() =~= s@.subrange(0, i as int));
        h = (h ^ (s[i] as u64)).wrapping_mul(FNV_PRIME);
        i = i + 1;
    }
    assert(s@.subrange(0, s@.len() as int) =~= s@);
    h
}

/// Byte-wise equality of two byte strings.
pub fn bytes_eq(a: &[u8], b: &[u8]) -> (r: bool)
    ensures
        r == (a@ == b@),
{
    if a.len() != b.len() {
        return false;
    }
    let mut i: usize = 0;
    while i < a.len()
        invariant
            a@.len() == b@.len(),
            i <= a@.len(),
            forall|j: int| 0 <= j < i ==> a@[j] == b@[j],
        decreases a.len() - i,
    {
        if a[i] != b[i] {
            return false;
        }
        i = i + 1;
    }
    assert(a@ =~= b@);
    true
}

/// `o` names the position `r`, or nothing where `r` is `None`.
pub open spec fn names(o: Option<usize>, r: Option<int>) -> bool {
    match o {
        Some(j) => r == Some(j as int),
        None => r is None,
    }
}

/// The view of a list of byte vectors.
pub open spec fn paths_view(v: Seq<Vec<u8>>) -> Seq<Seq<u8>> {
    v.map_values(|p: Vec<u8>| p@)
}

/// A list of paths with a hash-chained lookup.
pub struct PathIndex {
    paths: Vec<Vec<u8>>,
    hashes: Vec<u64>,
    head: HashMap<u64, usize>,
    prev: Vec<Option<usize>>,
}

impl PathIndex {
    /// The indexed paths, in list order.
    pub closed spec fn paths(&self) -> Seq<Seq<u8>> {
        paths_view(self.paths@)
    }

    /// The chains and buckets agree with the paths.
    pub closed spec fn wf(&self) -> bool {
        let n = self.paths@.len() as int;
        &&& self.hashes@.len() == n
        &&& self.prev@.len() == n
        &&& forall|j: int| 0 <= j < n ==> #[trigger] self.hashes@[j] == path_hash(self.paths@[j]@)
        &&& forall|j: int| 0 <= j < n ==> names(#[trigger] self.prev@[j], last_with_hash(self.hashes@, self.hashes@[j], j))
        &&& forall|h: u64| #[trigger] last_with_hash(self.hashes@, h, n) == if self.head@.contains_key(h) {
            Some(self.head@[h] as int)
        } else {
            None
        }
        &&& forall|h: u64| self.head@.contains_key(h) ==> (#[trigger] self.head@[h]) < n
    }

    /// Index `paths`.
    pub fn new(paths: Vec<Vec<u8>>) -> (idx: PathIndex)
        ensures
            idx.wf(),
            idx.paths() == paths_view(paths@),
    {
        let mut hashes: Vec<u64> = Vec::new();
        let mut head: HashMap<u64, usize> = HashMap::new();
        let mut prev: Vec<Option<usize>> = Vec::new();
        let mut j: usize = 0;
        while j < paths.len()
            invariant
                j <= paths@.len(),
                hashes@.len() == j,
                prev@.len() == j,
                forall|k: int| 0 <= k < j ==> #[trigger] hashes@[k] == path_hash(paths@[k]@),
                forall|k: int| 0 <= k < j ==> names(#[trigger] prev@[k], last_with_hash(hashes@, hashes@[k], k)),
                forall|h: u64| #[trigger] last_with_hash(hashes@, h, j as int) == if head@.contains_key(h) {
                    Some(head@[h] as int)
                } else {
                    None
                },
                forall|h: u64| head@.contains_key(h) ==> (#[trigger] head@[h]) < j,
            decreases paths.len() - j,
        {
            let h = hash_path(paths[j].as_slice());
            let ghost old_hashes = hashes@;
            let before = match head.get(&h) {
                Some(k) => Some(*k),
                None => None,
            };
            assert(names(before, last_with_hash(old_hashes, h, j as int)));
            hashes.push(h);
            proof {
                assert(old_hashes =~= hashes@.subrange(0, j as int));
                assert forall|k: int| 0 <= k < j implies #[trigger] last_with_hash(hashes@, hashes@[k], k)
                    == last_with_hash(old_hashes, old_hashes[k], k) by {
                    lemma_prefix_last_with_hash(old_hashes, hashes@, hashes@[k], k);
                }
                lemma_prefix_last_with_hash(old_hashes, hashes@, h, j as int);
                assert forall|g: u64| #[trigger] last_with_hash(hashes@, g, j + 1) == if g == h {
                    Some(j as int)
                } else {
                    last_with_hash(old_hashes, g, j as int)
                } by {
                    lemma_prefix_last_with_hash(old_hashes, hashes@, g, j as int);
                }
            }
            prev.push(before);
            head.insert(h, j);
            j = j + 1;
        }
        PathIndex { paths, hashes, head, prev }
    }

    /// Number of indexed paths.
    pub fn len(&self) -> (n: usize)
        ensures
            n == self.paths().len(),
    {
        self.paths.len()
    }

    /// Following the chain from position `j` (the last with hash `h` before
    /// `m`) either finds `q` at `j` or leaves the answer below `j`.
    proof fn lemma_chain_step(&self, q: Seq<u8>, h: u64, j: int, m: int)
        requires
            self.wf(),
            h == path_hash(q),
            0 <= m <= self.paths().len(),
            last_with_hash(self.hashes@, h, m) == Some(j),
        ensures
            0 <= j < m,
            self.paths()[j] == q ==> last_with_path(self.paths(), q, m) == Some(j),
            self.paths()[j] != q ==> last_with_path(self.paths(), q, m) == last_with_path(self.paths(), q, j),
            names(self.prev@[j], last_with_hash(self.hashes@, h, j)),
    {
        let ps = self.paths();
        lemma_last_with_hash(self.hashes@, h, m);
        assert(self.hashes@[j] == path_hash(self.paths@[j]@));
        assert forall|k: int| j < k < m implies ps[k] != q by {
            assert(self.hashes@[k] == path_hash(self.paths@[k]@));
        }
        if ps[j] == q {
            lemma_last_with_path_found(ps, q, j, m);
        } else {
            lemma_last_with_path_skip(ps, q, j, m);
        }
    }

    /// No position before `m` has hash `h`, so none holds `q`.
    proof fn lemma_chain_end(&self, q: Seq<u8>, h: u64, m: int)
        requires
            self.wf(),
            h == path_hash(q),
            0 <= m <= self.paths().len(),
            last_with_hash(self.hashes@, h, m) is None,
        ensures
            last_with_path(self.paths(), q, m) is None,
    {
        let ps = self.paths();
        lemma_last_with_hash(self.hashes@, h, m);
        assert forall|k: int| 0 <= k < m implies ps[k] != q by {
            assert(self.hashes@[k] == path_hash(self.paths@[k]@));
        }
        lemma_last_with_path_none(ps, q, m);
    }

    /// The last position whose path is `q`.
    pub fn last_of(&self, q: &[u8]) -> (r: Option<usize>)
        requires
            self.wf(),
        ensures
            names(r, last_with_path(self.paths(), q@, self.paths().len() as int)),
            r matches Some(j) ==> j < self.paths().len(),
    {
        let ghost ps = self.paths();
        let ghost n = ps.len() as int;
        let h = hash_path(q);
        let mut cur: Option<usize> = match self.head.get(&h) {
            Some(k) => Some(*k),
            None => None,
        };
        let ghost mut m: int = n;
        while cur.is_some()
            invariant
                self.wf(),
                ps == self.paths(),
                n == ps.len(),
                h == path_hash(q@),
                0 <= m <= n,
                names(cur, last_with_hash(self.hashes@, h, m)),
                last_with_path(ps, q@, n) == last_with_path(ps, q@, m),
            decreases m,
        {
            let j = match cur {
                Some(j) => j,
                None => 0,
            };
            proof {
                self.lemma_chain_step(q@, h, j as int, m);
            }
            if bytes_eq(self.paths[j].as_slice(), q) {
                return Some(j);
            }
            proof {
                m = j as int;
            }
            cur = self.prev[j];
        }
        proof {
            self.lemma_chain_end(q@, h, m);
        }
        None
    }

    /// Whether exactly one position before `i` holds the path at `i` (the
    /// path's second sighting).
    pub fn seen_once_before(&self, i: usize) -> (b: bool)
        requires
            self.wf(),
            i < self.paths().len(),
        ensures
            b == (count_path_before(self.paths(), self.paths()[i as int], i as int) == 1),
    {
        let ghost ps = self.paths();
        let ghost q = ps[i as int];
        let h = self.hashes[i];
        let mut cur: Option<usize> = self.prev[i];
        let mut seen: usize = 0;
        let ghost mut m: int = i as int;
        proof {
            assert(self.hashes@[i as int] == path_hash(self.paths@[i as int]@));
        }
        while cur.is_some()
            invariant
                self.wf(),
                ps == self.paths(),
                i < ps.len(),
                q == ps[i as int],
                h == path_hash(q),
                0 <= m <= i,
                seen <= 1,
                names(cur, last_with_hash(self.hashes@, h, m)),
                seen + count_path_before(ps, q, m) == count_path_before(ps, q, i as int),
            decreases m,
        {
            let j = match cur {
                Some(j) => j,
                None => 0,
            };
            proof {
                self.lemma_chain_step(q, h, j as int, m);
                lemma_last_with_hash(self.hashes@, h, m);
                assert forall|k: int| j + 1 <= k < m implies ps[k] != q by {
                    assert(self.hashes@[k] == path_hash(self.paths@[k]@));
                }
                lemma_count_skip(ps, q, j + 1, m);
                m = j as int;
            }
            if bytes_eq(self.paths[j].as_slice(), self.paths[i].as_slice()) {
                if seen == 1 {
                    return false;
                }
                seen = seen + 1;
            }
            cur = self.prev[j];
        }
        proof {
            self.lemma_chain_end(q, h, m);
            lemma_last_with_hash(self.hashes@, h, m);
            assert forall|k: int| 0 <= k < m implies ps[k] != q by {
                assert(self.hashes@[k] == path_hash(self.paths@[k]@));
            }
            lemma_last_with_path_none(ps, q, m);
        }
        seen == 1
    }
}

/// Appending to a hash list leaves the answers below its old length alone.
proof fn lemma_prefix_last_with_hash(a: Seq<u64>, b: Seq<u64>, h: u64, n: int)
    requires
        0 <= n <= a.len() <= b.len(),
        a == b.subrange(0, a.len() as int),
    ensures
        last_with_hash(b, h, n) == last_with_hash(a, h, n),
        n < b.len() ==> last_with_hash(b, h, n + 1) == if b[n] == h {
            Some(n)
        } else {
            last_with_hash(a, h, n)
        },
    decreases n,
{
    if n > 0 {
        lemma_prefix_last_with_hash(a, b, h, n - 1);
        assert(a[n - 1] == b[n - 1]);
    }
}

} // verus!
