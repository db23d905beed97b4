use vstd::prelude::*;
use crate::crypto::{blake3_of, blake3_hash};

verus! {

/// An incremental Merkle tree over 32-byte leaves. Leaves are staged by
/// `insert`; `commit` recomputes the root they determine. A level pairs
/// adjacent nodes left-to-right and promotes a lone last node unchanged.

/// The byte views of a sequence of 32-byte hashes.
pub open spec fn views(s: Seq<[u8; 32]>) -> Seq<Seq<u8>> {
    s.map_values(|h: [u8; 32]| h@)
}

/// The hash of an inner node over its two children.
pub open spec fn hash_pair(a: Seq<u8>, b: Seq<u8>) -> Seq<u8> {
    blake3_of(a + b)
}

/// One level up: adjacent pairs combined, a lone last node promoted.
pub open spec fn next_level(l: Seq<Seq<u8>>) -> Seq<Seq<u8>> {
    Seq::new(((l.len() + 1) / 2) as nat, |i: int|
        if 2 * i + 1 < l.len() {
            hash_pair(l[2 * i], l[2 * i + 1])
        } else {
            l[2 * i]
        })
}

/// The root a non-empty leaf level determines.
pub open spec fn root_of(l: Seq<Seq<u8>>) -> Seq<u8>
    recommends
        l.len() >= 1,
    decreases l.len(),
{
    if l.len() <= 1 {
        l[0]
    } else {
        root_of(next_level(l))
    }
}

/// The sibling hashes that prove membership of the leaf at `i`:
/// its sibling at each level, bottom up; a level where the node is
/// promoted contributes nothing.
pub open spec fn proof_path(l: Seq<Seq<u8>>, i: int) -> Seq<Seq<u8>>
    decreases l.len(),
{
    if l.len() <= 1 {
        Seq::empty()
    } else {
        let sib = if i % 2 == 0 {
            i + 1
        } else {
            i - 1
        };
        let head: Seq<Seq<u8>> = if 0 <= sib < l.len() {
            seq![l[sib]]
        } else {
            Seq::empty()
        };
        head + proof_path(next_level(l), i / 2)
    }
}

/// Recomputing the root from a leaf, its index, the leaf count and a
/// sibling path. A path too short for the climb stops it where it ends.
pub open spec fn climb(leaf: Seq<u8>, i: int, n: int, path: Seq<Seq<u8>>) -> Seq<u8>
    decreases n,
{
    if n <= 1 {
        leaf
    } else {
        let has_sib = if i % 2 == 0 {
            i + 1 < n
        } else {
            true
        };
        if has_sib {
            if path.len() == 0 {
                leaf
            } else {
                let up = if i % 2 == 0 {
                    hash_pair(leaf, path[0])
                } else {
                    hash_pair(path[0], leaf)
                };
                climb(up, i / 2, (n + 1) / 2, path.drop_first())
            }
        } else {
            climb(leaf, i / 2, (n + 1) / 2, path)
        }
    }
}

/// Law: the sibling path drawn for any leaf of a tree recomputes that
/// tree's root from the leaf, its index and the leaf count.
pub proof fn lemma_merkle_proof_valid(l: Seq<Seq<u8>>, i: int)
    requires
        0 <= i < l.len(),
    ensures
        climb(l[i], i, l.len() as int, proof_path(l, i)) == root_of(l),
    decreases l.len(),
{
    let n = l.len() as int;
    if n <= 1 {
    } else {
        let nl = next_level(l);
        let sib = if i % 2 == 0 {
            i + 1
        } else {
            i - 1
        };
        assert(0 <= i / 2 < nl.len());
        if i % 2 == 0 {
            if sib < n {
                assert(nl[i / 2] == hash_pair(l[i], l[sib]));
                assert((seq![l[sib]] + proof_path(nl, i / 2)).drop_first()
                    =~= proof_path(nl, i / 2));
                assert((seq![l[sib]] + proof_path(nl, i / 2))[0] == l[sib]);
            } else {
                assert(nl[i / 2] == l[i]);
                assert(Seq::<Seq<u8>>::empty() + proof_path(nl, i / 2) =~= proof_path(nl, i / 2));
            }
        } else {
            assert(nl[i / 2] == hash_pair(l[sib], l[i]));
            assert((seq![l[sib]] + proof_path(nl, i / 2)).drop_first() =~= proof_path(nl, i / 2));
            assert((seq![l[sib]] + proof_path(nl, i / 2))[0] == l[sib]);
        }
        lemma_merkle_proof_valid(nl, i / 2);
    }
}

/// The staged-leaf Merkle tree the mempool keeps per pool.
pub struct MerkleTree {
    leaves: Vec<[u8; 32]>,
    root_cache: Option<[u8; 32]>,
}

impl MerkleTree {
    /// The staged leaves, in insertion order.
    pub closed spec fn leaves_view(self) -> Seq<[u8; 32]> {
        self.leaves@
    }

    /// A committed tree's cached root matches its staged leaves.
    pub closed spec fn committed(self) -> bool {
        match self.root_cache {
            Option::None => self.leaves@.len() == 0,
            Option::Some(r) => self.leaves@.len() > 0 && r@ == root_of(views(self.leaves@)),
        }
    }

    /// An empty, committed tree.
    pub fn new() -> (r: Self)
        ensures
            r.leaves_view().len() == 0,
            r.committed(),
    {
        MerkleTree { leaves: Vec::new(), root_cache: Option::None }
    }

    /// Stages one more leaf; the root is stale until the next `commit`.
    pub fn insert(&mut self, leaf: [u8; 32])
        ensures
            final(self).leaves_view() == old(self).leaves_view().push(leaf),
    {
        self.leaves.push(leaf);
    }

    /// Recomputes the root of the staged leaves.
    pub fn commit(&mut self)
        ensures
            final(self).leaves_view() == old(self).leaves_view(),
            final(self).committed(),
    {
        if self.leaves.len() == 0 {
            self.root_cache = Option::None;
            return;
        }
        let mut cur: Vec<[u8; 32]> = clone_hashes(&self.leaves);
        while cur.len() > 1
            invariant
                cur@.len() >= 1,
                root_of(views(cur@)) == root_of(views(self.leaves@)),
            decreases cur@.len(),
        {
            let up = next_level_exec(&cur);
            proof {
                assert(views(cur@).len() == cur@.len());
                assert(root_of(views(up@)) == root_of(views(cur@)));
                assert(up@.len() == views(up@).len());
            }
            cur = up;
        }
        self.root_cache = Option::Some(cur[0]);
        proof {
            assert(views(cur@)[0] == cur@[0]@);
        }
    }

    /// The committed root, absent when the tree is empty.
    pub fn root(&self) -> (r: Option<[u8; 32]>)
        requires
            self.committed(),
        ensures
            match r {
                Option::None => self.leaves_view().len() == 0,
                Option::Some(h) => self.leaves_view().len() > 0
                    && h@ == root_of(views(self.leaves_view())),
            },
    {
        match &self.root_cache {
            Option::None => Option::None,
            Option::Some(h) => Option::Some(*h),
        }
    }

    /// Index of the first staged leaf equal to `h`, if any.
    pub fn find_leaf(&self, h: &[u8; 32]) -> (r: Option<usize>)
        ensures
            match r {
                Option::Some(i) => i < self.leaves_view().len() && self.leaves_view()[i as int]@
                    == h@ && (forall|j: int| 0 <= j < i ==> self.leaves_view()[j]@ != h@),
                Option::None => forall|j: int| 0 <= j < self.leaves_view().len()
                    ==> self.leaves_view()[j]@ != h@,
            },
    {
        let mut i: usize = 0;
        while i < self.leaves.len()
            invariant
                i <= self.leaves@.len(),
                forall|j: int| 0 <= j < i ==> self.leaves@[j]@ != h@,
            decreases self.leaves@.len() - i,
        {
            if hash_eq(&self.leaves[i], h) {
                return Option::Some(i);
            }
            i = i + 1;
        }
        Option::None
    }

    /// The sibling path of the leaf at `index` against the staged leaves.
    pub fn proof_for(&self, index: usize) -> (r: Vec<[u8; 32]>)
        requires
            index < self.leaves_view().len(),
        ensures
            views(r@) == proof_path(views(self.leaves_view()), index as int),
    {
        let mut path: Vec<[u8; 32]> = Vec::new();
        let mut cur: Vec<[u8; 32]> = clone_hashes(&self.leaves);
        let mut idx: usize = index;
        while cur.len() > 1
            invariant
                idx < cur@.len(),
                proof_path(views(self.leaves@), index as int)
                    =~= views(path@) + proof_path(views(cur@), idx as int),
            decreases cur@.len(),
        {
            let ghost prev = cur@;
            let ghost prev_idx = idx as int;
            let sib: usize = if idx % 2 == 0 {
                idx + 1
            } else {
                idx - 1
            };
            if sib < cur.len() {
                path.push(cur[sib]);
                proof {
                    assert(views(path@) =~= views(path@.drop_last()).push(prev[sib as int]@));
                }
            }
            let up = next_level_exec(&cur);
            proof {
                assert(views(prev).len() == prev.len());
                if sib < prev.len() {
                    assert(proof_path(views(prev), prev_idx)
                        =~= seq![views(prev)[sib as int]] + proof_path(views(up@), prev_idx / 2));
                } else {
                    assert(proof_path(views(prev), prev_idx)
                        =~= proof_path(views(up@), prev_idx / 2));
                }
            }
            cur = up;
            idx = idx / 2;
            proof {
                assert(proof_path(views(self.leaves@), index as int)
                    =~= views(path@) + proof_path(views(cur@), idx as int));
            }
        }
        proof {
            assert(proof_path(views(cur@), idx as int) =~= Seq::<Seq<u8>>::empty());
            assert(views(path@) + Seq::<Seq<u8>>::empty() =~= views(path@));
        }
        path
    }
}

/// Recomputes a root from a leaf, its index, the leaf count and a
/// sibling path, and compares it with the claimed root.
pub fn verify_merkle_proof(root: &[u8; 32], leaf: &[u8; 32], index: usize, total: usize,
    path: &Vec<[u8; 32]>) -> (r: bool)
    requires
        index < total,
    ensures
        r == (root@ == climb(leaf@, index as int, total as int, views(path@))),
{
    let mut h: [u8; 32] = *leaf;
    let mut i: usize = index;
    let mut n: usize = total;
    let mut p: usize = 0;
    proof {
        assert(views(path@).skip(0) =~= views(path@));
    }
    while n > 1
        invariant
            p <= path@.len(),
            i < n,
            climb(leaf@, index as int, total as int, views(path@))
                == climb(h@, i as int, n as int, views(path@).skip(p as int)),
        decreases n,
    {
        let ghost rest = views(path@).skip(p as int);
        let has_sib: bool = if i % 2 == 0 {
            i + 1 < n
        } else {
            true
        };
        if has_sib {
            if p >= path.len() {
                proof {
                    assert(rest.len() == 0);
                }
                return hash_eq(root, &h);
            }
            proof {
                assert(rest[0] == path@[p as int]@);
                assert(rest.drop_first() =~= views(path@).skip(p + 1));
            }
            let up: [u8; 32] = if i % 2 == 0 {
                pair_hash(&h, &path[p])
            } else {
                pair_hash(&path[p], &h)
            };
            h = up;
            p = p + 1;
        }
        i = i / 2;
        n = n / 2 + n % 2;
    }
    hash_eq(root, &h)
}

/// The inner-node hash of two 32-byte children.
pub fn pair_hash(a: &[u8; 32], b: &[u8; 32]) -> (r: [u8; 32])
    ensures
        r@ == hash_pair(a@, b@),
{
    let mut buf: Vec<u8> = Vec::new();
    crate::codec::append_hash(&mut buf, a);
    crate::codec::append_hash(&mut buf, b);
    blake3_hash(buf.as_slice())
}

/// Whether two 32-byte hashes hold the same bytes.
pub fn hash_eq(a: &[u8; 32], b: &[u8; 32]) -> (r: bool)
    ensures
        r == (a@ == b@),
{
    let mut i: usize = 0;
    while i < 32
        invariant
            i <= 32,
            forall|j: int| 0 <= j < i ==> a@[j] == b@[j],
        decreases 32 - i,
    {
        if a[i] != b[i] {
            return false;
        }
        i = i + 1;
    }
    proof {
        assert(a@ =~= b@);
    }
    true
}

/// One level of pair hashing over a node vector.
fn next_level_exec(l: &Vec<[u8; 32]>) -> (r: Vec<[u8; 32]>)
    requires
        l@.len() >= 1,
    ensures
        views(r@) == next_level(views(l@)),
        r@.len() == (l@.len() + 1) / 2,
{
    let ghost nl = next_level(views(l@));
    let mut out: Vec<[u8; 32]> = Vec::new();
    let mut i: usize = 0;
    while i + 1 < l.len()
        invariant
            i % 2 == 0,
            i <= l@.len(),
            out@.len() == i / 2,
            views(out@) =~= nl.take(i as int / 2),
            nl == next_level(views(l@)),
        decreases l@.len() - i,
    {
        let h = pair_hash(&l[i], &l[i + 1]);
        out.push(h);
        proof {
            assert(views(l@)[i as int] == l@[i as int]@);
            assert(views(l@)[i + 1] == l@[i + 1]@);
            assert(nl[i as int / 2] == hash_pair(l@[i as int]@, l@[i + 1]@));
            assert(views(out@) =~= nl.take((i + 2) as int / 2));
        }
        i = i + 2;
    }
    if i < l.len() {
        out.push(l[i]);
        proof {
            assert(nl[i as int / 2] == views(l@)[i as int]);
            assert(views(out@) =~= nl.take(i as int / 2 + 1));
            assert(nl.take(i as int / 2 + 1) =~= nl);
        }
    } else {
        proof {
            assert(nl.take(i as int / 2) =~= nl);
        }
    }
    out
}

/// An element-wise copy of a hash vector.
fn clone_hashes(v: &Vec<[u8; 32]>) -> (r: Vec<[u8; 32]>)
    ensures
        r@ == v@,
{
    let mut r: Vec<[u8; 32]> = Vec::new();
    let mut i: usize = 0;
    while i < v.len()
        invariant
            i <= v@.len(),
            r@ == v@.take(i as int),
        decreases v@.len() - i,
    {
        r.push(v[i]);
        proof {
            assert(v@.take(i + 1) =~= v@.take(i as int).push(v@[i as int]));
        }
        i = i + 1;
    }
    proof {
        assert(v@.take(v@.len() as int) =~= v@);
    }
    r
}

} // verus!
