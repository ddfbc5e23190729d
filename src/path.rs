//! Interned absolute paths: a tree of (parent, name) nodes in which each
//! distinct path is stored once and named by a small copyable handle.
use crate::order::{
    bytes_cmp, compare_bytes, lemma_bytes_cmp_refl, lemma_bytes_eq, lemma_path_cmp_push_both, lemma_path_cmp_push_left,
    lemma_path_cmp_push_right, lemma_path_cmp_refl, path_cmp, path_lt,
};
use std::cmp::Ordering;
use vstd::prelude::*;

verus! {

/// Number of buckets in the child lookup table.
pub const BUCKETS: usize = 65536;

/// Modulus of the rolling key of a (parent, name) pair.
pub const KEY_MODULUS: u64 = 4294967291;

const SLASH: u8 = 47;

/// Handle of an interned path.
#[derive(Clone, Copy, Debug, PartialEq, Eq, Hash, Structural)]
pub struct PathId {
    pub index: usize,
}

struct PathNode {
    parent: usize,
    name: Vec<u8>,
    depth: usize,
}

/// The components of an absolute path, split at `/`; empty segments are skipped.
pub open spec fn split_state(s: Seq<u8>) -> (Seq<Seq<u8>>, Seq<u8>)
    decreases s.len(),
{
    if s.len() == 0 {
        (seq![], seq![])
    } else {
        let (cs, cur) = split_state(s.drop_last());
        if s.last() == 47u8 {
            if cur.len() == 0 {
                (cs, cur)
            } else {
                (cs.push(cur), seq![])
            }
        } else {
            (cs, cur.push(s.last()))
        }
    }
}

/// The names along an absolute path, root first.
pub open spec fn path_components(s: Seq<u8>) -> Seq<Seq<u8>> {
    let (cs, cur) = split_state(s);
    if cur.len() == 0 {
        cs
    } else {
        cs.push(cur)
    }
}

/// A path name: not empty and without `/`.
pub open spec fn valid_name(n: Seq<u8>) -> bool {
    n.len() > 0 && forall|i: int| 0 <= i < n.len() ==> #[trigger] n[i] != 47u8
}

pub open spec fn valid_components(cs: Seq<Seq<u8>>) -> bool {
    forall|i: int| 0 <= i < cs.len() ==> #[trigger] valid_name(cs[i])
}

/// `/a/b` for the components `a`, `b`; empty for the root.
pub open spec fn rooted_bytes(cs: Seq<Seq<u8>>) -> Seq<u8>
    decreases cs.len(),
{
    if cs.len() == 0 {
        seq![]
    } else {
        rooted_bytes(cs.drop_last()).push(47u8) + cs.last()
    }
}

/// The text of a path: `/` for the root, else `rooted_bytes`.
pub open spec fn path_bytes(cs: Seq<Seq<u8>>) -> Seq<u8> {
    if cs.len() == 0 {
        seq![47u8]
    } else {
        rooted_bytes(cs)
    }
}

pub open spec fn name_key(acc: nat, s: Seq<u8>) -> nat
    decreases s.len(),
{
    if s.len() == 0 {
        acc
    } else {
        ((name_key(acc, s.drop_last()) * 257 + s.last() + 1) % (KEY_MODULUS as int)) as nat
    }
}

/// The bucket of the child called `name` under the node `parent`.
pub open spec fn bucket_of(parent: usize, name: Seq<u8>) -> int {
    name_key((parent as int % KEY_MODULUS as int) as nat, name) as int % (BUCKETS as int)
}

pub open spec fn bucket_has(b: Seq<usize>, i: usize) -> bool {
    exists|k: int| 0 <= k < b.len() && #[trigger] b[k] == i
}

/// The store of interned paths.
pub struct RecursivePathDatabase {
    nodes: Vec<PathNode>,
    buckets: Vec<Vec<usize>>,
    paths: Ghost<Seq<Seq<Seq<u8>>>>,
}

impl RecursivePathDatabase {
    /// Handles that this interner has handed out.
    pub closed spec fn valid(&self, id: PathId) -> bool {
        id.index < self.nodes@.len()
    }

    /// The components of the path that a handle names.
    pub closed spec fn path_of(&self, id: PathId) -> Seq<Seq<u8>> {
        self.paths@[id.index as int]
    }

    /// Every handle of `old` is still valid here and names the same path.
    pub open spec fn extends(&self, old: &RecursivePathDatabase) -> bool {
        forall|id: PathId| #[trigger]
            old.valid(id) ==> self.valid(id) && self.path_of(id) == old.path_of(id)
    }

    pub closed spec fn wf(&self) -> bool {
        let n = self.nodes@.len();
        &&& self.paths@.len() == n
        &&& n >= 1
        &&& self.paths@[0] == Seq::<Seq<u8>>::empty()
        &&& self.nodes@[0].depth == 0
        &&& forall|i: int|
            1 <= i < n ==> {
                let node = #[trigger] self.nodes@[i];
                &&& node.parent < i
                &&& self.paths@[i] == self.paths@[node.parent as int].push(node.name@)
                &&& valid_name(node.name@)
            }
        &&& forall|i: int|
            0 <= i < n ==> #[trigger] self.nodes@[i].depth == self.paths@[i].len()
                && self.nodes@[i].depth <= i
        &&& forall|i: int| 0 <= i < n ==> valid_components(#[trigger] self.paths@[i])
        &&& self.buckets@.len() == BUCKETS
        &&& forall|b: int, k: int|
            0 <= b < BUCKETS && 0 <= k < self.buckets@[b]@.len() ==> {
                let e = #[trigger] self.buckets@[b]@[k];
                &&& 1 <= e < n
                &&& bucket_of(self.nodes@[e as int].parent, self.nodes@[e as int].name@) == b
            }
        &&& forall|i: int|
            1 <= i < n ==> bucket_has(
                self.buckets@[bucket_of(
                    (#[trigger] self.nodes@[i]).parent,
                    self.nodes@[i].name@,
                )]@,
                i as usize,
            )
        &&& forall|i: int, j: int|
            0 <= i < n && 0 <= j < n && #[trigger] self.paths@[i] == #[trigger] self.paths@[j]
                ==> i == j
    }

    /// The filesystem root `/`.
    pub open spec fn spec_root() -> PathId {
        PathId { index: 0 }
    }

    /// An interner that holds only the root.
    pub fn new() -> (r: RecursivePathDatabase)
        ensures
            r.wf(),
            r.valid(RecursivePathDatabase::spec_root()),
            r.path_of(RecursivePathDatabase::spec_root()) == Seq::<Seq<u8>>::empty(),
    {
        let mut nodes: Vec<PathNode> = Vec::new();
        nodes.push(PathNode { parent: 0, name: Vec::new(), depth: 0 });
        let mut buckets: Vec<Vec<usize>> = Vec::new();
        let mut b: usize = 0;
        while b < BUCKETS
            invariant
                b <= BUCKETS,
                buckets@.len() == b,
                forall|j: int| 0 <= j < b ==> (#[trigger] buckets@[j])@.len() == 0,
            decreases BUCKETS - b,
        {
            buckets.push(Vec::new());
            b = b + 1;
        }
        let ghost start: Seq<Seq<Seq<u8>>> = seq![Seq::<Seq<u8>>::empty()];
        let r = RecursivePathDatabase { nodes, buckets, paths: Ghost(start) };
        assert(r.wf());
        r
    }

    /// Whether a handle was handed out by this interner.
    pub fn contains(&self, id: PathId) -> (r: bool)
        ensures
            r == self.valid(id),
    {
        id.index < self.nodes.len()
    }

    /// The root handle.
    pub fn root(&self) -> (r: PathId)
        requires
            self.wf(),
        ensures
            r == RecursivePathDatabase::spec_root(),
            self.valid(r),
            self.path_of(r) == Seq::<Seq<u8>>::empty(),
    {
        PathId { index: 0 }
    }

    /// Distinct handles name distinct paths.
    pub proof fn lemma_handles_unique(&self, a: PathId, b: PathId)
        requires
            self.wf(),
            self.valid(a),
            self.valid(b),
        ensures
            (a == b) <==> (self.path_of(a) == self.path_of(b)),
    {
        if self.path_of(a) == self.path_of(b) {
            assert(self.paths@[a.index as int] == self.paths@[b.index as int]);
        }
    }

    /// The names of interned paths are valid names.
    pub proof fn lemma_valid_path(&self, a: PathId)
        requires
            self.wf(),
            self.valid(a),
        ensures
            valid_components(self.path_of(a)),
    {
        assert(valid_components(self.paths@[a.index as int]));
    }

    fn key_of(parent: usize, name: &[u8]) -> (r: usize)
        ensures
            r == bucket_of(parent, name@),
            r < BUCKETS,
    {
        let mut acc: u64 = (parent as u64) % KEY_MODULUS;
        assert(acc as nat == name_key((parent as int % KEY_MODULUS as int) as nat, name@.subrange(0, 0)));
        let mut i: usize = 0;
        while i < name.len()
            invariant
                0 <= i <= name@.len(),
                acc < KEY_MODULUS,
                acc as nat == name_key(
                    (parent as int % KEY_MODULUS as int) as nat,
                    name@.subrange(0, i as int),
                ),
            decreases name@.len() - i,
        {
            assert(name@.subrange(0, i + 1).drop_last() =~= name@.subrange(0, i as int));
            acc = (acc * 257 + name[i] as u64 + 1) % KEY_MODULUS;
            i = i + 1;
        }
        assert(name@.subrange(0, name@.len() as int) =~= name@);
        (acc % (BUCKETS as u64)) as usize
    }

    /// The child called `name` of `parent`, interned; `None` when `name` is
    /// not a valid name.
    pub fn join(&mut self, parent: PathId, name: &[u8]) -> (r: Option<PathId>)
        requires
            old(self).wf(),
            old(self).valid(parent),
        ensures
            final(self).wf(),
            final(self).extends(old(self)),
            r is Some <==> valid_name(name@),
            r matches Some(id) ==> final(self).valid(id) && final(self).path_of(id) == old(self).path_of(parent).push(name@),
    {
        if name.len() == 0 {
            return None;
        }
        let mut j: usize = 0;
        while j < name.len()
            invariant
                0 <= j <= name@.len(),
                forall|k: int| 0 <= k < j ==> #[trigger] name@[k] != 47u8,
                self.wf(),
                *self == *old(self),
            decreases name@.len() - j,
        {
            if name[j] == SLASH {
                return None;
            }
            j = j + 1;
        }
        let b = RecursivePathDatabase::key_of(parent.index, name);
        let blen = self.buckets[b].len();
        let mut k: usize = 0;
        while k < blen
            invariant
                self.wf(),
                *self == *old(self),
                self.valid(parent),
                b < BUCKETS,
                b == bucket_of(parent.index, name@),
                blen == self.buckets@[b as int]@.len(),
                0 <= k <= blen,
                forall|m: int|
                    0 <= m < k ==> !(self.nodes@[(#[trigger] self.buckets@[b as int]@[m]) as int].parent
                        == parent.index && self.nodes@[self.buckets@[b as int]@[m] as int].name@
                        == name@),
            decreases blen - k,
        {
            let e = self.buckets[b][k];
            assert(1 <= e < self.nodes@.len());
            if self.nodes[e].parent == parent.index && matches!(
                compare_bytes(self.nodes[e].name.as_slice(), name),
                Ordering::Equal
            ) {
                proof {
                    lemma_bytes_eq(self.nodes@[e as int].name@, name@);
                }
                return Some(PathId { index: e });
            }
            proof {
                if self.nodes@[e as int].name@ == name@ {
                    lemma_bytes_cmp_refl(name@);
                }
            }
            k = k + 1;
        }
        let ghost old_self = *self;
        let n = self.nodes.len();
        let depth = self.nodes[parent.index].depth + 1;
        let mut owned: Vec<u8> = Vec::new();
        let mut t: usize = 0;
        while t < name.len()
            invariant
                0 <= t <= name@.len(),
                owned@ == name@.subrange(0, t as int),
            decreases name@.len() - t,
        {
            owned.push(name[t]);
            t = t + 1;
        }
        assert(owned@ =~= name@);
        self.nodes.push(PathNode { parent: parent.index, name: owned, depth });
        self.buckets[b].push(n);
        let ghost new_path = old_self.paths@[parent.index as int].push(name@);
        self.paths = Ghost(old_self.paths@.push(new_path));
        proof {
            let nn = self.nodes@.len();
            assert(self.nodes@[n as int].name@ == name@);
            assert forall|i: int| 1 <= i < nn implies bucket_has(
                self.buckets@[bucket_of(
                    (#[trigger] self.nodes@[i]).parent,
                    self.nodes@[i].name@,
                )]@,
                i as usize,
            ) by {
                if i < n {
                    assert(old_self.nodes@[i] == self.nodes@[i]);
                    let bi = bucket_of(self.nodes@[i].parent, self.nodes@[i].name@);
                    assert(bucket_has(old_self.buckets@[bi]@, i as usize));
                    let w = choose|w: int|
                        0 <= w < old_self.buckets@[bi]@.len() && #[trigger] old_self.buckets@[bi]@[w]
                            == i as usize;
                    assert(self.buckets@[bi]@[w] == i as usize);
                } else {
                    assert(self.buckets@[b as int]@[blen as int] == n);
                }
            }
            assert forall|i: int, j: int|
                0 <= i < nn && 0 <= j < nn && #[trigger] self.paths@[i] == #[trigger] self.paths@[j]
                    implies i == j by {
                if i == n && j < n {
                    lemma_new_path_fresh(old_self, parent, name@, b, j as usize);
                } else if j == n && i < n {
                    lemma_new_path_fresh(old_self, parent, name@, b, i as usize);
                }
            }
            assert forall|bb: int, kk: int|
                0 <= bb < BUCKETS && 0 <= kk < self.buckets@[bb]@.len() implies {
                let e = #[trigger] self.buckets@[bb]@[kk];
                &&& 1 <= e < nn
                &&& bucket_of(self.nodes@[e as int].parent, self.nodes@[e as int].name@) == bb
            } by {
                if bb != b || kk < blen {
                    assert(self.buckets@[bb]@[kk] == old_self.buckets@[bb]@[kk]);
                }
            }
            assert forall|i: int|
                0 <= i < nn implies valid_components(#[trigger] self.paths@[i]) by {
                if i == n {
                    assert(valid_components(old_self.paths@[parent.index as int]));
                    assert forall|c: int| 0 <= c < new_path.len() implies #[trigger] valid_name(
                        new_path[c],
                    ) by {
                        if c < new_path.len() - 1 {
                            assert(new_path[c] == old_self.paths@[parent.index as int][c]);
                        }
                    }
                }
            }
            assert(self.wf());
        }
        Some(PathId { index: n })
    }

    /// Interns an absolute path given as bytes; `None` when it does not start with `/`.
    pub fn for_path(&mut self, path: &[u8]) -> (r: Option<PathId>)
        requires
            old(self).wf(),
        ensures
            final(self).wf(),
            final(self).extends(old(self)),
            r is Some <==> (path@.len() > 0 && path@[0] == 47u8),
            r matches Some(id) ==> final(self).valid(id) && final(self).path_of(id)
                == path_components(path@),
    {
        if path.len() == 0 || path[0] != SLASH {
            return None;
        }
        let ghost old_self = *self;
        let mut cur = self.root();
        let mut seg: Vec<u8> = Vec::new();
        let mut i: usize = 0;
        while i < path.len()
            invariant
                self.wf(),
                self.extends(&old_self),
                0 <= i <= path@.len(),
                self.valid(cur),
                self.path_of(cur) == split_state(path@.subrange(0, i as int)).0,
                seg@ == split_state(path@.subrange(0, i as int)).1,
                forall|k: int| 0 <= k < seg@.len() ==> #[trigger] seg@[k] != 47u8,
            decreases path@.len() - i,
        {
            let ghost pre = path@.subrange(0, i as int);
            assert(path@.subrange(0, i + 1).drop_last() =~= pre);
            let c = path[i];
            if c == SLASH {
                if seg.len() > 0 {
                    let ghost before = *self;
                    match self.join(cur, seg.as_slice()) {
                        Some(next) => {
                            cur = next;
                        },
                        None => {
                            return None;
                        },
                    }
                    seg = Vec::new();
                    assert(self.extends(&old_self)) by {
                        assert forall|id: PathId| #[trigger] old_self.valid(id) implies self.valid(id)
                            && self.path_of(id) == old_self.path_of(id) by {
                            assert(before.valid(id));
                        }
                    }
                }
            } else {
                seg.push(c);
            }
            i = i + 1;
        }
        assert(path@.subrange(0, path@.len() as int) =~= path@);
        if seg.len() > 0 {
            let ghost before = *self;
            let r = self.join(cur, seg.as_slice());
            assert(self.extends(&old_self)) by {
                assert forall|id: PathId| #[trigger] old_self.valid(id) implies self.valid(id)
                    && self.path_of(id) == old_self.path_of(id) by {
                    assert(before.valid(id));
                }
            }
            r
        } else {
            Some(cur)
        }
    }

    /// The parent of a path; `None` for the root.
    pub fn parent_of(&self, id: PathId) -> (r: Option<PathId>)
        requires
            self.wf(),
            self.valid(id),
        ensures
            r is None <==> self.path_of(id).len() == 0,
            r matches Some(p) ==> self.valid(p) && self.path_of(p) == self.path_of(id).drop_last(),
    {
        if id.index == 0 {
            None
        } else {
            let p = self.nodes[id.index].parent;
            proof {
                assert(self.paths@[id.index as int] == self.paths@[p as int].push(
                    self.nodes@[id.index as int].name@,
                ));
                assert(self.paths@[id.index as int].drop_last() =~= self.paths@[p as int]);
            }
            Some(PathId { index: p })
        }
    }

    /// The last name of a path; `None` for the root.
    pub fn name_of(&self, id: PathId) -> (r: Option<&[u8]>)
        requires
            self.wf(),
            self.valid(id),
        ensures
            r is None <==> self.path_of(id).len() == 0,
            r matches Some(n) ==> n@ == self.path_of(id).last(),
    {
        if id.index == 0 {
            None
        } else {
            let p = self.nodes[id.index].parent;
            assert(self.paths@[id.index as int] == self.paths@[p as int].push(
                self.nodes@[id.index as int].name@,
            ));
            Some(self.nodes[id.index].name.as_slice())
        }
    }

    /// The number of names in a path.
    pub fn depth_of(&self, id: PathId) -> (r: usize)
        requires
            self.wf(),
            self.valid(id),
        ensures
            r == self.path_of(id).len(),
    {
        self.nodes[id.index].depth
    }

    fn append_rooted(&self, id: PathId, out: &mut Vec<u8>)
        requires
            self.wf(),
            self.valid(id),
        ensures
            final(out)@ == old(out)@ + rooted_bytes(self.path_of(id)),
        decreases self.path_of(id).len(),
    {
        if id.index != 0 {
            let node = &self.nodes[id.index];
            let p = PathId { index: node.parent };
            assert(self.paths@[id.index as int] == self.paths@[p.index as int].push(node.name@));
            assert(self.path_of(id).drop_last() =~= self.path_of(p));
            self.append_rooted(p, out);
            out.push(SLASH);
            let ghost mid = out@;
            let mut t: usize = 0;
            while t < node.name.len()
                invariant
                    0 <= t <= node.name@.len(),
                    out@ == mid + node.name@.subrange(0, t as int),
                decreases node.name@.len() - t,
            {
                out.push(node.name[t]);
                t = t + 1;
            }
            assert(node.name@.subrange(0, node.name@.len() as int) =~= node.name@);
            assert(out@ =~= old(out)@ + rooted_bytes(self.path_of(id)));
        } else {
            assert(out@ =~= old(out)@ + rooted_bytes(self.path_of(id)));
        }
    }

    /// The text of a path, as bytes.
    pub fn to_path(&self, id: PathId) -> (r: Vec<u8>)
        requires
            self.wf(),
            self.valid(id),
        ensures
            r@ == path_bytes(self.path_of(id)),
    {
        let mut out: Vec<u8> = Vec::new();
        if id.index == 0 {
            out.push(SLASH);
            assert(self.paths@[0] == Seq::<Seq<u8>>::empty());
            assert(self.path_of(id).len() == 0);
            assert(out@ =~= seq![47u8]);
            assert(out@ =~= path_bytes(self.path_of(id)));
        } else {
            self.append_rooted(id, &mut out);
            let ghost node = self.nodes@[id.index as int];
            assert(self.paths@[id.index as int] == self.paths@[node.parent as int].push(node.name@));
            assert(self.path_of(id).len() > 0);
            assert(out@ =~= path_bytes(self.path_of(id)));
        }
        out
    }

    /// Compares two paths component by component.
    pub fn compare(&self, a: PathId, b: PathId) -> (r: Ordering)
        requires
            self.wf(),
            self.valid(a),
            self.valid(b),
        ensures
            r == path_cmp(self.path_of(a), self.path_of(b)),
        decreases self.path_of(a).len() + self.path_of(b).len(),
    {
        if a.index == b.index {
            proof {
                lemma_path_cmp_refl(self.path_of(a));
            }
            return Ordering::Equal;
        }
        let da = self.nodes[a.index].depth;
        let db = self.nodes[b.index].depth;
        if da == db {
            proof {
                if a.index == 0 || b.index == 0 {
                    assert(self.paths@[a.index as int].len() == 0);
                    assert(self.paths@[b.index as int].len() == 0);
                    assert(self.paths@[a.index as int] =~= self.paths@[b.index as int]);
                }
            }
            let na = &self.nodes[a.index];
            let nb = &self.nodes[b.index];
            let pa = PathId { index: na.parent };
            let pb = PathId { index: nb.parent };
            assert(self.paths@[a.index as int] == self.paths@[pa.index as int].push(na.name@));
            assert(self.paths@[b.index as int] == self.paths@[pb.index as int].push(nb.name@));
            let c = self.compare(pa, pb);
            proof {
                lemma_path_cmp_push_both(self.path_of(pa), self.path_of(pb), na.name@, nb.name@);
            }
            if !matches!(c, Ordering::Equal) {
                c
            } else {
                compare_bytes(na.name.as_slice(), nb.name.as_slice())
            }
        } else if da > db {
            let na = &self.nodes[a.index];
            let pa = PathId { index: na.parent };
            assert(self.paths@[a.index as int] == self.paths@[pa.index as int].push(na.name@));
            let c = self.compare(pa, b);
            proof {
                lemma_path_cmp_push_left(self.path_of(pa), self.path_of(b), na.name@);
            }
            if matches!(c, Ordering::Equal) {
                Ordering::Greater
            } else {
                c
            }
        } else {
            let nb = &self.nodes[b.index];
            let pb = PathId { index: nb.parent };
            assert(self.paths@[b.index as int] == self.paths@[pb.index as int].push(nb.name@));
            let c = self.compare(a, pb);
            proof {
                lemma_path_cmp_push_right(self.path_of(a), self.path_of(pb), nb.name@);
            }
            if matches!(c, Ordering::Equal) {
                Ordering::Less
            } else {
                c
            }
        }
    }

    /// Whether `a` sorts strictly before `b`.
    pub fn less(&self, a: PathId, b: PathId) -> (r: bool)
        requires
            self.wf(),
            self.valid(a),
            self.valid(b),
        ensures
            r == path_lt(self.path_of(a), self.path_of(b)),
    {
        matches!(self.compare(a, b), Ordering::Less)
    }
}

#[verifier::rlimit(100)]
#[verifier::spinoff_prover]
proof fn lemma_new_path_fresh(s: RecursivePathDatabase, parent: PathId, name: Seq<u8>, b: usize, j: usize)
    requires
        s.wf(),
        s.valid(parent),
        valid_name(name),
        b == bucket_of(parent.index, name),
        j < s.nodes@.len(),
        forall|m: int|
            0 <= m < s.buckets@[b as int]@.len() ==> !(s.nodes@[(#[trigger] s.buckets@[b as int]@[m]) as int].parent
                == parent.index && s.nodes@[s.buckets@[b as int]@[m] as int].name@ == name),
    ensures
        s.paths@[j as int] != s.paths@[parent.index as int].push(name),
{
    let target = s.paths@[parent.index as int].push(name);
    if s.paths@[j as int] == target {
        assert(s.paths@[0] == Seq::<Seq<u8>>::empty());
        assert(j != 0);
        let node = s.nodes@[j as int];
        assert(1 <= j < s.nodes@.len());
        assert(s.paths@[j as int] == s.paths@[node.parent as int].push(node.name@));
        let q = node.parent as int;
        assert(0 <= q < j);
        assert(s.paths@[q] =~= target.drop_last());
        assert(s.paths@[parent.index as int] =~= target.drop_last());
        assert(s.paths@[q] == s.paths@[parent.index as int]);
        assert(q == parent.index as int);
        assert(node.name@ == target.last());
        assert(target.last() == name);
        assert(bucket_of(node.parent, node.name@) == b);
        assert(bucket_has(
            s.buckets@[bucket_of((s.nodes@[j as int]).parent, s.nodes@[j as int].name@)]@,
            j,
        ));
        let w = choose|w: int|
            0 <= w < s.buckets@[b as int]@.len() && #[trigger] s.buckets@[b as int]@[w] == j;
        assert(s.buckets@[b as int]@[w] == j);
    }
}

} // verus!

verus! {

proof fn lemma_split_name(x: Seq<u8>, a: Seq<Seq<u8>>, c: Seq<u8>, k: int)
    requires
        split_state(x) == (a, Seq::<u8>::empty()),
        valid_name(c),
        0 <= k <= c.len(),
    ensures
        split_state(x + c.subrange(0, k)) == (a, c.subrange(0, k)),
    decreases k,
{
    if k == 0 {
        assert(x + c.subrange(0, 0) =~= x);
        assert(c.subrange(0, 0) =~= Seq::<u8>::empty());
    } else {
        lemma_split_name(x, a, c, k - 1);
        let y = x + c.subrange(0, k);
        assert(y.drop_last() =~= x + c.subrange(0, k - 1));
        assert(y.last() == c[k - 1]);
        assert(c.subrange(0, k - 1).push(c[k - 1]) =~= c.subrange(0, k));
    }
}

proof fn lemma_split_rooted(cs: Seq<Seq<u8>>)
    requires
        cs.len() > 0,
        valid_components(cs),
    ensures
        split_state(rooted_bytes(cs)) == (cs.drop_last(), cs.last()),
    decreases cs.len(),
{
    let front = cs.drop_last();
    let c = cs.last();
    let p = rooted_bytes(front);
    assert(valid_name(cs[cs.len() - 1]));
    if front.len() == 0 {
        assert(p.push(47u8) =~= seq![47u8]);
        assert(seq![47u8].drop_last() =~= Seq::<u8>::empty());
        assert(split_state(Seq::<u8>::empty()) == (Seq::<Seq<u8>>::empty(), Seq::<u8>::empty()));
        assert(seq![47u8].last() == 47u8);
        assert(split_state(p.push(47u8)) == (Seq::<Seq<u8>>::empty(), Seq::<u8>::empty()));
    } else {
        assert forall|i: int| 0 <= i < front.len() implies #[trigger] valid_name(front[i]) by {
            assert(front[i] == cs[i]);
        }
        lemma_split_rooted(front);
        assert(p.push(47u8).drop_last() =~= p);
        assert(valid_name(front[front.len() - 1]));
        assert(front.drop_last().push(front.last()) =~= front);
    }
    assert(split_state(p.push(47u8)) == (front, Seq::<u8>::empty()));
    lemma_split_name(p.push(47u8), front, c, c.len() as int);
    assert(c.subrange(0, c.len() as int) =~= c);
}

/// Splitting the text of a path gives back its names.
pub proof fn lemma_path_round_trip(cs: Seq<Seq<u8>>)
    requires
        valid_components(cs),
    ensures
        path_components(path_bytes(cs)) == cs,
        path_bytes(cs).len() > 0 && path_bytes(cs)[0] == 47u8,
    decreases cs.len(),
{
    if cs.len() == 0 {
        assert(seq![47u8].drop_last() =~= Seq::<u8>::empty());
        assert(split_state(Seq::<u8>::empty()) == (Seq::<Seq<u8>>::empty(), Seq::<u8>::empty()));
        assert(seq![47u8].last() == 47u8);
        assert(split_state(seq![47u8]) == (Seq::<Seq<u8>>::empty(), Seq::<u8>::empty()));
        assert(cs =~= Seq::<Seq<u8>>::empty());
    } else {
        lemma_split_rooted(cs);
        assert(cs.drop_last().push(cs.last()) =~= cs);
        assert(valid_name(cs[cs.len() - 1]));
        lemma_rooted_starts_with_slash(cs);
    }
}

proof fn lemma_rooted_starts_with_slash(cs: Seq<Seq<u8>>)
    requires
        cs.len() > 0,
    ensures
        rooted_bytes(cs).len() > 0 && rooted_bytes(cs)[0] == 47u8,
    decreases cs.len(),
{
    let front = cs.drop_last();
    if front.len() > 0 {
        lemma_rooted_starts_with_slash(front);
    }
    assert((rooted_bytes(front).push(47u8) + cs.last())[0] == rooted_bytes(front).push(47u8)[0]);
}

} // verus!
