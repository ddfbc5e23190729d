//! The dedupe planner: groups files by content digest and maps each member of
//! a group that is not yet fully shared to the group's canonical file.
use crate::catalog::{in_roots, root_in_set, FileData, FileDatabase};
use crate::hash::{hash_is_absent, hashes_equal, is_absent};
use crate::path::PathId;
use vstd::prelude::*;

verus! {

const KEY_SPACE: usize = 65536;

/// A record that takes part in planning: non-empty, at least the minimum
/// size, under a configured root, and with both digests present.
pub open spec fn eligible(roots: Seq<PathId>, minimum_file_size: u64, d: FileData) -> bool {
    &&& d.size > 0
    &&& d.size >= minimum_file_size
    &&& in_roots(roots, d.root_path)
    &&& !is_absent(d.content_hash)
    &&& !is_absent(d.extent_hash)
}

/// Records `i` and `j` both take part and have the same content digest.
pub open spec fn same_group(
    roots: Seq<PathId>,
    minimum_file_size: u64,
    recs: Seq<FileData>,
    i: int,
    j: int,
) -> bool {
    &&& 0 <= i < recs.len()
    &&& 0 <= j < recs.len()
    &&& eligible(roots, minimum_file_size, recs[i])
    &&& eligible(roots, minimum_file_size, recs[j])
    &&& recs[i].content_hash@ == recs[j].content_hash@
}

/// Record `i` belongs to a group whose members do not all share one extent digest.
pub open spec fn needs_dedupe(
    roots: Seq<PathId>,
    minimum_file_size: u64,
    recs: Seq<FileData>,
    i: int,
) -> bool {
    exists|j: int|
        #[trigger] same_group(roots, minimum_file_size, recs, i, j) && recs[j].extent_hash@
            != recs[i].extent_hash@
}

/// `c` is the earliest member of the group of `i`.
pub open spec fn is_canonical(
    roots: Seq<PathId>,
    minimum_file_size: u64,
    recs: Seq<FileData>,
    i: int,
    c: int,
) -> bool {
    &&& same_group(roots, minimum_file_size, recs, i, c)
    &&& forall|j: int| 0 <= j < c ==> !#[trigger] same_group(roots, minimum_file_size, recs, i, j)
}

/// Record `i` already shares its extents with its group's canonical member.
pub open spec fn shares_canonical(
    roots: Seq<PathId>,
    minimum_file_size: u64,
    recs: Seq<FileData>,
    i: int,
) -> bool {
    exists|c: int|
        #[trigger] is_canonical(roots, minimum_file_size, recs, i, c) && c != i
            && recs[c].extent_hash@ == recs[i].extent_hash@
}

/// What the planner maps each record to: the canonical member, for each
/// member of a group that is not yet fully shared, except the members that
/// already share the canonical member's extents. The canonical member maps
/// to itself.
pub open spec fn plan_entry(
    roots: Seq<PathId>,
    minimum_file_size: u64,
    recs: Seq<FileData>,
    i: int,
    e: Option<usize>,
) -> bool {
    &&& e is Some <==> needs_dedupe(roots, minimum_file_size, recs, i) && !shares_canonical(
        roots,
        minimum_file_size,
        recs,
        i,
    )
    &&& e matches Some(c) ==> is_canonical(roots, minimum_file_size, recs, i, c as int)
}

pub open spec fn key_of(h: [u8; 32]) -> int {
    h@[0] as int * 256 + h@[1] as int
}

fn digest_key(h: &[u8; 32]) -> (r: usize)
    ensures
        r == key_of(*h),
        r < KEY_SPACE,
{
    h[0] as usize * 256 + h[1] as usize
}

fn eligible_exec(roots: &[PathId], minimum_file_size: u64, d: &FileData) -> (r: bool)
    ensures
        r == eligible(roots@, minimum_file_size, *d),
{
    d.size > 0 && d.size >= minimum_file_size && root_in_set(roots, d.root_path) && !hash_is_absent(
        &d.content_hash,
    ) && !hash_is_absent(&d.extent_hash)
}

/// Members of one group share their canonical member.
proof fn lemma_canonical_unique(
    roots: Seq<PathId>,
    m: u64,
    recs: Seq<FileData>,
    i: int,
    j: int,
    c: int,
    d: int,
)
    requires
        same_group(roots, m, recs, i, j),
        is_canonical(roots, m, recs, i, c),
        is_canonical(roots, m, recs, j, d),
    ensures
        c == d,
{
    if c < d {
        assert(same_group(roots, m, recs, j, c));
    } else if d < c {
        assert(same_group(roots, m, recs, i, d));
    }
}

/// For each record, the canonical member of its group when that group is
/// not yet fully shared, else `None`.
pub fn build_dedupe_map(
    root_paths: &[PathId],
    minimum_file_size: u64,
    file_database: &FileDatabase,
) -> (r: Vec<Option<usize>>)
    ensures
        r@.len() == file_database.view().len(),
        forall|i: int|
            0 <= i < r@.len() ==> plan_entry(
                root_paths@,
                minimum_file_size,
                file_database.view(),
                i,
                #[trigger] r@[i],
            ),
{
    let ghost recs = file_database.view();
    let ghost roots = root_paths@;
    let m = minimum_file_size;
    let n = file_database.len();
    let mut buckets: Vec<Vec<usize>> = Vec::new();
    let mut b: usize = 0;
    while b < KEY_SPACE
        invariant
            b <= KEY_SPACE,
            buckets@.len() == b,
            forall|j: int| 0 <= j < b ==> (#[trigger] buckets@[j])@.len() == 0,
        decreases KEY_SPACE - b,
    {
        buckets.push(Vec::new());
        b = b + 1;
    }
    // first pass: the canonical member of each eligible record's group
    let mut leader: Vec<usize> = Vec::new();
    let mut i: usize = 0;
    while i < n
        invariant
            n == recs.len(),
            recs == file_database.view(),
            roots == root_paths@,
            0 <= i <= n,
            leader@.len() == i,
            buckets@.len() == KEY_SPACE,
            forall|k: int|
                0 <= k < i && eligible(roots, m, recs[k]) ==> is_canonical(
                    roots,
                    m,
                    recs,
                    k,
                    #[trigger] leader@[k] as int,
                ),
            forall|bb: int, q: int|
                0 <= bb < KEY_SPACE && 0 <= q < buckets@[bb]@.len() ==> {
                    let e = #[trigger] buckets@[bb]@[q] as int;
                    &&& 0 <= e < i
                    &&& eligible(roots, m, recs[e])
                    &&& key_of(recs[e].content_hash) == bb
                    &&& leader@[e] == e
                },
            forall|k: int|
                0 <= k < i && eligible(roots, m, recs[k]) ==> exists|q: int|
                    0 <= q < buckets@[key_of(recs[k].content_hash)]@.len()
                        && #[trigger] buckets@[key_of(recs[k].content_hash)]@[q] == leader@[k],
        decreases n - i,
    {
        let d = file_database.get(i);
        let ghost old_buckets = buckets@;
        let ghost old_leader = leader@;
        if !eligible_exec(root_paths, m, &d) {
            leader.push(i);
            proof {
                assert forall|k: int|
                    0 <= k < i + 1 && eligible(roots, m, recs[k]) implies exists|q: int|
                        0 <= q < buckets@[key_of(recs[k].content_hash)]@.len()
                            && #[trigger] buckets@[key_of(recs[k].content_hash)]@[q]
                            == leader@[k] by {
                    let kk = key_of(recs[k].content_hash);
                    let q = choose|q: int|
                        0 <= q < old_buckets[kk]@.len() && #[trigger] old_buckets[kk]@[q]
                            == old_leader[k];
                    assert(buckets@[kk]@[q] == leader@[k]);
                }
            }
        } else {
            let key = digest_key(&d.content_hash);
            let blen = buckets[key].len();
            let mut q: usize = 0;
            let mut found: Option<usize> = None;
            while q < blen && found.is_none()
                invariant
                    n == recs.len(),
                    recs == file_database.view(),
                    0 <= i < n,
                    d == recs[i as int],
                    key == key_of(d.content_hash),
                    key < KEY_SPACE,
                    buckets@.len() == KEY_SPACE,
                    blen == buckets@[key as int]@.len(),
                    0 <= q <= blen,
                    forall|bb: int, qq: int|
                        0 <= bb < KEY_SPACE && 0 <= qq < buckets@[bb]@.len() ==> {
                            let e = #[trigger] buckets@[bb]@[qq] as int;
                            &&& 0 <= e < i
                        },
                    found matches Some(e) ==> e < i && recs[e as int].content_hash@
                        == d.content_hash@ && exists|w: int|
                        0 <= w < blen && #[trigger] buckets@[key as int]@[w] == e,
                    found is None ==> forall|w: int|
                        0 <= w < q ==> recs[(#[trigger] buckets@[key as int]@[w]) as int].content_hash@
                            != d.content_hash@,
                decreases blen - q,
            {
                let e = buckets[key][q];
                assert(0 <= e < i);
                let other = file_database.get(e);
                if hashes_equal(&other.content_hash, &d.content_hash) {
                    found = Some(e);
                    assert(buckets@[key as int]@[q as int] == e);
                }
                q = q + 1;
            }
            match found {
                Some(e) => {
                    proof {
                        let w = choose|w: int|
                            0 <= w < blen && #[trigger] buckets@[key as int]@[w] == e;
                        assert(buckets@[key as int]@[w] == e);
                        assert(leader@[e as int] == e);
                        assert(leader@.push(e)[i as int] == e);
                        assert(is_canonical(roots, m, recs, e as int, e as int));
                        assert forall|j: int| 0 <= j < e implies !#[trigger] same_group(
                            roots,
                            m,
                            recs,
                            i as int,
                            j,
                        ) by {
                            assert(!same_group(roots, m, recs, e as int, j));
                        }
                    }
                    leader.push(e);
                    proof {
                        let w = choose|w: int|
                            0 <= w < blen && #[trigger] buckets@[key as int]@[w] == e;
                        assert forall|k: int|
                            0 <= k < i + 1 && eligible(roots, m, recs[k]) implies exists|q: int|
                                0 <= q < buckets@[key_of(recs[k].content_hash)]@.len()
                                    && #[trigger] buckets@[key_of(recs[k].content_hash)]@[q]
                                    == leader@[k] by {
                            let kk = key_of(recs[k].content_hash);
                            if k < i {
                                let q = choose|q: int|
                                    0 <= q < old_buckets[kk]@.len() && #[trigger] old_buckets[kk]@[q]
                                        == old_leader[k];
                                assert(buckets@[kk]@[q] == leader@[k]);
                            } else {
                                assert(buckets@[kk]@[w] == leader@[k]);
                            }
                        }
                    }
                },
                None => {
                    proof {
                        assert forall|j: int| 0 <= j < i implies !#[trigger] same_group(
                            roots,
                            m,
                            recs,
                            i as int,
                            j,
                        ) by {
                            if same_group(roots, m, recs, i as int, j) {
                                let l = leader@[j] as int;
                                let kk = key_of(recs[j].content_hash);
                                assert(recs[j].content_hash@ == d.content_hash@);
                                assert(recs[j].content_hash@[0] == d.content_hash@[0]);
                                assert(recs[j].content_hash@[1] == d.content_hash@[1]);
                                assert(kk == key);
                                let q0 = choose|q0: int|
                                    0 <= q0 < buckets@[kk]@.len() && #[trigger] buckets@[kk]@[q0]
                                        == leader@[j];
                                assert(is_canonical(roots, m, recs, j, l));
                                assert(recs[buckets@[key as int]@[q0] as int].content_hash@
                                    == d.content_hash@);
                            }
                        }
                    }
                    leader.push(i);
                    buckets[key].push(i);
                    proof {
                        assert forall|k: int|
                            0 <= k < i + 1 && eligible(roots, m, recs[k]) implies exists|q: int|
                                0 <= q < buckets@[key_of(recs[k].content_hash)]@.len()
                                    && #[trigger] buckets@[key_of(recs[k].content_hash)]@[q]
                                    == leader@[k] by {
                            let kk = key_of(recs[k].content_hash);
                            if k < i {
                                let q = choose|q: int|
                                    0 <= q < old_buckets[kk]@.len() && #[trigger] old_buckets[kk]@[q]
                                        == old_leader[k];
                                if kk == key {
                                    assert(buckets@[kk]@[q] == old_buckets[kk]@[q]);
                                }
                                assert(buckets@[kk]@[q] == leader@[k]);
                            } else {
                                assert(buckets@[kk]@[blen as int] == leader@[k]);
                            }
                        }
                        assert forall|bb: int, qq: int|
                            0 <= bb < KEY_SPACE && 0 <= qq < buckets@[bb]@.len() implies {
                                let e = #[trigger] buckets@[bb]@[qq] as int;
                                &&& 0 <= e < i + 1
                                &&& eligible(roots, m, recs[e])
                                &&& key_of(recs[e].content_hash) == bb
                                &&& leader@[e] == e
                            } by {
                            if bb != key || qq < blen {
                                assert(buckets@[bb]@[qq] == old_buckets[bb]@[qq]);
                            }
                        }
                    }
                },
            }
        }
        i = i + 1;
    }
    // second pass: which groups hold a member whose extent digest differs
    // from the canonical member's
    let mut mixed: Vec<bool> = Vec::new();
    let mut t: usize = 0;
    while t < n
        invariant
            0 <= t <= n,
            mixed@.len() == t,
            forall|l: int| 0 <= l < t ==> !(#[trigger] mixed@[l]),
        decreases n - t,
    {
        mixed.push(false);
        t = t + 1;
    }
    let mut i: usize = 0;
    while i < n
        invariant
            n == recs.len(),
            recs == file_database.view(),
            roots == root_paths@,
            0 <= i <= n,
            leader@.len() == n,
            mixed@.len() == n,
            forall|k: int|
                0 <= k < n && eligible(roots, m, recs[k]) ==> is_canonical(
                    roots,
                    m,
                    recs,
                    k,
                    #[trigger] leader@[k] as int,
                ),
            forall|l: int|
                0 <= l < n ==> (#[trigger] mixed@[l] <==> exists|k: int|
                    0 <= k < i && differs_from_leader(roots, m, recs, leader@, k, l)),
        decreases n - i,
    {
        let d = file_database.get(i);
        if eligible_exec(root_paths, m, &d) {
            let l = leader[i];
            assert(is_canonical(roots, m, recs, i as int, l as int));
            let ld = file_database.get(l);
            if !hashes_equal(&d.extent_hash, &ld.extent_hash) {
                mixed[l] = true;
                proof {
                    assert(differs_from_leader(roots, m, recs, leader@, i as int, l as int));
                }
            }
        }
        proof {
            assert forall|l: int| 0 <= l < n implies (#[trigger] mixed@[l] <==> exists|k: int|
                0 <= k < i + 1 && differs_from_leader(roots, m, recs, leader@, k, l)) by {
                if mixed@[l] && !(exists|k: int|
                    0 <= k < i && differs_from_leader(roots, m, recs, leader@, k, l)) {
                    assert(differs_from_leader(roots, m, recs, leader@, i as int, l));
                }
                if exists|k: int| 0 <= k < i + 1 && differs_from_leader(roots, m, recs, leader@, k, l) {
                    let k = choose|k: int|
                        0 <= k < i + 1 && differs_from_leader(roots, m, recs, leader@, k, l);
                    if k == i {
                        assert(mixed@[l]);
                    } else {
                        assert(exists|k: int|
                            0 <= k < i && differs_from_leader(roots, m, recs, leader@, k, l));
                    }
                }
            }
        }
        i = i + 1;
    }
    // third pass: the mapping itself
    let mut result: Vec<Option<usize>> = Vec::new();
    let mut i: usize = 0;
    while i < n
        invariant
            n == recs.len(),
            recs == file_database.view(),
            roots == root_paths@,
            0 <= i <= n,
            leader@.len() == n,
            mixed@.len() == n,
            result@.len() == i,
            forall|k: int|
                0 <= k < n && eligible(roots, m, recs[k]) ==> is_canonical(
                    roots,
                    m,
                    recs,
                    k,
                    #[trigger] leader@[k] as int,
                ),
            forall|l: int|
                0 <= l < n ==> (#[trigger] mixed@[l] <==> exists|k: int|
                    0 <= k < n && differs_from_leader(roots, m, recs, leader@, k, l)),
            forall|k: int| 0 <= k < i ==> plan_entry(roots, m, recs, k, #[trigger] result@[k]),
        decreases n - i,
    {
        let d = file_database.get(i);
        let entry = if eligible_exec(root_paths, m, &d) && mixed[leader[i]] {
            let l = leader[i];
            let canonical = file_database.get(l);
            if l == i || !hashes_equal(&d.extent_hash, &canonical.extent_hash) {
                Some(l)
            } else {
                None
            }
        } else {
            None
        };
        proof {
            lemma_entry(roots, m, recs, leader@, mixed@, i as int, entry);
        }
        result.push(entry);
        i = i + 1;
    }
    result
}

/// Record `k` belongs to the group led by `l` and its extent digest differs from `l`'s.
pub open spec fn differs_from_leader(
    roots: Seq<PathId>,
    m: u64,
    recs: Seq<FileData>,
    leader: Seq<usize>,
    k: int,
    l: int,
) -> bool {
    &&& 0 <= k < recs.len()
    &&& eligible(roots, m, recs[k])
    &&& leader[k] as int == l
    &&& 0 <= l < recs.len()
    &&& recs[k].extent_hash@ != recs[l].extent_hash@
}

proof fn lemma_entry(
    roots: Seq<PathId>,
    m: u64,
    recs: Seq<FileData>,
    leader: Seq<usize>,
    mixed: Seq<bool>,
    i: int,
    entry: Option<usize>,
)
    requires
        0 <= i < recs.len(),
        leader.len() == recs.len(),
        mixed.len() == recs.len(),
        forall|k: int|
            0 <= k < recs.len() && eligible(roots, m, recs[k]) ==> is_canonical(
                roots,
                m,
                recs,
                k,
                #[trigger] leader[k] as int,
            ),
        forall|l: int|
            0 <= l < recs.len() ==> (#[trigger] mixed[l] <==> exists|k: int|
                0 <= k < recs.len() && differs_from_leader(roots, m, recs, leader, k, l)),
        entry == (if eligible(roots, m, recs[i]) && mixed[leader[i] as int] && (leader[i] == i
            || recs[i].extent_hash@ != recs[leader[i] as int].extent_hash@) {
            Some(leader[i])
        } else {
            None::<usize>
        }),
    ensures
        plan_entry(roots, m, recs, i, entry),
{
    if eligible(roots, m, recs[i]) {
        let l = leader[i] as int;
        assert(is_canonical(roots, m, recs, i, l));
        lemma_mixed_needs_dedupe(roots, m, recs, leader, mixed, i);
        if shares_canonical(roots, m, recs, i) {
            let c = choose|c: int|
                #[trigger] is_canonical(roots, m, recs, i, c) && c != i && recs[c].extent_hash@
                    == recs[i].extent_hash@;
            lemma_canonical_unique(roots, m, recs, i, i, c, l);
        } else if l != i && recs[i].extent_hash@ == recs[l].extent_hash@ {
            assert(is_canonical(roots, m, recs, i, l));
        }
    } else {
        assert(!needs_dedupe(roots, m, recs, i));
    }
}

proof fn lemma_mixed_needs_dedupe(
    roots: Seq<PathId>,
    m: u64,
    recs: Seq<FileData>,
    leader: Seq<usize>,
    mixed: Seq<bool>,
    i: int,
)
    requires
        0 <= i < recs.len(),
        eligible(roots, m, recs[i]),
        leader.len() == recs.len(),
        mixed.len() == recs.len(),
        forall|k: int|
            0 <= k < recs.len() && eligible(roots, m, recs[k]) ==> is_canonical(
                roots,
                m,
                recs,
                k,
                #[trigger] leader[k] as int,
            ),
        forall|l: int|
            0 <= l < recs.len() ==> (#[trigger] mixed[l] <==> exists|k: int|
                0 <= k < recs.len() && differs_from_leader(roots, m, recs, leader, k, l)),
    ensures
        mixed[leader[i] as int] <==> needs_dedupe(roots, m, recs, i),
{
    {
        let l = leader[i] as int;
        assert(is_canonical(roots, m, recs, i, l));
        if mixed[l] {
            let k = choose|k: int|
                0 <= k < recs.len() && differs_from_leader(roots, m, recs, leader, k, l);
            assert(is_canonical(roots, m, recs, k, l));
            if recs[i].extent_hash@ != recs[l].extent_hash@ {
                assert(same_group(roots, m, recs, i, l));
            } else {
                assert(same_group(roots, m, recs, i, k));
            }
            assert(needs_dedupe(roots, m, recs, i));
        } else if needs_dedupe(roots, m, recs, i) {
            let j = choose|j: int|
                #[trigger] same_group(roots, m, recs, i, j) && recs[j].extent_hash@
                    != recs[i].extent_hash@;
            let lj = leader[j] as int;
            assert(is_canonical(roots, m, recs, j, lj));
            lemma_canonical_unique(roots, m, recs, i, j, l, lj);
            if recs[j].extent_hash@ != recs[l].extent_hash@ {
                assert(differs_from_leader(roots, m, recs, leader, j, l));
            } else {
                assert(differs_from_leader(roots, m, recs, leader, i, l));
            }
            assert(mixed[l]);
        }
    }
}

} // verus!

verus! {

/// No emitted group is already fully shared: every record that the plan maps
/// to a canonical file has, mapped to that same file, a record whose extent
/// digest differs from its own.
pub proof fn lemma_plan_groups_not_collapsed(
    roots: Seq<PathId>,
    minimum_file_size: u64,
    recs: Seq<FileData>,
    plan: Seq<Option<usize>>,
    i: int,
)
    requires
        plan.len() == recs.len(),
        forall|k: int|
            0 <= k < plan.len() ==> plan_entry(roots, minimum_file_size, recs, k, #[trigger] plan[k]),
        0 <= i < plan.len(),
        plan[i] is Some,
    ensures
        exists|j: int|
            0 <= j < plan.len() && plan[j] == plan[i] && #[trigger] recs[j].extent_hash@
                != recs[i].extent_hash@,
{
    let m = minimum_file_size;
    assert(plan_entry(roots, m, recs, i, plan[i]));
    let c = plan[i]->Some_0 as int;
    assert(is_canonical(roots, m, recs, i, c));
    if c == i {
        let j = choose|j: int|
            #[trigger] same_group(roots, m, recs, i, j) && recs[j].extent_hash@
                != recs[i].extent_hash@;
        assert(same_group(roots, m, recs, j, i));
        assert(needs_dedupe(roots, m, recs, j));
        assert(plan_entry(roots, m, recs, j, plan[j]));
        assert(is_canonical(roots, m, recs, j, c)) by {
            assert forall|k: int| 0 <= k < c implies !#[trigger] same_group(roots, m, recs, j, k) by {
                if same_group(roots, m, recs, j, k) {
                    assert(same_group(roots, m, recs, i, k));
                }
            }
        }
        if shares_canonical(roots, m, recs, j) {
            let d = choose|d: int|
                #[trigger] is_canonical(roots, m, recs, j, d) && d != j && recs[d].extent_hash@
                    == recs[j].extent_hash@;
            lemma_canonical_unique(roots, m, recs, j, j, c, d);
        }
        let d = plan[j]->Some_0 as int;
        lemma_canonical_unique(roots, m, recs, i, j, c, d);
        assert(plan[j] == plan[i]);
    } else {
        assert(!shares_canonical(roots, m, recs, i));
        if recs[c].extent_hash@ == recs[i].extent_hash@ {
            assert(is_canonical(roots, m, recs, i, c));
        }
        assert(same_group(roots, m, recs, c, i));
        assert(needs_dedupe(roots, m, recs, c));
        assert(is_canonical(roots, m, recs, c, c)) by {
            assert forall|j: int| 0 <= j < c implies !#[trigger] same_group(roots, m, recs, c, j) by {
                if same_group(roots, m, recs, c, j) {
                    assert(same_group(roots, m, recs, i, j));
                }
            }
        }
        assert(plan_entry(roots, m, recs, c, plan[c]));
        if shares_canonical(roots, m, recs, c) {
            let d = choose|d: int|
                #[trigger] is_canonical(roots, m, recs, c, d) && d != c && recs[d].extent_hash@
                    == recs[c].extent_hash@;
            lemma_canonical_unique(roots, m, recs, c, c, c, d);
        }
        let d = plan[c]->Some_0 as int;
        lemma_canonical_unique(roots, m, recs, c, c, c, d);
        assert(plan[c] == plan[i]);
    }
}

/// Every planned record is non-empty and at least the minimum size.
pub proof fn lemma_plan_respects_sizes(
    roots: Seq<PathId>,
    minimum_file_size: u64,
    recs: Seq<FileData>,
    plan: Seq<Option<usize>>,
    i: int,
)
    requires
        plan.len() == recs.len(),
        forall|k: int|
            0 <= k < plan.len() ==> plan_entry(roots, minimum_file_size, recs, k, #[trigger] plan[k]),
        0 <= i < plan.len(),
        plan[i] is Some,
    ensures
        recs[i].size > 0,
        recs[i].size >= minimum_file_size,
{
    assert(plan_entry(roots, minimum_file_size, recs, i, plan[i]));
}

} // verus!
