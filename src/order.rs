//! The lexicographic order on byte strings and on sequences of path components.
use std::cmp::Ordering;
use vstd::prelude::*;

verus! {

/// Byte-wise lexicographic order; a proper prefix comes first.
pub open spec fn bytes_cmp(a: Seq<u8>, b: Seq<u8>) -> Ordering
    decreases a.len(),
{
    if a.len() == 0 {
        if b.len() == 0 {
            Ordering::Equal
        } else {
            Ordering::Less
        }
    } else if b.len() == 0 {
        Ordering::Greater
    } else if a[0] < b[0] {
        Ordering::Less
    } else if a[0] > b[0] {
        Ordering::Greater
    } else {
        bytes_cmp(a.drop_first(), b.drop_first())
    }
}

/// Component-wise order on paths: names compare by `bytes_cmp`, and an
/// ancestor comes before its descendants.
pub open spec fn path_cmp(x: Seq<Seq<u8>>, y: Seq<Seq<u8>>) -> Ordering
    decreases x.len(),
{
    if x.len() == 0 {
        if y.len() == 0 {
            Ordering::Equal
        } else {
            Ordering::Less
        }
    } else if y.len() == 0 {
        Ordering::Greater
    } else if bytes_cmp(x[0], y[0]) != Ordering::Equal {
        bytes_cmp(x[0], y[0])
    } else {
        path_cmp(x.drop_first(), y.drop_first())
    }
}

pub open spec fn path_lt(x: Seq<Seq<u8>>, y: Seq<Seq<u8>>) -> bool {
    path_cmp(x, y) == Ordering::Less
}

pub proof fn lemma_bytes_cmp_refl(a: Seq<u8>)
    ensures
        bytes_cmp(a, a) == Ordering::Equal,
    decreases a.len(),
{
    if a.len() > 0 {
        lemma_bytes_cmp_refl(a.drop_first());
    }
}

pub proof fn lemma_path_cmp_refl(x: Seq<Seq<u8>>)
    ensures
        path_cmp(x, x) == Ordering::Equal,
    decreases x.len(),
{
    if x.len() > 0 {
        lemma_bytes_cmp_refl(x[0]);
        lemma_path_cmp_refl(x.drop_first());
    }
}

/// Two paths of equal depth compare by their parents first, then by their last names.
pub proof fn lemma_path_cmp_push_both(x: Seq<Seq<u8>>, y: Seq<Seq<u8>>, a: Seq<u8>, b: Seq<u8>)
    requires
        x.len() == y.len(),
    ensures
        path_cmp(x.push(a), y.push(b)) == (if path_cmp(x, y) != Ordering::Equal {
            path_cmp(x, y)
        } else {
            bytes_cmp(a, b)
        }),
    decreases x.len(),
{
    assert(x.push(a).len() > 0 && y.push(b).len() > 0);
    if x.len() == 0 {
        assert(x.push(a)[0] == a && y.push(b)[0] == b);
        assert(x.push(a).drop_first() =~= x);
        assert(y.push(b).drop_first() =~= y);
        assert(path_cmp(x, y) == Ordering::Equal);
    } else {
        assert(x.push(a)[0] == x[0] && y.push(b)[0] == y[0]);
        assert(x.push(a).drop_first() =~= x.drop_first().push(a));
        assert(y.push(b).drop_first() =~= y.drop_first().push(b));
        lemma_path_cmp_push_both(x.drop_first(), y.drop_first(), a, b);
    }
}

/// Extending the longer of two paths keeps their order, except that equal
/// paths become ordered with the extended one last.
pub proof fn lemma_path_cmp_push_left(x: Seq<Seq<u8>>, y: Seq<Seq<u8>>, a: Seq<u8>)
    requires
        x.len() >= y.len(),
    ensures
        path_cmp(x.push(a), y) == (if path_cmp(x, y) == Ordering::Equal {
            Ordering::Greater
        } else {
            path_cmp(x, y)
        }),
    decreases y.len(),
{
    if y.len() > 0 {
        assert(x.push(a)[0] == x[0]);
        assert(x.push(a).drop_first() =~= x.drop_first().push(a));
        lemma_path_cmp_push_left(x.drop_first(), y.drop_first(), a);
    }
}

/// The mirror image of `lemma_path_cmp_push_left`.
pub proof fn lemma_path_cmp_push_right(x: Seq<Seq<u8>>, y: Seq<Seq<u8>>, b: Seq<u8>)
    requires
        y.len() >= x.len(),
    ensures
        path_cmp(x, y.push(b)) == (if path_cmp(x, y) == Ordering::Equal {
            Ordering::Less
        } else {
            path_cmp(x, y)
        }),
    decreases x.len(),
{
    if x.len() > 0 {
        assert(y.push(b)[0] == y[0]);
        assert(y.push(b).drop_first() =~= y.drop_first().push(b));
        lemma_path_cmp_push_right(x.drop_first(), y.drop_first(), b);
    }
}

/// Byte strings that compare equal are equal.
pub proof fn lemma_bytes_eq(a: Seq<u8>, b: Seq<u8>)
    requires
        bytes_cmp(a, b) == Ordering::Equal,
    ensures
        a == b,
    decreases a.len(),
{
    if a.len() > 0 && b.len() > 0 {
        lemma_bytes_eq(a.drop_first(), b.drop_first());
        assert(a =~= seq![a[0]] + a.drop_first());
        assert(b =~= seq![b[0]] + b.drop_first());
    } else {
        assert(a =~= b);
    }
}

/// The order on byte strings is transitive.
pub proof fn lemma_bytes_lt_trans(a: Seq<u8>, b: Seq<u8>, c: Seq<u8>)
    requires
        bytes_cmp(a, b) == Ordering::Less,
        bytes_cmp(b, c) == Ordering::Less,
    ensures
        bytes_cmp(a, c) == Ordering::Less,
    decreases a.len(),
{
    if a.len() > 0 && b.len() > 0 && c.len() > 0 && a[0] == b[0] && b[0] == c[0] {
        lemma_bytes_lt_trans(a.drop_first(), b.drop_first(), c.drop_first());
    }
}

/// The order on paths is transitive.
pub proof fn lemma_path_lt_trans(x: Seq<Seq<u8>>, y: Seq<Seq<u8>>, z: Seq<Seq<u8>>)
    requires
        path_lt(x, y),
        path_lt(y, z),
    ensures
        path_lt(x, z),
    decreases x.len(),
{
    if x.len() > 0 && y.len() > 0 && z.len() > 0 {
        let c1 = bytes_cmp(x[0], y[0]);
        let c2 = bytes_cmp(y[0], z[0]);
        if c1 == Ordering::Equal {
            lemma_bytes_eq(x[0], y[0]);
        }
        if c2 == Ordering::Equal {
            lemma_bytes_eq(y[0], z[0]);
        }
        if c1 == Ordering::Less && c2 == Ordering::Less {
            lemma_bytes_lt_trans(x[0], y[0], z[0]);
        } else if c1 == Ordering::Equal && c2 == Ordering::Equal {
            lemma_path_lt_trans(x.drop_first(), y.drop_first(), z.drop_first());
        }
    }
}

/// Lexicographic comparison of two byte strings.
pub fn compare_bytes(a: &[u8], b: &[u8]) -> (r: Ordering)
    ensures
        r == bytes_cmp(a@, b@),
{
    let mut i: usize = 0;
    assert(a@.subrange(0, a@.len() as int) =~= a@);
    assert(b@.subrange(0, b@.len() as int) =~= b@);
    while i < a.len() && i < b.len()
        invariant
            0 <= i <= a@.len(),
            i <= b@.len(),
            bytes_cmp(a@, b@) == bytes_cmp(a@.subrange(i as int, a@.len() as int), b@.subrange(i as int, b@.len() as int)),
        decreases a@.len() - i,
    {
        let ghost sa = a@.subrange(i as int, a@.len() as int);
        let ghost sb = b@.subrange(i as int, b@.len() as int);
        assert(sa[0] == a@[i as int] && sb[0] == b@[i as int]);
        if a[i] < b[i] {
            return Ordering::Less;
        } else if a[i] > b[i] {
            return Ordering::Greater;
        }
        assert(sa.drop_first() =~= a@.subrange(i + 1, a@.len() as int));
        assert(sb.drop_first() =~= b@.subrange(i + 1, b@.len() as int));
        i = i + 1;
    }
    if i < b.len() {
        Ordering::Less
    } else if i < a.len() {
        Ordering::Greater
    } else {
        Ordering::Equal
    }
}

} // verus!
