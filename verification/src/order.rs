//! The byte-wise lexicographic order of station names, in which results are reported.

use vstd::prelude::*;
use crate::table::{Entry, INLINE_NAME_CAP, entry_name, name_bytes};

verus! {

/// `a` comes strictly before `b` in byte-wise lexicographic order.
pub open spec fn name_lt(a: Seq<u8>, b: Seq<u8>) -> bool
    decreases a.len(),
{
    if a.len() == 0 {
        b.len() > 0
    } else if b.len() == 0 {
        false
    } else if a[0] != b[0] {
        a[0] < b[0]
    } else {
        name_lt(a.drop_first(), b.drop_first())
    }
}

pub proof fn lemma_name_lt_irreflexive(a: Seq<u8>)
    ensures
        !name_lt(a, a),
    decreases a.len(),
{
    if a.len() > 0 {
        lemma_name_lt_irreflexive(a.drop_first());
    }
}

pub proof fn lemma_name_lt_transitive(a: Seq<u8>, b: Seq<u8>, c: Seq<u8>)
    requires
        name_lt(a, b),
        name_lt(b, c),
    ensures
        name_lt(a, c),
    decreases a.len(),
{
    if a.len() > 0 && b.len() > 0 && c.len() > 0 && a[0] == b[0] && b[0] == c[0] {
        lemma_name_lt_transitive(a.drop_first(), b.drop_first(), c.drop_first());
    }
}

pub proof fn lemma_name_lt_total(a: Seq<u8>, b: Seq<u8>)
    ensures
        a == b || name_lt(a, b) || name_lt(b, a),
    decreases a.len(),
{
    if a.len() > 0 && b.len() > 0 && a[0] == b[0] {
        lemma_name_lt_total(a.drop_first(), b.drop_first());
        if a.drop_first() == b.drop_first() {
            assert(a =~= seq![a[0]] + a.drop_first());
            assert(b =~= seq![b[0]] + b.drop_first());
        }
    } else if a.len() == 0 && b.len() == 0 {
        assert(a =~= b);
    }
}

pub proof fn lemma_name_lt_asymmetric(a: Seq<u8>, b: Seq<u8>)
    requires
        name_lt(a, b),
    ensures
        !name_lt(b, a),
        a != b,
{
    lemma_name_lt_irreflexive(a);
    if name_lt(b, a) {
        lemma_name_lt_transitive(a, b, a);
    }
}

/// Compares the names of two entries: negative when `a`'s comes first, zero when
/// they are equal, positive when `b`'s comes first.
pub fn compare_names(a: &Entry, b: &Entry, map: &[u8]) -> (r: i8)
    requires
        (a.name_len as int) >= INLINE_NAME_CAP ==> a.name_offset + a.name_len <= map@.len(),
        (b.name_len as int) >= INLINE_NAME_CAP ==> b.name_offset + b.name_len <= map@.len(),
    ensures
        r < 0 <==> name_lt(entry_name(*a, map@), entry_name(*b, map@)),
        r == 0 <==> entry_name(*a, map@) == entry_name(*b, map@),
        r > 0 <==> name_lt(entry_name(*b, map@), entry_name(*a, map@)),
{
    compare_bytes(name_bytes(a, map), name_bytes(b, map))
}

/// Compares two byte strings: negative when `a` comes first, zero when they are
/// equal, positive when `b` comes first.
pub fn compare_bytes(a: &[u8], b: &[u8]) -> (r: i8)
    ensures
        r < 0 <==> name_lt(a@, b@),
        r == 0 <==> a@ == b@,
        r > 0 <==> name_lt(b@, a@),
{
    let ghost na = a@;
    let ghost nb = b@;
    let la = a.len();
    let lb = b.len();
    let mut i: usize = 0;
    assert(na.skip(0) =~= na);
    assert(nb.skip(0) =~= nb);
    while i < la && i < lb
        invariant
            i <= la == na.len(),
            i <= lb == nb.len(),
            na == a@,
            nb == b@,
            na.take(i as int) == nb.take(i as int),
            name_lt(na, nb) == name_lt(na.skip(i as int), nb.skip(i as int)),
            name_lt(nb, na) == name_lt(nb.skip(i as int), na.skip(i as int)),
        decreases la - i,
    {
        let x = a[i];
        let y = b[i];
        assert(na.skip(i as int)[0] == x && nb.skip(i as int)[0] == y);
        if x != y {
            proof {
                assert(na[i as int] != nb[i as int]);
            }
            if x < y {
                proof {
                    lemma_name_lt_asymmetric(na, nb);
                }
                return -1;
            } else {
                proof {
                    lemma_name_lt_asymmetric(nb, na);
                }
                return 1;
            }
        }
        assert(na.skip(i as int).drop_first() =~= na.skip(i + 1));
        assert(nb.skip(i as int).drop_first() =~= nb.skip(i + 1));
        assert(na.take(i + 1) =~= na.take(i as int).push(x));
        assert(nb.take(i + 1) =~= nb.take(i as int).push(y));
        i = i + 1;
    }
    proof {
        lemma_name_lt_irreflexive(na);
        if la == lb {
            assert(na =~= na.take(i as int));
            assert(nb =~= nb.take(i as int));
        }
    }
    if la < lb {
        proof {
            assert(na.skip(i as int).len() == 0);
            lemma_name_lt_asymmetric(na, nb);
        }
        -1
    } else if la > lb {
        proof {
            assert(nb.skip(i as int).len() == 0);
            lemma_name_lt_asymmetric(nb, na);
        }
        1
    } else {
        0
    }
}

} // verus!
