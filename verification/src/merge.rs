//! Combining the statistics of separately processed chunks.

use vstd::prelude::*;
use crate::lines::{records, record_station};
use crate::chunk::chunk_records;

verus! {

/// Statistics of a group of temperatures that can be taken together with
/// those of another group.
pub trait Stats: Sized {
    /// The statistics of two groups of temperatures taken together.
    spec fn combine(self, other: Self) -> Self;

    /// Taking two groups together does not depend on their order.
    proof fn lemma_combine_commutes(a: Self, b: Self)
        ensures
            a.combine(b) == b.combine(a),
    ;

    /// Taking three groups together does not depend on how they are grouped.
    proof fn lemma_combine_associates(a: Self, b: Self, c: Self)
        ensures
            a.combine(b).combine(c) == a.combine(b.combine(c)),
    ;
}

/// The least, the greatest, the wrapping sum and the wrapping number of both.
impl Stats for (i16, i16, i64, u64) {
    open spec fn combine(self, other: Self) -> Self {
        combine(self, other)
    }

    proof fn lemma_combine_commutes(a: Self, b: Self) {
    }

    proof fn lemma_combine_associates(a: Self, b: Self, c: Self) {
    }
}

/// The least, the greatest, the wrapping sum and the wrapping number of both.
impl Stats for (i32, i32, i64, usize) {
    open spec fn combine(self, other: Self) -> Self {
        (
            if other.0 < self.0 { other.0 } else { self.0 },
            if other.1 > self.1 { other.1 } else { self.1 },
            vstd::wrapping::i64_specs::wrapping_add(self.2, other.2),
            vstd::wrapping::usize_specs::wrapping_add(self.3, other.3),
        )
    }

    proof fn lemma_combine_commutes(a: Self, b: Self) {
    }

    proof fn lemma_combine_associates(a: Self, b: Self, c: Self) {
    }
}

/// The statistics of two groups of temperatures taken together.
pub open spec fn combine(a: (i16, i16, i64, u64), b: (i16, i16, i64, u64)) -> (i16, i16, i64, u64) {
    (
        if b.0 < a.0 { b.0 } else { a.0 },
        if b.1 > a.1 { b.1 } else { a.1 },
        vstd::wrapping::i64_specs::wrapping_add(a.2, b.2),
        vstd::wrapping::u64_specs::wrapping_add(a.3, b.3),
    )
}

/// Per-station statistics of two groups of measurements taken together.
pub open spec fn merge_views<T: Stats>(m1: Map<Seq<u8>, T>, m2: Map<Seq<u8>, T>) -> Map<Seq<u8>, T> {
    Map::new(
        |n: Seq<u8>| m1.contains_key(n) || m2.contains_key(n),
        |n: Seq<u8>|
            if m1.contains_key(n) && m2.contains_key(n) {
                m1[n].combine(m2[n])
            } else if m1.contains_key(n) {
                m1[n]
            } else {
                m2[n]
            },
    )
}

/// Per-station statistics of several groups of measurements taken together, in order.
pub open spec fn merge_all<T: Stats>(vs: Seq<Map<Seq<u8>, T>>) -> Map<Seq<u8>, T>
    decreases vs.len(),
{
    if vs.len() == 0 {
        Map::empty()
    } else {
        merge_views(merge_all(vs.drop_last()), vs.last())
    }
}

/// Merging statistics does not depend on the order of the two groups.
pub proof fn lemma_merge_commutative<T: Stats>(m1: Map<Seq<u8>, T>, m2: Map<Seq<u8>, T>)
    ensures
        merge_views(m1, m2) == merge_views(m2, m1),
{
    assert forall|n: Seq<u8>| m1.contains_key(n) && m2.contains_key(n) implies #[trigger] m1[n].combine(
        m2[n],
    ) == m2[n].combine(m1[n]) by {
        T::lemma_combine_commutes(m1[n], m2[n]);
    }
    assert(merge_views(m1, m2) =~= merge_views(m2, m1));
}

/// Merging statistics does not depend on how the groups are grouped.
pub proof fn lemma_merge_associative<T: Stats>(
    m1: Map<Seq<u8>, T>,
    m2: Map<Seq<u8>, T>,
    m3: Map<Seq<u8>, T>,
)
    ensures
        merge_views(merge_views(m1, m2), m3) == merge_views(m1, merge_views(m2, m3)),
{
    assert forall|n: Seq<u8>|
        m1.contains_key(n) && m2.contains_key(n) && m3.contains_key(n) implies #[trigger] m1[n].combine(
        m2[n],
    ).combine(m3[n]) == m1[n].combine(m2[n].combine(m3[n])) by {
        T::lemma_combine_associates(m1[n], m2[n], m3[n]);
    }
    assert(merge_views(merge_views(m1, m2), m3) =~= merge_views(m1, merge_views(m2, m3)));
}

proof fn lemma_merge_empty<T: Stats>(m: Map<Seq<u8>, T>)
    ensures
        merge_views(Map::empty(), m) == m,
        merge_views(m, Map::empty()) == m,
{
    assert(merge_views(Map::empty(), m) =~= m);
    assert(merge_views(m, Map::empty()) =~= m);
}

proof fn lemma_merge_all_append<T: Stats>(p: Seq<Map<Seq<u8>, T>>, q: Seq<Map<Seq<u8>, T>>)
    ensures
        merge_all(p + q) == merge_views(merge_all(p), merge_all(q)),
    decreases q.len(),
{
    if q.len() == 0 {
        assert(p + q =~= p);
        lemma_merge_empty(merge_all(p));
    } else {
        lemma_merge_all_append(p, q.drop_last());
        assert((p + q).drop_last() =~= p + q.drop_last());
        assert((p + q).last() == q.last());
        lemma_merge_associative(merge_all(p), merge_all(q.drop_last()), q.last());
    }
}

/// Merging the statistics of several groups does not depend on the order in
/// which the groups come.
pub proof fn lemma_merge_all_permutation<T: Stats>(
    vs1: Seq<Map<Seq<u8>, T>>,
    vs2: Seq<Map<Seq<u8>, T>>,
)
    requires
        vs1.to_multiset() == vs2.to_multiset(),
    ensures
        merge_all(vs1) == merge_all(vs2),
    decreases vs1.len(),
{
    broadcast use vstd::seq_lib::group_to_multiset_ensures;

    assert(vs1.to_multiset().len() == vs1.len());
    assert(vs2.to_multiset().len() == vs2.len());
    if vs1.len() == 0 {
        assert(vs2.len() == 0);
        assert(vs1 =~= vs2);
    } else {
        let x = vs1.last();
        assert(vs1[vs1.len() - 1] == x);
        assert(vs1.contains(x));
        assert(vs1.to_multiset().count(x) > 0);
        assert(vs2.to_multiset().count(x) > 0);
        assert(vs2.contains(x));
        let j = choose|j: int| 0 <= j < vs2.len() && vs2[j] == x;
        assert(vs1.drop_last() =~= vs1.remove(vs1.len() - 1));
        lemma_merge_all_permutation(vs1.drop_last(), vs2.remove(j));
        let a = vs2.take(j);
        let b = vs2.skip(j + 1);
        let one = seq![x];
        assert(vs2 =~= (a + one) + b);
        assert(vs2.remove(j) =~= a + b);
        lemma_merge_all_append(a + one, b);
        lemma_merge_all_append(a, one);
        lemma_merge_all_append(a, b);
        assert(one.drop_last() =~= Seq::<Map<Seq<u8>, T>>::empty());
        assert(merge_all(one.drop_last()) == Map::<Seq<u8>, T>::empty());
        assert(one.last() == x);
        lemma_merge_empty(x);
        assert(merge_all(one) == x);
        lemma_merge_associative(merge_all(a), x, merge_all(b));
        lemma_merge_commutative(x, merge_all(b));
        lemma_merge_associative(merge_all(a), merge_all(b), x);
    }
}

/// Per-station statistics given one station at a time, taken together in order.
pub open spec fn fold_stats<T: Stats>(ps: Seq<(Seq<u8>, T)>) -> Map<Seq<u8>, T>
    decreases ps.len(),
{
    if ps.len() == 0 {
        Map::empty()
    } else {
        merge_views(fold_stats(ps.drop_last()), map![ps.last().0 => ps.last().1])
    }
}

proof fn lemma_fold_append<T: Stats>(p: Seq<(Seq<u8>, T)>, q: Seq<(Seq<u8>, T)>)
    ensures
        fold_stats(p + q) == merge_views(fold_stats(p), fold_stats(q)),
    decreases q.len(),
{
    if q.len() == 0 {
        assert(p + q =~= p);
        assert(merge_views(fold_stats(p), Map::empty()) =~= fold_stats(p));
    } else {
        lemma_fold_append(p, q.drop_last());
        assert((p + q).drop_last() =~= p + q.drop_last());
        assert((p + q).last() == q.last());
        lemma_merge_associative(
            fold_stats(p),
            fold_stats(q.drop_last()),
            map![q.last().0 => q.last().1],
        );
    }
}

/// Per-station statistics do not depend on the order in which they are given.
pub proof fn lemma_fold_permutation<T: Stats>(p1: Seq<(Seq<u8>, T)>, p2: Seq<(Seq<u8>, T)>)
    requires
        p1.to_multiset() == p2.to_multiset(),
    ensures
        fold_stats(p1) == fold_stats(p2),
    decreases p1.len(),
{
    broadcast use vstd::seq_lib::group_to_multiset_ensures;

    assert(p1.to_multiset().len() == p1.len());
    assert(p2.to_multiset().len() == p2.len());
    if p1.len() == 0 {
        assert(p2.len() == 0);
        assert(p1 =~= p2);
    } else {
        let x = p1.last();
        assert(p1[p1.len() - 1] == x);
        assert(p1.contains(x));
        assert(p1.to_multiset().count(x) > 0);
        assert(p2.to_multiset().count(x) > 0);
        assert(p2.contains(x));
        let j = choose|j: int| 0 <= j < p2.len() && p2[j] == x;
        let r2 = p2.remove(j);
        assert(p1.drop_last() =~= p1.remove(p1.len() - 1));
        lemma_fold_permutation(p1.drop_last(), r2);
        let a = p2.take(j);
        let b = p2.skip(j + 1);
        let one = seq![x];
        assert(p2 =~= (a + one) + b);
        assert(r2 =~= a + b);
        lemma_fold_append(a + one, b);
        lemma_fold_append(a, one);
        lemma_fold_append(a, b);
        let fx = map![x.0 => x.1];
        assert(one.drop_last() =~= Seq::<(Seq<u8>, T)>::empty());
        assert(fold_stats(one.drop_last()) == Map::<Seq<u8>, T>::empty());
        assert(fold_stats(one) == merge_views(Map::<Seq<u8>, T>::empty(), fx));
        assert(merge_views(Map::<Seq<u8>, T>::empty(), fx) =~= fx);
        lemma_merge_associative(fold_stats(a), fx, fold_stats(b));
        lemma_merge_commutative(fx, fold_stats(b));
        lemma_merge_associative(fold_stats(a), fold_stats(b), fx);
    }
}

/// Mapping two sequences with the same elements gives sequences with the same elements.
pub proof fn lemma_map_multiset<A, B>(s1: Seq<A>, s2: Seq<A>, f: spec_fn(A) -> B)
    requires
        s1.to_multiset() == s2.to_multiset(),
    ensures
        s1.map_values(f).to_multiset() == s2.map_values(f).to_multiset(),
    decreases s1.len(),
{
    broadcast use vstd::seq_lib::group_to_multiset_ensures;

    assert(s1.to_multiset().len() == s1.len());
    assert(s2.to_multiset().len() == s2.len());
    if s1.len() == 0 {
        assert(s2.len() == 0);
        assert(s1.map_values(f) =~= s2.map_values(f));
    } else {
        let x = s1.last();
        assert(s1[s1.len() - 1] == x);
        assert(s1.contains(x));
        assert(s1.to_multiset().count(x) > 0);
        assert(s2.to_multiset().count(x) > 0);
        assert(s2.contains(x));
        let j = choose|j: int| 0 <= j < s2.len() && s2[j] == x;
        assert(s1.drop_last() =~= s1.remove(s1.len() - 1));
        lemma_map_multiset(s1.drop_last(), s2.remove(j), f);
        assert(s1.map_values(f) =~= s1.drop_last().map_values(f).push(f(x)));
        assert(s2.remove(j).map_values(f) =~= s2.map_values(f).remove(j));
        assert(s2.map_values(f)[j] == f(x));
        assert(s2.map_values(f).remove(j).to_multiset() == s2.map_values(f).to_multiset().remove(
            f(x),
        ));
        assert(s2.map_values(f).to_multiset().count(f(x)) > 0) by {
            assert(s2.map_values(f).contains(f(x)));
        }
    }
}

/// Every measurement of chunk `i` is a measurement of the chunks taken together.
proof fn lemma_chunk_part(map: Seq<u8>, c: Seq<(usize, usize)>, i: int, k: int)
    requires
        0 <= i < c.len(),
        0 <= k < records(map, c[i].0 as int, c[i].1 as int).len(),
    ensures
        chunk_records(map, c).contains(records(map, c[i].0 as int, c[i].1 as int)[k]),
    decreases c.len(),
{
    let whole = chunk_records(map, c);
    let front = chunk_records(map, c.drop_last());
    let last = records(map, c.last().0 as int, c.last().1 as int);
    assert(whole == front + last);
    if i == c.len() - 1 {
        assert(whole[front.len() + k] == last[k]);
    } else {
        lemma_chunk_part(map, c.drop_last(), i, k);
        assert(c.drop_last()[i] == c[i]);
        let j = choose|j: int| 0 <= j < front.len() && front[j] == records(
            map,
            c[i].0 as int,
            c[i].1 as int,
        )[k];
        assert(whole[j] == front[j]);
    }
}

/// When a file can be processed as one chunk, so can each of its chunks.
pub proof fn lemma_chunks_ok(map: Seq<u8>, n: int, c: Seq<(usize, usize)>, i: int)
    requires
        n > 0,
        crate::chunk::is_chunking(map, n, c),
        crate::process::chunk_ok(map, 0, map.len() as int),
        0 <= i < c.len(),
    ensures
        crate::process::chunk_ok(map, c[i].0 as int, c[i].1 as int),
{
    crate::chunk::lemma_chunking_partitions(map, n, c);
    let whole = records(map, 0, map.len() as int);
    let part = records(map, c[i].0 as int, c[i].1 as int);
    assert forall|k: int| 0 <= k < part.len() implies crate::lines::record_ok(map, #[trigger] part[k]) by {
        lemma_chunk_part(map, c, i, k);
        let j = choose|j: int| 0 <= j < whole.len() && whole[j] == part[k];
        assert(crate::lines::record_ok(map, whole[j]));
    }
    let f = |r: (int, int, int)| record_station(map, r);
    vstd::seq_lib::seq_to_set_is_finite(whole.map_values(f));
    assert(crate::process::station_names(map, part).subset_of(crate::process::station_names(map, whole))) by {
        assert forall|x: Seq<u8>| crate::process::station_names(map, part).contains(x) implies crate::process::station_names(
            map,
            whole,
        ).contains(x) by {
            let k = choose|k: int| 0 <= k < part.map_values(f).len() && part.map_values(f)[k] == x;
            lemma_chunk_part(map, c, i, k);
            let j = choose|j: int| 0 <= j < whole.len() && whole[j] == part[k];
            assert(whole.map_values(f)[j] == x);
        }
    }
    vstd::set_lib::lemma_len_subset(
        crate::process::station_names(map, part),
        crate::process::station_names(map, whole),
    );
}

} // verus!
