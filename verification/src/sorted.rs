//! Lists of entries sorted by station name, and the merging of per-chunk
//! results into one such list.

use vstd::prelude::*;
use crate::merge::{Stats, merge_views, merge_all};
use crate::slots::{StationEntry, slot_wf, holds_name, slot_of, lemma_view_set, list_wf, list_view,
    as_slots};
use crate::order::{name_lt, lemma_name_lt_transitive, lemma_name_lt_asymmetric};

verus! {

/// The statistics `t` of station `n` merged into `v`.
pub open spec fn merge_one<T: Stats>(v: Map<Seq<u8>, T>, n: Seq<u8>, t: T) -> Map<Seq<u8>, T> {
    v.insert(n, if v.contains_key(n) { v[n].combine(t) } else { t })
}

/// Entries in strictly increasing order of name.
pub open spec fn sorted_by_name<E: StationEntry>(v: Seq<E>, map: Seq<u8>) -> bool {
    forall|a: int, b: int|
        0 <= a < b < v.len() ==> name_lt(#[trigger] v[a].name(map), #[trigger] v[b].name(map))
}

/// Inserting an entry whose name no entry has adds that name to the view.
proof fn lemma_list_view_insert<E: StationEntry>(v: Seq<E>, map: Seq<u8>, p: int, e: E)
    requires
        0 <= p <= v.len(),
        list_wf(v, map),
        forall|a: int| 0 <= a < v.len() ==> #[trigger] v[a].name(map) != e.name(map),
    ensures
        list_view(v.insert(p, e), map) == list_view(v, map).insert(e.name(map), e.stats()),
{
    let n = e.name(map);
    let w = v.insert(p, e);
    let s = as_slots(v);
    let u = as_slots(w);
    assert forall|m: Seq<u8>| holds_name(u, map, m) == (holds_name(s, map, m) || m == n) by {
        if holds_name(u, map, m) && m != n {
            let i = slot_of(u, map, m);
            if i < p {
                assert(s[i] == u[i]);
                assert(s[i]->0.name(map) == m);
            } else {
                assert(i != p);
                assert(s[i - 1] == u[i]);
                assert(s[i - 1]->0.name(map) == m);
            }
        }
        if holds_name(s, map, m) {
            let i = slot_of(s, map, m);
            if i < p {
                assert(s[i] == u[i]);
                assert(u[i]->0.name(map) == m);
            } else {
                assert(s[i] == u[i + 1]);
                assert(u[i + 1]->0.name(map) == m);
            }
        }
        if m == n {
            assert(u[p] == Some(e));
            assert(u[p]->0.name(map) == m);
        }
    }
    assert forall|m: Seq<u8>| #[trigger] holds_name(u, map, m) implies u[slot_of(u, map, m)]->0.stats()
        == (if m == n { e.stats() } else { s[slot_of(s, map, m)]->0.stats() }) by {
        let i = slot_of(u, map, m);
        if m == n {
            if i != p {
                if i < p {
                    assert(u[i] == Some(v[i]));
                } else {
                    assert(u[i] == Some(v[i - 1]));
                }
            }
        } else {
            let j = slot_of(s, map, m);
            assert(s[j] == Some(v[j]));
            if i < p {
                assert(u[i] == Some(v[i]));
                if i != j {
                    assert(v[i].name(map) == m);
                }
            } else {
                assert(i != p);
                assert(u[i] == Some(v[i - 1]));
                if i - 1 != j {
                    assert(v[i - 1].name(map) == m);
                }
            }
        }
    }
    assert(list_view(w, map) =~= list_view(v, map).insert(n, e.stats()));
}

/// Names of a sorted list are distinct.
proof fn lemma_sorted_distinct<E: StationEntry>(v: Seq<E>, map: Seq<u8>)
    requires
        sorted_by_name(v, map),
    ensures
        forall|a: int, b: int|
            0 <= a < v.len() && 0 <= b < v.len() && a != b ==> #[trigger] v[a].name(map)
                != #[trigger] v[b].name(map),
{
    assert forall|a: int, b: int|
        0 <= a < v.len() && 0 <= b < v.len() && a != b implies #[trigger] v[a].name(map)
        != #[trigger] v[b].name(map) by {
        if a < b {
            lemma_name_lt_asymmetric(v[a].name(map), v[b].name(map));
        } else {
            lemma_name_lt_asymmetric(v[b].name(map), v[a].name(map));
        }
    }
}

/// Names before position `p` of `v` come before `n`, and names from `p` on after it.
pub open spec fn is_insert_pos<E: StationEntry>(v: Seq<E>, map: Seq<u8>, n: Seq<u8>, p: int) -> bool {
    &&& 0 <= p <= v.len()
    &&& forall|a: int| 0 <= a < p ==> name_lt(#[trigger] v[a].name(map), n)
    &&& forall|a: int| p <= a < v.len() ==> name_lt(n, #[trigger] v[a].name(map))
}

/// The sorted list `v` with the entry `e` merged in: an entry of the same name gets
/// the statistics of both; otherwise `e` goes in at its place in name order.
pub open spec fn merged_into<E: StationEntry>(v: Seq<E>, e: E, map: Seq<u8>) -> Seq<E> {
    let n = e.name(map);
    if exists|i: int| 0 <= i < v.len() && #[trigger] v[i].name(map) == n {
        let i = choose|i: int| 0 <= i < v.len() && #[trigger] v[i].name(map) == n;
        v.update(i, v[i].with_stats(v[i].stats().combine(e.stats())))
    } else {
        let p = choose|p: int| #[trigger] is_insert_pos(v, map, n, p);
        v.insert(p, e)
    }
}

/// The entries `es` merged, in order, into an empty list.
pub open spec fn merged_list<E: StationEntry>(es: Seq<E>, map: Seq<u8>) -> Seq<E>
    decreases es.len(),
{
    if es.len() == 0 {
        seq![]
    } else {
        merged_into(merged_list(es.drop_last(), map), es.last(), map)
    }
}

/// The entries of `results`, list after list.
pub open spec fn all_entries<E>(results: Seq<Vec<E>>) -> Seq<E>
    decreases results.len(),
{
    if results.len() == 0 {
        seq![]
    } else {
        all_entries(results.drop_last()) + results.last()@
    }
}

/// Merges the statistics of `e` into the sorted list `out`: combined with the
/// entry of the same name, or inserted in name order.
pub fn merge_entry<E: StationEntry>(out: &mut Vec<E>, e: &E, map: &[u8])
    requires
        list_wf(old(out)@, map@),
        sorted_by_name(old(out)@, map@),
        slot_wf(*e, map@),
    ensures
        list_wf(final(out)@, map@),
        sorted_by_name(final(out)@, map@),
        list_view(final(out)@, map@) == merge_one(
            list_view(old(out)@, map@),
            (*e).name(map@),
            (*e).stats(),
        ),
        final(out)@ == merged_into(old(out)@, *e, map@),
        final(out)@.len() == old(out)@.len() + if list_view(old(out)@, map@).contains_key(
            (*e).name(map@),
        ) {
            0int
        } else {
            1int
        },
        !list_view(old(out)@, map@).contains_key((*e).name(map@)) ==> final(out)@.to_multiset()
            == old(out)@.to_multiset().insert(*e),
{
    let ghost n = (*e).name(map@);
    let mut lo: usize = 0;
    let mut hi: usize = out.len();
    while lo < hi
        invariant
            0 <= lo <= hi <= out@.len(),
            out@ == old(out)@,
            list_wf(out@, map@),
            sorted_by_name(out@, map@),
            slot_wf(*e, map@),
            n == (*e).name(map@),
            forall|a: int| 0 <= a < lo ==> name_lt(#[trigger] out@[a].name(map@), n),
            forall|a: int| hi <= a < out@.len() ==> name_lt(n, #[trigger] out@[a].name(map@)),
        decreases hi - lo,
    {
        let mid = lo + (hi - lo) / 2;
        let c = out[mid].compare_name(e, map);
        if c == 0 {
            let mut x = out[mid];
            x.absorb(e);
            proof {
                let y = old(out)@[mid as int];
                y.lemma_with_stats(y.stats().combine((*e).stats()), map@);
                let t = as_slots(out@);
                assert(t[mid as int] == Some(out@[mid as int]));
                assert forall|i: int, j: int|
                    0 <= i < t.len() && 0 <= j < t.len() && i != j && #[trigger] t[i] is Some
                        && #[trigger] t[j] is Some implies t[i]->0.name(map@) != t[j]->0.name(map@) by {
                    assert(t[i] == Some(out@[i]) && t[j] == Some(out@[j]));
                }
                lemma_view_set(t, map@, mid as int, x, n);
                assert(as_slots(out@.update(mid as int, x)) =~= t.update(mid as int, Some(x)));
                assert(t[mid as int]->0.name(map@) == n);
                assert(holds_name(t, map@, n));
                assert(slot_of(t, map@, n) == mid as int) by {
                    let j = slot_of(t, map@, n);
                    assert(t[j] == Some(out@[j]));
                }
            }
            out.set(mid, x);
            proof {
                assert(old(out)@[mid as int].name(map@) == n);
                let i2 = choose|i: int| 0 <= i < old(out)@.len() && #[trigger] old(out)@[i].name(map@) == n;
                if i2 != mid as int {
                    assert(old(out)@[i2].name(map@) != old(out)@[mid as int].name(map@));
                }
                assert(x == old(out)@[mid as int].with_stats(
                    old(out)@[mid as int].stats().combine((*e).stats()),
                ));
                assert forall|a: int| 0 <= a < out@.len() implies slot_wf(#[trigger] out@[a], map@) by {
                    if a != mid as int {
                        assert(out@[a] == old(out)@[a]);
                    }
                }
                assert forall|a: int, b: int|
                    0 <= a < out@.len() && 0 <= b < out@.len() && a != b implies #[trigger] out@[a].name(
                    map@,
                ) != #[trigger] out@[b].name(map@) by {
                    assert(out@[a].name(map@) == old(out)@[a].name(map@));
                    assert(out@[b].name(map@) == old(out)@[b].name(map@));
                }
                assert forall|a: int, b: int| 0 <= a < b < out@.len() implies name_lt(
                    #[trigger] out@[a].name(map@),
                    #[trigger] out@[b].name(map@),
                ) by {
                    assert(out@[a].name(map@) == old(out)@[a].name(map@));
                    assert(out@[b].name(map@) == old(out)@[b].name(map@));
                }
            }
            return;
        } else if c < 0 {
            proof {
                assert forall|a: int| 0 <= a < mid + 1 implies name_lt(
                    #[trigger] out@[a].name(map@),
                    n,
                ) by {
                    if a < mid {
                        lemma_name_lt_transitive(
                            out@[a].name(map@),
                            out@[mid as int].name(map@),
                            n,
                        );
                    }
                }
            }
            lo = mid + 1;
        } else {
            proof {
                assert forall|a: int| mid <= a < out@.len() implies name_lt(
                    n,
                    #[trigger] out@[a].name(map@),
                ) by {
                    if a > mid {
                        lemma_name_lt_transitive(
                            n,
                            out@[mid as int].name(map@),
                            out@[a].name(map@),
                        );
                    }
                }
            }
            hi = mid;
        }
    }
    proof {
        assert forall|a: int| 0 <= a < out@.len() implies #[trigger] out@[a].name(map@) != n by {
            if a < lo {
                lemma_name_lt_asymmetric(out@[a].name(map@), n);
            } else {
                lemma_name_lt_asymmetric(n, out@[a].name(map@));
            }
        }
        lemma_list_view_insert(out@, map@, lo as int, *e);
        assert(!list_view(out@, map@).contains_key(n)) by {
            if holds_name(as_slots(out@), map@, n) {
                let j = slot_of(as_slots(out@), map@, n);
                assert(as_slots(out@)[j] == Some(out@[j]));
            }
        }
    }
    let ghost before = out@;
    proof {
        assert(!exists|i: int| 0 <= i < before.len() && #[trigger] before[i].name(map@) == n);
        assert(is_insert_pos(before, map@, n, lo as int));
        let p = choose|p: int| #[trigger] is_insert_pos(before, map@, n, p);
        if p < lo {
            lemma_name_lt_asymmetric(before[p].name(map@), n);
        } else if p > lo {
            lemma_name_lt_asymmetric(before[lo as int].name(map@), n);
        }
    }
    out.insert(lo, *e);
    proof {
        vstd::seq_lib::to_multiset_insert(before, lo as int, *e);
        assert forall|a: int, b: int| 0 <= a < b < out@.len() implies name_lt(
            #[trigger] out@[a].name(map@),
            #[trigger] out@[b].name(map@),
        ) by {
            if b < lo {
                assert(out@[a] == before[a] && out@[b] == before[b]);
            } else if b == lo {
                assert(out@[a] == before[a]);
            } else if a < lo {
                assert(out@[a] == before[a] && out@[b] == before[b - 1]);
                lemma_name_lt_transitive(before[a].name(map@), n, before[b - 1].name(map@));
            } else if a == lo {
                assert(out@[b] == before[b - 1]);
            } else {
                assert(out@[a] == before[a - 1] && out@[b] == before[b - 1]);
            }
        }
        lemma_sorted_distinct(out@, map@);
        assert forall|a: int| 0 <= a < out@.len() implies slot_wf(#[trigger] out@[a], map@) by {
            if a < lo {
                assert(out@[a] == before[a]);
            } else if a > lo {
                assert(out@[a] == before[a - 1]);
            }
        }
    }
}

/// The statistics of each list of entries.
pub open spec fn list_views<E: StationEntry>(results: Seq<Vec<E>>, map: Seq<u8>) -> Seq<
    Map<Seq<u8>, E::Stats>,
> {
    results.map_values(|v: Vec<E>| list_view(v@, map))
}

/// Merging the next entry of a list extends the merge with that list's prefix.
proof fn lemma_merge_prefix<E: StationEntry>(
    m: Map<Seq<u8>, E::Stats>,
    v: Seq<E>,
    map: Seq<u8>,
    j: int,
)
    requires
        0 <= j < v.len(),
        list_wf(v, map),
    ensures
        merge_views(m, list_view(v.take(j + 1), map)) == merge_one(
            merge_views(m, list_view(v.take(j), map)),
            v[j].name(map),
            v[j].stats(),
        ),
{
    let n = v[j].name(map);
    let p = v.take(j);
    assert(v.take(j + 1) =~= p.insert(j, v[j]));
    assert forall|a: int| 0 <= a < p.len() implies #[trigger] p[a].name(map) != n by {
        assert(p[a] == v[a]);
    }
    assert(list_wf(p, map)) by {
        assert forall|a: int| 0 <= a < p.len() implies slot_wf(#[trigger] p[a], map) by {
            assert(p[a] == v[a]);
        }
        assert forall|a: int, b: int|
            0 <= a < p.len() && 0 <= b < p.len() && a != b implies #[trigger] p[a].name(map)
            != #[trigger] p[b].name(map) by {
            assert(p[a] == v[a] && p[b] == v[b]);
        }
    }
    lemma_list_view_insert(p, map, j, v[j]);
    let pv = list_view(p, map);
    assert(!pv.contains_key(n)) by {
        if holds_name(as_slots(p), map, n) {
            let a = slot_of(as_slots(p), map, n);
            assert(as_slots(p)[a] == Some(p[a]));
        }
    }
    let l = merge_views(m, pv.insert(n, v[j].stats()));
    let r = merge_one(merge_views(m, pv), n, v[j].stats());
    assert(l =~= r);
}

/// The entries of `v`, whose names are distinct, in increasing order of name.
pub fn sort_by_name<E: StationEntry>(v: &Vec<E>, map: &[u8]) -> (out: Vec<E>)
    requires
        list_wf(v@, map@),
    ensures
        list_wf(out@, map@),
        sorted_by_name(out@, map@),
        list_view(out@, map@) == list_view(v@, map@),
        out@.len() == v@.len(),
        out@.to_multiset() == v@.to_multiset(),
{
    let mut out: Vec<E> = Vec::new();
    let mut j: usize = 0;
    proof {
        assert(as_slots(out@) =~= Seq::<Option<E>>::empty());
        assert(list_view(out@, map@) =~= Map::empty());
        assert(out@ =~= v@.take(0));
        assert(as_slots(v@.take(0)) =~= Seq::<Option<E>>::empty());
        assert(list_view(v@.take(0), map@) =~= Map::empty());
    }
    while j < v.len()
        invariant
            j <= v@.len(),
            list_wf(v@, map@),
            list_wf(out@, map@),
            sorted_by_name(out@, map@),
            list_view(out@, map@) == list_view(v@.take(j as int), map@),
            out@.len() == j,
            out@.to_multiset() == v@.take(j as int).to_multiset(),
        decreases v@.len() - j,
    {
        proof {
            let none = Map::<Seq<u8>, E::Stats>::empty();
            lemma_merge_prefix(none, v@, map@, j as int);
            assert(merge_views(none, list_view(v@.take(j + 1), map@)) =~= list_view(
                v@.take(j + 1),
                map@,
            ));
            assert(merge_views(none, list_view(v@.take(j as int), map@)) =~= list_view(
                v@.take(j as int),
                map@,
            ));
            let n = v@[j as int].name(map@);
            let s = as_slots(v@.take(j as int));
            assert(!list_view(v@.take(j as int), map@).contains_key(n)) by {
                if holds_name(s, map@, n) {
                    let a = slot_of(s, map@, n);
                    assert(s[a] == Some(v@[a]));
                }
            }
        }
        merge_entry(&mut out, &v[j], map);
        proof {
            assert(v@.take(j + 1) =~= v@.take(j as int).push(v@[j as int]));
            vstd::seq_lib::to_multiset_build(v@.take(j as int), v@[j as int]);
        }
        j = j + 1;
    }
    proof {
        assert(v@.take(j as int) =~= v@);
    }
    out
}

/// Merges the per-chunk results into one list of entries sorted by name,
/// combining the statistics of entries with the same name.
pub fn merge_results<E: StationEntry>(results: &Vec<Vec<E>>, map: &[u8]) -> (out: Vec<E>)
    requires
        forall|i: int| 0 <= i < results@.len() ==> list_wf(#[trigger] results@[i]@, map@),
    ensures
        list_wf(out@, map@),
        sorted_by_name(out@, map@),
        list_view(out@, map@) == merge_all(list_views(results@, map@)),
        out@ == merged_list(all_entries(results@), map@),
{
    let mut out: Vec<E> = Vec::new();
    let mut i: usize = 0;
    proof {
        assert(list_view(out@, map@) =~= Map::empty()) by {
            assert(as_slots(out@) =~= Seq::<Option<E>>::empty());
        }
        assert(list_views(results@, map@).take(0) =~= Seq::empty());
        assert(all_entries(results@.take(0)) =~= Seq::<E>::empty());
    }
    while i < results.len()
        invariant
            i <= results@.len(),
            forall|x: int| 0 <= x < results@.len() ==> list_wf(#[trigger] results@[x]@, map@),
            list_wf(out@, map@),
            sorted_by_name(out@, map@),
            list_view(out@, map@) == merge_all(list_views(results@, map@).take(i as int)),
            out@ == merged_list(all_entries(results@.take(i as int)), map@),
        decreases results@.len() - i,
    {
        let ghost before = merge_all(list_views(results@, map@).take(i as int));
        let ghost prefix = all_entries(results@.take(i as int));
        let v = &results[i];
        assert(list_wf(v@, map@));
        let mut j: usize = 0;
        proof {
            assert(as_slots(v@.take(0)) =~= Seq::<Option<E>>::empty());
            assert(list_view(v@.take(0), map@) =~= Map::empty());
            assert(merge_views(before, Map::empty()) =~= before);
            assert(prefix + v@.take(0) =~= prefix);
        }
        while j < v.len()
            invariant
                j <= v@.len(),
                list_wf(v@, map@),
                list_wf(out@, map@),
                sorted_by_name(out@, map@),
                list_view(out@, map@) == merge_views(before, list_view(v@.take(j as int), map@)),
                out@ == merged_list(prefix + v@.take(j as int), map@),
            decreases v@.len() - j,
        {
            proof {
                lemma_merge_prefix(before, v@, map@, j as int);
                assert((prefix + v@.take(j + 1)).drop_last() =~= prefix + v@.take(j as int));
                assert((prefix + v@.take(j + 1)).last() == v@[j as int]);
            }
            merge_entry(&mut out, &v[j], map);
            j = j + 1;
        }
        proof {
            assert(v@.take(j as int) =~= v@);
            let vs = list_views(results@, map@);
            assert(vs.take(i + 1).drop_last() =~= vs.take(i as int));
            assert(vs.take(i + 1).last() == list_view(results@[i as int]@, map@));
            assert(results@.take(i + 1).drop_last() =~= results@.take(i as int));
            assert(all_entries(results@.take(i + 1)) == prefix + v@);
        }
        i = i + 1;
    }
    proof {
        assert(list_views(results@, map@).take(i as int) =~= list_views(results@, map@));
        assert(results@.take(i as int) =~= results@);
    }
    out
}

} // verus!
