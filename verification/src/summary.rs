//! What the statistics of a station are: the least and greatest of its
//! temperatures, and their sum and number (64-bit fields, wrapping around
//! only past their range).

use vstd::prelude::*;
use crate::lines::record_station;
use crate::process::{tallies, record_value};
use crate::lines::record_temperature;
use crate::slots::StationEntry;
use crate::merge::merge_views;
use crate::aggregate::{tallies_of, lemma_tallies_append};
use crate::table::Entry;
use crate::offset_table::Entry as OffsetEntry;

verus! {

/// The temperatures of station `n` among the measurements `rs`, in order.
pub open spec fn station_values(map: Seq<u8>, rs: Seq<(int, int, int)>, n: Seq<u8>) -> Seq<int>
    decreases rs.len(),
{
    if rs.len() == 0 {
        seq![]
    } else if record_station(map, rs.last()) == n {
        station_values(map, rs.drop_last(), n).push(record_value(map, rs.last()) as int)
    } else {
        station_values(map, rs.drop_last(), n)
    }
}

/// The sum of `s`.
pub open spec fn sum_of(s: Seq<int>) -> int
    decreases s.len(),
{
    if s.len() == 0 {
        0
    } else {
        sum_of(s.drop_last()) + s.last()
    }
}

/// `x` wrapped into the range of an `i64`.
pub open spec fn wrap_i64(x: int) -> int {
    (x + 0x8000_0000_0000_0000) % 0x1_0000_0000_0000_0000 - 0x8000_0000_0000_0000
}

/// `x` wrapped into the range of a `u64`.
pub open spec fn wrap_u64(x: int) -> int {
    x % 0x1_0000_0000_0000_0000
}

proof fn lemma_wrap_i64_add(a: int, t: int)
    requires
        i64::MIN <= t <= i64::MAX,
    ensures
        vstd::wrapping::i64_specs::wrapping_add(wrap_i64(a) as i64, t as i64) == wrap_i64(a + t),
        i64::MIN <= wrap_i64(a) <= i64::MAX,
{
    let m: int = 0x1_0000_0000_0000_0000;
    let h: int = 0x8000_0000_0000_0000;
    let w = wrap_i64(a);
    vstd::arithmetic::div_mod::lemma_mod_bound(a + h, m);
    vstd::arithmetic::div_mod::lemma_add_mod_noop(a + h, t, m);
    vstd::arithmetic::div_mod::lemma_mod_twice(a + h, m);
    vstd::arithmetic::div_mod::lemma_add_mod_noop(w + h, t, m);
    let s = w + t;
    // s is within one turn of the i64 range
    if s > i64::MAX {
        vstd::arithmetic::div_mod::lemma_mod_sub_multiples_vanish(s + h, m);
        vstd::arithmetic::div_mod::lemma_small_mod((s + h - m) as nat, m as nat);
    } else if s < i64::MIN {
        vstd::arithmetic::div_mod::lemma_mod_add_multiples_vanish(s + h, m);
        vstd::arithmetic::div_mod::lemma_small_mod((s + h + m) as nat, m as nat);
    } else {
        vstd::arithmetic::div_mod::lemma_small_mod((s + h) as nat, m as nat);
    }
}

proof fn lemma_wrap_u64_add(a: int)
    requires
        a >= 0,
    ensures
        vstd::wrapping::u64_specs::wrapping_add(wrap_u64(a) as u64, 1u64) == wrap_u64(a + 1),
        0 <= wrap_u64(a) <= u64::MAX,
{
    let m: int = 0x1_0000_0000_0000_0000;
    vstd::arithmetic::div_mod::lemma_mod_bound(a, m);
    vstd::arithmetic::div_mod::lemma_add_mod_noop(a, 1, m);
    vstd::arithmetic::div_mod::lemma_small_mod(1, m as nat);
    let w = wrap_u64(a);
    if w + 1 == m {
        vstd::arithmetic::div_mod::lemma_mod_self_0(m);
    } else {
        vstd::arithmetic::div_mod::lemma_small_mod((w + 1) as nat, m as nat);
    }
}

/// Wrapping leaves a value that already fits unchanged.
pub proof fn lemma_wrap_fits(x: int)
    ensures
        i64::MIN <= x <= i64::MAX ==> wrap_i64(x) == x,
        0 <= x <= u64::MAX ==> wrap_u64(x) == x,
{
    if i64::MIN <= x <= i64::MAX {
        vstd::arithmetic::div_mod::lemma_small_mod(
            (x + 0x8000_0000_0000_0000) as nat,
            0x1_0000_0000_0000_0000,
        );
    }
    if 0 <= x <= u64::MAX {
        vstd::arithmetic::div_mod::lemma_small_mod(x as nat, 0x1_0000_0000_0000_0000);
    }
}

/// The statistics of a station are the least and the greatest of its
/// temperatures, their sum wrapped to an `i64` and their number wrapped to a `u64`
/// (both exact while they fit, which any file a `usize` can address keeps for the count);
/// a station has statistics exactly when it has a temperature.
pub proof fn lemma_tallies_meaning(map: Seq<u8>, rs: Seq<(int, int, int)>, n: Seq<u8>)
    ensures
        tallies(map, rs).contains_key(n) <==> station_values(map, rs, n).len() > 0,
        tallies(map, rs).contains_key(n) ==> {
            let t = tallies(map, rs)[n];
            let vs = station_values(map, rs, n);
            &&& forall|i: int| 0 <= i < vs.len() ==> t.0 <= #[trigger] vs[i] <= t.1
            &&& vs.contains(t.0 as int)
            &&& vs.contains(t.1 as int)
            &&& t.2 == wrap_i64(sum_of(vs))
            &&& t.3 == wrap_u64(vs.len() as int)
            &&& i64::MIN <= sum_of(vs) <= i64::MAX ==> t.2 == sum_of(vs)
            &&& vs.len() <= u64::MAX ==> t.3 == vs.len()
        },
    decreases rs.len(),
{
    if rs.len() > 0 {
        let prev = rs.drop_last();
        lemma_tallies_meaning(map, prev, n);
        let r = rs.last();
        let v = record_value(map, r);
        if record_station(map, r) == n {
            let vs0 = station_values(map, prev, n);
            let vs = station_values(map, rs, n);
            assert(vs == vs0.push(v as int));
            let t = tallies(map, rs)[n];
            if tallies(map, prev).contains_key(n) {
                let t0 = tallies(map, prev)[n];
                lemma_wrap_i64_add(sum_of(vs0), v as int);
                lemma_wrap_u64_add(vs0.len() as int);
                assert(vs.drop_last() == vs0);
                assert forall|i: int| 0 <= i < vs.len() implies t.0 <= #[trigger] vs[i] <= t.1 by {
                    if i < vs0.len() {
                        assert(vs[i] == vs0[i]);
                    }
                }
                if v < t0.0 {
                    assert(vs[vs.len() - 1] == t.0 as int);
                } else {
                    let j = choose|j: int| 0 <= j < vs0.len() && vs0[j] == t0.0 as int;
                    assert(vs[j] == t.0 as int);
                }
                if v > t0.1 {
                    assert(vs[vs.len() - 1] == t.1 as int);
                } else {
                    let j = choose|j: int| 0 <= j < vs0.len() && vs0[j] == t0.1 as int;
                    assert(vs[j] == t.1 as int);
                }
            } else {
                assert(vs0.len() == 0);
                assert(vs =~= seq![v as int]);
                assert(sum_of(vs) == v as int) by {
                    assert(vs.drop_last() =~= Seq::<int>::empty());
                    assert(sum_of(vs.drop_last()) == 0);
                    assert(vs.last() == v as int);
                }
                assert(vs[0] == v as int);
                vstd::arithmetic::div_mod::lemma_small_mod((v + 0x8000_0000_0000_0000) as nat, 0x1_0000_0000_0000_0000);
                vstd::arithmetic::div_mod::lemma_small_mod(1, 0x1_0000_0000_0000_0000);
            }
        }
    }
    let vs = station_values(map, rs, n);
    lemma_wrap_fits(sum_of(vs));
    lemma_wrap_fits(vs.len() as int);
}

/// Merging the statistics of two sequences of measurements gives, for each
/// station, the least and greatest of its temperatures in both, and their
/// wrapped sum.
pub proof fn lemma_merge_meaning(map: Seq<u8>, r1: Seq<(int, int, int)>, r2: Seq<(int, int, int)>, n: Seq<u8>)
    ensures
        merge_views(tallies(map, r1), tallies(map, r2)).contains_key(n) <==> station_values(
            map,
            r1 + r2,
            n,
        ).len() > 0,
        merge_views(tallies(map, r1), tallies(map, r2)).contains_key(n) ==> {
            let t = merge_views(tallies(map, r1), tallies(map, r2))[n];
            let vs = station_values(map, r1 + r2, n);
            &&& forall|i: int| 0 <= i < vs.len() ==> t.0 <= #[trigger] vs[i] <= t.1
            &&& vs.contains(t.0 as int)
            &&& vs.contains(t.1 as int)
            &&& t.2 == wrap_i64(sum_of(vs))
        },
{
    lemma_tallies_append::<Entry>(map, r1, r2, true);
    lemma_tallies_meaning(map, r1 + r2, n);
}

/// The temperatures of station `n` among the measurements `rs`, in order, as
/// entries that name their station by offset read them.
pub open spec fn offset_values(
    map: Seq<u8>,
    rs: Seq<(int, int, int)>,
    n: Seq<u8>,
    positional: bool,
) -> Seq<int>
    decreases rs.len(),
{
    if rs.len() == 0 {
        seq![]
    } else if record_station(map, rs.last()) == n {
        offset_values(map, rs.drop_last(), n, positional).push(
            <OffsetEntry as StationEntry>::reading(record_temperature(map, rs.last()), positional)
                as int,
        )
    } else {
        offset_values(map, rs.drop_last(), n, positional)
    }
}

/// The statistics that offset entries keep for a station are the least and
/// the greatest of its temperatures, their sum wrapped to an `i64` and their
/// number (exact while it fits in a `usize`); a station has statistics
/// exactly when it has a temperature.
pub proof fn lemma_offset_tallies_meaning(
    map: Seq<u8>,
    rs: Seq<(int, int, int)>,
    n: Seq<u8>,
    positional: bool,
)
    ensures
        tallies_of::<OffsetEntry>(map, rs, positional).contains_key(n) <==> offset_values(
            map,
            rs,
            n,
            positional,
        ).len() > 0,
        tallies_of::<OffsetEntry>(map, rs, positional).contains_key(n) ==> {
            let t = tallies_of::<OffsetEntry>(map, rs, positional)[n];
            let vs = offset_values(map, rs, n, positional);
            &&& forall|i: int| 0 <= i < vs.len() ==> t.0 <= #[trigger] vs[i] <= t.1
            &&& vs.contains(t.0 as int)
            &&& vs.contains(t.1 as int)
            &&& t.2 == wrap_i64(sum_of(vs))
            &&& vs.len() <= usize::MAX ==> t.3 == vs.len()
        },
    decreases rs.len(),
{
    if rs.len() > 0 {
        let prev = rs.drop_last();
        lemma_offset_tallies_meaning(map, prev, n, positional);
        let r = rs.last();
        let v = <OffsetEntry as StationEntry>::reading(record_temperature(map, r), positional);
        if record_station(map, r) == n {
            let vs0 = offset_values(map, prev, n, positional);
            let vs = offset_values(map, rs, n, positional);
            assert(vs == vs0.push(v as int));
            let t = tallies_of::<OffsetEntry>(map, rs, positional)[n];
            if tallies_of::<OffsetEntry>(map, prev, positional).contains_key(n) {
                let t0 = tallies_of::<OffsetEntry>(map, prev, positional)[n];
                lemma_wrap_i64_add(sum_of(vs0), v as int);
                assert(vs.drop_last() == vs0);
                assert forall|i: int| 0 <= i < vs.len() implies t.0 <= #[trigger] vs[i] <= t.1 by {
                    if i < vs0.len() {
                        assert(vs[i] == vs0[i]);
                    }
                }
                if v < t0.0 {
                    assert(vs[vs.len() - 1] == t.0 as int);
                } else {
                    let j = choose|j: int| 0 <= j < vs0.len() && vs0[j] == t0.0 as int;
                    assert(vs[j] == t.0 as int);
                }
                if v > t0.1 {
                    assert(vs[vs.len() - 1] == t.1 as int);
                } else {
                    let j = choose|j: int| 0 <= j < vs0.len() && vs0[j] == t0.1 as int;
                    assert(vs[j] == t.1 as int);
                }
            } else {
                assert(vs0.len() == 0);
                assert(vs =~= seq![v as int]);
                assert(sum_of(vs) == v as int) by {
                    assert(vs.drop_last() =~= Seq::<int>::empty());
                    assert(sum_of(vs.drop_last()) == 0);
                    assert(vs.last() == v as int);
                }
                assert(vs[0] == v as int);
                vstd::arithmetic::div_mod::lemma_small_mod(
                    (v + 0x8000_0000_0000_0000) as nat,
                    0x1_0000_0000_0000_0000,
                );
            }
        }
    }
}

/// Merging the statistics that offset entries keep for two sequences of
/// measurements gives, for each station, the least and greatest of its
/// temperatures in both, and their wrapped sum.
pub proof fn lemma_offset_merge_meaning(
    map: Seq<u8>,
    r1: Seq<(int, int, int)>,
    r2: Seq<(int, int, int)>,
    n: Seq<u8>,
    positional: bool,
)
    ensures
        merge_views(
            tallies_of::<OffsetEntry>(map, r1, positional),
            tallies_of::<OffsetEntry>(map, r2, positional),
        ).contains_key(n) <==> offset_values(map, r1 + r2, n, positional).len() > 0,
        merge_views(
            tallies_of::<OffsetEntry>(map, r1, positional),
            tallies_of::<OffsetEntry>(map, r2, positional),
        ).contains_key(n) ==> {
            let t = merge_views(
                tallies_of::<OffsetEntry>(map, r1, positional),
                tallies_of::<OffsetEntry>(map, r2, positional),
            )[n];
            let vs = offset_values(map, r1 + r2, n, positional);
            &&& forall|i: int| 0 <= i < vs.len() ==> t.0 <= #[trigger] vs[i] <= t.1
            &&& vs.contains(t.0 as int)
            &&& vs.contains(t.1 as int)
            &&& t.2 == wrap_i64(sum_of(vs))
        },
{
    lemma_tallies_append::<OffsetEntry>(map, r1, r2, positional);
    lemma_offset_tallies_meaning(map, r1 + r2, n, positional);
}

} // verus!
