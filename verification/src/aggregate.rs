//! Aggregation of one chunk of a measurement file into a table of any kind
//! of station entry.

use vstd::prelude::*;
use crate::lines::{NEWLINE, SEMICOLON, lemma_first_of, find_byte, records, record_station,
    record_temperature, record_lines, line_station, line_temperature, lemma_record_lines,
    lemma_records_bounds, lines_split};
use crate::table::HASH_TABLE_SIZE;
use crate::slots::{StationEntry, table_wf, table_view, holds_name, find_entry, free_table,
    empty_slots, lemma_free_slot, inserted_table, insert_entry};
use crate::process::{station_names, lemma_names_bound};
use crate::merge::{Stats, merge_views, merge_all, fold_stats, lemma_fold_permutation,
    lemma_map_multiset};
use crate::chunk::{chunk_records, lemma_records_split, lemma_chunking_partitions, is_chunking,
    lemma_lines_split_split};

verus! {

/// Per-station statistics after one more temperature `t` of station `n`.
pub open spec fn view_step<E: StationEntry>(
    v: Map<Seq<u8>, E::Stats>,
    n: Seq<u8>,
    t: E::Temp,
) -> Map<Seq<u8>, E::Stats> {
    v.insert(n, if v.contains_key(n) { E::stats_add(v[n], t) } else { E::fresh_stats(t) })
}

/// The statistics of each station over the measurements `rs`, in order, read
/// as entries of kind `E` read them.
pub open spec fn tallies_of<E: StationEntry>(
    map: Seq<u8>,
    rs: Seq<(int, int, int)>,
    positional: bool,
) -> Map<Seq<u8>, E::Stats>
    decreases rs.len(),
{
    if rs.len() == 0 {
        Map::empty()
    } else {
        view_step::<E>(
            tallies_of::<E>(map, rs.drop_last(), positional),
            record_station(map, rs.last()),
            E::reading(record_temperature(map, rs.last()), positional),
        )
    }
}

/// The table after adding the measurements `rs`, in order, to a table of free slots.
pub open spec fn table_after_of<E: StationEntry>(
    map: Seq<u8>,
    rs: Seq<(int, int, int)>,
    positional: bool,
) -> Seq<Option<E>>
    decreases rs.len(),
{
    if rs.len() == 0 {
        empty_slots()
    } else {
        let r = rs.last();
        inserted_table(
            table_after_of::<E>(map, rs.drop_last(), positional),
            map,
            r.0,
            r.1 - r.0,
            E::reading(record_temperature(map, r), positional),
        )
    }
}

/// The chunks `map[start..end]` that entries of kind `E` accept: every
/// non-empty line holds `;` unless such lines are skipped, every measurement
/// can be added, and there are no more stations than table slots.
pub open spec fn chunk_accepted_of<E: StationEntry>(
    map: Seq<u8>,
    start: int,
    end: int,
    positional: bool,
) -> bool {
    &&& E::skips_unsplit(positional) || lines_split(map, start, end)
    &&& forall|k: int|
        0 <= k < records(map, start, end).len() ==> E::accepts(
            map,
            #[trigger] records(map, start, end)[k],
            positional,
        )
    &&& station_names(map, records(map, start, end)).len() <= HASH_TABLE_SIZE
}

proof fn lemma_tallies_domain<E: StationEntry>(
    map: Seq<u8>,
    rs: Seq<(int, int, int)>,
    positional: bool,
)
    ensures
        tallies_of::<E>(map, rs, positional).dom() == station_names(map, rs),
    decreases rs.len(),
{
    if rs.len() > 0 {
        lemma_tallies_domain::<E>(map, rs.drop_last(), positional);
        let f = |r: (int, int, int)| record_station(map, r);
        assert(rs.map_values(f) =~= rs.drop_last().map_values(f) + seq![f(rs.last())]);
        Seq::lemma_to_set_insert_commutes(rs.drop_last().map_values(f), f(rs.last()));
        assert(tallies_of::<E>(map, rs, positional).dom() =~= station_names(map, rs));
    } else {
        assert(station_names(map, rs) =~= Set::empty());
    }
}

/// The table of statistics, per station, of the measurements in
/// `map[start..end]`, with entries of kind `E` reading temperatures by
/// position when `positional`, else byte by byte. `None` when a line without
/// `;` is refused, a measurement cannot be added, or there are more stations
/// than table slots.
pub fn fill<E: StationEntry>(map: &[u8], start: usize, end: usize, positional: bool) -> (r: Option<
    Vec<Option<E>>,
>)
    requires
        start <= end <= map.len(),
    ensures
        r is Some <==> chunk_accepted_of::<E>(map@, start as int, end as int, positional),
        r matches Some(t) ==> t@.len() == HASH_TABLE_SIZE,
        r matches Some(t) ==> table_wf(t@, map@) && table_view(t@, map@) == tallies_of::<E>(
            map@,
            records(map@, start as int, end as int),
            positional,
        ) && t@ == table_after_of::<E>(map@, records(map@, start as int, end as int), positional),
{
    let ghost all = records(map@, start as int, end as int);
    let mut entries = free_table();
    assert(entries@ =~= empty_slots());
    proof {
        assert(table_wf(entries@, map@));
        assert(table_view(entries@, map@) =~= Map::<Seq<u8>, E::Stats>::empty());
        lemma_records_bounds(map@, start as int, end as int);
        assert(all.take(0) =~= Seq::<(int, int, int)>::empty());
        assert(all =~= all.take(0) + records(map@, start as int, end as int));
        lemma_tallies_domain::<E>(map@, all.take(0), positional);
        assert(station_names(map@, all.take(0)) =~= Set::empty());
    }
    let mut used: usize = 0;
    let mut at = start;
    let ghost mut k: int = 0;
    while at < end
        invariant
            start <= at <= end <= map.len(),
            all == records(map@, start as int, end as int),
            !E::skips_unsplit(positional) ==> lines_split(map@, start as int, end as int) == lines_split(
                map@,
                at as int,
                end as int,
            ),
            0 <= k <= all.len(),
            all == all.take(k) + records(map@, at as int, end as int),
            forall|q: int| 0 <= q < k ==> E::accepts(map@, #[trigger] all[q], positional),
            table_wf(entries@, map@),
            entries@.len() == HASH_TABLE_SIZE,
            table_view(entries@, map@) == tallies_of::<E>(map@, all.take(k), positional),
            entries@ == table_after_of::<E>(map@, all.take(k), positional),
            used == station_names(map@, all.take(k)).len(),
            used <= HASH_TABLE_SIZE,
        decreases end - at,
    {
        let line_end = find_byte(map, at, end, NEWLINE);
        proof {
            lemma_first_of(map@, at as int, end as int, NEWLINE);
        }
        let next = if line_end < end { line_end + 1 } else { end };
        let ghost rest = records(map@, next as int, end as int);
        assert(line_end == end ==> rest =~= Seq::<(int, int, int)>::empty());
        assert(line_end == end ==> lines_split(map@, next as int, end as int));
        if line_end == at {
            at = next;
            continue;
        }
        let semicolon = find_byte(map, at, line_end, SEMICOLON);
        if semicolon == line_end {
            if E::skip_unsplit(positional) {
                at = next;
                continue;
            }
            return None;
        }
        proof {
            lemma_first_of(map@, at as int, line_end as int, SEMICOLON);
        }
        let ghost r = (at as int, semicolon as int, line_end as int);
        assert(records(map@, at as int, end as int) == seq![r] + rest);
        assert(all[k] == r);
        let temperature = match E::read_measurement(map, at, semicolon, line_end, positional) {
            Some(t) => t,
            None => {
                return None;
            },
        };
        let ghost names = station_names(map@, all.take(k));
        proof {
            lemma_tallies_domain::<E>(map@, all.take(k), positional);
            vstd::seq_lib::seq_to_set_is_finite(
                all.take(k).map_values(|q: (int, int, int)| record_station(map@, q)),
            );
        }
        if used == HASH_TABLE_SIZE {
            if find_entry(&entries, map, at, semicolon - at).is_none() {
                proof {
                    let f = |q: (int, int, int)| record_station(map@, q);
                    assert(!names.contains(f(r)));
                    assert(all.take(k + 1).map_values(f) =~= all.take(k).map_values(f) + seq![f(r)]);
                    Seq::lemma_to_set_insert_commutes(all.take(k).map_values(f), f(r));
                    lemma_names_bound(map@, all, k + 1);
                }
                return None;
            }
        } else {
            proof {
                if !holds_name(entries@, map@, record_station(map@, r)) {
                    lemma_free_slot(entries@, map@, names);
                }
            }
        }
        let inserted = insert_entry(&mut entries, map, at, semicolon - at, temperature);
        proof {
            let f = |q: (int, int, int)| record_station(map@, q);
            assert(all.take(k + 1).drop_last() =~= all.take(k));
            assert(all.take(k + 1).last() == r);
            assert(all =~= all.take(k + 1) + rest);
            assert(all.take(k + 1).map_values(f) =~= all.take(k).map_values(f) + seq![f(r)]);
            Seq::lemma_to_set_insert_commutes(all.take(k).map_values(f), f(r));
            assert(table_view(entries@, map@).dom().contains(f(r)));
            k = k + 1;
        }
        if inserted {
            used = used + 1;
        }
        at = next;
    }
    proof {
        assert(records(map@, at as int, end as int) =~= Seq::<(int, int, int)>::empty());
        assert(all.take(k) =~= all);
    }
    Some(entries)
}

/// Adding a temperature to the second group is adding it to both groups together.
proof fn lemma_merge_step<E: StationEntry>(
    m1: Map<Seq<u8>, E::Stats>,
    m2: Map<Seq<u8>, E::Stats>,
    n: Seq<u8>,
    t: E::Temp,
)
    ensures
        merge_views(m1, view_step::<E>(m2, n, t)) == view_step::<E>(merge_views(m1, m2), n, t),
{
    let l = merge_views(m1, view_step::<E>(m2, n, t));
    let r = view_step::<E>(merge_views(m1, m2), n, t);
    if m1.contains_key(n) {
        E::lemma_add_is_combine(m1[n], t);
        if m2.contains_key(n) {
            E::lemma_add_is_combine(m2[n], t);
            E::lemma_add_is_combine(m1[n].combine(m2[n]), t);
            E::Stats::lemma_combine_associates(m1[n], m2[n], E::fresh_stats(t));
        }
    }
    assert(l =~= r);
}

/// The statistics of two sequences of measurements, one after the other, are
/// those of each merged.
pub proof fn lemma_tallies_append<E: StationEntry>(
    map: Seq<u8>,
    r1: Seq<(int, int, int)>,
    r2: Seq<(int, int, int)>,
    positional: bool,
)
    ensures
        tallies_of::<E>(map, r1 + r2, positional) == merge_views(
            tallies_of::<E>(map, r1, positional),
            tallies_of::<E>(map, r2, positional),
        ),
    decreases r2.len(),
{
    if r2.len() == 0 {
        assert(r1 + r2 =~= r1);
        assert(merge_views(tallies_of::<E>(map, r1, positional), Map::empty()) =~= tallies_of::<E>(
            map,
            r1,
            positional,
        ));
    } else {
        lemma_tallies_append::<E>(map, r1, r2.drop_last(), positional);
        assert((r1 + r2).drop_last() =~= r1 + r2.drop_last());
        assert((r1 + r2).last() == r2.last());
        lemma_merge_step::<E>(
            tallies_of::<E>(map, r1, positional),
            tallies_of::<E>(map, r2.drop_last(), positional),
            record_station(map, r2.last()),
            E::reading(record_temperature(map, r2.last()), positional),
        );
    }
}

/// Splitting `map[start..end]` after a line, at `split`, and merging the
/// statistics of the two parts gives the statistics of the whole: what
/// [`fill`] gives for `map[start..end]` is what it gives for the two parts,
/// merged, whenever it gives a table for the whole (see [`lemma_split_accepted`]).
pub proof fn lemma_split_and_merge<E: StationEntry>(
    map: Seq<u8>,
    start: int,
    split: int,
    end: int,
    positional: bool,
)
    requires
        0 <= start <= split <= end <= map.len(),
        split == start || map[split - 1] == NEWLINE,
    ensures
        tallies_of::<E>(map, records(map, start, end), positional) == merge_views(
            tallies_of::<E>(map, records(map, start, split), positional),
            tallies_of::<E>(map, records(map, split, end), positional),
        ),
{
    if split == start {
        assert(records(map, start, split) =~= Seq::<(int, int, int)>::empty());
        assert(Seq::<(int, int, int)>::empty() + records(map, start, end) =~= records(map, start, end));
        lemma_tallies_append::<E>(map, Seq::empty(), records(map, start, end), positional);
    } else {
        if split < end {
            lemma_records_split(map, start, split - 1, end);
        } else {
            assert(records(map, end, end) =~= Seq::<(int, int, int)>::empty());
        }
        lemma_records_split(map, start, split - 1, split);
        assert(records(map, split, split) =~= Seq::<(int, int, int)>::empty());
        assert(records(map, start, split - 1) + records(map, split, split) =~= records(
            map,
            start,
            split - 1,
        ));
        lemma_tallies_append::<E>(map, records(map, start, split), records(map, split, end), positional);
    }
}

/// The statistics of each chunk, chunk after chunk.
pub open spec fn chunk_tallies<E: StationEntry>(
    map: Seq<u8>,
    c: Seq<(usize, usize)>,
    positional: bool,
) -> Seq<Map<Seq<u8>, E::Stats>> {
    c.map_values(
        |ch: (usize, usize)| tallies_of::<E>(map, records(map, ch.0 as int, ch.1 as int), positional),
    )
}

/// Merging the statistics of the chunks gives the statistics of their measurements.
proof fn lemma_merge_chunks<E: StationEntry>(map: Seq<u8>, c: Seq<(usize, usize)>, positional: bool)
    ensures
        merge_all(chunk_tallies::<E>(map, c, positional)) == tallies_of::<E>(
            map,
            chunk_records(map, c),
            positional,
        ),
    decreases c.len(),
{
    if c.len() == 0 {
        assert(tallies_of::<E>(map, chunk_records(map, c), positional) =~= Map::empty());
    } else {
        lemma_merge_chunks::<E>(map, c.drop_last(), positional);
        assert(chunk_tallies::<E>(map, c, positional).drop_last() =~= chunk_tallies::<E>(
            map,
            c.drop_last(),
            positional,
        ));
        lemma_tallies_append::<E>(
            map,
            chunk_records(map, c.drop_last()),
            records(map, c.last().0 as int, c.last().1 as int),
            positional,
        );
    }
}

/// Processing the chunks of a file separately and merging their statistics
/// gives the statistics of the whole file.
pub proof fn lemma_chunked_equals_whole<E: StationEntry>(
    map: Seq<u8>,
    n: int,
    c: Seq<(usize, usize)>,
    positional: bool,
)
    requires
        n > 0,
        is_chunking(map, n, c),
    ensures
        merge_all(chunk_tallies::<E>(map, c, positional)) == tallies_of::<E>(
            map,
            records(map, 0, map.len() as int),
            positional,
        ),
{
    lemma_chunking_partitions(map, n, c);
    lemma_merge_chunks::<E>(map, c, positional);
}

/// The station and temperature of each of the measurements `rs`, in order.
pub open spec fn readings<E: StationEntry>(
    map: Seq<u8>,
    rs: Seq<(int, int, int)>,
    positional: bool,
) -> Seq<(Seq<u8>, E::Temp)> {
    rs.map_values(|r: (int, int, int)| (record_station(map, r), E::reading(record_temperature(map, r), positional)))
}

/// A reading as the statistics of its single temperature.
pub open spec fn single_stats<E: StationEntry>() -> spec_fn((Seq<u8>, E::Temp)) -> (
    Seq<u8>,
    E::Stats,
) {
    |p: (Seq<u8>, E::Temp)| (p.0, E::fresh_stats(p.1))
}

proof fn lemma_tallies_fold<E: StationEntry>(map: Seq<u8>, rs: Seq<(int, int, int)>, positional: bool)
    ensures
        tallies_of::<E>(map, rs, positional) == fold_stats(
            readings::<E>(map, rs, positional).map_values(single_stats::<E>()),
        ),
    decreases rs.len(),
{
    if rs.len() > 0 {
        lemma_tallies_fold::<E>(map, rs.drop_last(), positional);
        let ps = readings::<E>(map, rs, positional).map_values(single_stats::<E>());
        assert(ps.drop_last() =~= readings::<E>(map, rs.drop_last(), positional).map_values(
            single_stats::<E>(),
        ));
        let n = record_station(map, rs.last());
        let t = E::reading(record_temperature(map, rs.last()), positional);
        let v = tallies_of::<E>(map, rs.drop_last(), positional);
        if v.contains_key(n) {
            E::lemma_add_is_combine(v[n], t);
        }
        assert(merge_views(v, map![n => E::fresh_stats(t)]) =~= view_step::<E>(v, n, t));
    }
}

/// The statistics of measurements depend only on which stations read which
/// temperatures, not on the order of the lines: two sequences of measurements,
/// of the same file or of two files, with the same readings in any order, have
/// the same statistics.
pub proof fn lemma_line_order_irrelevant<E: StationEntry>(
    map1: Seq<u8>,
    rs1: Seq<(int, int, int)>,
    map2: Seq<u8>,
    rs2: Seq<(int, int, int)>,
    positional: bool,
)
    requires
        readings::<E>(map1, rs1, positional).to_multiset() == readings::<E>(
            map2,
            rs2,
            positional,
        ).to_multiset(),
    ensures
        tallies_of::<E>(map1, rs1, positional) == tallies_of::<E>(map2, rs2, positional),
{
    lemma_tallies_fold::<E>(map1, rs1, positional);
    lemma_tallies_fold::<E>(map2, rs2, positional);
    lemma_map_multiset(
        readings::<E>(map1, rs1, positional),
        readings::<E>(map2, rs2, positional),
        single_stats::<E>(),
    );
    lemma_fold_permutation(
        readings::<E>(map1, rs1, positional).map_values(single_stats::<E>()),
        readings::<E>(map2, rs2, positional).map_values(single_stats::<E>()),
    );
}

/// The station and temperature that a measurement line gives.
pub open spec fn line_reading<E: StationEntry>(positional: bool) -> spec_fn(Seq<u8>) -> (
    Seq<u8>,
    E::Temp,
) {
    |line: Seq<u8>| (line_station(line), E::reading(line_temperature(line), positional))
}

/// The statistics of two chunks, of the same file or of two files, whose
/// measurement lines are the same in any order, are the same: what [`fill`]
/// gives for one is what it gives for the other.
pub proof fn lemma_chunk_order_irrelevant<E: StationEntry>(
    map1: Seq<u8>,
    start1: int,
    end1: int,
    map2: Seq<u8>,
    start2: int,
    end2: int,
    positional: bool,
)
    requires
        0 <= start1 <= end1 <= map1.len(),
        0 <= start2 <= end2 <= map2.len(),
        record_lines(map1, records(map1, start1, end1)).to_multiset() == record_lines(
            map2,
            records(map2, start2, end2),
        ).to_multiset(),
    ensures
        tallies_of::<E>(map1, records(map1, start1, end1), positional) == tallies_of::<E>(
            map2,
            records(map2, start2, end2),
            positional,
        ),
{
    let rs1 = records(map1, start1, end1);
    let rs2 = records(map2, start2, end2);
    lemma_record_lines(map1, start1, end1);
    lemma_record_lines(map2, start2, end2);
    assert(readings::<E>(map1, rs1, positional) =~= record_lines(map1, rs1).map_values(
        line_reading::<E>(positional),
    ));
    assert(readings::<E>(map2, rs2, positional) =~= record_lines(map2, rs2).map_values(
        line_reading::<E>(positional),
    ));
    lemma_map_multiset(
        record_lines(map1, rs1),
        record_lines(map2, rs2),
        line_reading::<E>(positional),
    );
    lemma_line_order_irrelevant::<E>(map1, rs1, map2, rs2, positional);
}

/// The stations of a part of a sequence of measurements are among those of the whole.
proof fn lemma_part_names(map: Seq<u8>, a: Seq<(int, int, int)>, b: Seq<(int, int, int)>)
    ensures
        station_names(map, a).len() <= station_names(map, a + b).len(),
        station_names(map, b).len() <= station_names(map, a + b).len(),
{
    let f = |r: (int, int, int)| record_station(map, r);
    let w = a + b;
    vstd::seq_lib::seq_to_set_is_finite(w.map_values(f));
    assert(station_names(map, a).subset_of(station_names(map, w))) by {
        assert forall|n: Seq<u8>| station_names(map, a).contains(n) implies station_names(
            map,
            w,
        ).contains(n) by {
            let k = choose|k: int| 0 <= k < a.map_values(f).len() && a.map_values(f)[k] == n;
            assert(w.map_values(f)[k] == n);
        }
    }
    assert(station_names(map, b).subset_of(station_names(map, w))) by {
        assert forall|n: Seq<u8>| station_names(map, b).contains(n) implies station_names(
            map,
            w,
        ).contains(n) by {
            let k = choose|k: int| 0 <= k < b.map_values(f).len() && b.map_values(f)[k] == n;
            assert(w.map_values(f)[a.len() + k] == n);
        }
    }
    vstd::set_lib::lemma_len_subset(station_names(map, a), station_names(map, w));
    vstd::set_lib::lemma_len_subset(station_names(map, b), station_names(map, w));
}

/// A chunk split after a line is accepted exactly when both parts are and the
/// whole holds no more stations than table slots: [`fill`] gives `None` for
/// the whole exactly when it gives `None` for a part, or when the parts
/// together hold more stations than a table has slots.
pub proof fn lemma_split_accepted<E: StationEntry>(
    map: Seq<u8>,
    start: int,
    split: int,
    end: int,
    positional: bool,
)
    requires
        0 <= start <= split <= end <= map.len(),
        split == start || map[split - 1] == NEWLINE,
    ensures
        chunk_accepted_of::<E>(map, start, end, positional) == (chunk_accepted_of::<E>(
            map,
            start,
            split,
            positional,
        ) && chunk_accepted_of::<E>(map, split, end, positional) && station_names(
            map,
            records(map, start, end),
        ).len() <= HASH_TABLE_SIZE),
{
    let whole = records(map, start, end);
    let x = records(map, start, split);
    let y = records(map, split, end);
    if split == start {
        assert(x =~= Seq::<(int, int, int)>::empty());
        assert(x + y =~= y);
    } else {
        if split < end {
            lemma_records_split(map, start, split - 1, end);
            lemma_lines_split_split(map, start, split - 1, end);
        } else {
            assert(y =~= Seq::<(int, int, int)>::empty());
        }
        lemma_records_split(map, start, split - 1, split);
        lemma_lines_split_split(map, start, split - 1, split);
        assert(records(map, split, split) =~= Seq::<(int, int, int)>::empty());
        assert(records(map, start, split - 1) + records(map, split, split) =~= records(
            map,
            start,
            split - 1,
        ));
    }
    assert(whole =~= x + y);
    lemma_part_names(map, x, y);
    let ok = |r: (int, int, int)| E::accepts(map, r, positional);
    assert((forall|k: int| 0 <= k < whole.len() ==> ok(#[trigger] whole[k])) == ((forall|k: int|
        0 <= k < x.len() ==> ok(#[trigger] x[k])) && (forall|k: int|
        0 <= k < y.len() ==> ok(#[trigger] y[k])))) by {
        if forall|k: int| 0 <= k < whole.len() ==> ok(#[trigger] whole[k]) {
            assert forall|k: int| 0 <= k < x.len() implies ok(#[trigger] x[k]) by {
                assert(whole[k] == x[k]);
            }
            assert forall|k: int| 0 <= k < y.len() implies ok(#[trigger] y[k]) by {
                assert(whole[x.len() + k] == y[k]);
            }
        }
        if (forall|k: int| 0 <= k < x.len() ==> ok(#[trigger] x[k])) && (forall|k: int|
            0 <= k < y.len() ==> ok(#[trigger] y[k])) {
            assert forall|k: int| 0 <= k < whole.len() implies ok(#[trigger] whole[k]) by {
                if k < x.len() {
                    assert(whole[k] == x[k]);
                } else {
                    assert(whole[k] == y[k - x.len()]);
                }
            }
        }
    }
}

} // verus!
