//! Aggregation of one chunk of a measurement file into a statistics table.

use vstd::prelude::*;
use crate::lines::{records, record_station, record_temperature, record_ok};
use crate::temperature::{fixed_reading, is_temperature, temperature_value, lemma_readers_agree};
use crate::slots::StationEntry;
use crate::table::{Entry, HASH_TABLE_SIZE};
use crate::aggregate::{fill, tallies_of, table_after_of};
use crate::slots::{list_wf, list_view, collect_entries, occupied};

verus! {

/// The temperature of a measurement, in tenths of a degree.
pub open spec fn record_value(map: Seq<u8>, r: (int, int, int)) -> i16 {
    fixed_reading(record_temperature(map, r)) as i16
}

/// The statistics of each station over the measurements `rs`, in order.
pub open spec fn tallies(map: Seq<u8>, rs: Seq<(int, int, int)>) -> Map<
    Seq<u8>,
    (i16, i16, i64, u64),
> {
    tallies_of::<Entry>(map, rs, true)
}

/// The station names of the measurements `rs`.
pub open spec fn station_names(map: Seq<u8>, rs: Seq<(int, int, int)>) -> Set<Seq<u8>> {
    rs.map_values(|r: (int, int, int)| record_station(map, r)).to_set()
}

/// The input that a chunk `map[start..end]` must be: every measurement
/// readable, and no more distinct stations than the table has slots.
pub open spec fn chunk_ok(map: Seq<u8>, start: int, end: int) -> bool {
    &&& forall|k: int|
        0 <= k < records(map, start, end).len() ==> record_ok(
            map,
            #[trigger] records(map, start, end)[k],
        )
    &&& station_names(map, records(map, start, end)).len() <= HASH_TABLE_SIZE
}

/// The table after adding the measurements `rs`, in order, to a table of free slots.
pub open spec fn table_after(map: Seq<u8>, rs: Seq<(int, int, int)>) -> Seq<Option<Entry>> {
    table_after_of::<Entry>(map, rs, true)
}

/// The statistics, per station, of the measurements in `map[start..end]`, or
/// `None` when a measurement cannot be read or there are more stations than
/// table slots.
pub fn thread_process_chunk(map: &[u8], start: usize, end: usize) -> (r: Option<Vec<Entry>>)
    requires
        start <= end <= map.len(),
    ensures
        r is Some <==> chunk_ok(map@, start as int, end as int),
        r matches Some(v) ==> list_wf(v@, map@) && list_view(v@, map@) == tallies(
            map@,
            records(map@, start as int, end as int),
        ) && v@ == occupied(table_after(map@, records(map@, start as int, end as int))),
{
    match fill::<Entry>(map, start, end, true) {
        Some(t) => Some(collect_entries(&t, map)),
        None => None,
    }
}

/// A chunk has at least as many stations as any leading part of its measurements.
pub proof fn lemma_names_bound(map: Seq<u8>, all: Seq<(int, int, int)>, k: int)
    requires
        0 <= k <= all.len(),
    ensures
        station_names(map, all.take(k)).len() <= station_names(map, all).len(),
{
    let f = |q: (int, int, int)| record_station(map, q);
    vstd::seq_lib::seq_to_set_is_finite(all.map_values(f));
    assert(station_names(map, all.take(k)).subset_of(station_names(map, all))) by {
        assert forall|n: Seq<u8>| station_names(map, all.take(k)).contains(n) implies station_names(
            map,
            all,
        ).contains(n) by {
            let j = choose|j: int| 0 <= j < all.take(k).map_values(f).len() && all.take(k).map_values(f)[j] == n;
            assert(all.map_values(f)[j] == n);
        }
    }
    vstd::set_lib::lemma_len_subset(station_names(map, all.take(k)), station_names(map, all));
}

/// Every measurement whose name is shorter than 256 bytes and whose
/// temperature text is well formed (`-?D.D` or `-?DD.D`) is accepted by the
/// inline-name entries, and its temperature is read as the value it denotes.
pub proof fn lemma_well_formed_accepted(map: Seq<u8>, r: (int, int, int), positional: bool)
    requires
        r.1 - r.0 < 256,
        is_temperature(record_temperature(map, r)),
    ensures
        record_ok(map, r),
        <Entry as StationEntry>::accepts(map, r, positional),
        <Entry as StationEntry>::reading(record_temperature(map, r), positional)
            == temperature_value(record_temperature(map, r)),
        record_value(map, r) == temperature_value(record_temperature(map, r)),
{
    lemma_readers_agree(record_temperature(map, r));
}

/// A chunk whose measurements all have names shorter than 256 bytes and
/// well-formed temperatures, with at most `HASH_TABLE_SIZE` stations, is
/// accepted: [`thread_process_chunk`] gives its statistics.
pub proof fn lemma_well_formed_chunk(map: Seq<u8>, start: int, end: int)
    requires
        forall|k: int|
            0 <= k < records(map, start, end).len() ==> {
                let r = #[trigger] records(map, start, end)[k];
                r.1 - r.0 < 256 && is_temperature(record_temperature(map, r))
            },
        station_names(map, records(map, start, end)).len() <= HASH_TABLE_SIZE,
    ensures
        chunk_ok(map, start, end),
{
    assert forall|k: int| 0 <= k < records(map, start, end).len() implies record_ok(
        map,
        #[trigger] records(map, start, end)[k],
    ) by {
        lemma_well_formed_accepted(map, records(map, start, end)[k], true);
    }
}

} // verus!
