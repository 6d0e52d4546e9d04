//! A statistics table whose entries refer to their names by offset into the
//! mapped file, with `i32` temperatures: an open-addressing hash table (see
//! [`slots`](crate::slots)) of [`Entry`] values.

use vstd::prelude::*;
use crate::words::name_words;
use crate::table::HASH_TABLE_SIZE;
use crate::slots::{StationEntry, slot_wf, table_wf, holds_name, table_view, occupied,
    inserted_table, insert_entry};
use crate::lines::{records, lines_split, record_temperature};
use crate::temperature::{readable_bytes, accumulated_digits, digits_reading, parse_temperature,
    fits_digits, fixed_layout, fixed_reading, parse_temperature_fixed, fits_fixed, is_temperature,
    temperature_value, lemma_readers_agree};
use crate::process::station_names;
use crate::merge::Stats;
use crate::aggregate::{fill, tallies_of, table_after_of, chunk_accepted_of};

verus! {

/// Statistics of one station, with its name as a range of the mapped file.
#[derive(Copy, Clone)]
pub struct Entry {
    pub first_word: u64,
    pub second_word: u64,
    pub name_len: usize,
    /// Offset of the name in the mapped file.
    pub name_offset: usize,
    pub min: i32,
    pub max: i32,
    pub sum: i64,
    pub count: usize,
}

/// The statistics an entry holds: `(min, max, sum, count)`.
pub open spec fn tally(e: Entry) -> (i32, i32, i64, usize) {
    (e.min, e.max, e.sum, e.count)
}

/// The statistics after one more temperature `t`; sum and count wrap around
/// past the range of their 64-bit fields.
pub open spec fn tally_add(s: (i32, i32, i64, usize), t: i32) -> (i32, i32, i64, usize) {
    (
        if t < s.0 { t } else { s.0 },
        if t > s.1 { t } else { s.1 },
        vstd::wrapping::i64_specs::wrapping_add(s.2, t as i64),
        vstd::wrapping::usize_specs::wrapping_add(s.3, 1usize),
    )
}

/// The statistics of a single temperature.
pub open spec fn tally_one(t: i32) -> (i32, i32, i64, usize) {
    (t, t, t as i64, 1usize)
}

/// The name an entry stands for, in the mapped file `map`.
pub open spec fn entry_name(e: Entry, map: Seq<u8>) -> Seq<u8> {
    map.subrange(e.name_offset as int, e.name_offset + e.name_len)
}

/// An entry's name lies within the file and its words are those of its name.
pub open spec fn entry_wf(e: Entry, map: Seq<u8>) -> bool {
    slot_wf(e, map)
}

/// An entry names its station by the range of the mapped file that holds it.
impl StationEntry for Entry {
    type Stats = (i32, i32, i64, usize);

    open spec fn name(self, map: Seq<u8>) -> Seq<u8> {
        entry_name(self, map)
    }

    open spec fn words(self) -> (u64, u64) {
        (self.first_word, self.second_word)
    }

    open spec fn name_in_file(self, map: Seq<u8>) -> bool {
        self.name_offset + self.name_len <= map.len()
    }

    open spec fn stats(self) -> Self::Stats {
        tally(self)
    }

    open spec fn with_stats(self, s: Self::Stats) -> Self {
        with_tally(self, s)
    }

    proof fn lemma_with_stats(self, s: Self::Stats, map: Seq<u8>) {
    }

    type Temp = i32;

    open spec fn stats_add(s: Self::Stats, t: Self::Temp) -> Self::Stats {
        tally_add(s, t)
    }

    open spec fn fresh_stats(t: Self::Temp) -> Self::Stats {
        tally_one(t)
    }

    proof fn lemma_add_is_combine(s: Self::Stats, t: Self::Temp) {
    }

    open spec fn name_len_ok(len: int) -> bool {
        true
    }

    open spec fn fresh(map: Seq<u8>, start: int, len: int, t: Self::Temp) -> Self {
        fresh_entry(map, start, len, t)
    }

    fn make(map: &[u8], w0: u64, w1: u64, start: usize, len: usize, t: Self::Temp) -> (e: Self) {
        Entry {
            first_word: w0,
            second_word: w1,
            min: t,
            max: t,
            sum: t as i64,
            count: 1,
            name_len: len,
            name_offset: start,
        }
    }

    open spec fn accepts(map: Seq<u8>, r: (int, int, int), positional: bool) -> bool {
        record_accepted(map, r, positional)
    }

    open spec fn reading(text: Seq<u8>, positional: bool) -> Self::Temp {
        if positional {
            fixed_reading(text) as i32
        } else {
            digits_reading(text) as i32
        }
    }

    open spec fn skips_unsplit(positional: bool) -> bool {
        positional
    }

    fn skip_unsplit(positional: bool) -> (r: bool) {
        positional
    }

    fn read_measurement(
        map: &[u8],
        at: usize,
        semicolon: usize,
        line_end: usize,
        positional: bool,
    ) -> (t: Option<Self::Temp>) {
        let text = &map[semicolon + 1..line_end];
        assert(text@ == record_temperature(map@, (at as int, semicolon as int, line_end as int)));
        if positional {
            if fits_fixed(text) {
                Some(parse_temperature_fixed(text))
            } else {
                None
            }
        } else {
            if fits_digits(text) {
                Some(parse_temperature(text))
            } else {
                None
            }
        }
    }

    fn add(&mut self, t: Self::Temp) {
        self.update(t);
    }

    fn compare_name(&self, other: &Self, map: &[u8]) -> (r: i8) {
        let a_start = self.name_offset;
        let b_start = other.name_offset;
        assert(a_start + self.name_len <= map.len());
        assert(b_start + other.name_len <= map.len());
        let a_end = a_start + self.name_len;
        let b_end = b_start + other.name_len;
        let a = &map[a_start..a_end];
        let b = &map[b_start..b_end];
        assert(a@ =~= self.name(map@));
        assert(b@ =~= other.name(map@));
        crate::order::compare_bytes(a, b)
    }

    fn absorb(&mut self, other: &Self) {
        if other.min < self.min {
            self.min = other.min;
        }
        if other.max > self.max {
            self.max = other.max;
        }
        self.sum = self.sum.wrapping_add(other.sum);
        self.count = self.count.wrapping_add(other.count);
    }

    fn is_named(&self, map: &[u8], w0: u64, w1: u64, start: usize, len: usize) -> (r: bool) {
        self.first_word == w0 && self.second_word == w1 && self.name_len == len && bytes_equal(
            map,
            self.name_offset,
            start,
            len,
        )
    }
}

impl Entry {
    /// Adds one temperature to the statistics.
    pub fn update(&mut self, temperature: i32)
        ensures
            tally(*final(self)) == tally_add(tally(*old(self)), temperature),
            final(self).first_word == old(self).first_word,
            final(self).second_word == old(self).second_word,
            final(self).name_offset == old(self).name_offset,
            final(self).name_len == old(self).name_len,
    {
        if temperature < self.min {
            self.min = temperature;
        }
        if temperature > self.max {
            self.max = temperature;
        }
        self.sum = self.sum.wrapping_add(temperature as i64);
        self.count = self.count.wrapping_add(1);
    }
}

/// Whether `map[a..a + len]` and `map[b..b + len]` hold the same bytes.
pub fn bytes_equal(map: &[u8], a: usize, b: usize, len: usize) -> (r: bool)
    requires
        a + len <= map.len(),
        b + len <= map.len(),
    ensures
        r == (map@.subrange(a as int, a + len) == map@.subrange(b as int, b + len)),
{
    let ghost x = map@.subrange(a as int, a + len);
    let ghost y = map@.subrange(b as int, b + len);
    let mut i: usize = 0;
    while i < len
        invariant
            i <= len,
            a + len <= map.len(),
            b + len <= map.len(),
            x == map@.subrange(a as int, a + len),
            y == map@.subrange(b as int, b + len),
            forall|j: int| 0 <= j < i ==> x[j] == y[j],
        decreases len - i,
    {
        if map[a + i] != map[b + i] {
            assert(x[i as int] != y[i as int]);
            return false;
        }
        i = i + 1;
    }
    assert(x =~= y);
    true
}

/// The statistics that one more temperature `t` for station `n` gives.
pub open spec fn view_add(
    v: Map<Seq<u8>, (i32, i32, i64, usize)>,
    n: Seq<u8>,
    t: i32,
) -> Map<Seq<u8>, (i32, i32, i64, usize)> {
    v.insert(n, if v.contains_key(n) { tally_add(v[n], t) } else { tally_one(t) })
}

/// `e` with the statistics `s`.
pub open spec fn with_tally(e: Entry, s: (i32, i32, i64, usize)) -> Entry {
    Entry { min: s.0, max: s.1, sum: s.2, count: s.3, ..e }
}

/// The new entry for a first temperature `t` of the station named `map[start..start + len]`.
pub open spec fn fresh_entry(map: Seq<u8>, start: int, len: int, t: i32) -> Entry {
    let w = name_words(map.subrange(start, start + len));
    Entry {
        first_word: w.0,
        second_word: w.1,
        name_len: len as usize,
        name_offset: start as usize,
        min: t,
        max: t,
        sum: t as i64,
        count: 1,
    }
}

/// Adds `temperature` to the statistics of the station named
/// `map[start..start + len]`, inserting it, as an offset into `map`, when the
/// table does not hold it; tells whether it inserted it.
pub fn insert_or_update(
    entries: &mut Vec<Option<Entry>>,
    map: &[u8],
    start: usize,
    len: usize,
    temperature: i32,
) -> (inserted: bool)
    requires
        table_wf(old(entries)@, map@),
        start + len <= map.len(),
        holds_name(old(entries)@, map@, map@.subrange(start as int, start + len)) || exists|i: int|
            0 <= i < old(entries)@.len() && #[trigger] old(entries)@[i] is None,
    ensures
        table_wf(final(entries)@, map@),
        final(entries)@.len() == old(entries)@.len(),
        table_view(final(entries)@, map@) == view_add(
            table_view(old(entries)@, map@),
            map@.subrange(start as int, start + len),
            temperature,
        ),
        inserted == !holds_name(old(entries)@, map@, map@.subrange(start as int, start + len)),
        occupied(final(entries)@).len() == occupied(old(entries)@).len() + if inserted {
            1int
        } else {
            0int
        },
        final(entries)@ == inserted_table(
            old(entries)@,
            map@,
            start as int,
            len as int,
            temperature,
        ),
{
    insert_entry(entries, map, start, len, temperature)
}

/// The byte-by-byte reader accepts the measurement's temperature.
pub open spec fn record_readable(map: Seq<u8>, r: (int, int, int)) -> bool {
    readable_bytes(record_temperature(map, r)) && accumulated_digits(record_temperature(map, r))
        <= i32::MAX
}

/// The input that [`process_chunk`] takes: every non-empty line holds `;`, every
/// temperature is readable, and there are no more stations than table slots.
pub open spec fn chunk_readable(map: Seq<u8>, start: int, end: int) -> bool {
    &&& lines_split(map, start, end)
    &&& forall|k: int|
        0 <= k < records(map, start, end).len() ==> record_readable(
            map,
            #[trigger] records(map, start, end)[k],
        )
    &&& station_names(map, records(map, start, end)).len() <= HASH_TABLE_SIZE
}

/// The reader of `positional` accepts the measurement's temperature.
pub open spec fn record_accepted(map: Seq<u8>, r: (int, int, int), positional: bool) -> bool {
    if positional {
        fixed_layout(record_temperature(map, r))
    } else {
        record_readable(map, r)
    }
}

/// The input that [`thread_process_chunk`] takes: every temperature has the fixed
/// layout, and there are no more stations than table slots.
pub open spec fn chunk_positional(map: Seq<u8>, start: int, end: int) -> bool {
    &&& forall|k: int|
        0 <= k < records(map, start, end).len() ==> fixed_layout(
            record_temperature(map, #[trigger] records(map, start, end)[k]),
        )
    &&& station_names(map, records(map, start, end)).len() <= HASH_TABLE_SIZE
}

/// The chunks that [`thread_process_chunk`] (`positional`) or [`process_chunk`]
/// accept.
pub open spec fn chunk_accepted(map: Seq<u8>, start: int, end: int, positional: bool) -> bool {
    if positional {
        chunk_positional(map, start, end)
    } else {
        chunk_readable(map, start, end)
    }
}

/// The chunks that [`fill`] accepts with offset entries are those of [`chunk_accepted`].
proof fn lemma_accepted_agree(map: Seq<u8>, start: int, end: int, positional: bool)
    ensures
        chunk_accepted(map, start, end, positional) == chunk_accepted_of::<Entry>(
            map,
            start,
            end,
            positional,
        ),
{
}

/// The table of statistics, per station, of the measurements in `map[start..end]`,
/// read byte by byte; `None` when a non-empty line has no `;`, a temperature
/// cannot be read, or there are more stations than table slots.
pub fn process_chunk(map: &[u8], start: usize, end: usize) -> (r: Option<Vec<Option<Entry>>>)
    requires
        start <= end <= map.len(),
    ensures
        r is Some <==> chunk_readable(map@, start as int, end as int),
        r matches Some(t) ==> t@.len() == HASH_TABLE_SIZE,
        r matches Some(t) ==> table_wf(t@, map@) && table_view(t@, map@) == tallies_of::<Entry>(
            map@,
            records(map@, start as int, end as int),
            false,
        ) && t@ == table_after_of::<Entry>(map@, records(map@, start as int, end as int), false),
{
    proof {
        lemma_accepted_agree(map@, start as int, end as int, false);
    }
    fill(map, start, end, false)
}

/// The table of statistics, per station, of the measurements in `map[start..end]`,
/// read by position; lines without `;` are skipped; `None` when a temperature
/// cannot be read or there are more stations than table slots.
pub fn thread_process_chunk(map: &[u8], start: usize, end: usize) -> (r: Option<Vec<Option<Entry>>>)
    requires
        start <= end <= map.len(),
    ensures
        r is Some <==> chunk_positional(map@, start as int, end as int),
        r matches Some(t) ==> t@.len() == HASH_TABLE_SIZE,
        r matches Some(t) ==> table_wf(t@, map@) && table_view(t@, map@) == tallies_of::<Entry>(
            map@,
            records(map@, start as int, end as int),
            true,
        ) && t@ == table_after_of::<Entry>(map@, records(map@, start as int, end as int), true),
{
    proof {
        lemma_accepted_agree(map@, start as int, end as int, true);
    }
    fill(map, start, end, true)
}

/// Every measurement whose temperature text is well formed (`-?D.D` or
/// `-?DD.D`) is accepted by the offset entries, whatever the length of its
/// name and whichever way temperatures are read, and its temperature is read
/// as the value it denotes.
pub proof fn lemma_well_formed_accepted(map: Seq<u8>, r: (int, int, int), positional: bool)
    requires
        is_temperature(record_temperature(map, r)),
    ensures
        record_readable(map, r),
        record_accepted(map, r, positional),
        <Entry as StationEntry>::accepts(map, r, positional),
        <Entry as StationEntry>::reading(record_temperature(map, r), positional)
            == temperature_value(record_temperature(map, r)),
{
    lemma_readers_agree(record_temperature(map, r));
}

/// A chunk whose non-empty lines all hold `;` and whose measurements all have
/// well-formed temperatures, with at most `HASH_TABLE_SIZE` stations, is
/// accepted by [`process_chunk`] and [`thread_process_chunk`], whatever the
/// length of the names.
pub proof fn lemma_well_formed_chunk(map: Seq<u8>, start: int, end: int)
    requires
        lines_split(map, start, end),
        forall|k: int|
            0 <= k < records(map, start, end).len() ==> is_temperature(
                record_temperature(map, #[trigger] records(map, start, end)[k]),
            ),
        station_names(map, records(map, start, end)).len() <= HASH_TABLE_SIZE,
    ensures
        chunk_readable(map, start, end),
        chunk_positional(map, start, end),
{
    assert forall|k: int| 0 <= k < records(map, start, end).len() implies record_readable(
        map,
        #[trigger] records(map, start, end)[k],
    ) && fixed_layout(record_temperature(map, records(map, start, end)[k])) by {
        lemma_well_formed_accepted(map, records(map, start, end)[k], true);
    }
}

} // verus!
