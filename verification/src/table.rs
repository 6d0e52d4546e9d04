//! The per-chunk statistics table: an open-addressing hash table (see
//! [`slots`](crate::slots)) of [`Entry`] values, keyed by station name.
//!
//! Names shorter than [`INLINE_NAME_CAP`] bytes are copied into the entry;
//! longer names are kept as an offset into the mapped file.

use vstd::prelude::*;
use crate::words::name_words;
use crate::lines::{record_ok, record_temperature};
use crate::temperature::{fits_branchless, parse_temperature_branchless, fixed_reading};
use crate::merge::Stats;
use crate::slots::{StationEntry, slot_wf, table_wf, holds_name, table_view, occupied,
    inserted_table, insert_entry};

verus! {

/// A name buffer of zero bytes.
fn zero_name() -> (a: [u8; 16])
    ensures
        a@ == seq![0u8; 16],
{
    let a: [u8; 16] = [0u8; 16];
    // the fill's bytes are known through the fill itself
    assert(a == vstd::array::spec_array_fill_for_copy_type::<u8, 16>(0u8));
    assert(a@ =~= seq![0u8; 16]);
    a
}

/// Number of slots of a table.
pub const HASH_TABLE_SIZE: usize = 131072;
/// Names shorter than this are stored inside the entry.
pub const INLINE_NAME_CAP: usize = 16;

/// Statistics of one station: minimum, maximum, sum and count of its
/// temperatures (in tenths of a degree), with what identifies its name.
#[derive(Copy, Clone)]
pub struct Entry {
    pub w0: u64,
    pub w1: u64,
    pub min: i16,
    pub max: i16,
    pub sum: i64,
    pub count: u64,
    /// Offset of the name in the mapped file, for names of at least
    /// `INLINE_NAME_CAP` bytes.
    pub name_offset: usize,
    pub name_len: u8,
    pub inline_name: [u8; 16],
}

/// The statistics an entry holds: `(min, max, sum, count)`.
pub open spec fn tally(e: Entry) -> (i16, i16, i64, u64) {
    (e.min, e.max, e.sum, e.count)
}

/// The statistics after one more temperature `t`; sum and count wrap around.
pub open spec fn tally_add(s: (i16, i16, i64, u64), t: i16) -> (i16, i16, i64, u64) {
    (
        if t < s.0 { t } else { s.0 },
        if t > s.1 { t } else { s.1 },
        vstd::wrapping::i64_specs::wrapping_add(s.2, t as i64),
        vstd::wrapping::u64_specs::wrapping_add(s.3, 1u64),
    )
}

/// The statistics of a single temperature.
pub open spec fn tally_one(t: i16) -> (i16, i16, i64, u64) {
    (t, t, t as i64, 1u64)
}

/// The name an entry stands for, given the mapped file `map`.
pub open spec fn entry_name(e: Entry, map: Seq<u8>) -> Seq<u8> {
    if (e.name_len as int) < INLINE_NAME_CAP {
        e.inline_name@.take(e.name_len as int)
    } else {
        map.subrange(e.name_offset as int, e.name_offset + e.name_len)
    }
}

/// An entry's name lies within the file and its words are those of its name.
pub open spec fn entry_wf(e: Entry, map: Seq<u8>) -> bool {
    slot_wf(e, map)
}

/// An entry names its station by an inline copy of a short name, or by the
/// range of the mapped file that holds a long one.
impl StationEntry for Entry {
    type Stats = (i16, i16, i64, u64);

    open spec fn name(self, map: Seq<u8>) -> Seq<u8> {
        entry_name(self, map)
    }

    open spec fn words(self) -> (u64, u64) {
        (self.w0, self.w1)
    }

    open spec fn name_in_file(self, map: Seq<u8>) -> bool {
        (self.name_len as int) >= INLINE_NAME_CAP ==> self.name_offset + self.name_len <= map.len()
    }

    open spec fn stats(self) -> Self::Stats {
        tally(self)
    }

    open spec fn with_stats(self, s: Self::Stats) -> Self {
        with_tally(self, s)
    }

    proof fn lemma_with_stats(self, s: Self::Stats, map: Seq<u8>) {
    }

    fn is_named(&self, map: &[u8], w0: u64, w1: u64, start: usize, len: usize) -> (r: bool) {
        self.w0 == w0 && self.w1 == w1 && self.entry_name_eq(&map[start..start + len], map)
    }

    type Temp = i16;

    open spec fn stats_add(s: Self::Stats, t: Self::Temp) -> Self::Stats {
        tally_add(s, t)
    }

    open spec fn fresh_stats(t: Self::Temp) -> Self::Stats {
        tally_one(t)
    }

    proof fn lemma_add_is_combine(s: Self::Stats, t: Self::Temp) {
        let c = crate::merge::combine(s, tally_one(t));
        assert(c == tally_add(s, t));
        assert(s.combine(tally_one(t)) == c);
    }

    open spec fn name_len_ok(len: int) -> bool {
        len < 256
    }

    open spec fn fresh(map: Seq<u8>, start: int, len: int, t: Self::Temp) -> Self {
        choose|e: Entry| is_fresh_entry(e, map, start, len, t)
    }

    fn make(map: &[u8], w0: u64, w1: u64, start: usize, len: usize, t: Self::Temp) -> (e: Self) {
        let mut e = Entry::new(w0, w1, t, len as u8);
        e.write_inline_name(map, start, len);
        assert(is_fresh_entry(e, map@, start as int, len as int, t)) by {
            if len < INLINE_NAME_CAP {
                assert(seq![0u8; 16].subrange(len as int, 16) =~= seq![0u8; 16].subrange(len as int, 16));
            }
        }
        proof {
            let e2 = choose|x: Entry| is_fresh_entry(x, map@, start as int, len as int, t);
            lemma_fresh_unique(e, e2, map@, start as int, len as int, t);
        }
        e
    }

    open spec fn accepts(map: Seq<u8>, r: (int, int, int), positional: bool) -> bool {
        record_ok(map, r)
    }

    open spec fn reading(text: Seq<u8>, positional: bool) -> Self::Temp {
        fixed_reading(text) as i16
    }

    open spec fn skips_unsplit(positional: bool) -> bool {
        true
    }

    fn skip_unsplit(positional: bool) -> (r: bool) {
        true
    }

    fn read_measurement(
        map: &[u8],
        at: usize,
        semicolon: usize,
        line_end: usize,
        positional: bool,
    ) -> (t: Option<Self::Temp>) {
        let text = &map[semicolon + 1..line_end];
        assert(text@ == record_temperature(map@, (at as int, semicolon as int, line_end as int)));
        if semicolon - at >= 256 || !fits_branchless(text) {
            None
        } else {
            Some(parse_temperature_branchless(text))
        }
    }

    fn add(&mut self, t: Self::Temp) {
        self.update(t);
    }

    fn compare_name(&self, other: &Self, map: &[u8]) -> (r: i8) {
        crate::order::compare_names(self, other, map)
    }

    fn absorb(&mut self, other: &Self) {
        if other.min < self.min {
            self.min = other.min;
        }
        if other.max > self.max {
            self.max = other.max;
        }
        self.sum = self.sum.wrapping_add(other.sum);
        self.count = self.count.wrapping_add(other.count);
        proof {
            let c = crate::merge::combine(tally(*old(self)), tally(*other));
            assert(tally(*self) == c);
            assert(old(self).stats().combine(other.stats()) == c);
        }
    }
}

impl Entry {
    /// An entry for a first temperature, with its name not yet written.
    pub fn new(w0: u64, w1: u64, temperature: i16, name_len: u8) -> (e: Self)
        ensures
            e.w0 == w0,
            e.w1 == w1,
            tally(e) == tally_one(temperature),
            e.name_len == name_len,
            e.name_offset == 0,
            e.inline_name@ == seq![0u8; 16],
    {
        let inline_name = zero_name();
        Self {
            w0,
            w1,
            min: temperature,
            max: temperature,
            sum: temperature as i64,
            count: 1,
            name_len,
            inline_name,
            name_offset: 0,
        }
    }

    /// Adds one temperature to the statistics.
    pub fn update(&mut self, temperature: i16)
        ensures
            tally(*final(self)) == tally_add(tally(*old(self)), temperature),
            final(self).w0 == old(self).w0,
            final(self).w1 == old(self).w1,
            final(self).name_offset == old(self).name_offset,
            final(self).name_len == old(self).name_len,
            final(self).inline_name == old(self).inline_name,
    {
        if temperature < self.min {
            self.min = temperature;
        }
        if temperature > self.max {
            self.max = temperature;
        }
        self.sum = self.sum.wrapping_add(temperature as i64);
        self.count = self.count.wrapping_add(1);
    }

    /// Records the name `map[start..start + len]`: copied into the entry when
    /// shorter than `INLINE_NAME_CAP`, else as its offset in `map`. Where the
    /// entry's length field is `len`, the entry then stands for that name.
    pub fn write_inline_name(&mut self, map: &[u8], start: usize, len: usize)
        requires
            start + len <= map.len(),
        ensures
            old(self).name_len == len ==> entry_name(*final(self), map@) == map@.subrange(
                start as int,
                start + len,
            ),
            old(self).name_len == len ==> ((final(self).name_len as int) >= INLINE_NAME_CAP
                ==> final(self).name_offset + final(self).name_len <= map@.len()),
            tally(*final(self)) == tally(*old(self)),
            final(self).w0 == old(self).w0,
            final(self).w1 == old(self).w1,
            final(self).name_len == old(self).name_len,
            len < INLINE_NAME_CAP ==> final(self).name_offset == old(self).name_offset
                && final(self).inline_name@ == map@.subrange(start as int, start + len)
                + old(self).inline_name@.subrange(len as int, 16),
            len >= INLINE_NAME_CAP ==> final(self).name_offset == start && final(self).inline_name
                == old(self).inline_name,
    {
        if len < INLINE_NAME_CAP {
            let mut i: usize = 0;
            while i < len
                invariant
                    i <= len < INLINE_NAME_CAP,
                    start + len <= map.len(),
                    self.name_len == old(self).name_len,
                    tally(*self) == tally(*old(self)),
                    self.w0 == old(self).w0,
                    self.w1 == old(self).w1,
                    self.name_offset == old(self).name_offset,
                    forall|j: int| 0 <= j < i ==> self.inline_name@[j] == map@[start + j],
                    forall|j: int| i <= j < 16 ==> self.inline_name@[j] == old(self).inline_name@[j],
                decreases len - i,
            {
                self.inline_name[i] = map[start + i];
                i = i + 1;
            }
            if self.name_len as usize == len {
                assert(entry_name(*self, map@) =~= map@.subrange(start as int, start + len));
            }
            assert(self.inline_name@ =~= map@.subrange(start as int, start + len)
                + old(self).inline_name@.subrange(len as int, 16));
        } else {
            self.name_offset = start;
        }
    }

    /// Whether this entry's name is `station`, any byte string.
    pub fn entry_name_eq(&self, station: &[u8], map: &[u8]) -> (r: bool)
        requires
            (self.name_len as int) >= INLINE_NAME_CAP ==> self.name_offset + self.name_len
                <= map@.len(),
        ensures
            r == (entry_name(*self, map@) == station@),
    {
        if self.name_len as usize != station.len() {
            assert(entry_name(*self, map@).len() != station@.len());
            return false;
        }
        crate::order::compare_bytes(name_bytes(self, map), station) == 0
    }
}

/// The bytes of an entry's name: its inline copy, or its range of the mapped file.
pub fn name_bytes<'a>(e: &'a Entry, map: &'a [u8]) -> (s: &'a [u8])
    requires
        (e.name_len as int) >= INLINE_NAME_CAP ==> e.name_offset + e.name_len <= map@.len(),
    ensures
        s@ == entry_name(*e, map@),
{
    let len = e.name_len as usize;
    if len < INLINE_NAME_CAP {
        let inline = e.inline_name.as_slice();
        let s = &inline[0..len];
        assert(s@ =~= entry_name(*e, map@));
        s
    } else {
        let offset = e.name_offset;
        assert(offset + len <= map.len());
        let end = offset + len;
        let s = &map[offset..end];
        assert(s@ =~= entry_name(*e, map@));
        s
    }
}

/// The statistics that one more temperature `t` for station `n` gives.
pub open spec fn view_add(
    v: Map<Seq<u8>, (i16, i16, i64, u64)>,
    n: Seq<u8>,
    t: i16,
) -> Map<Seq<u8>, (i16, i16, i64, u64)> {
    v.insert(n, if v.contains_key(n) { tally_add(v[n], t) } else { tally_one(t) })
}

/// The entry created for the first temperature `t` of the station named
/// `map[start..start + len]`.
pub open spec fn is_fresh_entry(e: Entry, map: Seq<u8>, start: int, len: int, t: i16) -> bool {
    let name = map.subrange(start, start + len);
    &&& (e.w0, e.w1) == name_words(name)
    &&& tally(e) == tally_one(t)
    &&& e.name_len == len
    &&& if len < INLINE_NAME_CAP {
        e.name_offset == 0 && e.inline_name@ == name + seq![0u8; 16].subrange(len, 16)
    } else {
        e.name_offset == start && e.inline_name@ == seq![0u8; 16]
    }
}

/// `e` with the statistics `s`.
pub open spec fn with_tally(e: Entry, s: (i16, i16, i64, u64)) -> Entry {
    Entry { min: s.0, max: s.1, sum: s.2, count: s.3, ..e }
}

/// There is one new entry for a first temperature.
proof fn lemma_fresh_unique(e1: Entry, e2: Entry, map: Seq<u8>, start: int, len: int, t: i16)
    requires
        is_fresh_entry(e1, map, start, len, t),
        is_fresh_entry(e2, map, start, len, t),
    ensures
        e1 == e2,
{
    assert(e1.inline_name@ == e2.inline_name@);
    assert(e1.inline_name =~= e2.inline_name);
}

/// Adds `temperature` to the statistics of the station named
/// `map[start..start + len]`, inserting it when the table does not hold it;
/// tells whether it inserted it.
pub fn thread_insert_or_update(
    entries: &mut Vec<Option<Entry>>,
    map: &[u8],
    start: usize,
    len: usize,
    temperature: i16,
) -> (inserted: bool)
    requires
        table_wf(old(entries)@, map@),
        start + len <= map.len(),
        len < 256,
        holds_name(old(entries)@, map@, map@.subrange(start as int, start + len)) || exists|i: int|
            0 <= i < old(entries)@.len() && #[trigger] old(entries)@[i] is None,
    ensures
        table_wf(final(entries)@, map@),
        final(entries)@.len() == old(entries)@.len(),
        table_view(final(entries)@, map@) == view_add(
            table_view(old(entries)@, map@),
            map@.subrange(start as int, start + len),
            temperature,
        ),
        inserted == !holds_name(old(entries)@, map@, map@.subrange(start as int, start + len)),
        occupied(final(entries)@).len() == occupied(old(entries)@).len() + if inserted {
            1int
        } else {
            0int
        },
        final(entries)@ == inserted_table(
            old(entries)@,
            map@,
            start as int,
            len as int,
            temperature,
        ),
{
    insert_entry(entries, map, start, len, temperature)
}

} // verus!
