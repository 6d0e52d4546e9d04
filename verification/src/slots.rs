//! Open-addressing tables of station entries, whatever an entry holds:
//! the table's well-formedness, what it holds, the search for a name,
//! insertion, and the lists of entries that a table holds.
//! Entries are probed linearly with step [`STEP`](crate::probe::STEP) from the
//! home slot of their name's words.

use vstd::prelude::*;
use crate::probe::{STEP, is_table_size, probe_distance, next_slot, lemma_distance_step,
    lemma_distance_injective, lemma_distance_bounds, lemma_distance_home, lemma_usize_mask,
    lemma_u64_mask};
use crate::words::{name_words, name_words_of, mix_words, hash_to_idx};
use crate::table::HASH_TABLE_SIZE;
use crate::merge::Stats;
use crate::order::name_lt;

verus! {

/// An entry of a statistics table: the name it stands for in the mapped
/// file, the two words it holds for that name, and its statistics.
pub trait StationEntry: Sized + Copy {
    /// What the entry's statistics are.
    type Stats: Stats;

    /// A temperature as the entry takes it.
    type Temp: Copy;

    /// The name the entry stands for, given the mapped file `map`.
    spec fn name(self, map: Seq<u8>) -> Seq<u8>;

    /// The two words the entry holds for its name.
    spec fn words(self) -> (u64, u64);

    /// Where the entry reads its name from the file, the name lies within `map`.
    spec fn name_in_file(self, map: Seq<u8>) -> bool;

    /// The entry's statistics.
    spec fn stats(self) -> Self::Stats;

    /// The entry with the statistics `s` in place of its own.
    spec fn with_stats(self, s: Self::Stats) -> Self;

    /// Replacing the statistics keeps the name and its words.
    proof fn lemma_with_stats(self, s: Self::Stats, map: Seq<u8>)
        ensures
            self.with_stats(s).name(map) == self.name(map),
            self.with_stats(s).words() == self.words(),
            self.with_stats(s).name_in_file(map) == self.name_in_file(map),
            self.with_stats(s).stats() == s,
    ;

    /// Compares the names of two entries: negative when this entry's comes
    /// first, zero when they are equal, positive when `other`'s comes first.
    fn compare_name(&self, other: &Self, map: &[u8]) -> (r: i8)
        requires
            self.name_in_file(map@),
            other.name_in_file(map@),
        ensures
            r < 0 <==> name_lt(self.name(map@), other.name(map@)),
            r == 0 <==> self.name(map@) == other.name(map@),
            r > 0 <==> name_lt(other.name(map@), self.name(map@)),
    ;

    /// The statistics after one more temperature `t`.
    spec fn stats_add(s: Self::Stats, t: Self::Temp) -> Self::Stats;

    /// The statistics of a single temperature `t`.
    spec fn fresh_stats(t: Self::Temp) -> Self::Stats;

    /// One more temperature is the statistics of that temperature taken
    /// together with the others.
    proof fn lemma_add_is_combine(s: Self::Stats, t: Self::Temp)
        ensures
            s.combine(Self::fresh_stats(t)) == Self::stats_add(s, t),
    ;

    /// An entry can stand for a name of `len` bytes.
    spec fn name_len_ok(len: int) -> bool;

    /// The new entry for a first temperature `t` of the station named
    /// `map[start..start + len]`.
    spec fn fresh(map: Seq<u8>, start: int, len: int, t: Self::Temp) -> Self;

    /// Makes the new entry for a first temperature `t` of the station named
    /// `map[start..start + len]`, whose words are `(w0, w1)`.
    fn make(map: &[u8], w0: u64, w1: u64, start: usize, len: usize, t: Self::Temp) -> (e: Self)
        requires
            start + len <= map.len(),
            Self::name_len_ok(len as int),
            (w0, w1) == name_words(map@.subrange(start as int, start + len)),
        ensures
            e == Self::fresh(map@, start as int, len as int, t),
            e.name(map@) == map@.subrange(start as int, start + len),
            e.name_in_file(map@),
            e.words() == (w0, w1),
            e.stats() == Self::fresh_stats(t),
    ;

    /// The measurement `r` of `map` can be added, with temperatures read by
    /// position when `positional`, else byte by byte.
    spec fn accepts(map: Seq<u8>, r: (int, int, int), positional: bool) -> bool;

    /// The temperature that the text `text` gives, so read.
    spec fn reading(text: Seq<u8>, positional: bool) -> Self::Temp;

    /// Lines without `;` are skipped, rather than refused, under `positional`.
    spec fn skips_unsplit(positional: bool) -> bool;

    /// Whether lines without `;` are skipped under `positional`.
    fn skip_unsplit(positional: bool) -> (r: bool)
        ensures
            r == Self::skips_unsplit(positional),
    ;

    /// Reads the temperature of the measurement `(at, semicolon, line_end)` of
    /// `map`, when the measurement can be added.
    fn read_measurement(
        map: &[u8],
        at: usize,
        semicolon: usize,
        line_end: usize,
        positional: bool,
    ) -> (t: Option<Self::Temp>)
        requires
            at <= semicolon < line_end <= map.len(),
        ensures
            t is Some <==> Self::accepts(
                map@,
                (at as int, semicolon as int, line_end as int),
                positional,
            ),
            t is Some ==> Self::name_len_ok(semicolon - at),
            t matches Some(v) ==> v == Self::reading(
                map@.subrange(semicolon + 1, line_end as int),
                positional,
            ),
    ;

    /// Adds one temperature to the statistics.
    fn add(&mut self, t: Self::Temp)
        ensures
            *final(self) == old(self).with_stats(Self::stats_add(old(self).stats(), t)),
    ;

    /// Takes the statistics of `other` together with the entry's own.
    fn absorb(&mut self, other: &Self)
        ensures
            *final(self) == old(self).with_stats(old(self).stats().combine(other.stats())),
    ;

    /// Whether the entry stands for the name `map[start..start + len]`, whose
    /// words are `(w0, w1)`.
    fn is_named(&self, map: &[u8], w0: u64, w1: u64, start: usize, len: usize) -> (r: bool)
        requires
            self.name_in_file(map@),
            self.words() == name_words(self.name(map@)),
            start + len <= map.len(),
            (w0, w1) == name_words(map@.subrange(start as int, start + len)),
        ensures
            r == (self.name(map@) == map@.subrange(start as int, start + len)),
    ;
}

/// An entry's name lies within the file and its words are those of its name.
pub open spec fn slot_wf<E: StationEntry>(e: E, map: Seq<u8>) -> bool {
    &&& e.name_in_file(map)
    &&& e.words() == name_words(e.name(map))
}

/// A table of `HASH_TABLE_SIZE` free slots.
pub fn free_table<E>() -> (t: Vec<Option<E>>)
    ensures
        t@.len() == HASH_TABLE_SIZE,
        is_table_size(t@.len() as int),
        forall|i: int| 0 <= i < t@.len() ==> #[trigger] t@[i] is None,
{
    let mut t: Vec<Option<E>> = Vec::with_capacity(HASH_TABLE_SIZE);
    let mut i: usize = 0;
    while i < HASH_TABLE_SIZE
        invariant
            i <= HASH_TABLE_SIZE,
            t@.len() == i,
            forall|j: int| 0 <= j < t@.len() ==> #[trigger] t@[j] is None,
        decreases HASH_TABLE_SIZE - i,
    {
        t.push(None);
        i = i + 1;
    }
    assert(is_table_size(HASH_TABLE_SIZE as int)) by {
        vstd::arithmetic::power2::lemma2_to64();
        assert(vstd::arithmetic::power2::pow2(17) == 131072);
    }
    t
}

/// Slot where the search for an entry with words `(w0, w1)` starts.
pub open spec fn home_slot(w0: u64, w1: u64, size: int) -> int {
    (mix_words(w0, w1) as int) % size
}

/// A well-formed table: a power-of-two number of slots; well-formed entries
/// with pairwise distinct names; and every slot that the search for an entry's
/// name passes before reaching the entry is occupied.
pub open spec fn table_wf<E: StationEntry>(t: Seq<Option<E>>, map: Seq<u8>) -> bool {
    &&& is_table_size(t.len() as int)
    &&& forall|i: int| 0 <= i < t.len() && #[trigger] t[i] is Some ==> slot_wf(t[i]->0, map)
    &&& forall|i: int, j: int|
        0 <= i < t.len() && 0 <= j < t.len() && i != j && #[trigger] t[i] is Some
            && #[trigger] t[j] is Some ==> t[i]->0.name(map) != t[j]->0.name(map)
    &&& forall|i: int, j: int|
        #![trigger t[i], t[j]]
        0 <= i < t.len() && 0 <= j < t.len() && t[j] is Some && probe_distance(
            home_slot(t[j]->0.words().0, t[j]->0.words().1, t.len() as int),
            i,
            t.len() as int,
        ) < probe_distance(
            home_slot(t[j]->0.words().0, t[j]->0.words().1, t.len() as int),
            j,
            t.len() as int,
        )
            ==> t[i] is Some
}

/// Some slot of `t` holds an entry named `n`.
pub open spec fn holds_name<E: StationEntry>(t: Seq<Option<E>>, map: Seq<u8>, n: Seq<u8>) -> bool {
    exists|i: int| 0 <= i < t.len() && t[i] is Some && #[trigger] t[i]->0.name(map) == n
}

/// The slot of `t` that holds the entry named `n`.
pub open spec fn slot_of<E: StationEntry>(t: Seq<Option<E>>, map: Seq<u8>, n: Seq<u8>) -> int {
    choose|i: int| 0 <= i < t.len() && t[i] is Some && #[trigger] t[i]->0.name(map) == n
}

/// What a table holds: the statistics of each station name in it.
pub open spec fn table_view<E: StationEntry>(t: Seq<Option<E>>, map: Seq<u8>) -> Map<
    Seq<u8>,
    E::Stats,
> {
    Map::new(|n: Seq<u8>| holds_name(t, map, n), |n: Seq<u8>| t[slot_of(t, map, n)]->0.stats())
}

/// Writing an entry named `n` into the slot that holds `n`, or into a free slot
/// when no slot holds `n`, maps `n` to the entry's statistics.
pub proof fn lemma_view_set<E: StationEntry>(
    t: Seq<Option<E>>,
    map: Seq<u8>,
    idx: int,
    e: E,
    n: Seq<u8>,
)
    requires
        0 <= idx < t.len(),
        e.name(map) == n,
        forall|i: int, j: int|
            0 <= i < t.len() && 0 <= j < t.len() && i != j && #[trigger] t[i] is Some
                && #[trigger] t[j] is Some ==> t[i]->0.name(map) != t[j]->0.name(map),
        (t[idx] is None && !holds_name(t, map, n)) || (t[idx] is Some && t[idx]->0.name(map) == n),
    ensures
        table_view(t.update(idx, Some(e)), map) == table_view(t, map).insert(n, e.stats()),
{
    let u = t.update(idx, Some(e));
    assert(u[idx] is Some && u[idx]->0.name(map) == n);
    assert forall|m: Seq<u8>| holds_name(u, map, m) == (holds_name(t, map, m) || m == n) by {
        if holds_name(t, map, m) && m != n {
            let i = slot_of(t, map, m);
            assert(i != idx);
            assert(u[i] == t[i]);
        }
        if holds_name(u, map, m) && m != n {
            let i = slot_of(u, map, m);
            assert(i != idx);
            assert(u[i] == t[i]);
        }
    }
    assert forall|m: Seq<u8>| #[trigger] holds_name(u, map, m) implies u[slot_of(u, map, m)]->0.stats()
        == (if m == n { e.stats() } else { t[slot_of(t, map, m)]->0.stats() }) by {
        let i = slot_of(u, map, m);
        if m == n {
            if i != idx {
                assert(u[i] == t[i]);
                assert(t[idx] is Some);
            }
        } else {
            let j = slot_of(t, map, m);
            assert(i != idx);
            assert(j != idx);
            assert(u[i] == t[i]);
            assert(u[j] == t[j]);
            if i != j {
                assert(t[i]->0.name(map) == m);
            }
        }
    }
    assert(table_view(u, map) =~= table_view(t, map).insert(n, e.stats()));
}

/// The slot that holds the station named `map[start..start + len]`, if any;
/// the search gives up after probing every slot once.
pub fn find_entry<E: StationEntry>(
    entries: &Vec<Option<E>>,
    map: &[u8],
    start: usize,
    len: usize,
) -> (r: Option<usize>)
    requires
        table_wf(entries@, map@),
        start + len <= map.len(),
    ensures
        r is Some <==> holds_name(entries@, map@, map@.subrange(start as int, start + len)),
        r matches Some(i) ==> i < entries@.len() && entries@[i as int] is Some
            && entries@[i as int]->0.name(map@) == map@.subrange(start as int, start + len),
{
    let ghost station = map@.subrange(start as int, start + len);
    let ghost size = entries@.len() as int;
    let (w0, w1) = name_words_of(map, start, len);
    proof {
        lemma_distance_bounds(0, 0, size);
    }
    let mut idx = hash_to_idx(w0, w1, entries.len());
    proof {
        lemma_u64_mask(mix_words(w0, w1), entries.len());
        lemma_distance_home(idx as int, size);
    }
    let ghost home = idx as int;
    let mask = entries.len() - 1;
    let mut steps: usize = 0;
    while steps < entries.len()
        invariant
            table_wf(entries@, map@),
            size == entries@.len(),
            mask == size - 1,
            start + len <= map.len(),
            station == map@.subrange(start as int, start + len),
            (w0, w1) == name_words(station),
            home == home_slot(w0, w1, size),
            0 <= idx < size,
            steps <= size,
            probe_distance(home, idx as int, size) == steps,
            forall|i: int|
                0 <= i < size && probe_distance(home, i, size) < steps ==> #[trigger] entries@[i]
                    is Some && entries@[i]->0.name(map@) != station,
        decreases size - steps,
    {
        match &entries[idx] {
            None => {
                proof {
                    if holds_name(entries@, map@, station) {
                        let j = slot_of(entries@, map@, station);
                        assert(slot_wf(entries@[j]->0, map@));
                        lemma_distance_bounds(home, j, size);
                        if probe_distance(home, j, size) == steps as int {
                            lemma_distance_injective(home, j, idx as int, size);
                        }
                    }
                }
                return None;
            },
            Some(e) => {
                if e.is_named(map, w0, w1, start, len) {
                    return Some(idx);
                }
                proof {
                    assert(slot_wf(*e, map@));
                    lemma_distance_step(home, idx as int, size);
                    lemma_usize_mask(idx, entries.len());
                    if steps + 1 < size {
                        vstd::arithmetic::div_mod::lemma_small_mod((steps + 1) as nat, size as nat);
                    }
                }
                let ghost prev = idx as int;
                let nx = idx + STEP;
                proof {
                    lemma_usize_mask(nx, entries.len());
                }
                idx = nx & mask;
                proof {
                    assert forall|i: int|
                        0 <= i < size && probe_distance(home, i, size) < steps + 1 implies #[trigger] entries@[i]
                        is Some && entries@[i]->0.name(map@) != station by {
                        if probe_distance(home, i, size) == steps as int {
                            lemma_distance_injective(home, i, prev, size);
                        }
                    }
                }
                steps = steps + 1;
                if steps == entries.len() {
                    proof {
                        if holds_name(entries@, map@, station) {
                            let j = slot_of(entries@, map@, station);
                            lemma_distance_bounds(home, j, size);
                        }
                    }
                    return None;
                }
            },
        }
    }
    None
}

/// The entries held by the slots `t`, in slot order.
pub open spec fn occupied<E>(t: Seq<Option<E>>) -> Seq<E>
    decreases t.len(),
{
    if t.len() == 0 {
        seq![]
    } else {
        match t.last() {
            Some(e) => occupied(t.drop_last()).push(e),
            None => occupied(t.drop_last()),
        }
    }
}

/// Filling slot `i` with an entry adds one occupied slot when `i` was free,
/// and none when it was taken.
pub proof fn lemma_occupied_update<E>(t: Seq<Option<E>>, i: int, e: E)
    requires
        0 <= i < t.len(),
    ensures
        occupied(t.update(i, Some(e))).len() == occupied(t).len() + if t[i] is None {
            1int
        } else {
            0int
        },
    decreases t.len(),
{
    let u = t.update(i, Some(e));
    if i == t.len() - 1 {
        assert(u.drop_last() == t.drop_last());
    } else {
        assert(u.drop_last() == t.drop_last().update(i, Some(e)));
        lemma_occupied_update(t.drop_last(), i, e);
    }
}

/// `i` is a free slot of `t`, and every slot that a search from `home` probes
/// before it is occupied.
pub open spec fn is_first_free<E>(t: Seq<Option<E>>, home: int, i: int) -> bool {
    &&& 0 <= i < t.len()
    &&& t[i] is None
    &&& forall|j: int|
        0 <= j < t.len() && probe_distance(home, j, t.len() as int) < probe_distance(
            home,
            i,
            t.len() as int,
        ) ==> #[trigger] t[j] is Some
}

/// Two first free slots of the same search are the same slot.
pub proof fn lemma_first_free_unique<E>(t: Seq<Option<E>>, home: int, i: int, j: int)
    requires
        is_table_size(t.len() as int),
        is_first_free(t, home, i),
        is_first_free(t, home, j),
    ensures
        i == j,
{
    let size = t.len() as int;
    if probe_distance(home, i, size) < probe_distance(home, j, size) {
        assert(t[i] is Some);
    } else if probe_distance(home, j, size) < probe_distance(home, i, size) {
        assert(t[j] is Some);
    } else {
        lemma_distance_injective(home, i, j, size);
    }
}

/// A table whose names all lie in a set smaller than the table has a free slot.
pub proof fn lemma_free_slot<E: StationEntry>(t: Seq<Option<E>>, map: Seq<u8>, names: Set<Seq<u8>>)
    requires
        table_wf(t, map),
        table_view(t, map).dom().subset_of(names),
        names.finite(),
        names.len() < t.len(),
    ensures
        exists|i: int| 0 <= i < t.len() && #[trigger] t[i] is None,
{
    if forall|i: int| 0 <= i < t.len() ==> #[trigger] t[i] is Some {
        let s = Seq::new(t.len(), |i: int| t[i]->0.name(map));
        assert(s.no_duplicates()) by {
            assert forall|i: int, j: int| 0 <= i < s.len() && 0 <= j < s.len() && i != j implies s[i]
                != s[j] by {
                assert(t[i] is Some && t[j] is Some);
            }
        }
        s.unique_seq_to_set();
        vstd::seq_lib::seq_to_set_is_finite(s);
        assert(s.to_set().subset_of(names)) by {
            assert forall|n: Seq<u8>| s.to_set().contains(n) implies names.contains(n) by {
                let i = choose|i: int| 0 <= i < s.len() && s[i] == n;
                assert(t[i] is Some);
                assert(holds_name(t, map, n));
                assert(table_view(t, map).dom().contains(n));
            }
        }
        vstd::set_lib::lemma_len_subset(s.to_set(), names);
    }
}

/// A table of `HASH_TABLE_SIZE` free slots.
pub open spec fn empty_slots<E>() -> Seq<Option<E>> {
    Seq::new(HASH_TABLE_SIZE as nat, |i: int| None)
}

/// The entries of `v` as table slots.
pub open spec fn as_slots<E>(v: Seq<E>) -> Seq<Option<E>> {
    v.map_values(|e: E| Some(e))
}

/// A list of entries with well-formed entries and pairwise distinct names.
pub open spec fn list_wf<E: StationEntry>(v: Seq<E>, map: Seq<u8>) -> bool {
    &&& forall|a: int| 0 <= a < v.len() ==> slot_wf(#[trigger] v[a], map)
    &&& forall|a: int, b: int|
        0 <= a < v.len() && 0 <= b < v.len() && a != b ==> #[trigger] v[a].name(map)
            != #[trigger] v[b].name(map)
}

/// The statistics of each station in a list of entries.
pub open spec fn list_view<E: StationEntry>(v: Seq<E>, map: Seq<u8>) -> Map<Seq<u8>, E::Stats> {
    table_view(as_slots(v), map)
}

/// Appending a slot whose name no slot holds extends the view by that slot.
proof fn lemma_view_push<E: StationEntry>(t: Seq<Option<E>>, map: Seq<u8>, x: Option<E>)
    requires
        forall|i: int, j: int|
            0 <= i < t.len() && 0 <= j < t.len() && i != j && #[trigger] t[i] is Some
                && #[trigger] t[j] is Some ==> t[i]->0.name(map) != t[j]->0.name(map),
        x is Some ==> !holds_name(t, map, x->0.name(map)),
    ensures
        table_view(t.push(x), map) == (match x {
            None => table_view(t, map),
            Some(e) => table_view(t, map).insert(e.name(map), e.stats()),
        }),
{
    let u = t.push(None);
    assert forall|n: Seq<u8>| holds_name(u, map, n) == holds_name(t, map, n) by {
        if holds_name(u, map, n) {
            let i = slot_of(u, map, n);
            assert(t[i] == u[i]);
        }
        if holds_name(t, map, n) {
            let i = slot_of(t, map, n);
            assert(t[i] == u[i]);
        }
    }
    assert forall|n: Seq<u8>| #[trigger] holds_name(u, map, n) implies slot_of(u, map, n) == slot_of(
        t,
        map,
        n,
    ) by {
        let i = slot_of(u, map, n);
        let j = slot_of(t, map, n);
        assert(t[i] == u[i]);
        if i != j {
            assert(t[i] is Some && t[j] is Some);
        }
    }
    assert(table_view(u, map) =~= table_view(t, map));
    match x {
        None => {
            assert(t.push(x) == u);
        },
        Some(e) => {
            assert(t.push(x) == u.update(t.len() as int, Some(e)));
            assert(!holds_name(u, map, e.name(map)));
            lemma_view_set(u, map, t.len() as int, e, e.name(map));
        },
    }
}

/// The entries held by the slots of a table, in slot order.
pub fn collect_entries<E: StationEntry>(entries: &Vec<Option<E>>, map: &[u8]) -> (v: Vec<E>)
    requires
        table_wf(entries@, map@),
    ensures
        list_wf(v@, map@),
        list_view(v@, map@) == table_view(entries@, map@),
        v@ == occupied(entries@),
{
    let mut v: Vec<E> = Vec::new();
    let mut i: usize = 0;
    while i < entries.len()
        invariant
            i <= entries@.len(),
            table_wf(entries@, map@),
            list_wf(v@, map@),
            list_view(v@, map@) == table_view(entries@.take(i as int), map@),
            v@ == occupied(entries@.take(i as int)),
            forall|a: int|
                0 <= a < v@.len() ==> exists|j: int|
                    0 <= j < i && entries@[j] == Some(#[trigger] v@[a]),
        decreases entries@.len() - i,
    {
        let ghost t = entries@;
        let ghost before = v@;
        assert(t.take(i + 1) == t.take(i as int).push(t[i as int]));
        assert(t.take(i + 1).drop_last() =~= t.take(i as int));
        match entries[i] {
            Some(e) => {
                proof {
                    let n = e.name(map@);
                    assert forall|a: int| 0 <= a < before.len() implies #[trigger] before[a].name(map@) != n by {
                        let j = choose|j: int| 0 <= j < i && t[j] == Some(before[a]);
                        assert(t[j] is Some && t[i as int] is Some);
                    }
                    let p = t.take(i as int);
                    assert forall|x: int, y: int|
                        0 <= x < p.len() && 0 <= y < p.len() && x != y && #[trigger] p[x] is Some
                            && #[trigger] p[y] is Some implies p[x]->0.name(map@)
                        != p[y]->0.name(map@) by {
                        assert(t[x] is Some && t[y] is Some);
                    }
                    assert(!holds_name(p, map@, n)) by {
                        if holds_name(p, map@, n) {
                            let j = slot_of(p, map@, n);
                            assert(t[j] is Some && t[i as int] is Some);
                        }
                    }
                    lemma_view_push(p, map@, Some(e));
                    let s = as_slots(before);
                    assert forall|x: int, y: int|
                        0 <= x < s.len() && 0 <= y < s.len() && x != y && #[trigger] s[x] is Some
                            && #[trigger] s[y] is Some implies s[x]->0.name(map@)
                        != s[y]->0.name(map@) by {
                        assert(s[x] == Some(before[x]) && s[y] == Some(before[y]));
                    }
                    assert(!holds_name(s, map@, n)) by {
                        if holds_name(s, map@, n) {
                            let a = slot_of(s, map@, n);
                            assert(s[a] == Some(before[a]));
                        }
                    }
                    lemma_view_push(s, map@, Some(e));
                    assert(as_slots(before.push(e)) =~= s.push(Some(e)));
                }
                v.push(e);
                proof {
                    assert(t[i as int] is Some);
                    assert forall|a: int| 0 <= a < v@.len() implies slot_wf(#[trigger] v@[a], map@) by {
                        if a < before.len() {
                            assert(v@[a] == before[a]);
                        }
                    }
                    assert forall|a: int|
                        0 <= a < v@.len() implies exists|j: int|
                            0 <= j < i + 1 && entries@[j] == Some(#[trigger] v@[a]) by {
                        if a < before.len() {
                            assert(v@[a] == before[a]);
                            let j = choose|j: int| 0 <= j < i && t[j] == Some(before[a]);
                            assert(0 <= j < i + 1 && entries@[j] == Some(v@[a]));
                        } else {
                            assert(entries@[i as int] == Some(v@[a]));
                        }
                    }
                }
            },
            None => {
                proof {
                    let p = t.take(i as int);
                    assert forall|x: int, y: int|
                        0 <= x < p.len() && 0 <= y < p.len() && x != y && #[trigger] p[x] is Some
                            && #[trigger] p[y] is Some implies p[x]->0.name(map@)
                        != p[y]->0.name(map@) by {
                        assert(t[x] is Some && t[y] is Some);
                    }
                    lemma_view_push(p, map@, None);
                }
            },
        }
        i = i + 1;
    }
    assert(entries@.take(entries@.len() as int) =~= entries@);
    v
}

/// The table `t` after adding temperature `temp` of the station named
/// `map[start..start + len]`: the slot holding that name gets the temperature
/// added; when no slot holds it, the first free slot of the search gets a new
/// entry.
pub open spec fn inserted_table<E: StationEntry>(
    t: Seq<Option<E>>,
    map: Seq<u8>,
    start: int,
    len: int,
    temp: E::Temp,
) -> Seq<Option<E>> {
    let station = map.subrange(start, start + len);
    if holds_name(t, map, station) {
        let i = slot_of(t, map, station);
        t.update(i, Some(t[i]->0.with_stats(E::stats_add(t[i]->0.stats(), temp))))
    } else {
        let w = name_words(station);
        let i = choose|i: int| is_first_free(t, home_slot(w.0, w.1, t.len() as int), i);
        t.update(i, Some(E::fresh(map, start, len, temp)))
    }
}

/// Adds `temperature` to the statistics of the station named
/// `map[start..start + len]`, inserting a new entry for it when the table does
/// not hold it; tells whether it inserted one.
pub fn insert_entry<E: StationEntry>(
    entries: &mut Vec<Option<E>>,
    map: &[u8],
    start: usize,
    len: usize,
    temperature: E::Temp,
) -> (inserted: bool)
    requires
        table_wf(old(entries)@, map@),
        start + len <= map.len(),
        E::name_len_ok(len as int),
        holds_name(old(entries)@, map@, map@.subrange(start as int, start + len)) || exists|i: int|
            0 <= i < old(entries)@.len() && #[trigger] old(entries)@[i] is None,
    ensures
        table_wf(final(entries)@, map@),
        final(entries)@.len() == old(entries)@.len(),
        inserted == !holds_name(old(entries)@, map@, map@.subrange(start as int, start + len)),
        table_view(final(entries)@, map@) == table_view(old(entries)@, map@).insert(
            map@.subrange(start as int, start + len),
            if inserted {
                E::fresh_stats(temperature)
            } else {
                E::stats_add(
                    table_view(old(entries)@, map@)[map@.subrange(start as int, start + len)],
                    temperature,
                )
            },
        ),
        occupied(final(entries)@).len() == occupied(old(entries)@).len() + if inserted {
            1int
        } else {
            0int
        },
        final(entries)@ == inserted_table(
            old(entries)@,
            map@,
            start as int,
            len as int,
            temperature,
        ),
{
    let ghost station = map@.subrange(start as int, start + len);
    let ghost size = entries@.len() as int;
    let (w0, w1) = name_words_of(map, start, len);
    let mut idx = hash_to_idx(w0, w1, entries.len());
    proof {
        lemma_u64_mask(mix_words(w0, w1), entries.len());
    }
    let ghost home = idx as int;
    let mask = entries.len() - 1;
    let ghost target: int = if holds_name(entries@, map@, station) {
        slot_of(entries@, map@, station)
    } else {
        choose|i: int| 0 <= i < entries@.len() && #[trigger] entries@[i] is None
    };
    proof {
        lemma_distance_home(home, size);
        lemma_distance_bounds(home, target, size);
    }
    loop
        invariant
            table_wf(entries@, map@),
            entries@ == old(entries)@,
            size == entries@.len(),
            mask == size - 1,
            start + len <= map.len(),
            E::name_len_ok(len as int),
            station == map@.subrange(start as int, start + len),
            (w0, w1) == name_words(station),
            home == home_slot(w0, w1, size),
            0 <= idx < size,
            0 <= target < size,
            entries@[target] is None || entries@[target]->0.name(map@) == station,
            holds_name(entries@, map@, station) ==> entries@[target] is Some,
            probe_distance(home, idx as int, size) <= probe_distance(home, target, size),
            forall|i: int|
                0 <= i < size && probe_distance(home, i, size) < probe_distance(
                    home,
                    idx as int,
                    size,
                ) ==> #[trigger] entries@[i] is Some && entries@[i]->0.name(map@)
                    != station,
        decreases probe_distance(home, target, size) - probe_distance(home, idx as int, size),
    {
        match entries[idx] {
            None => {
                let e = E::make(map, w0, w1, start, len, temperature);
                proof {
                    let t = entries@;
                    // no slot holds the station: a slot holding it lies before this free slot
                    if holds_name(t, map@, station) {
                        let j = slot_of(t, map@, station);
                        assert(slot_wf(t[j]->0, map@));
                        assert(home_slot(t[j]->0.words().0, t[j]->0.words().1, size) == home);
                        lemma_distance_bounds(home, j, size);
                        lemma_distance_bounds(home, idx as int, size);
                        if probe_distance(home, j, size) < probe_distance(home, idx as int, size) {
                            assert(t[j]->0.name(map@) != station);
                        } else if probe_distance(home, j, size) == probe_distance(
                            home,
                            idx as int,
                            size,
                        ) {
                            lemma_distance_injective(home, j, idx as int, size);
                        } else {
                            assert(t[idx as int] is Some);
                        }
                    }
                    lemma_view_set(t, map@, idx as int, e, station);
                }
                entries[idx] = Some(e);
                proof {
                    let t = old(entries)@;
                    let u = entries@;
                    assert(u == t.update(idx as int, Some(e)));
                    lemma_occupied_update(t, idx as int, e);
                    assert(is_first_free(t, home, idx as int));
                    let i2 = choose|i: int| is_first_free(t, home_slot(w0, w1, size), i);
                    lemma_first_free_unique(t, home, idx as int, i2);
                    assert(u == t.update(idx as int, u[idx as int]));
                    assert forall|i: int, j: int|
                        #![trigger u[i], u[j]]
                        0 <= i < size && 0 <= j < size && u[j] is Some && probe_distance(
                            home_slot(u[j]->0.words().0, u[j]->0.words().1, size),
                            i,
                            size,
                        ) < probe_distance(home_slot(u[j]->0.words().0, u[j]->0.words().1, size), j, size)
                        implies u[i] is Some by {
                        if j != idx as int {
                            if i != idx as int {
                                assert(t[i] is Some);
                            }
                        }
                    }
                    assert forall|i: int, j: int|
                        0 <= i < size && 0 <= j < size && i != j && #[trigger] u[i] is Some
                            && #[trigger] u[j] is Some implies u[i]->0.name(map@)
                        != u[j]->0.name(map@) by {
                        if i == idx as int {
                            assert(t[j]->0.name(map@) != station);
                        } else if j == idx as int {
                            assert(t[i]->0.name(map@) != station);
                        }
                    }
                }
                return true;
            },
            Some(mut e) => {
                assert(slot_wf(e, map@));
                if e.is_named(map, w0, w1, start, len) {
                    let ghost before = e;
                    e.add(temperature);
                    proof {
                        before.lemma_with_stats(E::stats_add(before.stats(), temperature), map@);
                        lemma_view_set(entries@, map@, idx as int, e, station);
                        assert(table_view(entries@, map@)[station] == before.stats());
                        assert(holds_name(entries@, map@, station));
                        let j = slot_of(entries@, map@, station);
                        if j != idx as int {
                            assert(entries@[j] is Some && entries@[idx as int] is Some);
                        }
                    }
                    entries[idx] = Some(e);
                    proof {
                        let t = old(entries)@;
                        let u = entries@;
                        assert(u == t.update(idx as int, Some(e)));
                        lemma_occupied_update(t, idx as int, e);
                        assert(u == t.update(idx as int, u[idx as int]));
                        assert forall|i: int|
                            0 <= i < size && #[trigger] u[i] is Some implies slot_wf(
                            u[i]->0,
                            map@,
                        ) by {
                            if i == idx as int {
                                assert(slot_wf(t[i]->0, map@));
                            }
                        }
                        assert forall|i: int, j: int|
                            #![trigger u[i], u[j]]
                            0 <= i < size && 0 <= j < size && u[j] is Some && probe_distance(
                                home_slot(u[j]->0.words().0, u[j]->0.words().1, size),
                                i,
                                size,
                            ) < probe_distance(
                                home_slot(u[j]->0.words().0, u[j]->0.words().1, size),
                                j,
                                size,
                            )
                            implies u[i] is Some by {
                            assert(t[i] is Some);
                        }
                        assert forall|i: int, j: int|
                            0 <= i < size && 0 <= j < size && i != j && #[trigger] u[i] is Some
                                && #[trigger] u[j] is Some implies u[i]->0.name(map@)
                            != u[j]->0.name(map@) by {
                            assert(t[i] is Some && t[j] is Some);
                        }
                        assert(t[idx as int]->0.name(map@) == station);
                    }
                    return false;
                }
                proof {
                    // this slot does not hold the station, so the target lies further on
                    assert(slot_wf(e, map@));
                    assert(e.name(map@) != station);
                    lemma_distance_bounds(home, idx as int, size);
                    if probe_distance(home, idx as int, size) == probe_distance(home, target, size) {
                        lemma_distance_injective(home, idx as int, target, size);
                    }
                    lemma_distance_step(home, idx as int, size);
                    lemma_usize_mask(idx, entries.len());
                    vstd::arithmetic::div_mod::lemma_small_mod(
                        (probe_distance(home, idx as int, size) + 1) as nat,
                        size as nat,
                    );
                }
                let ghost prev = idx as int;
                let nx = idx + STEP;
                proof {
                    lemma_usize_mask(nx, entries.len());
                }
                idx = nx & mask;
                proof {
                    assert(idx as int == next_slot(prev, size));
                    assert forall|i: int|
                        0 <= i < size && probe_distance(home, i, size) < probe_distance(
                            home,
                            idx as int,
                            size,
                        ) implies #[trigger] entries@[i] is Some && entries@[i]->0.name(map@)
                        != station by {
                        if probe_distance(home, i, size) == probe_distance(home, prev, size) {
                            lemma_distance_injective(home, i, prev, size);
                        }
                    }
                }
            },
        }
    }
}

} // verus!
