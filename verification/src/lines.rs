//! The line structure of a measurement file: each line is `<station>;<temperature>`
//! and ends with `\n`; empty lines and lines without `;` are skipped.

use vstd::prelude::*;
use crate::temperature::{fixed_layout, fixed_reading};

verus! {

/// The byte `\n`.
pub const NEWLINE: u8 = 10;
/// The byte `;`.
pub const SEMICOLON: u8 = 59;

/// Position of the first `b` in `s[from..to]`, or `to` when there is none.
pub open spec fn first_of(s: Seq<u8>, from: int, to: int, b: u8) -> int
    decreases to - from,
{
    if from >= to {
        to
    } else if s[from] == b {
        from
    } else {
        first_of(s, from + 1, to, b)
    }
}

/// `first_of` lies within `from..=to`.
pub proof fn lemma_first_of_range(s: Seq<u8>, from: int, to: int, b: u8)
    requires
        from <= to,
    ensures
        from <= first_of(s, from, to, b) <= to,
    decreases to - from,
{
    if from < to && s[from] != b {
        lemma_first_of_range(s, from + 1, to, b);
    }
}

pub proof fn lemma_first_of(s: Seq<u8>, from: int, to: int, b: u8)
    requires
        0 <= from <= to <= s.len(),
    ensures
        from <= first_of(s, from, to, b) <= to,
        first_of(s, from, to, b) < to ==> s[first_of(s, from, to, b)] == b,
        forall|i: int| from <= i < first_of(s, from, to, b) ==> s[i] != b,
    decreases to - from,
{
    if from < to && s[from] != b {
        lemma_first_of(s, from + 1, to, b);
    }
}

/// Position of the first `needle` in `haystack[from..to]`, or `to` when there is none.
pub fn find_byte(haystack: &[u8], from: usize, to: usize, needle: u8) -> (r: usize)
    requires
        from <= to <= haystack.len(),
    ensures
        r == first_of(haystack@, from as int, to as int, needle),
{
    let mut i = from;
    while i < to
        invariant
            from <= i <= to <= haystack.len(),
            first_of(haystack@, i as int, to as int, needle) == first_of(
                haystack@,
                from as int,
                to as int,
                needle,
            ),
        decreases to - i,
    {
        if haystack[i] == needle {
            return i;
        }
        i = i + 1;
    }
    i
}

/// The measurements of `map[at..end]`, one per line that is not empty and
/// holds a `;`: the line's start, the position of its first `;`, and its end.
pub open spec fn records(map: Seq<u8>, at: int, end: int) -> Seq<(int, int, int)>
    decreases end - at,
    via records_decreases
{
    if at >= end {
        seq![]
    } else {
        let line_end = first_of(map, at, end, NEWLINE);
        let rest = if line_end < end { records(map, line_end + 1, end) } else { seq![] };
        if line_end == at {
            rest
        } else {
            let semicolon = first_of(map, at, line_end, SEMICOLON);
            if semicolon == line_end {
                rest
            } else {
                seq![(at, semicolon, line_end)] + rest
            }
        }
    }
}

#[via_fn]
proof fn records_decreases(map: Seq<u8>, at: int, end: int) {
    if at < end {
        lemma_first_of_range(map, at, end, NEWLINE);
    }
}

/// The station name of a measurement.
pub open spec fn record_station(map: Seq<u8>, r: (int, int, int)) -> Seq<u8> {
    map.subrange(r.0, r.1)
}

/// The temperature text of a measurement.
pub open spec fn record_temperature(map: Seq<u8>, r: (int, int, int)) -> Seq<u8> {
    map.subrange(r.1 + 1, r.2)
}

/// A measurement the table accepts: a name shorter than 256 bytes and a
/// temperature that the branchless reader reads into an `i16`.
pub open spec fn record_ok(map: Seq<u8>, r: (int, int, int)) -> bool {
    &&& r.1 - r.0 < 256
    &&& fixed_layout(record_temperature(map, r))
    &&& fixed_reading(record_temperature(map, r)) * 2 >= -32767
}

pub proof fn lemma_records_bounds(map: Seq<u8>, at: int, end: int)
    requires
        0 <= at,
        end <= map.len(),
    ensures
        forall|k: int|
            0 <= k < records(map, at, end).len() ==> {
                let r = #[trigger] records(map, at, end)[k];
                at <= r.0 <= r.1 < r.2 <= end
            },
    decreases end - at,
{
    if at < end {
        let line_end = first_of(map, at, end, NEWLINE);
        lemma_first_of(map, at, end, NEWLINE);
        let rest = if line_end < end { records(map, line_end + 1, end) } else { seq![] };
        if line_end < end {
            lemma_records_bounds(map, line_end + 1, end);
        }
        if line_end != at {
            lemma_first_of(map, at, line_end, SEMICOLON);
            let semicolon = first_of(map, at, line_end, SEMICOLON);
            if semicolon != line_end {
                let recs = records(map, at, end);
                assert(recs == seq![(at, semicolon, line_end)] + rest);
                assert forall|k: int| 0 <= k < recs.len() implies {
                    let r = #[trigger] recs[k];
                    at <= r.0 <= r.1 < r.2 <= end
                } by {
                    if k > 0 {
                        assert(recs[k] == rest[k - 1]);
                        assert(line_end < end);
                        let r2 = records(map, line_end + 1, end)[k - 1];
                        assert(line_end + 1 <= r2.0);
                    }
                }
            }
        }
    }
}

/// Every line of `map[at..end]` that is not empty holds a `;`.
pub open spec fn lines_split(map: Seq<u8>, at: int, end: int) -> bool
    decreases end - at,
    via lines_split_decreases
{
    if at >= end {
        true
    } else {
        let line_end = first_of(map, at, end, NEWLINE);
        let rest = if line_end < end { lines_split(map, line_end + 1, end) } else { true };
        rest && (line_end == at || first_of(map, at, line_end, SEMICOLON) < line_end)
    }
}

#[via_fn]
proof fn lines_split_decreases(map: Seq<u8>, at: int, end: int) {
    if at < end {
        crate::lines::lemma_first_of_range(map, at, end, NEWLINE);
    }
}

/// The station of a measurement line: its bytes before the first `;`.
pub open spec fn line_station(line: Seq<u8>) -> Seq<u8> {
    line.take(first_of(line, 0, line.len() as int, SEMICOLON))
}

/// The temperature text of a measurement line: its bytes after the first `;`.
pub open spec fn line_temperature(line: Seq<u8>) -> Seq<u8> {
    line.skip(first_of(line, 0, line.len() as int, SEMICOLON) + 1)
}

/// The line of each of the measurements `rs`, in order.
pub open spec fn record_lines(map: Seq<u8>, rs: Seq<(int, int, int)>) -> Seq<Seq<u8>> {
    rs.map_values(|r: (int, int, int)| map.subrange(r.0, r.2))
}

/// Searching a part of `s` is searching the same bytes cut out of `s`.
proof fn lemma_first_of_shift(s: Seq<u8>, a: int, from: int, b: int, c: u8)
    requires
        0 <= a <= from <= b <= s.len(),
    ensures
        first_of(s, from, b, c) - a == first_of(s.subrange(a, b), from - a, b - a, c),
    decreases b - from,
{
    if from < b {
        lemma_first_of_shift(s, a, from + 1, b, c);
    }
}

/// Each measurement's `;` is the first of its line.
proof fn lemma_records_semicolon(map: Seq<u8>, at: int, end: int)
    requires
        0 <= at,
        end <= map.len(),
    ensures
        forall|k: int|
            0 <= k < records(map, at, end).len() ==> {
                let r = #[trigger] records(map, at, end)[k];
                r.1 == first_of(map, r.0, r.2, SEMICOLON)
            },
    decreases end - at,
{
    if at < end {
        let line_end = first_of(map, at, end, NEWLINE);
        lemma_first_of(map, at, end, NEWLINE);
        let rest = if line_end < end { records(map, line_end + 1, end) } else { seq![] };
        if line_end < end {
            lemma_records_semicolon(map, line_end + 1, end);
        }
        if line_end != at {
            let semicolon = first_of(map, at, line_end, SEMICOLON);
            if semicolon != line_end {
                let recs = records(map, at, end);
                assert(recs == seq![(at, semicolon, line_end)] + rest);
                assert forall|k: int| 0 <= k < recs.len() implies {
                    let r = #[trigger] recs[k];
                    r.1 == first_of(map, r.0, r.2, SEMICOLON)
                } by {
                    if k > 0 {
                        assert(recs[k] == rest[k - 1]);
                    }
                }
            }
        }
    }
}

/// A measurement's station and temperature text are those of its line.
pub proof fn lemma_record_lines(map: Seq<u8>, at: int, end: int)
    requires
        0 <= at <= end <= map.len(),
    ensures
        forall|k: int|
            0 <= k < records(map, at, end).len() ==> {
                let r = #[trigger] records(map, at, end)[k];
                let line = map.subrange(r.0, r.2);
                &&& record_station(map, r) == line_station(line)
                &&& record_temperature(map, r) == line_temperature(line)
            },
{
    lemma_records_bounds(map, at, end);
    lemma_records_semicolon(map, at, end);
    assert forall|k: int| 0 <= k < records(map, at, end).len() implies {
        let r = #[trigger] records(map, at, end)[k];
        let line = map.subrange(r.0, r.2);
        &&& record_station(map, r) == line_station(line)
        &&& record_temperature(map, r) == line_temperature(line)
    } by {
        let r = records(map, at, end)[k];
        let line = map.subrange(r.0, r.2);
        lemma_first_of_shift(map, r.0, r.0, r.2, SEMICOLON);
        assert(first_of(line, 0, line.len() as int, SEMICOLON) == r.1 - r.0);
        assert(record_station(map, r) =~= line_station(line));
        assert(record_temperature(map, r) =~= line_temperature(line));
    }
}

} // verus!
