//! Splitting a file into line-aligned chunks, one per worker.

use vstd::prelude::*;
use crate::lines::{NEWLINE, first_of, lemma_first_of, lemma_first_of_range, find_byte, records,
    lines_split};

verus! {

/// The chunks of a file of bytes `map` for `n` workers are `c`: every chunk is a
/// range of the file; the first starts at 0; a chunk other than the last starts
/// less than `map.len() / n` bytes before the end of the file and ends at the first
/// `\n` at or after that many bytes from its start, and the next chunk starts just
/// after that `\n`; the last chunk ends at the end of the file and is the `n`-th
/// chunk, or starts at least `map.len() / n` bytes before the end, or has no `\n`
/// at or after that many bytes from its start.
pub open spec fn is_chunking(map: Seq<u8>, n: int, c: Seq<(usize, usize)>) -> bool {
    let base = map.len() as int / n;
    &&& 1 <= c.len() <= n
    &&& c[0].0 == 0
    &&& c.last().1 == map.len()
    &&& forall|i: int| 0 <= i < c.len() ==> #[trigger] c[i].0 <= c[i].1 <= map.len()
    &&& c.len() == n || c.last().0 + base >= map.len() || first_of(
        map,
        c.last().0 + base,
        map.len() as int,
        NEWLINE,
    ) == map.len()
    &&& forall|i: int|
        0 <= i < c.len() - 1 ==> {
            &&& #[trigger] c[i].0 + base < map.len()
            &&& c[i].1 == first_of(map, c[i].0 + base, map.len() as int, NEWLINE)
            &&& c[i].1 < map.len()
            &&& c[i + 1].0 == c[i].1 + 1
        }
}

/// Splits `map` into at most `n_workers` chunks `(start, end)` whose boundaries
/// fall on line ends.
pub fn chunk_file(map: &[u8], n_workers: usize) -> (chunks: Vec<(usize, usize)>)
    requires
        n_workers > 0,
        map@.len() <= isize::MAX,
    ensures
        is_chunking(map@, n_workers as int, chunks@),
{
    let mut chunks: Vec<(usize, usize)> = Vec::with_capacity(n_workers);
    let file_len = map.len();
    let base = file_len / n_workers;
    let mut start: usize = 0;
    let mut w: usize = 0;
    while w < n_workers - 1
        invariant
            file_len == map@.len() <= isize::MAX,
            base == file_len / n_workers,
            w <= n_workers - 1,
            chunks@.len() == w,
            start <= file_len,
            w == 0 ==> start == 0,
            w > 0 ==> chunks@[0].0 == 0 && start == chunks@.last().1 + 1,
            forall|i: int|
                0 <= i < chunks@.len() ==> {
                    &&& #[trigger] chunks@[i].0 + base < file_len
                    &&& chunks@[i].1 == first_of(map@, chunks@[i].0 + base, file_len as int, NEWLINE)
                    &&& chunks@[i].0 <= chunks@[i].1 < file_len
                    &&& i + 1 < chunks@.len() ==> chunks@[i + 1].0 == chunks@[i].1 + 1
                },
        ensures
            chunks@.len() <= n_workers - 1,
            start <= file_len,
            chunks@.len() == 0 ==> start == 0,
            chunks@.len() > 0 ==> chunks@[0].0 == 0 && start == chunks@.last().1 + 1,
            chunks@.len() == n_workers - 1 || start + base >= file_len || first_of(
                map@,
                start + base,
                file_len as int,
                NEWLINE,
            ) == file_len,
            forall|i: int|
                0 <= i < chunks@.len() ==> {
                    &&& #[trigger] chunks@[i].0 + base < file_len
                    &&& chunks@[i].1 == first_of(map@, chunks@[i].0 + base, file_len as int, NEWLINE)
                    &&& chunks@[i].0 <= chunks@[i].1 < file_len
                    &&& i + 1 < chunks@.len() ==> chunks@[i + 1].0 == chunks@[i].1 + 1
                },
        decreases n_workers - 1 - w,
    {
        let end = start + base;
        if end >= file_len {
            break;
        }
        let end = find_byte(map, end, file_len, NEWLINE);
        proof {
            lemma_first_of(map@, (start + base) as int, file_len as int, NEWLINE);
        }
        if end >= file_len {
            break;
        }
        let ghost before = chunks@;
        chunks.push((start, end));
        proof {
            assert forall|i: int| 0 <= i < chunks@.len() implies {
                &&& #[trigger] chunks@[i].0 + base < file_len
                &&& chunks@[i].1 == first_of(map@, chunks@[i].0 + base, file_len as int, NEWLINE)
                &&& chunks@[i].0 <= chunks@[i].1 < file_len
                &&& i + 1 < chunks@.len() ==> chunks@[i + 1].0 == chunks@[i].1 + 1
            } by {
                if i < before.len() {
                    assert(chunks@[i] == before[i]);
                }
            }
        }
        start = end + 1;
        w = w + 1;
    }
    let ghost before = chunks@;
    chunks.push((start, file_len));
    proof {
        assert forall|i: int| 0 <= i < chunks@.len() implies #[trigger] chunks@[i].0 <= chunks@[i].1
            <= file_len by {
            if i < before.len() {
                assert(chunks@[i] == before[i]);
            }
        }
    }
    chunks
}

/// A search that stops at or before `e` finds the same position in `s[from..e]`.
proof fn lemma_first_of_prefix(s: Seq<u8>, from: int, to: int, e: int, b: u8)
    requires
        from <= e <= to,
        first_of(s, from, to, b) <= e,
    ensures
        first_of(s, from, e, b) == first_of(s, from, to, b),
    decreases e - from,
{
    lemma_first_of_range(s, from, to, b);
    if from < e && s[from] != b {
        lemma_first_of_prefix(s, from + 1, to, e, b);
    }
}

/// Splitting at a newline splits the measurements.
pub proof fn lemma_records_split(map: Seq<u8>, at: int, e: int, end: int)
    requires
        0 <= at <= e < end <= map.len(),
        map[e] == NEWLINE,
    ensures
        records(map, at, end) == records(map, at, e) + records(map, e + 1, end),
    decreases e - at,
{
    let line_end = first_of(map, at, end, NEWLINE);
    lemma_first_of(map, at, end, NEWLINE);
    assert(line_end <= e);
    lemma_first_of_prefix(map, at, end, e, NEWLINE);
    if at == e {
        assert(records(map, at, e) =~= Seq::<(int, int, int)>::empty());
        assert(records(map, at, end) =~= records(map, e + 1, end));
    } else if line_end < e {
        lemma_records_split(map, line_end + 1, e, end);
        assert(records(map, at, end) =~= records(map, at, e) + records(map, e + 1, end));
    } else {
        assert(records(map, e, e) =~= Seq::<(int, int, int)>::empty());
        assert(records(map, at, end) =~= records(map, at, e) + records(map, e + 1, end));
    }
}

/// Splitting at a newline splits the check that every non-empty line holds `;`.
pub proof fn lemma_lines_split_split(map: Seq<u8>, at: int, e: int, end: int)
    requires
        0 <= at <= e < end <= map.len(),
        map[e] == NEWLINE,
    ensures
        lines_split(map, at, end) == (lines_split(map, at, e) && lines_split(map, e + 1, end)),
    decreases e - at,
{
    let line_end = first_of(map, at, end, NEWLINE);
    lemma_first_of(map, at, end, NEWLINE);
    assert(line_end <= e);
    lemma_first_of_prefix(map, at, end, e, NEWLINE);
    if line_end < e {
        lemma_lines_split_split(map, line_end + 1, e, end);
    }
}

/// The measurements of the chunks `c`, chunk after chunk.
pub open spec fn chunk_records(map: Seq<u8>, c: Seq<(usize, usize)>) -> Seq<(int, int, int)>
    decreases c.len(),
{
    if c.len() == 0 {
        seq![]
    } else {
        chunk_records(map, c.drop_last()) + records(map, c.last().0 as int, c.last().1 as int)
    }
}

/// Every chunk but the last ends on a `\n`, and the measurements of the chunks,
/// chunk after chunk, are the measurements of the file.
pub proof fn lemma_chunking_partitions(map: Seq<u8>, n: int, c: Seq<(usize, usize)>)
    requires
        n > 0,
        is_chunking(map, n, c),
    ensures
        forall|i: int| 0 <= i < c.len() - 1 ==> map[#[trigger] c[i].1 as int] == NEWLINE,
        chunk_records(map, c) == records(map, 0, map.len() as int),
{
    let len = map.len() as int;
    let base = len / n;
    assert forall|i: int| 0 <= i < c.len() - 1 implies #[trigger] c[i].1 < len && map[c[i].1 as int]
        == NEWLINE && c[i].0 <= c[i].1 by {
        lemma_first_of(map, c[i].0 + base, len, NEWLINE);
        assert(base >= 0) by {
            vstd::arithmetic::div_mod::lemma_div_pos_is_pos(len, n);
        }
    }
    lemma_chunks_prefix(map, n, c, c.len() as int);
    assert(c.take(c.len() as int) =~= c);
    assert(c.drop_last() =~= c.take(c.len() - 1));
}

/// The measurements of the file are those of the first `k - 1` chunks followed by
/// those from the start of chunk `k - 1` on.
proof fn lemma_chunks_prefix(map: Seq<u8>, n: int, c: Seq<(usize, usize)>, k: int)
    requires
        1 <= k <= c.len(),
        is_chunking(map, n, c),
        forall|i: int| 0 <= i < c.len() - 1 ==> #[trigger] c[i].1 < map.len() && map[c[i].1 as int]
            == NEWLINE && c[i].0 <= c[i].1,
    ensures
        records(map, 0, map.len() as int) == chunk_records(map, c.take(k - 1)) + records(
            map,
            c[k - 1].0 as int,
            map.len() as int,
        ),
    decreases k,
{
    let len = map.len() as int;
    if k == 1 {
        assert(chunk_records(map, c.take(0)) =~= Seq::<(int, int, int)>::empty());
    } else {
        lemma_chunks_prefix(map, n, c, k - 1);
        let prev = c[k - 2];
        assert(c[k - 2].1 < len && map[c[k - 2].1 as int] == NEWLINE && c[k - 2].0 <= c[k - 2].1);
        lemma_records_split(map, prev.0 as int, prev.1 as int, len);
        assert(c.take(k - 1).drop_last() =~= c.take(k - 2));
        assert(c[k - 1].0 == c[k - 2].1 + 1);
    }
}

} // verus!
