//! The list of station names that the measurement generator draws from: the
//! names before the first `;` of the lines of a CSV file, skipping empty lines
//! and comment lines (starting with `#`), sorted and without repetition.

use vstd::prelude::*;
use crate::lines::{NEWLINE, SEMICOLON, first_of, lemma_first_of, lemma_first_of_range, find_byte};
use crate::order::{name_lt, compare_bytes, lemma_name_lt_transitive};

verus! {

/// The byte `#`.
pub const HASH_SIGN: u8 = 35;

/// The names listed in `csv[at..end]`, in order of appearance.
pub open spec fn csv_names(csv: Seq<u8>, at: int, end: int) -> Seq<Seq<u8>>
    decreases end - at,
    via csv_names_decreases
{
    if at >= end {
        seq![]
    } else {
        let line_end = first_of(csv, at, end, NEWLINE);
        let rest = if line_end < end { csv_names(csv, line_end + 1, end) } else { seq![] };
        if line_end == at || csv[at] == HASH_SIGN {
            rest
        } else {
            let semicolon = first_of(csv, at, line_end, SEMICOLON);
            if semicolon == line_end {
                rest
            } else {
                seq![csv.subrange(at, semicolon)] + rest
            }
        }
    }
}

#[via_fn]
proof fn csv_names_decreases(csv: Seq<u8>, at: int, end: int) {
    if at < end {
        lemma_first_of_range(csv, at, end, NEWLINE);
    }
}

/// Byte strings in strictly increasing order.
pub open spec fn strictly_sorted(v: Seq<Seq<u8>>) -> bool {
    forall|a: int, b: int| 0 <= a < b < v.len() ==> name_lt(#[trigger] v[a], #[trigger] v[b])
}

/// Adds `name` to the strictly sorted list `names` unless it is already there.
fn insert_sorted(names: &mut Vec<Vec<u8>>, name: &[u8])
    requires
        strictly_sorted(old(names)@.map_values(|v: Vec<u8>| v@)),
    ensures
        strictly_sorted(final(names)@.map_values(|v: Vec<u8>| v@)),
        final(names)@.map_values(|v: Vec<u8>| v@).to_set() == old(names)@.map_values(
            |v: Vec<u8>| v@,
        ).to_set().insert(name@),
{
    let ghost f = |v: Vec<u8>| v@;
    let ghost old_names = names@.map_values(f);
    let mut lo: usize = 0;
    let mut hi: usize = names.len();
    while lo < hi
        invariant
            0 <= lo <= hi <= names@.len(),
            names@ == old(names)@,
            old_names == names@.map_values(f),
            f == (|v: Vec<u8>| v@),
            strictly_sorted(old_names),
            forall|a: int| 0 <= a < lo ==> name_lt(#[trigger] old_names[a], name@),
            forall|a: int| hi <= a < old_names.len() ==> name_lt(name@, #[trigger] old_names[a]),
        decreases hi - lo,
    {
        let mid = lo + (hi - lo) / 2;
        let c = compare_bytes(names[mid].as_slice(), name);
        assert(old_names[mid as int] == names@[mid as int]@);
        if c == 0 {
            assert(old_names.to_set().insert(name@) =~= old_names.to_set()) by {
                assert(old_names.to_set().contains(name@));
            }
            return;
        } else if c < 0 {
            assert forall|a: int| 0 <= a < mid + 1 implies name_lt(#[trigger] old_names[a], name@) by {
                if a < mid {
                    lemma_name_lt_transitive(old_names[a], old_names[mid as int], name@);
                }
            }
            lo = mid + 1;
        } else {
            assert forall|a: int| mid <= a < old_names.len() implies name_lt(name@, #[trigger] old_names[a]) by {
                if a > mid {
                    lemma_name_lt_transitive(name@, old_names[mid as int], old_names[a]);
                }
            }
            hi = mid;
        }
    }
    let mut owned: Vec<u8> = Vec::new();
    let mut i: usize = 0;
    while i < name.len()
        invariant
            i <= name@.len(),
            owned@ == name@.take(i as int),
        decreases name@.len() - i,
    {
        owned.push(name[i]);
        i = i + 1;
    }
    assert(owned@ =~= name@);
    names.insert(lo, owned);
    proof {
        let new_names = names@.map_values(f);
        assert(new_names =~= old_names.insert(lo as int, name@));
        assert forall|a: int, b: int| 0 <= a < b < new_names.len() implies name_lt(
            #[trigger] new_names[a],
            #[trigger] new_names[b],
        ) by {
            if b < lo {
            } else if b == lo {
            } else if a < lo {
                lemma_name_lt_transitive(old_names[a], name@, old_names[b - 1]);
            } else if a == lo {
            } else {
            }
        }
        assert(new_names.to_set() =~= old_names.to_set().insert(name@)) by {
            assert forall|x: Seq<u8>| new_names.to_set().contains(x) implies old_names.to_set().insert(
                name@,
            ).contains(x) by {
                let j = choose|j: int| 0 <= j < new_names.len() && new_names[j] == x;
                if j < lo {
                    assert(old_names[j] == x);
                } else if j > lo {
                    assert(old_names[j - 1] == x);
                }
            }
            assert forall|x: Seq<u8>| old_names.to_set().insert(name@).contains(x) implies new_names.to_set().contains(x) by {
                if x == name@ {
                    assert(new_names[lo as int] == x);
                } else {
                    let j = choose|j: int| 0 <= j < old_names.len() && old_names[j] == x;
                    if j < lo {
                        assert(new_names[j] == x);
                    } else {
                        assert(new_names[j + 1] == x);
                    }
                }
            }
        }
    }
}

/// The station names listed in the CSV text `csv`, sorted and without repetition.
pub fn parse_station_list(csv: &[u8]) -> (names: Vec<Vec<u8>>)
    ensures
        strictly_sorted(names@.map_values(|v: Vec<u8>| v@)),
        names@.map_values(|v: Vec<u8>| v@).to_set() == csv_names(csv@, 0, csv@.len() as int).to_set(),
{
    let ghost f = |v: Vec<u8>| v@;
    let ghost all = csv_names(csv@, 0, csv@.len() as int);
    let mut names: Vec<Vec<u8>> = Vec::new();
    let end = csv.len();
    let mut at: usize = 0;
    let ghost mut k: int = 0;
    proof {
        assert(all.take(0) =~= Seq::<Seq<u8>>::empty());
        assert(all =~= all.take(0) + csv_names(csv@, 0, end as int));
        assert(names@.map_values(f).to_set() =~= all.take(0).to_set());
    }
    while at < end
        invariant
            at <= end == csv@.len(),
            f == (|v: Vec<u8>| v@),
            all == csv_names(csv@, 0, end as int),
            0 <= k <= all.len(),
            all == all.take(k) + csv_names(csv@, at as int, end as int),
            strictly_sorted(names@.map_values(f)),
            names@.map_values(f).to_set() == all.take(k).to_set(),
        decreases end - at,
    {
        let line_end = find_byte(csv, at, end, NEWLINE);
        proof {
            lemma_first_of(csv@, at as int, end as int, NEWLINE);
        }
        let next = if line_end < end { line_end + 1 } else { end };
        let ghost rest = csv_names(csv@, next as int, end as int);
        assert(line_end == end ==> rest =~= Seq::<Seq<u8>>::empty());
        if line_end == at || csv[at] == HASH_SIGN {
            at = next;
            continue;
        }
        let semicolon = find_byte(csv, at, line_end, SEMICOLON);
        if semicolon == line_end {
            at = next;
            continue;
        }
        proof {
            lemma_first_of(csv@, at as int, line_end as int, SEMICOLON);
        }
        let name = &csv[at..semicolon];
        assert(csv_names(csv@, at as int, end as int) == seq![name@] + rest);
        assert(all[k] == name@);
        insert_sorted(&mut names, name);
        proof {
            assert(all.take(k + 1) =~= all.take(k) + seq![name@]);
            Seq::lemma_to_set_insert_commutes(all.take(k), name@);
            assert(all =~= all.take(k + 1) + rest);
            k = k + 1;
        }
        at = next;
    }
    proof {
        assert(csv_names(csv@, at as int, end as int) =~= Seq::<Seq<u8>>::empty());
        assert(all.take(k) =~= all);
    }
    names
}

/// Every line of `csv[at..end]` that is not empty, does not start with `#` and
/// holds `;` lists its name, the bytes before its first `;`, wherever it
/// stands: a line starts at `at` or just after a `\n`.
pub proof fn lemma_line_listed(csv: Seq<u8>, at: int, end: int, i: int)
    requires
        0 <= at <= i < end <= csv.len(),
        i == at || csv[i - 1] == NEWLINE,
        csv[i] != NEWLINE,
        csv[i] != HASH_SIGN,
        first_of(csv, i, first_of(csv, i, end, NEWLINE), SEMICOLON) < first_of(
            csv,
            i,
            end,
            NEWLINE,
        ),
    ensures
        csv_names(csv, at, end).contains(
            csv.subrange(i, first_of(csv, i, first_of(csv, i, end, NEWLINE), SEMICOLON)),
        ),
    decreases i - at,
{
    let line_end = first_of(csv, at, end, NEWLINE);
    lemma_first_of(csv, at, end, NEWLINE);
    let rest = if line_end < end { csv_names(csv, line_end + 1, end) } else { seq![] };
    if i == at {
        let semicolon = first_of(csv, at, line_end, SEMICOLON);
        assert(csv_names(csv, at, end) == seq![csv.subrange(at, semicolon)] + rest);
        assert(csv_names(csv, at, end)[0] == csv.subrange(at, semicolon));
    } else {
        assert(line_end <= i - 1);
        lemma_line_listed(csv, line_end + 1, end, i);
        let name = csv.subrange(i, first_of(csv, i, first_of(csv, i, end, NEWLINE), SEMICOLON));
        let k = choose|k: int| 0 <= k < rest.len() && rest[k] == name;
        let all = csv_names(csv, at, end);
        if all == rest {
        } else {
            let semicolon = first_of(csv, at, line_end, SEMICOLON);
            assert(all == seq![csv.subrange(at, semicolon)] + rest);
            assert(all[k + 1] == name);
        }
    }
}

/// The station list names every line of the file that is not empty, does
/// not start with `#` and holds `;`, the first line included: the bytes
/// before its first `;`.
pub proof fn lemma_every_line_listed(csv: Seq<u8>, i: int)
    requires
        0 <= i < csv.len(),
        i == 0 || csv[i - 1] == NEWLINE,
        csv[i] != NEWLINE,
        csv[i] != HASH_SIGN,
        first_of(csv, i, first_of(csv, i, csv.len() as int, NEWLINE), SEMICOLON) < first_of(
            csv,
            i,
            csv.len() as int,
            NEWLINE,
        ),
    ensures
        csv_names(csv, 0, csv.len() as int).to_set().contains(
            csv.subrange(
                i,
                first_of(csv, i, first_of(csv, i, csv.len() as int, NEWLINE), SEMICOLON),
            ),
        ),
{
    lemma_line_listed(csv, 0, csv.len() as int, i);
}

/// A line of `csv[at..end]`, starting at `i`, that lists a name: not empty,
/// not starting with `#`, and holding `;`.
pub open spec fn names_line(csv: Seq<u8>, at: int, end: int, i: int) -> bool {
    &&& at <= i < end
    &&& i == at || csv[i - 1] == NEWLINE
    &&& csv[i] != NEWLINE
    &&& csv[i] != HASH_SIGN
    &&& first_of(csv, i, first_of(csv, i, end, NEWLINE), SEMICOLON) < first_of(csv, i, end, NEWLINE)
}

/// Every name listed comes from such a line: the bytes before its first `;`.
pub proof fn lemma_listed_from_line(csv: Seq<u8>, at: int, end: int, k: int)
    requires
        0 <= at <= end <= csv.len(),
        0 <= k < csv_names(csv, at, end).len(),
    ensures
        exists|i: int|
            #[trigger] names_line(csv, at, end, i) && csv_names(csv, at, end)[k] == csv.subrange(
                i,
                first_of(csv, i, first_of(csv, i, end, NEWLINE), SEMICOLON),
            ),
    decreases end - at,
{
    let line_end = first_of(csv, at, end, NEWLINE);
    lemma_first_of(csv, at, end, NEWLINE);
    let rest = if line_end < end { csv_names(csv, line_end + 1, end) } else { seq![] };
    let all = csv_names(csv, at, end);
    let head_listed = !(line_end == at || csv[at] == HASH_SIGN) && first_of(
        csv,
        at,
        line_end,
        SEMICOLON,
    ) < line_end;
    assert(at < end);
    lemma_first_of_range(csv, at, line_end, SEMICOLON);
    if head_listed {
        assert(all == seq![csv.subrange(at, first_of(csv, at, line_end, SEMICOLON))] + rest);
    } else {
        assert(all == rest);
    }
    if head_listed && k == 0 {
        assert(names_line(csv, at, end, at));
    } else {
        let k2 = if head_listed { k - 1 } else { k };
        assert(0 <= k2 < rest.len());
        assert(all[k] == rest[k2]);
        lemma_listed_from_line(csv, line_end + 1, end, k2);
        let i = choose|i: int|
            #[trigger] names_line(csv, line_end + 1, end, i) && rest[k2] == csv.subrange(
                i,
                first_of(csv, i, first_of(csv, i, end, NEWLINE), SEMICOLON),
            );
        if i == line_end + 1 {
            assert(csv[i - 1] == NEWLINE);
        }
        assert(names_line(csv, at, end, i));
    }
}

} // verus!
