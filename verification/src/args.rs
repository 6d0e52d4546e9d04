//! The command line of the measurement generator: one positive number of rows,
//! in which `_` may group digits.

use vstd::prelude::*;

verus! {

/// The byte `_`.
pub const UNDERSCORE: u8 = 95;
/// The byte `+`.
pub const PLUS: u8 = 43;

/// `s` with every `_` removed.
pub open spec fn without_underscores(s: Seq<u8>) -> Seq<u8>
    decreases s.len(),
{
    if s.len() == 0 {
        s
    } else if s.last() == UNDERSCORE {
        without_underscores(s.drop_last())
    } else {
        without_underscores(s.drop_last()).push(s.last())
    }
}

/// Removing underscores keeps every other byte, in order, and drops every
/// `_`, wherever it stands: the result is `s` filtered of `_`, and holds no `_`.
pub proof fn lemma_without_underscores(s: Seq<u8>)
    ensures
        without_underscores(s) == s.filter(|b: u8| b != UNDERSCORE),
        !without_underscores(s).contains(UNDERSCORE),
        without_underscores(s).len() + s.filter(|b: u8| b == UNDERSCORE).len() == s.len(),
    decreases s.len(),
{
    reveal(Seq::filter);
    if s.len() > 0 {
        lemma_without_underscores(s.drop_last());
        let f = |b: u8| b != UNDERSCORE;
        let g = |b: u8| b == UNDERSCORE;
        assert(s.filter(f) == if f(s.last()) {
            s.drop_last().filter(f).push(s.last())
        } else {
            s.drop_last().filter(f)
        });
        assert(s.filter(g) == if g(s.last()) {
            s.drop_last().filter(g).push(s.last())
        } else {
            s.drop_last().filter(g)
        });
        let w = without_underscores(s);
        if w.contains(UNDERSCORE) {
            let j = choose|j: int| 0 <= j < w.len() && w[j] == UNDERSCORE;
            let w0 = without_underscores(s.drop_last());
            if s.last() != UNDERSCORE && j == w.len() - 1 {
            } else {
                assert(w0[j] == UNDERSCORE);
            }
        }
    } else {
        assert(s.filter(|b: u8| b != UNDERSCORE) =~= s);
        assert(s.filter(|b: u8| b == UNDERSCORE) =~= s);
    }
}

/// The rows that an argument asks for are read from its text with every `_`
/// dropped, wherever it stands.
pub proof fn lemma_row_count_drops_underscores(s: Seq<u8>)
    ensures
        row_count(s) == match usize_from_str(s.filter(|b: u8| b != UNDERSCORE)) {
            Some(n) => if n > 0 { Some(n) } else { None },
            None => None,
        },
{
    lemma_without_underscores(s);
}

/// Every byte of `s` is an ASCII digit.
pub open spec fn all_digits(s: Seq<u8>) -> bool {
    forall|i: int| 0 <= i < s.len() ==> 48 <= #[trigger] s[i] <= 57
}

/// The number that the decimal digits `s` denote.
pub open spec fn decimal_value(s: Seq<u8>) -> int
    decreases s.len(),
{
    if s.len() == 0 {
        0
    } else {
        decimal_value(s.drop_last()) * 10 + (s.last() - 48)
    }
}

/// What `usize::from_str` gives for the text `s`: an optional `+` followed by at
/// least one decimal digit, denoting a number that fits in a `usize`.
pub open spec fn usize_from_str(s: Seq<u8>) -> Option<usize> {
    let d = if s.len() > 0 && s[0] == PLUS { s.drop_first() } else { s };
    if d.len() > 0 && all_digits(d) && decimal_value(d) <= usize::MAX {
        Some(decimal_value(d) as usize)
    } else {
        None
    }
}

/// The number of rows that the argument text `s` asks for: positive, or none.
pub open spec fn row_count(s: Seq<u8>) -> Option<usize> {
    match usize_from_str(without_underscores(s)) {
        Some(n) => if n > 0 { Some(n) } else { None },
        None => None,
    }
}

proof fn lemma_decimal_monotone(s: Seq<u8>, k: int)
    requires
        all_digits(s),
        0 <= k <= s.len(),
    ensures
        0 <= decimal_value(s.take(k)) <= decimal_value(s),
    decreases s.len(),
{
    if k < s.len() {
        assert(s.drop_last().take(k) =~= s.take(k));
        assert(all_digits(s.drop_last()));
        lemma_decimal_monotone(s.drop_last(), k);
    } else {
        assert(s.take(k) =~= s);
        lemma_decimal_nonneg(s);
    }
}

proof fn lemma_decimal_nonneg(s: Seq<u8>)
    requires
        all_digits(s),
    ensures
        decimal_value(s) >= 0,
    decreases s.len(),
{
    if s.len() > 0 {
        assert(all_digits(s.drop_last()));
        lemma_decimal_nonneg(s.drop_last());
    }
}

/// `s` with every `_` removed.
pub fn remove_underscores(s: &[u8]) -> (r: Vec<u8>)
    ensures
        r@ == without_underscores(s@),
{
    let mut r: Vec<u8> = Vec::new();
    let mut i: usize = 0;
    while i < s.len()
        invariant
            i <= s@.len(),
            r@ == without_underscores(s@.take(i as int)),
        decreases s@.len() - i,
    {
        assert(s@.take(i + 1).drop_last() =~= s@.take(i as int));
        if s[i] != UNDERSCORE {
            r.push(s[i]);
        }
        i = i + 1;
    }
    assert(s@.take(i as int) =~= s@);
    r
}

/// Reads a `usize` as `usize::from_str` does.
pub fn parse_usize(s: &[u8]) -> (r: Option<usize>)
    ensures
        r == usize_from_str(s@),
{
    let start: usize = if s.len() > 0 && s[0] == PLUS { 1 } else { 0 };
    let ghost d = if s@.len() > 0 && s@[0] == PLUS { s@.drop_first() } else { s@ };
    assert(d =~= s@.skip(start as int));
    if start >= s.len() {
        return None;
    }
    let mut n: usize = 0;
    let mut i: usize = start;
    while i < s.len()
        invariant
            start <= i <= s@.len(),
            d == s@.skip(start as int),
            d == (if s@.len() > 0 && s@[0] == PLUS { s@.drop_first() } else { s@ }),
            d.len() > 0,
            all_digits(d.take(i - start)),
            n == decimal_value(d.take(i - start)),
        decreases s@.len() - i,
    {
        let b = s[i];
        assert(d.take(i + 1 - start).drop_last() =~= d.take(i - start));
        assert(d[i - start] == b);
        if b < 48 || b > 57 {
            assert(!all_digits(d));
            return None;
        }
        assert(all_digits(d.take(i + 1 - start)));
        let digit = (b - 48) as usize;
        assert(decimal_value(d.take(i + 1 - start)) == n * 10 + digit);
        match n.checked_mul(10) {
            Some(m) => match m.checked_add(digit) {
                Some(v) => {
                    n = v;
                },
                None => {
                    proof {
                        if all_digits(d) {
                            lemma_decimal_monotone(d, i + 1 - start);
                        }
                    }
                    return None;
                },
            },
            None => {
                proof {
                    if all_digits(d) {
                        lemma_decimal_monotone(d, i + 1 - start);
                    }
                }
                return None;
            },
        }
        i = i + 1;
    }
    assert(d.take(i - start) =~= d);
    Some(n)
}

/// The number of rows that the command line `args` (program name first) asks
/// for: one argument, a positive number in which `_` may group digits; `None`
/// for any other command line.
pub fn check_args(args: &[String]) -> (r: Option<usize>)
    ensures
        r == (if args@.len() != 2 {
            None
        } else {
            row_count(vstd::utf8::encode_utf8(args@[1]@))
        }),
{
    if args.len() != 2 {
        return None;
    }
    let text = args[1].as_str().as_bytes();
    let digits = remove_underscores(text);
    match parse_usize(digits.as_slice()) {
        Some(n) => if n > 0 { Some(n) } else { None },
        None => None,
    }
}

/// Rows the generator writes per batch.
pub const BATCH_SIZE: usize = 10000;

/// The number of batches in which `rows` rows are written: the full batches of
/// `BATCH_SIZE` rows, and one more for the rest when there is one.
pub open spec fn batch_total(rows: int) -> int {
    rows / (BATCH_SIZE as int) + if rows % (BATCH_SIZE as int) > 0 {
        1int
    } else {
        0int
    }
}

/// The rows of batch `i` when `rows` rows are written: a full batch, or the
/// rest for the last batch.
pub open spec fn batch_rows(rows: int, i: int) -> int {
    if i < rows / (BATCH_SIZE as int) {
        BATCH_SIZE as int
    } else {
        rows % (BATCH_SIZE as int)
    }
}

/// The rows of the first `k` batches when `rows` rows are written.
pub open spec fn rows_before(rows: int, k: int) -> int
    decreases k,
{
    if k <= 0 {
        0
    } else {
        rows_before(rows, k - 1) + batch_rows(rows, k - 1)
    }
}

/// The batches together hold exactly the rows asked for.
pub proof fn lemma_batches_cover(rows: nat)
    ensures
        rows_before(rows as int, batch_total(rows as int)) == rows,
{
    let b = BATCH_SIZE as int;
    let full = rows as int / b;
    assert forall|k: int| 0 <= k <= full implies #[trigger] rows_before(rows as int, k) == k * b by {
        lemma_full_batches(rows as int, k);
    }
    assert(full * b + (rows as int) % b == rows) by (nonlinear_arith)
        requires
            full == rows as int / b,
            b == 10000,
    ;
    if (rows as int) % b > 0 {
        assert(rows_before(rows as int, full + 1) == rows_before(rows as int, full) + batch_rows(
            rows as int,
            full,
        ));
    }
}

proof fn lemma_full_batches(rows: int, k: int)
    requires
        0 <= k <= rows / (BATCH_SIZE as int),
    ensures
        rows_before(rows, k) == k * (BATCH_SIZE as int),
    decreases k,
{
    if k > 0 {
        lemma_full_batches(rows, k - 1);
    }
}

/// How many batches the generator writes for `rows` requested rows.
pub fn batch_count(rows: usize) -> (r: usize)
    ensures
        r == batch_total(rows as int),
        rows > 0 ==> r > 0,
        r <= usize::MAX / 100,
{
    let full = rows / BATCH_SIZE;
    if rows % BATCH_SIZE > 0 {
        full + 1
    } else {
        full
    }
}

/// How many rows batch `batch` holds when the generator writes `rows` rows:
/// `BATCH_SIZE` for a full batch, the rest for the last one.
pub fn batch_len(rows: usize, batch: usize) -> (r: usize)
    requires
        batch < batch_total(rows as int),
    ensures
        r == batch_rows(rows as int, batch as int),
        0 < r <= BATCH_SIZE,
{
    if batch < rows / BATCH_SIZE {
        BATCH_SIZE
    } else {
        rows % BATCH_SIZE
    }
}

/// The percentage of the work done once batch `batch` of `batches` is written.
pub fn progress_percent(batch: usize, batches: usize) -> (r: usize)
    requires
        batch < batches,
        batches <= usize::MAX / 100,
    ensures
        r as int == (batch + 1) * 100 / (batches as int),
        r <= 100,
        batch + 1 == batches ==> r == 100,
{
    let ghost b: int = batch as int;
    let ghost n: int = batches as int;
    assert((b + 1) * 100 <= n * 100) by (nonlinear_arith)
        requires
            b < n,
    ;
    assert((b + 1) * 100 / n <= 100) by (nonlinear_arith)
        requires
            0 <= b < n,
    ;
    assert(b + 1 == n ==> n * 100 / n == 100) by (nonlinear_arith)
        requires
            n > 0,
    ;
    (batch + 1) * 100 / batches
}

} // verus!
