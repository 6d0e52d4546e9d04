//! Little-endian words built from the first sixteen bytes of a station name,
//! and the hash that places a name in the statistics table.

use vstd::prelude::*;
use vstd::arithmetic::power2::{pow2, lemma_pow2_adds, lemma_pow2_pos, lemma2_to64};
use vstd::bits::lemma_u64_shl_is_mul;
use vstd::arithmetic::mul::lemma_mul_inequality;

verus! {

/// The unsigned integer whose little-endian bytes are `s`.
pub open spec fn le_value(s: Seq<u8>) -> int
    decreases s.len(),
{
    if s.len() == 0 {
        0
    } else {
        le_value(s.drop_last()) + s.last() * pow2((8 * (s.len() - 1)) as nat)
    }
}

/// The two words that summarise a name: bytes 0..8 and bytes 8..16, little-endian,
/// missing bytes counting as zero.
pub open spec fn name_words(name: Seq<u8>) -> (u64, u64) {
    let n0 = if name.len() < 8 { name.len() as int } else { 8 };
    let w1 = if name.len() <= 8 {
        0
    } else {
        let n1 = if name.len() < 16 { name.len() - 8 } else { 8 };
        le_value(name.subrange(8, 8 + n1))
    };
    (le_value(name.take(n0)) as u64, w1 as u64)
}

/// The mixing of the two name words that the table hashes with.
pub open spec fn mix_words(w0: u64, w1: u64) -> u64 {
    let h = w0 ^ w1;
    h ^ ((h >> 33u64) ^ (h >> 15u64))
}

pub proof fn lemma_le_value_bound(s: Seq<u8>)
    ensures
        0 <= le_value(s) < pow2((8 * s.len()) as nat),
    decreases s.len(),
{
    if s.len() > 0 {
        let n = (s.len() - 1) as nat;
        lemma_le_value_bound(s.drop_last());
        lemma_pow2_adds(8 * n, 8);
        lemma_pow2_pos(8 * n);
        lemma2_to64();
        lemma_mul_inequality(s.last() as int, 255, pow2(8 * n) as int);
        assert(s.drop_last().len() == n);
        assert(8 * s.len() == 8 * n + 8);
        assert(pow2(8) == 256);
        assert(pow2(8 * n + 8) == pow2(8 * n) * 256);
    } else {
        lemma_pow2_pos(0);
    }
}

/// How many bytes a word load of `len` bytes takes: at most eight.
pub open spec fn word_len(len: usize) -> int {
    if len < 8 {
        len as int
    } else {
        8
    }
}

/// Little-endian value of the first `len` bytes of `bytes` from `start`, of
/// which at most eight are taken.
pub fn load_u64_masked(bytes: &[u8], start: usize, len: usize) -> (w: u64)
    requires
        start + word_len(len) <= bytes@.len(),
    ensures
        w == le_value(bytes@.subrange(start as int, start + word_len(len))),
{
    let len = if len < 8 {
        len
    } else {
        8
    };
    let mut w: u64 = 0;
    let mut i: usize = 0;
    while i < len
        invariant
            i <= len <= 8,
            start + len <= bytes.len(),
            w == le_value(bytes@.subrange(start as int, start + i)),
        decreases len - i,
    {
        let b = bytes[start + i] as u64;
        proof {
            let s = bytes@.subrange(start as int, start + i + 1);
            assert(s.drop_last() =~= bytes@.subrange(start as int, start + i));
            lemma_le_value_bound(s.drop_last());
            lemma_pow2_pos((8 * i) as nat);
            lemma2_to64();
            if i < 7 {
                vstd::arithmetic::power2::lemma_pow2_strictly_increases((8 * i) as nat, 56);
            }
            lemma_mul_inequality(b as int, 255, pow2((8 * i) as nat) as int);
            lemma_pow2_adds((8 * i) as nat, 8);
            vstd::arithmetic::power2::lemma2_to64_rest();
            lemma_u64_shl_is_mul(b, (8 * i) as u64);
            lemma_u64_shl_is_mul(1, (8 * i) as u64);
        }
        let shifted = b << (8 * i as u64);
        let shift = 8 * i as u64;
        assert(w | shifted == w + shifted) by (bit_vector)
            requires
                w < (1u64 << shift),
                shifted == b << shift,
                b < 256,
                shift <= 56,
        ;
        w = w | shifted;
        i = i + 1;
    }
    w
}

/// The two words of the name `bytes[start..start + len]`.
pub fn name_words_of(bytes: &[u8], start: usize, len: usize) -> (w: (u64, u64))
    requires
        start + len <= bytes.len(),
    ensures
        w == name_words(bytes@.subrange(start as int, start + len)),
{
    let name = Ghost(bytes@.subrange(start as int, start + len));
    let n0 = if len < 8 { len } else { 8 };
    let w0 = load_u64_masked(bytes, start, n0);
    assert(bytes@.subrange(start as int, start + n0) =~= name@.take(n0 as int));
    let w1 = if len <= 8 {
        0
    } else {
        let n1 = if len < 16 { len - 8 } else { 8 };
        let w = load_u64_masked(bytes, start + 8, n1);
        assert(bytes@.subrange(start + 8, start + 8 + n1) =~= name@.subrange(8, 8 + n1));
        w
    };
    (w0, w1)
}

/// Slot of the table, of `table_size` slots, where the search for a name with
/// words `w0` and `w1` starts.
pub fn hash_to_idx(w0: u64, w1: u64, table_size: usize) -> (r: usize)
    requires
        table_size > 0,
    ensures
        r == mix_words(w0, w1) & ((table_size - 1) as u64),
        r < table_size,
{
    let mut hash = w0 ^ w1;
    hash ^= (hash >> 33u64) ^ (hash >> 15u64);
    let mask = (table_size - 1) as u64;
    let r = hash & mask;
    assert(r <= mask) by (bit_vector)
        requires
            r == hash & mask,
    ;
    r as usize
}

} // verus!
