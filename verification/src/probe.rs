//! Arithmetic of the linear probe sequence used by the statistics table.
//!
//! A table has a power-of-two number of slots; a probe moves from slot `x` to
//! slot `(x + 31) % size`. Because 31 is odd, this walk visits every slot
//! before returning to its start, and the number of steps from `home` to
//! `slot` is `((slot - home) * STEP_INVERSE) % size`, where `STEP_INVERSE`
//! is the inverse of 31 modulo 2^64.

use vstd::prelude::*;
use vstd::bits::{lemma_usize_low_bits_mask_is_mod, lemma_u64_low_bits_mask_is_mod, low_bits_mask};
use vstd::arithmetic::power2::{pow2, lemma_pow2_adds, lemma_pow2_pos, lemma2_to64,
    lemma_pow2_strictly_increases};
use vstd::arithmetic::div_mod::{lemma_mod_multiples_vanish, lemma_mul_mod_noop_left,
    lemma_add_mod_noop, lemma_mod_equivalence, lemma_mod_twice, lemma_mod_multiples_basic,
    lemma_small_mod, lemma_mod_bound};
use vstd::arithmetic::mul::{lemma_mul_is_distributive_add, lemma_mul_is_associative,
    lemma_mul_is_commutative, lemma_mul_is_distributive_sub};

verus! {

/// Distance, in slots, between two consecutive probes.
pub const STEP: usize = 31;

/// `size` is a number of slots the table accepts: a power of two below 2^64.
pub open spec fn is_table_size(size: int) -> bool {
    exists|k: nat| k < 64 && size == #[trigger] pow2(k)
}

/// The slot probed after `slot`.
pub open spec fn next_slot(slot: int, size: int) -> int {
    (slot + 31) % size
}

/// The inverse of 31 modulo 2^64.
pub open spec fn step_inverse() -> int {
    17256631552825064415int
}

/// Number of probe steps that lead from `home` to `slot`.
pub open spec fn probe_distance(home: int, slot: int, size: int) -> int {
    ((slot - home) * step_inverse()) % size
}

proof fn lemma_size_divides_word(size: int)
    requires
        is_table_size(size),
    ensures
        size > 0,
        18446744073709551616int % size == 0,
{
    let k = choose|k: nat| k < 64 && size == #[trigger] pow2(k);
    lemma_pow2_adds(k, (64 - k) as nat);
    lemma_pow2_pos(k);
    lemma_pow2_pos((64 - k) as nat);
    lemma2_to64();
    assert(pow2(64) == 18446744073709551616int) by {
        vstd::arithmetic::power2::lemma2_to64_rest();
    }
    lemma_mod_multiples_basic(pow2((64 - k) as nat) as int, size);
    lemma_mul_is_commutative(pow2((64 - k) as nat) as int, size);
}

/// Multiplying by 31 and by `step_inverse()` cancel modulo the table size.
proof fn lemma_inverse_cancels(a: int, size: int)
    requires
        is_table_size(size),
    ensures
        (a * 31 * step_inverse()) % size == a % size,
{
    lemma_size_divides_word(size);
    let w: int = 18446744073709551616int;
    assert(31 * step_inverse() == 1 + 29 * w);
    lemma_mul_is_associative(a, 31, step_inverse());
    lemma_mul_is_distributive_add(a, 1, 29 * w);
    assert(a * (29 * w) == (a * 29) * (w / size) * size) by {
        assert(w == (w / size) * size) by {
            vstd::arithmetic::div_mod::lemma_fundamental_div_mod(w, size);
        }
        lemma_mul_is_associative(a * 29, w / size, size);
        lemma_mul_is_associative(a, 29, w);
    }
    lemma_mul_is_commutative((a * 29) * (w / size), size);
    lemma_mod_multiples_vanish((a * 29) * (w / size), a, size);
}

pub proof fn lemma_distance_bounds(home: int, slot: int, size: int)
    requires
        is_table_size(size),
    ensures
        0 <= probe_distance(home, slot, size) < size,
{
    lemma_size_divides_word(size);
    lemma_mod_bound((slot - home) * step_inverse(), size);
}

/// The home slot is reached after no step.
pub proof fn lemma_distance_home(home: int, size: int)
    requires
        is_table_size(size),
    ensures
        probe_distance(home, home, size) == 0,
{
    lemma_size_divides_word(size);
    assert((home - home) * step_inverse() == 0);
    lemma_small_mod(0, size as nat);
}

/// One probe step adds one to the distance from the home slot, modulo the size.
pub proof fn lemma_distance_step(home: int, slot: int, size: int)
    requires
        is_table_size(size),
    ensures
        probe_distance(home, next_slot(slot, size), size)
            == (probe_distance(home, slot, size) + 1) % size,
{
    lemma_size_divides_word(size);
    let d = slot - home;
    // ((slot + 31) % size - home) ≡ (d + 31) modulo size
    assert((next_slot(slot, size) - home) % size == (d + 31) % size) by {
        vstd::arithmetic::div_mod::lemma_sub_mod_noop(slot + 31, home, size);
        vstd::arithmetic::div_mod::lemma_sub_mod_noop(next_slot(slot, size), home, size);
        lemma_mod_twice(slot + 31, size);
    }
    lemma_mul_mod_noop_left(next_slot(slot, size) - home, step_inverse(), size);
    lemma_mul_mod_noop_left(d + 31, step_inverse(), size);
    lemma_mul_is_distributive_add(step_inverse(), d, 31);
    lemma_mul_is_commutative(step_inverse(), d);
    lemma_mul_is_commutative(step_inverse(), 31);
    lemma_mul_is_commutative(step_inverse(), d + 31);
    // (d + 31) * inv == d * inv + 31 * inv
    lemma_add_mod_noop(d * step_inverse(), 31 * step_inverse(), size);
    lemma_inverse_cancels(1, size);
    lemma_add_mod_noop(d * step_inverse(), 1, size);
    if size > 1 {
        lemma_small_mod(1, size as nat);
    } else {
        lemma_mod_bound(d * step_inverse(), size);
    }
}

/// Distinct slots lie at distinct distances from any home slot.
pub proof fn lemma_distance_injective(home: int, x: int, y: int, size: int)
    requires
        is_table_size(size),
        0 <= x < size,
        0 <= y < size,
        probe_distance(home, x, size) == probe_distance(home, y, size),
    ensures
        x == y,
{
    lemma_size_divides_word(size);
    let a = (x - home) * step_inverse();
    let b = (y - home) * step_inverse();
    lemma_mod_equivalence(a, b, size);
    lemma_mul_is_distributive_sub(step_inverse(), x - home, y - home);
    lemma_mul_is_commutative(step_inverse(), x - home);
    lemma_mul_is_commutative(step_inverse(), y - home);
    lemma_mul_is_commutative(step_inverse(), x - y);
    assert(a - b == (x - y) * step_inverse());
    // (x - y) * inv ≡ 0, so (x - y) ≡ (x - y) * inv * 31 ≡ 0
    lemma_mul_mod_noop_left((x - y) * step_inverse(), 31, size);
    lemma_mul_is_associative(x - y, step_inverse(), 31);
    lemma_mul_is_associative(x - y, 31, step_inverse());
    lemma_mul_is_commutative(step_inverse(), 31);
    lemma_inverse_cancels(x - y, size);
    lemma_mod_equivalence(x, y, size);
    lemma_small_mod(x as nat, size as nat);
    lemma_small_mod(y as nat, size as nat);
}

/// The exponent of a table size that fits in a `usize`.
proof fn lemma_size_exponent(size: usize) -> (k: nat)
    requires
        is_table_size(size as int),
    ensures
        size == pow2(k),
        k < usize::BITS,
        k < 64,
        low_bits_mask(k) == size - 1,
        size as int + 31 <= usize::MAX,
{
    let k = choose|k: nat| k < 64 && size as int == #[trigger] pow2(k);
    lemma2_to64();
    vstd::arithmetic::power2::lemma2_to64_rest();
    if k >= usize::BITS {
        if k > usize::BITS {
            lemma_pow2_strictly_increases(usize::BITS as nat, k);
        }
        assert(false);
    }
    if k + 1 < usize::BITS {
        lemma_pow2_strictly_increases(k, (usize::BITS - 1) as nat);
    }
    k
}

/// Masking with `size - 1` reduces a `usize` modulo a table size.
pub proof fn lemma_usize_mask(x: usize, size: usize)
    requires
        is_table_size(size as int),
    ensures
        x & ((size - 1) as usize) == x % size,
        size as int + 31 <= usize::MAX,
{
    let k = lemma_size_exponent(size);
    lemma_usize_low_bits_mask_is_mod(x, k);
}

/// Masking with `size - 1` reduces a `u64` modulo a table size.
pub proof fn lemma_u64_mask(x: u64, size: usize)
    requires
        is_table_size(size as int),
    ensures
        x & ((size - 1) as u64) == x % (size as u64),
{
    let k = lemma_size_exponent(size);
    lemma_u64_low_bits_mask_is_mod(x, k);
}

} // verus!
