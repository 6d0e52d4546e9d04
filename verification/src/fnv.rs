//! The 64-bit FNV-1a hash, as a `std::hash::Hasher`.

use vstd::prelude::*;

verus! {

/// FNV-1a offset basis.
pub const FNV_OFFSET_BASIS: u64 = 0xcbf29ce484222325;
/// FNV-1a prime.
pub const FNV_PRIME: u64 = 0x100000001b3;

/// One FNV-1a step: xor in the byte, then multiply by the prime modulo 2^64.
pub open spec fn fnv_step(h: u64, b: u8) -> u64 {
    vstd::wrapping::u64_specs::wrapping_mul(h ^ (b as u64), FNV_PRIME)
}

/// The FNV-1a state after feeding `bytes` to state `h`.
pub open spec fn fnv_fold(h: u64, bytes: Seq<u8>) -> u64
    decreases bytes.len(),
{
    if bytes.len() == 0 {
        h
    } else {
        fnv_step(fnv_fold(h, bytes.drop_last()), bytes.last())
    }
}

/// Feeding two byte strings one after the other is feeding their concatenation.
pub proof fn lemma_fnv_fold_append(h: u64, a: Seq<u8>, b: Seq<u8>)
    ensures
        fnv_fold(fnv_fold(h, a), b) == fnv_fold(h, a + b),
    decreases b.len(),
{
    if b.len() == 0 {
        assert(a + b =~= a);
    } else {
        lemma_fnv_fold_append(h, a, b.drop_last());
        assert((a + b).drop_last() =~= a + b.drop_last());
    }
}

/// The FNV-1a hasher state.
pub struct Fnv1aHasher {
    pub hash: u64,
}

impl Fnv1aHasher {
    /// A hasher at the offset basis.
    pub fn new() -> (h: Self)
        ensures
            h.hash == FNV_OFFSET_BASIS,
    {
        Self { hash: FNV_OFFSET_BASIS }
    }

    /// The hash of everything written so far.
    pub fn finish(&self) -> (r: u64)
        ensures
            r == self.hash,
    {
        self.hash
    }

    /// Feeds `bytes` to the hash.
    pub fn write(&mut self, bytes: &[u8])
        ensures
            final(self).hash == fnv_fold(old(self).hash, bytes@),
    {
        let mut h = self.hash;
        let mut i: usize = 0;
        while i < bytes.len()
            invariant
                i <= bytes@.len(),
                h == fnv_fold(old(self).hash, bytes@.take(i as int)),
            decreases bytes@.len() - i,
        {
            assert(bytes@.take(i + 1).drop_last() =~= bytes@.take(i as int));
            h = h ^ bytes[i] as u64;
            h = h.wrapping_mul(FNV_PRIME);
            i = i + 1;
        }
        assert(bytes@.take(i as int) =~= bytes@);
        self.hash = h;
    }
}

impl Default for Fnv1aHasher {
    fn default() -> (h: Self)
        ensures
            h.hash == FNV_OFFSET_BASIS,
    {
        Self::new()
    }
}

/// Builds [`Fnv1aHasher`]s at the offset basis.
pub struct Fnv1aHashBuilder;

impl Fnv1aHashBuilder {
    /// A fresh hasher.
    pub fn build_hasher(&self) -> (h: Fnv1aHasher)
        ensures
            h.hash == FNV_OFFSET_BASIS,
    {
        Fnv1aHasher::new()
    }
}

impl std::hash::Hasher for Fnv1aHasher {
    fn finish(&self) -> (r: u64)
        ensures
            r == self.hash,
    {
        Fnv1aHasher::finish(self)
    }

    fn write(&mut self, bytes: &[u8])
        ensures
            final(self).hash == fnv_fold(old(self).hash, bytes@),
    {
        Fnv1aHasher::write(self, bytes)
    }
}

impl std::hash::BuildHasher for Fnv1aHashBuilder {
    type Hasher = Fnv1aHasher;

    fn build_hasher(&self) -> (h: Fnv1aHasher)
        ensures
            h.hash == FNV_OFFSET_BASIS,
    {
        Fnv1aHashBuilder::build_hasher(self)
    }
}

} // verus!
