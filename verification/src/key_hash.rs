use vstd::prelude::*;

verus! {

/// A deterministic hash supplier for map keys.  The map's contracts only
/// need the hash of a key to be a function of the key, which is what the
/// `hash_spec`/`hash` pair pins down; how the bits are mixed is up to the
/// implementation.
pub trait KeyHasher<K> {
    /// The hash as a mathematical function of the key.
    spec fn hash_spec(&self, key: K) -> u64;

    /// Computes the hash.
    fn hash(&self, key: &K) -> (h: u64)
        ensures
            h == self.hash_spec(*key),
    ;
}

/// The stock hasher: multiplies the key's bits by an odd constant so that
/// consecutive keys spread over the bins.
#[derive(Clone, Copy, PartialEq, Eq, Structural, Debug)]
pub struct PlainHasher;

impl KeyHasher<u64> for PlainHasher {
    open spec fn hash_spec(&self, key: u64) -> u64 {
        mix(key)
    }

    fn hash(&self, key: &u64) -> (h: u64)
        ensures
            h == self.hash_spec(*key),
    {
        mix_u64(*key)
    }
}

impl KeyHasher<usize> for PlainHasher {
    open spec fn hash_spec(&self, key: usize) -> u64 {
        mix(key as u64)
    }

    fn hash(&self, key: &usize) -> (h: u64)
        ensures
            h == self.hash_spec(*key),
    {
        mix_u64(*key as u64)
    }
}

impl KeyHasher<u32> for PlainHasher {
    open spec fn hash_spec(&self, key: u32) -> u64 {
        mix(key as u64)
    }

    fn hash(&self, key: &u32) -> (h: u64)
        ensures
            h == self.hash_spec(*key),
    {
        mix_u64(*key as u64)
    }
}

impl KeyHasher<i32> for PlainHasher {
    open spec fn hash_spec(&self, key: i32) -> u64 {
        mix(key as u64)
    }

    fn hash(&self, key: &i32) -> (h: u64)
        ensures
            h == self.hash_spec(*key),
    {
        mix_u64(*key as u64)
    }
}

impl KeyHasher<i64> for PlainHasher {
    open spec fn hash_spec(&self, key: i64) -> u64 {
        mix(key as u64)
    }

    fn hash(&self, key: &i64) -> (h: u64)
        ensures
            h == self.hash_spec(*key),
    {
        mix_u64(*key as u64)
    }
}

/// The mixing step, as a function on the key's bits.
pub open spec fn mix(bits: u64) -> u64 {
    mul_wrap(bits, 0x9e37_79b9_7f4a_7c15)
}

/// `a * b` on `u64`, wrapping.
pub open spec fn mul_wrap(a: u64, b: u64) -> u64 {
    ((a as nat * b as nat) % 0x1_0000_0000_0000_0000nat) as u64
}

/// Computes [`mix`].
fn mix_u64(bits: u64) -> (h: u64)
    ensures
        h == mix(bits),
{
    let h = bits.wrapping_mul(0x9e37_79b9_7f4a_7c15);
    proof {
        assert(h == mul_wrap(bits, 0x9e37_79b9_7f4a_7c15));
    }
    h
}

} // verus!
