//! The 64-bit FNV-1a hash, reduced modulo a bucket count.

use vstd::prelude::*;

verus! {

/// The 64-bit FNV prime.
pub const FNV_PRIME: u64 = 0x100000001b3;

/// The 64-bit FNV offset basis.
pub const FNV_OFFSET: u64 = 0xcbf29ce484222325;

/// One FNV-1a round: xor the byte in, then multiply by the prime modulo 2^64.
pub open spec fn fnv_step(acc: u64, byte: u8) -> u64 {
    (((acc ^ (byte as u64)) as nat * FNV_PRIME as nat) % 0x1_0000_0000_0000_0000nat) as u64
}

/// The 64-bit FNV-1a digest of `bytes`: the offset basis folded with
/// `fnv_step` over the bytes, first to last.
pub open spec fn fnv1a(bytes: Seq<u8>) -> u64
    decreases bytes.len(),
{
    if bytes.len() == 0 {
        FNV_OFFSET
    } else {
        fnv_step(fnv1a(bytes.drop_last()), bytes.last())
    }
}

/// The bucket that `bytes` falls into among `modulus` buckets.
pub open spec fn bucket_of(bytes: Seq<u8>, modulus: nat) -> nat
    recommends
        modulus > 0,
{
    (fnv1a(bytes) as nat) % modulus
}

/// The bucket of any byte sequence lies in `[0, modulus)`.
pub proof fn bucket_in_range(bytes: Seq<u8>, modulus: nat)
    requires
        modulus > 0,
    ensures
        0 <= bucket_of(bytes, modulus) < modulus,
{
}

/// A hasher carrying the FNV-1a constants.
pub struct FnvHasher {
    prime: u64,
    offset: u64,
}

impl View for FnvHasher {
    type V = (u64, u64);

    /// The prime and the offset basis.
    closed spec fn view(&self) -> (u64, u64) {
        (self.prime, self.offset)
    }
}

impl FnvHasher {
    #[verifier::type_invariant]
    spec fn holds_fnv_constants(self) -> bool {
        self.prime == FNV_PRIME && self.offset == FNV_OFFSET
    }

    pub fn new() -> (r: Self)
        ensures
            r@ == (FNV_PRIME, FNV_OFFSET),
    {
        FnvHasher { prime: FNV_PRIME, offset: FNV_OFFSET }
    }

    /// Hashes `value` with FNV-1a and reduces the digest modulo `array_size`.
    pub fn hash(&self, value: &[u8], array_size: i64) -> (r: u64)
        requires
            array_size > 0,
        ensures
            r as nat == bucket_of(value@, array_size as nat),
            r < array_size,
    {
        proof {
            use_type_invariant(self);
        }
        let mut final_hash: u64 = self.offset;
        let mut i: usize = 0;
        while i < value.len()
            invariant
                i <= value@.len(),
                final_hash == fnv1a(value@.subrange(0, i as int)),
                self.prime == FNV_PRIME,
            decreases value@.len() - i,
        {
            proof {
                let next = value@.subrange(0, i + 1);
                assert(next.drop_last() =~= value@.subrange(0, i as int));
            }
            final_hash = final_hash ^ (value[i] as u64);
            final_hash = final_hash.wrapping_mul(self.prime);
            i = i + 1;
        }
        assert(value@.subrange(0, value@.len() as int) =~= value@);
        final_hash % (array_size as u64)
    }
}

} // verus!
