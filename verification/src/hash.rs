//! Hash functions that place byte strings on the ring.

use std::collections::hash_map::DefaultHasher;
use std::hash::Hasher;
use vstd::prelude::*;
use vstd::std_specs::hash::DefaultHasherAdditionalSpecFns;

verus! {

/// A deterministic map from byte strings to ring positions.
///
/// What is proved of a ring is proved for a hash function whose `hash`
/// returns `spec_hash` of its argument. The two in this module are verified
/// to do so; of an implementation in unverified code it is the author's
/// promise.
pub trait RingHash {
    /// The position of `bytes` on the ring.
    spec fn spec_hash(bytes: Seq<u8>) -> u64;

    /// Computes the position of `bytes` on the ring.
    fn hash(bytes: &[u8]) -> (h: u64)
        ensures
            h == Self::spec_hash(bytes@),
    ;
}

/// The standard library's default hasher, fed as the standard library feeds
/// it a string: the bytes in one write, then the byte `0xff`. Its values may
/// change with the version of the standard library; rings that have to agree
/// across builds hash with [`Fnv1a`].
pub struct StdHash;

impl RingHash for StdHash {
    open spec fn spec_hash(bytes: Seq<u8>) -> u64 {
        DefaultHasher::spec_finish(seq![bytes, seq![0xffu8]])
    }

    fn hash(bytes: &[u8]) -> (h: u64) {
        let end: [u8; 1] = [0xff];
        let mut state = DefaultHasher::new();
        state.write(bytes);
        let tail = end.as_slice();
        assert(tail@ =~= seq![0xffu8]);
        state.write(tail);
        assert(state@ =~= seq![bytes@, seq![0xffu8]]);
        state.finish()
    }
}

/// The state from which FNV-1a starts.
pub const FNV_OFFSET: u64 = 0xcbf2_9ce4_8422_2325;

/// The number by which FNV-1a multiplies after each byte.
pub const FNV_PRIME: u64 = 0x0000_0100_0000_01b3;

/// One round of FNV-1a: fold a byte into the state, then multiply modulo 2^64.
pub open spec fn fnv1a_step(state: u64, byte: u8) -> u64 {
    (((state ^ (byte as u64)) * FNV_PRIME) % 0x1_0000_0000_0000_0000) as u64
}

/// The 64-bit FNV-1a hash of `bytes`.
pub open spec fn fnv1a(bytes: Seq<u8>) -> u64
    decreases bytes.len(),
{
    if bytes.len() == 0 {
        FNV_OFFSET
    } else {
        fnv1a_step(fnv1a(bytes.drop_last()), bytes.last())
    }
}

/// The 64-bit FNV-1a hash, the same in every build.
pub struct Fnv1a;

impl RingHash for Fnv1a {
    open spec fn spec_hash(bytes: Seq<u8>) -> u64 {
        fnv1a(bytes)
    }

    fn hash(bytes: &[u8]) -> (h: u64) {
        let mut state: u64 = FNV_OFFSET;
        let mut i: usize = 0;
        while i < bytes.len()
            invariant
                i <= bytes.len(),
                state == fnv1a(bytes@.take(i as int)),
            decreases bytes.len() - i,
        {
            assert(bytes@.take(i + 1).drop_last() == bytes@.take(i as int));
            state = (state ^ (bytes[i] as u64)).wrapping_mul(FNV_PRIME);
            i += 1;
        }
        assert(bytes@.take(i as int) == bytes@);
        state
    }
}

} // verus!
