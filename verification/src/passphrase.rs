//! The key of the pixel carrier from a passphrase.

use vstd::prelude::*;
use vstd::wrapping::u64_specs::wrapping_mul;

verus! {

/// The multiplier of the hash.
pub const K: u64 = 0x517cc1b727220a95;

/// One step of the hash: the state rotated left by five bits, the byte
/// folded in, the whole multiplied by [`K`] modulo 2^64.
pub open spec fn mixed(hash: u64, byte: u8) -> u64 {
    wrapping_mul(((hash << 5u64) | (hash >> 59u64)) ^ (byte as u64), K)
}

/// The key that a passphrase gives: its bytes folded one after the other
/// into a state that starts at zero.
pub open spec fn seed_of(password: Seq<u8>) -> u64
    decreases password.len(),
{
    if password.len() == 0 {
        0
    } else {
        mixed(seed_of(password.drop_last()), password.last())
    }
}

/// Hashes a passphrase into the 64-bit key of the pixel carrier.
pub fn gen_seed(password: &[u8]) -> (seed: u64)
    ensures
        seed == seed_of(password@),
{
    let mut hash: u64 = 0;
    let mut i: usize = 0;
    proof {
        assert(password@.take(0) =~= Seq::<u8>::empty());
    }
    while i < password.len()
        invariant
            i <= password@.len(),
            hash == seed_of(password@.take(i as int)),
        decreases password@.len() - i,
    {
        proof {
            assert(password@.take(i + 1).drop_last() =~= password@.take(i as int));
        }
        hash = (((hash << 5) | (hash >> 59)) ^ (password[i] as u64)).wrapping_mul(K);
        i += 1;
    }
    proof {
        assert(password@.take(i as int) =~= password@);
    }
    hash
}

} // verus!
