//! The 64-bit FNV-1a hash.

use vstd::prelude::*;

verus! {

/// Start value of the hash.
pub const HASH_START: u64 = 0xcbf2_9ce4_8422_2325;

/// Multiplier of the hash.
pub const HASH_PRIME: u64 = 0x0000_0100_0000_01b3;

/// `a` times the multiplier, by its low 64 bits.
pub open spec fn spread(a: u64) -> u64 {
    ((a * HASH_PRIME) % 0x1_0000_0000_0000_0000) as u64
}

/// The hash of some bytes.
pub open spec fn hash_of(bytes: Seq<u8>) -> u64
    decreases bytes.len(),
{
    if bytes.len() == 0 {
        HASH_START
    } else {
        spread(hash_of(bytes.drop_last()) ^ (bytes.last() as u64))
    }
}

/// The hash of some bytes.
pub fn hash_bytes(b: &[u8]) -> (r: u64)
    ensures
        r == hash_of(b@),
{
    let mut h: u64 = HASH_START;
    let mut i: usize = 0;
    while i < b.len()
        invariant
            i <= b@.len(),
            h == hash_of(b@.take(i as int)),
        decreases b@.len() - i,
    {
        proof {
            let next = b@.take(i + 1);
            assert(next.drop_last() =~= b@.take(i as int));
            assert(next.last() == b@[i as int]);
        }
        h = (h ^ (b[i] as u64)).wrapping_mul(HASH_PRIME);
        i = i + 1;
    }
    assert(b@.take(i as int) =~= b@);
    h
}

/// One code out of two.
pub open spec fn mixed(a: u64, b: u64) -> u64 {
    spread(a) ^ b
}

/// One code out of two.
pub fn mix(a: u64, b: u64) -> (r: u64)
    ensures
        r == mixed(a, b),
{
    a.wrapping_mul(HASH_PRIME) ^ b
}


/// The hash is FNV-1a: it starts at the offset basis, and each byte is mixed in
/// and spread by the prime, modulo 2^64.
pub proof fn law_the_hash_is_fnv(bytes: Seq<u8>, b: u8)
    ensures
        hash_of(Seq::empty()) == 14_695_981_039_346_656_037,
        hash_of(bytes.push(b)) == ((hash_of(bytes) ^ (b as u64)) * 1_099_511_628_211)
            % 18_446_744_073_709_551_616,
{
    assert(bytes.push(b).drop_last() =~= bytes);
}

} // verus!
