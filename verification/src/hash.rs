//! The hash that stands for a name: 64-bit FNV-1a over the name's bytes.

use vstd::prelude::*;
use vstd::string::StringSliceAdditionalSpecFns;

verus! {

/// The value the hash starts from.
pub const FNV_OFFSET: u64 = 0xcbf2_9ce4_8422_2325;

/// The factor every byte is mixed in with.
pub const FNV_PRIME: u64 = 0x0000_0100_0000_01b3;

/// One round: fold the byte in, then multiply, keeping the low 64 bits.
pub open spec fn fnv_round(h: u64, b: u8) -> u64 {
    vstd::wrapping::u64_specs::wrapping_mul(h ^ (b as u64), FNV_PRIME)
}

/// The hash of a byte string: the rounds applied from the first byte to the
/// last, starting at [`FNV_OFFSET`].
pub open spec fn spec_hash(bytes: Seq<u8>) -> u64
    decreases bytes.len(),
{
    if bytes.len() == 0 {
        FNV_OFFSET
    } else {
        fnv_round(spec_hash(bytes.drop_last()), bytes.last())
    }
}

/// Hashes the bytes of a slice.
pub fn hash_bytes(bytes: &[u8]) -> (h: u64)
    ensures
        h == spec_hash(bytes@),
{
    let mut h: u64 = FNV_OFFSET;
    let mut i: usize = 0;
    while i < bytes.len()
        invariant
            i <= bytes@.len(),
            h == spec_hash(bytes@.take(i as int)),
        decreases bytes@.len() - i,
    {
        assert(bytes@.take(i + 1).drop_last() == bytes@.take(i as int));
        h = (h ^ (bytes[i] as u64)).wrapping_mul(FNV_PRIME);
        i += 1;
    }
    assert(bytes@.take(i as int) == bytes@);
    h
}

/// Hashes a name. Two names with the same bytes have the same hash, on every
/// machine and in every run.
pub fn hash_name(name: &str) -> (h: u64)
    ensures
        h == spec_hash(name.spec_bytes()),
{
    hash_bytes(name.as_bytes())
}

} // verus!
