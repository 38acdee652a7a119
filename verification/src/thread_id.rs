//! Numbers that tell threads apart.

use vstd::prelude::*;

verus! {

/// What one word does to a hash: it is combined with the hash, rotated by five bits,
/// and multiplied by a constant.
pub open spec fn hashed(hash: u32, word: u32) -> u32 {
    let mixed = ((hash << 5) | (hash >> 27)) ^ word;
    ((mixed * 0x2722_0a95) % 0x1_0000_0000) as u32
}

/// The hash of an address: of its lower half, then of its upper half.
pub open spec fn address_hash(address: u64) -> u32 {
    hashed(hashed(0, (address % 0x1_0000_0000) as u32), (address / 0x1_0000_0000) as u32)
}

/// `fxhash::hash32` hashes a number a word at a time, the lower half first.
#[verifier::external_body]
fn hash32(address: u64) -> (hash: u32)
    ensures
        hash == address_hash(address),
{
    fxhash::hash32(&address)
}

/// The number of the thread that has a thread-local value at the given address.
///
/// The address alone would tell threads apart too; it is hashed so that the
/// numbers are usefully distributed.
pub fn thread_id(address: u64) -> (id: u64)
    ensures
        id == address_hash(address),
{
    hash32(address) as u64
}

} // verus!
