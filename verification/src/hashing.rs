//! The hash that places servers and clients on the ring.
use std::collections::hash_map::DefaultHasher;
use std::hash::{Hash, Hasher};
use vstd::prelude::*;
use vstd::std_specs::hash::DefaultHasherAdditionalSpecFns;

verus! {

/// What `<str as Hash>::hash` writes into a hasher for the given characters, write by write.
pub uninterp spec fn str_hash_writes(key: Seq<char>) -> Seq<Seq<u8>>;

/// Calls `<str as Hash>::hash` on `key`.
///
/// Claimed of it: it does nothing to the hasher but append its writes, and these depend on
/// the characters of `key` alone. What bytes it writes is left to the standard library.
#[verifier::external_body]
fn feed_str(key: &str, hasher: &mut DefaultHasher)
    ensures
        final(hasher)@ == old(hasher)@ + str_hash_writes(key@),
{
    key.hash(hasher);
}

/// The low 32 bits of `full`.
pub fn low32(full: u64) -> (h: u32)
    ensures
        h == full % 0x1_0000_0000,
{
    let low: u64 = full & 0xffff_ffff;
    assert(low == full % 0x1_0000_0000) by (bit_vector)
        requires
            low == full & 0xffff_ffff,
    ;
    low as u32
}

/// The 32-bit hash of `key`: the low half of what a fresh `DefaultHasher` gives for it.
pub open spec fn hash32_of(key: Seq<char>) -> u32 {
    (DefaultHasher::spec_finish(str_hash_writes(key)) % 0x1_0000_0000) as u32
}

/// Hashes `key` to 32 bits.
pub fn hash32(key: &str) -> (h: u32)
    ensures
        h == hash32_of(key@),
{
    let mut hasher = DefaultHasher::new();
    feed_str(key, &mut hasher);
    assert(hasher@ == str_hash_writes(key@));
    low32(hasher.finish())
}

/// The hash of a key differs from what a fresh hasher gives for the whole key only by a multiple
/// of two to the power of 32.
pub proof fn law_hash_is_the_low_half(key: &str, hash: u32)
    requires
        call_ensures(hash32, (key,), hash),
    ensures
        (DefaultHasher::spec_finish(str_hash_writes(key@)) - hash) % 0x1_0000_0000 == 0,
{
}

/// The low half of a number differs from it only by a multiple of two to the power of 32.
pub proof fn law_low_half(full: u64, half: u32)
    requires
        call_ensures(low32, (full,), half),
    ensures
        (full - half) % 0x1_0000_0000 == 0,
{
}

} // verus!
