//! The cryptographic digest that fingerprints are cut from.

use vstd::prelude::*;

verus! {

/// The 32-byte BLAKE3 digest of a message, in its default (unkeyed) mode.
pub uninterp spec fn blake3_digest(message: Seq<u8>) -> Seq<u8>;

/// Calls `blake3::hash` and copies the bytes that `Hash::as_bytes` exposes.
/// The contract only names the digest: the same message always has the same
/// digest, and the digest is 32 bytes long, which the result type shows.
#[verifier::external_body]
pub(crate) fn blake3_hash(message: &[u8]) -> (digest: [u8; 32])
    ensures
        digest@ == blake3_digest(message@),
{
    *blake3::hash(message).as_bytes()
}

/// The unsigned 64-bit number that the first eight bytes of a digest spell
/// in little-endian order.
pub open spec fn digest_prefix_value(digest: Seq<u8>) -> u64 {
    vstd::bytes::spec_u64_from_le_bytes(digest.subrange(0, 8))
}

/// Reads the first eight bytes of a digest as a little-endian number.
pub fn digest_prefix(digest: &[u8; 32]) -> (value: u64)
    ensures
        value == digest_prefix_value(digest@),
{
    let mut head: Vec<u8> = Vec::new();
    let mut i: usize = 0;
    while i < 8
        invariant
            i <= 8,
            head@ == digest@.subrange(0, i as int),
        decreases 8 - i,
    {
        head.push(digest[i]);
        assert(head@ =~= digest@.subrange(0, i + 1));
        i = i + 1;
    }
    vstd::bytes::u64_from_le_bytes(head.as_slice())
}

} // verus!
