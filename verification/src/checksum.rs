//! CRC32 (IEEE) checksums, computed by the `crc32fast` crate.
use vstd::prelude::*;

verus! {

/// The CRC32 (IEEE) checksum of a byte sequence, as `crc32fast::hash` computes it.
pub uninterp spec fn crc32(data: Seq<u8>) -> u32;

/// Calls `crc32fast::hash`. Trusted: the result is the CRC32 checksum of
/// exactly the bytes of `data`, a function of those bytes alone (named
/// `crc32`); the polynomial arithmetic itself is not stated here.
#[verifier::external_body]
pub(crate) fn crc32_hash(data: &[u8]) -> (r: u32)
    ensures
        r == crc32(data@),
{
    crc32fast::hash(data)
}

} // verus!
