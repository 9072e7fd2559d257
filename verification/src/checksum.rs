//! The CRC-32 (IEEE) checksum that guards every log record.

use vstd::prelude::*;

verus! {

/// The IEEE CRC-32 checksum of a byte sequence, a function of the bytes alone.
pub uninterp spec fn crc32_of(bytes: Seq<u8>) -> u32;

/// Relies on crc32fast::hash: the IEEE CRC-32 of the bytes, depending on
/// the bytes alone.
#[verifier::external_body]
pub fn crc32(bytes: &[u8]) -> (r: u32)
    ensures
        r == crc32_of(bytes@),
{
    crc32fast::hash(bytes)
}

} // verus!
