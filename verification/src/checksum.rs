use vstd::prelude::*;

verus! {

/// The CRC-32 (IEEE polynomial) checksum of a byte sequence, as the `crc`
/// crate computes it. The engine never reasons about the checksum's bits:
/// records carry it and decoding compares it, so the value stays a name.
pub uninterp spec fn crc32_of(data: Seq<u8>) -> u32;

/// Relies on crc::crc32::checksum_ieee: the CRC-32/IEEE checksum of the
/// slice, a pure function of the bytes alone.
#[verifier::external_body]
pub(crate) fn crc32(data: &[u8]) -> (r: u32)
    ensures
        r == crc32_of(data@),
{
    crc::crc32::checksum_ieee(data)
}

} // verus!
