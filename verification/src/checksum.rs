//! The 32-bit cyclic-redundancy checksum that guards every log record.

use vstd::prelude::*;

verus! {

/// The CRC-32 (IEEE polynomial) checksum of a byte sequence.
///
/// The algorithm itself is an outside concern; contracts rely only on the
/// checksum being a pure function of the input bytes.
pub uninterp spec fn crc32_of(data: Seq<u8>) -> u32;

/// Relies on `crc::Crc::<u32>::checksum` with the `CRC_32_ISO_HDLC`
/// algorithm (the CRC-32 of the IEEE polynomial): the result depends on the
/// input bytes alone.
#[verifier::external_body]
pub(crate) fn crc32_ieee(data: &[u8]) -> (r: u32)
    ensures
        r == crc32_of(data@),
{
    crc::Crc::<u32>::new(&crc::CRC_32_ISO_HDLC).checksum(data)
}

} // verus!
