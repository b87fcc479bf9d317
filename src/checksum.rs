//! The checksum that chunks, verify commands and the skip check share.

use vstd::prelude::*;

verus! {

/// CRC-32 of `data` with polynomial 0x04C11DB7, initial value 0, reflected
/// input and output and no final XOR (check value 0x2DFD2D88 for "123456789").
pub uninterp spec fn crc32_of(data: Seq<u8>) -> u32;

/// Relies on `crc::Crc::<u32>::checksum` for the algorithm described at
/// `crc32_of`: the checksum of a byte slice depends on its bytes alone.
#[verifier::external_body]
fn crc32_checksum(data: &[u8]) -> (r: u32)
    ensures
        r == crc32_of(data@),
{
    let crc = crc::Crc::<u32>::new(
        &crc::Algorithm {
            width: 32,
            poly: 0x04C11DB7,
            init: 0,
            refin: true,
            refout: true,
            xorout: 0,
            check: 0x2DFD2D88,
            residue: 0,
        },
    );
    crc.checksum(data)
}

/// The checksum of `data` as the flash stub computes it.
pub fn crc32(data: &[u8]) -> (r: u32)
    ensures
        r == crc32_of(data@),
{
    crc32_checksum(data)
}

} // verus!
