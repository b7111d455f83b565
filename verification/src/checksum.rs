//! Checksums and digests computed by outside crates.

use vstd::prelude::*;

verus! {

/// One bit step of the reflected CRC-32 (IEEE) register: shift right, and
/// fold in the polynomial `0xEDB88320` when the bit shifted out was set.
pub open spec fn crc_shift(c: u32) -> u32 {
    if c & 1u32 == 1u32 { (c >> 1u32) ^ 0xEDB8_8320u32 } else { c >> 1u32 }
}

/// The register after taking in byte `b`: the byte is xored into the low
/// bits, then eight bit steps.
pub open spec fn crc_byte(c: u32, b: u8) -> u32 {
    let x = c ^ (b as u32);
    crc_shift(crc_shift(crc_shift(crc_shift(crc_shift(crc_shift(crc_shift(crc_shift(x))))))))
}

/// The register after taking in `data`, starting from all ones.
pub open spec fn crc_register(data: Seq<u8>) -> u32
    decreases data.len(),
{
    if data.len() == 0 {
        0xFFFF_FFFFu32
    } else {
        crc_byte(crc_register(data.drop_last()), data.last())
    }
}

/// The CRC-32 (IEEE) of `data`: the final register, inverted.
pub closed spec fn crc32_of(data: Seq<u8>) -> u32 {
    !crc_register(data)
}

/// Calls `crc32fast::hash`, which computes the CRC-32 (IEEE) of the bytes.
/// Trusted: the result is `crc32_of` of the bytes hashed.
#[verifier::external_body]
pub(crate) fn crc32(data: &[u8]) -> (crc: u32)
    ensures
        crc == crc32_of(data@),
{
    crc32fast::hash(data)
}

} // verus!
