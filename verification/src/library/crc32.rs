//! CRC32 (IEEE 802.3) for the partition table checks.

use vstd::prelude::*;
use crate::helpers::crc::spec_crc32;

verus! {

/// Compute CRC32 (IEEE 802.3) over `data`, starting from `0xFFFFFFFF` and inverting the result.
pub fn crc32(data: &[u8]) -> (r: u32)
    ensures
        r == spec_crc32(data@),
{
    crate::helpers::crc32::crc32(data)
}

} // verus!
