//! CRC32 (IEEE 802.3, reflected) and CRC64 (CRC-64/XZ, reflected) checksums.

use vstd::prelude::*;

verus! {

/// Reflected polynomial of CRC32 (IEEE 802.3).
pub const CRC32_POLYNOMIAL: u32 = 0xEDB8_8320;

/// Reflected polynomial of CRC-64/XZ.
pub const CRC64_POLYNOMIAL: u64 = 0xC96C_5795_D787_0F42;

/// One shift step of the reflected CRC32 register.
pub open spec fn crc32_step(crc: u32) -> u32 {
    if crc & 1 != 0 { (crc >> 1) ^ CRC32_POLYNOMIAL } else { crc >> 1 }
}

/// `n` shift steps of the reflected CRC32 register.
pub open spec fn crc32_steps(crc: u32, n: nat) -> u32
    decreases n,
{
    if n == 0 { crc } else { crc32_steps(crc32_step(crc), (n - 1) as nat) }
}

/// The register after feeding one byte.
pub open spec fn crc32_feed(crc: u32, byte: u8) -> u32 {
    crc32_steps(crc ^ (byte as u32), 8)
}

/// The register after feeding all of `data`, starting from `init`.
pub open spec fn crc32_register(init: u32, data: Seq<u8>) -> u32
    decreases data.len(),
{
    if data.len() == 0 { init } else { crc32_feed(crc32_register(init, data.drop_last()), data.last()) }
}

/// The CRC32 checksum of `data`: register preset to all ones, result inverted.
pub open spec fn spec_crc32(data: Seq<u8>) -> u32 {
    crc32_register(0xFFFF_FFFF, data) ^ 0xFFFF_FFFF
}

fn crc32_feed_byte(crc: u32, byte: u8) -> (r: u32)
    ensures r == crc32_feed(crc, byte),
{
    let mut c: u32 = crc ^ (byte as u32);
    let mut j: u32 = 0;
    while j < 8
        invariant
            j <= 8,
            crc32_steps(c, (8 - j) as nat) == crc32_feed(crc, byte),
        decreases 8 - j,
    {
        proof { reveal_with_fuel(crc32_steps, 2); }
        if c & 1 != 0 { c = (c >> 1) ^ CRC32_POLYNOMIAL } else { c = c >> 1 }
        j = j + 1;
    }
    c
}

/// Compute the CRC32 checksum of `data`.
pub fn crc32(data: &[u8]) -> (r: u32)
    ensures r == spec_crc32(data@),
{
    let mut crc: u32 = 0xFFFF_FFFF;
    let mut i: usize = 0;
    while i < data.len()
        invariant
            i <= data@.len(),
            crc == crc32_register(0xFFFF_FFFF, data@.subrange(0, i as int)),
        decreases data@.len() - i,
    {
        proof {
            assert(data@.subrange(0, i + 1).drop_last() =~= data@.subrange(0, i as int));
        }
        crc = crc32_feed_byte(crc, data[i]);
        i = i + 1;
    }
    proof { assert(data@.subrange(0, data@.len() as int) =~= data@); }
    crc ^ 0xFFFF_FFFF
}


/// One shift step of the reflected CRC64 register.
pub open spec fn crc64_step(crc: u64) -> u64 {
    if crc & 1 != 0 { (crc >> 1) ^ CRC64_POLYNOMIAL } else { crc >> 1 }
}

/// `n` shift steps of the reflected CRC64 register.
pub open spec fn crc64_steps(crc: u64, n: nat) -> u64
    decreases n,
{
    if n == 0 { crc } else { crc64_steps(crc64_step(crc), (n - 1) as nat) }
}

/// The CRC64 register after feeding one byte.
pub open spec fn crc64_feed(crc: u64, byte: u8) -> u64 {
    crc64_steps(crc ^ (byte as u64), 8)
}

/// The CRC64 register after feeding all of `data`, starting from `init`.
pub open spec fn crc64_register(init: u64, data: Seq<u8>) -> u64
    decreases data.len(),
{
    if data.len() == 0 { init } else { crc64_feed(crc64_register(init, data.drop_last()), data.last()) }
}

/// The CRC64 checksum of `data`: register preset to all ones, result inverted.
pub open spec fn spec_crc64(data: Seq<u8>) -> u64 {
    crc64_register(0xFFFF_FFFF_FFFF_FFFF, data) ^ 0xFFFF_FFFF_FFFF_FFFF
}

fn crc64_feed_byte(crc: u64, byte: u8) -> (r: u64)
    ensures r == crc64_feed(crc, byte),
{
    let mut c: u64 = crc ^ (byte as u64);
    let mut j: u32 = 0;
    while j < 8
        invariant
            j <= 8,
            crc64_steps(c, (8 - j) as nat) == crc64_feed(crc, byte),
        decreases 8 - j,
    {
        proof { reveal_with_fuel(crc64_steps, 2); }
        if c & 1 != 0 { c = (c >> 1) ^ CRC64_POLYNOMIAL } else { c = c >> 1 }
        j = j + 1;
    }
    c
}

/// Compute the CRC64 checksum of `data`.
pub fn crc64(data: &[u8]) -> (r: u64)
    ensures r == spec_crc64(data@),
{
    let mut crc: u64 = 0xFFFF_FFFF_FFFF_FFFF;
    let mut i: usize = 0;
    while i < data.len()
        invariant
            i <= data@.len(),
            crc == crc64_register(0xFFFF_FFFF_FFFF_FFFF, data@.subrange(0, i as int)),
        decreases data@.len() - i,
    {
        proof {
            assert(data@.subrange(0, i + 1).drop_last() =~= data@.subrange(0, i as int));
        }
        crc = crc64_feed_byte(crc, data[i]);
        i = i + 1;
    }
    proof { assert(data@.subrange(0, data@.len() as int) =~= data@); }
    crc ^ 0xFFFF_FFFF_FFFF_FFFF
}

} // verus!
