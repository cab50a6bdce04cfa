//! Table-driven CRC32 (IEEE 802.3): each byte is folded in through a 256-entry table of the
//! register's eight shift steps.

use vstd::prelude::*;
use super::crc::{crc32_step, crc32_steps, crc32_feed, crc32_register, spec_crc32, CRC32_POLYNOMIAL};

verus! {

/// The eight shift steps of the register, spelled out.
pub open spec fn crc32_eight(c: u32) -> u32 {
    crc32_step(crc32_step(crc32_step(crc32_step(crc32_step(crc32_step(crc32_step(crc32_step(c))))))))
}

proof fn lemma_eight_steps(c: u32)
    ensures
        crc32_steps(c, 8) == crc32_eight(c),
{
    reveal_with_fuel(crc32_steps, 9);
}

/// The high 24 bits of the register only shift through the eight steps: the steps of the low
/// byte alone, xored with the register shifted right by eight, give the same register.
proof fn lemma_table_split(c: u32)
    ensures
        crc32_eight(c) == (c >> 8u32) ^ crc32_eight(c & 0xFFu32),
{
    assert(crc32_eight(c) == (c >> 8u32) ^ crc32_eight(c & 0xFFu32)) by (bit_vector);
}

/// Folding a byte into the register is one table lookup.
proof fn lemma_feed_by_table(crc: u32, byte: u8)
    ensures
        crc32_feed(crc, byte) == (crc >> 8u32) ^ crc32_steps((crc ^ (byte as u32)) & 0xFFu32, 8),
{
    let x = crc ^ (byte as u32);
    lemma_eight_steps(x);
    lemma_eight_steps(x & 0xFFu32);
    lemma_table_split(x);
    assert((x >> 8u32) == (crc >> 8u32)) by (bit_vector)
        requires x == crc ^ (byte as u32);
}

/// The 256 entries of the table: entry `i` is the register after eight steps from `i`.
fn crc_table() -> (t: [u32; 256])
    ensures
        forall|i: int| 0 <= i < 256 ==> #[trigger] t@[i] == crc32_steps(i as u32, 8),
{
    let mut table = [0u32; 256];
    let mut i: usize = 0;
    while i < 256
        invariant
            i <= 256,
            forall|j: int| 0 <= j < i ==> #[trigger] table@[j] == crc32_steps(j as u32, 8),
        decreases 256 - i,
    {
        let mut crc: u32 = i as u32;
        let mut j: u32 = 0;
        while j < 8
            invariant
                j <= 8,
                i < 256,
                crc32_steps(crc, (8 - j) as nat) == crc32_steps(i as u32, 8),
            decreases 8 - j,
        {
            proof { reveal_with_fuel(crc32_steps, 2); }
            if crc & 1 != 0 { crc = (crc >> 1) ^ CRC32_POLYNOMIAL } else { crc = crc >> 1 }
            j = j + 1;
        }
        table[i] = crc;
        i = i + 1;
    }
    table
}

/// Compute the CRC checksum of the input.
pub fn crc32(data: &[u8]) -> (r: u32)
    ensures
        r == spec_crc32(data@),
{
    let table = crc_table();
    let mut crc: u32 = u32::MAX;
    let mut i: usize = 0;
    while i < data.len()
        invariant
            i <= data@.len(),
            forall|k: int| 0 <= k < 256 ==> #[trigger] table@[k] == crc32_steps(k as u32, 8),
            crc == crc32_register(0xFFFF_FFFF, data@.subrange(0, i as int)),
        decreases data@.len() - i,
    {
        proof {
            assert(data@.subrange(0, i + 1).drop_last() =~= data@.subrange(0, i as int));
            lemma_feed_by_table(crc, data@[i as int]);
        }
        let b: u32 = data[i] as u32;
        let idx = (crc ^ b) & 0xFF;
        assert(idx < 256) by (bit_vector) requires idx == (crc ^ b) & 0xFF;
        crc = (crc >> 8) ^ table[idx as usize];
        i = i + 1;
    }
    proof { assert(data@.subrange(0, data@.len() as int) =~= data@); }
    crc ^ u32::MAX
}

} // verus!
