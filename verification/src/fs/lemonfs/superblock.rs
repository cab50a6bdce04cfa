//! Superblock checksums and the form in which a superblock is written.

use vstd::prelude::*;
use super::disk::{SuperBlock, SuperBlockFlags, SB_DIRTY, SB_BACKUP_SYNC};
use crate::helpers::crc::{crc64, spec_crc64};
use super::disk::le64;
use vstd::bytes::{spec_u32_to_le_bytes, spec_u32_from_le_bytes, lemma_auto_spec_u64_to_from_le_bytes, lemma_auto_spec_u32_to_from_le_bytes};

verus! {

/// The superblock with its checksum field zero.
pub open spec fn without_checksum(sb: SuperBlock) -> SuperBlock {
    SuperBlock { checksum: 0, ..sb }
}

/// A superblock is intact when its checksum is the CRC64 of its image taken with the checksum zero.
pub open spec fn sb_intact(sb: SuperBlock) -> bool {
    sb.checksum == spec_crc64(without_checksum(sb).image())
}

/// The CRC64 of the sector image of `sb`.
pub fn get_sb_checksum(sb: &SuperBlock) -> (r: u64)
    ensures
        r == spec_crc64(sb.image()),
{
    let bytes = sb.to_bytes();
    crc64(bytes.as_slice())
}

/// Returns `true` if the checksum of `sb` matches its contents.
pub fn check_sb(sb: &SuperBlock) -> (r: bool)
    ensures
        r == sb_intact(*sb),
{
    let mut clone = *sb;
    clone.checksum = 0;
    assert(clone == without_checksum(*sb));
    sb.checksum == get_sb_checksum(&clone)
}

/// The superblock as it is written to disk: not dirty, backup in sync, checksum filled in.
pub open spec fn spec_sealed(sb: SuperBlock) -> SuperBlock {
    let flags = SuperBlockFlags { bits: (sb.flags.bits & !SB_DIRTY) | SB_BACKUP_SYNC };
    let zeroed = SuperBlock { flags, checksum: 0, ..sb };
    SuperBlock { checksum: spec_crc64(zeroed.image()), ..zeroed }
}

/// The superblock that is written to both superblock sectors.
pub fn seal_sb(sb: &SuperBlock) -> (r: SuperBlock)
    ensures
        r == spec_sealed(*sb),
{
    let mut flags = sb.flags;
    flags.bits = flags.bits & !SB_DIRTY;
    flags.bits = flags.bits | SB_BACKUP_SYNC;

    let mut superblock = *sb;
    superblock.flags = flags;
    superblock.checksum = 0;
    superblock.checksum = get_sb_checksum(&superblock);
    superblock
}

/// A sealed superblock passes the checksum check, and so does the one read back from its image:
/// what `write_sb` writes, `get_superblock` accepts.
pub proof fn lemma_sealed_is_intact(sb: SuperBlock)
    ensures
        sb_intact(spec_sealed(sb)),
        spec_sealed(sb).image().len() == 512,
        forall|r: SuperBlock| r.image() == spec_sealed(sb).image() ==> #[trigger] sb_intact(r),
{
    let s = spec_sealed(sb);
    lemma_auto_spec_u64_to_from_le_bytes();
    lemma_auto_spec_u32_to_from_le_bytes();
    assert(le64(s.flags.bits).len() == 8 && le64(s.checksum).len() == 8 && le64(s.bitmap_start).len() == 8
        && le64(s.data_start).len() == 8 && le64(s.data_end).len() == 8 && spec_u32_to_le_bytes(s.version).len() == 4);
    assert(without_checksum(s) == SuperBlock { checksum: 0, ..s });
    assert forall|r: SuperBlock| r.image() == s.image() implies #[trigger] sb_intact(r) by {
        lemma_image_injective(r, s);
    }
}

/// Two superblocks with the same image are the same superblock.
pub proof fn lemma_image_injective(a: SuperBlock, b: SuperBlock)
    requires
        a.image() == b.image(),
    ensures
        a == b,
{
    lemma_auto_spec_u64_to_from_le_bytes();
    lemma_auto_spec_u32_to_from_le_bytes();
    let ia = a.image();
    assert(a.magic@ == ia.subrange(0, 8));
    assert(b.magic@ == ia.subrange(0, 8));
    assert(spec_u32_to_le_bytes(a.version) == ia.subrange(8, 12));
    assert(spec_u32_to_le_bytes(b.version) == ia.subrange(8, 12));
    assert(a.reserved@ == ia.subrange(12, 16));
    assert(b.reserved@ == ia.subrange(12, 16));
    assert(le64(a.flags.bits) == ia.subrange(16, 24));
    assert(le64(b.flags.bits) == ia.subrange(16, 24));
    assert(le64(a.checksum) == ia.subrange(24, 32));
    assert(le64(b.checksum) == ia.subrange(24, 32));
    assert(le64(a.bitmap_start) == ia.subrange(32, 40));
    assert(le64(b.bitmap_start) == ia.subrange(32, 40));
    assert(le64(a.data_start) == ia.subrange(40, 48));
    assert(le64(b.data_start) == ia.subrange(40, 48));
    assert(le64(a.data_end) == ia.subrange(48, 56));
    assert(le64(b.data_end) == ia.subrange(48, 56));
    assert(a.padding@ == ia.subrange(56, 512));
    assert(b.padding@ == ia.subrange(56, 512));
    assert(a.version == spec_u32_from_le_bytes(spec_u32_to_le_bytes(a.version)));
    assert(b.version == spec_u32_from_le_bytes(spec_u32_to_le_bytes(b.version)));
    assert(a.magic == b.magic);
    assert(a.reserved == b.reserved);
    assert(a.padding == b.padding);
}

} // verus!
