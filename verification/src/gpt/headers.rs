//! GPT on-disk data structures, read from their little-endian bytes.

use vstd::prelude::*;
use vstd::bytes::{spec_u16_from_le_bytes, spec_u32_from_le_bytes, spec_u64_from_le_bytes,
    u16_from_le_bytes, u32_from_le_bytes, u64_from_le_bytes};
use vstd::slice::slice_subrange;
use crate::fs::lemonfs::disk::copy_into;

verus! {

/// Size of a GPT header in bytes.
pub const GPT_HEADER_SIZE: usize = 92;

/// Size of a partition entry in bytes.
pub const GPT_ENTRY_SIZE: usize = 128;

/// The `u16` stored little-endian at `off` in `b`.
pub open spec fn le_u16_at(b: Seq<u8>, off: int) -> u16 {
    spec_u16_from_le_bytes(b.subrange(off, off + 2))
}

/// The `u32` stored little-endian at `off` in `b`.
pub open spec fn le_u32_at(b: Seq<u8>, off: int) -> u32 {
    spec_u32_from_le_bytes(b.subrange(off, off + 4))
}

/// The `u64` stored little-endian at `off` in `b`.
pub open spec fn le_u64_at(b: Seq<u8>, off: int) -> u64 {
    spec_u64_from_le_bytes(b.subrange(off, off + 8))
}

/// Reads the little-endian `u16` at `off`.
pub fn read_u16(b: &[u8], off: usize) -> (r: u16)
    requires
        off + 2 <= b@.len(),
    ensures
        r == le_u16_at(b@, off as int),
{
    let _n = b.len();
    u16_from_le_bytes(slice_subrange(b, off, off + 2))
}

/// Reads the little-endian `u32` at `off`.
pub fn read_u32(b: &[u8], off: usize) -> (r: u32)
    requires
        off + 4 <= b@.len(),
    ensures
        r == le_u32_at(b@, off as int),
{
    let _n = b.len();
    u32_from_le_bytes(slice_subrange(b, off, off + 4))
}

/// Reads the little-endian `u64` at `off`.
pub fn read_u64(b: &[u8], off: usize) -> (r: u64)
    requires
        off + 8 <= b@.len(),
    ensures
        r == le_u64_at(b@, off as int),
{
    let _n = b.len();
    u64_from_le_bytes(slice_subrange(b, off, off + 8))
}

/// The first partition slot of the protective MBR.
#[derive(Debug, Clone, Copy)]
pub struct ProtectivePartitionEntry {
    /// 0: not bootable.
    pub boot_indicator: u8,
    pub start_chs: [u8; 3],
    /// 0xEE: GPT protective.
    pub os_type: u8,
    pub end_chs: [u8; 3],
    pub start_lba: u32,
    /// 0xFFFFFFFF when the disk is larger than 32-bit LBAs reach.
    pub size_lbas: u32,
}

/// The protective MBR in sector 0.
#[derive(Debug, Clone, Copy)]
pub struct ProtectiveMBR {
    /// Unused under GPT.
    pub boot_code: [u8; 440],
    pub disk_signature: u32,
    pub reserved: u16,
    pub partition_entry: ProtectivePartitionEntry,
    /// The three unused partition slots.
    pub reserved1: [u8; 48],
    /// 0xAA55.
    pub boot_sig: u16,
}

impl ProtectiveMBR {
    /// The MBR held by the 512 bytes of sector 0.
    pub fn from_bytes(b: &[u8]) -> (r: Self)
        requires
            b@.len() >= 512,
        ensures
            r.boot_code@ == b@.subrange(0, 440),
            r.disk_signature == le_u32_at(b@, 440),
            r.reserved == le_u16_at(b@, 444),
            r.partition_entry.boot_indicator == b@[446],
            r.partition_entry.start_chs@ == b@.subrange(447, 450),
            r.partition_entry.os_type == b@[450],
            r.partition_entry.end_chs@ == b@.subrange(451, 454),
            r.partition_entry.start_lba == le_u32_at(b@, 454),
            r.partition_entry.size_lbas == le_u32_at(b@, 458),
            r.reserved1@ == b@.subrange(462, 510),
            r.boot_sig == le_u16_at(b@, 510),
    {
        let mut boot_code = [0u8; 440];
        copy_into(&mut boot_code, b, 0);
        let mut start_chs = [0u8; 3];
        copy_into(&mut start_chs, b, 447);
        let mut end_chs = [0u8; 3];
        copy_into(&mut end_chs, b, 451);
        let mut reserved1 = [0u8; 48];
        copy_into(&mut reserved1, b, 462);
        ProtectiveMBR {
            boot_code,
            disk_signature: read_u32(b, 440),
            reserved: read_u16(b, 444),
            partition_entry: ProtectivePartitionEntry {
                boot_indicator: b[446],
                start_chs,
                os_type: b[450],
                end_chs,
                start_lba: read_u32(b, 454),
                size_lbas: read_u32(b, 458),
            },
            reserved1,
            boot_sig: read_u16(b, 510),
        }
    }
}

/// A GPT header (primary in sector 1, backup in the last sector).
#[derive(Debug, Clone, Copy)]
pub struct PrimaryGPTHeader {
    /// Must be `b"EFI PART"`.
    pub signature: [u8; 8],
    /// Usually 0x00010000.
    pub revision: u32,
    /// Size of the header in bytes.
    pub size: u32,
    /// CRC32 of the header, taken with this field zero.
    pub checksum: u32,
    /// Must be 0.
    pub reserved: u32,
    /// LBA of this header.
    pub this_lba: u64,
    /// LBA of the other header.
    pub alternate_lba: u64,
    /// First usable LBA.
    pub start_lba: u64,
    /// Last usable LBA.
    pub end_lba: u64,
    /// Unique disk identifier.
    pub disk_guid: [u8; 16],
    /// First LBA of the partition entry array.
    pub part_entry_lba: u64,
    /// Number of entries in the array.
    pub entry_count: u32,
    /// Bytes per entry.
    pub entry_size: u32,
    /// CRC32 of the raw entry array.
    pub entry_array_crc: u32,
}

/// The header that the 92 bytes of `b` spell.
pub open spec fn header_fields_match(h: PrimaryGPTHeader, b: Seq<u8>) -> bool {
    &&& h.signature@ == b.subrange(0, 8)
    &&& h.revision == le_u32_at(b, 8)
    &&& h.size == le_u32_at(b, 12)
    &&& h.checksum == le_u32_at(b, 16)
    &&& h.reserved == le_u32_at(b, 20)
    &&& h.this_lba == le_u64_at(b, 24)
    &&& h.alternate_lba == le_u64_at(b, 32)
    &&& h.start_lba == le_u64_at(b, 40)
    &&& h.end_lba == le_u64_at(b, 48)
    &&& h.disk_guid@ == b.subrange(56, 72)
    &&& h.part_entry_lba == le_u64_at(b, 72)
    &&& h.entry_count == le_u32_at(b, 80)
    &&& h.entry_size == le_u32_at(b, 84)
    &&& h.entry_array_crc == le_u32_at(b, 88)
}

impl PrimaryGPTHeader {
    /// The header held by the first 92 bytes of `b`.
    pub fn from_bytes(b: &[u8]) -> (r: Self)
        requires
            b@.len() >= GPT_HEADER_SIZE,
        ensures
            header_fields_match(r, b@),
    {
        let mut signature = [0u8; 8];
        copy_into(&mut signature, b, 0);
        let mut disk_guid = [0u8; 16];
        copy_into(&mut disk_guid, b, 56);
        PrimaryGPTHeader {
            signature,
            revision: read_u32(b, 8),
            size: read_u32(b, 12),
            checksum: read_u32(b, 16),
            reserved: read_u32(b, 20),
            this_lba: read_u64(b, 24),
            alternate_lba: read_u64(b, 32),
            start_lba: read_u64(b, 40),
            end_lba: read_u64(b, 48),
            disk_guid,
            part_entry_lba: read_u64(b, 72),
            entry_count: read_u32(b, 80),
            entry_size: read_u32(b, 84),
            entry_array_crc: read_u32(b, 88),
        }
    }
}

/// One entry of the partition array.
#[derive(Debug, Clone, Copy)]
pub struct GPTPartitionEntry {
    /// Type GUID; all zero for an unused entry.
    pub partition_type: [u8; 16],
    /// Unique partition GUID.
    pub guid: [u8; 16],
    /// First LBA (inclusive).
    pub start_lba: u64,
    /// Last LBA (inclusive).
    pub end_lba: u64,
    /// Attribute bits.
    pub flags: u64,
    /// Name in UTF-16.
    pub name: [u16; 36],
}

/// The plain fields of a partition entry: type, GUID, first and last LBA, flags and name.
pub type EntryView = (Seq<u8>, Seq<u8>, u64, u64, u64, Seq<u16>);

impl View for GPTPartitionEntry {
    type V = EntryView;

    open spec fn view(&self) -> EntryView {
        (self.partition_type@, self.guid@, self.start_lba, self.end_lba, self.flags, self.name@)
    }
}

/// The entry spelled by the 128 bytes of `b` at `off`.
pub open spec fn entry_view_at(b: Seq<u8>, off: int) -> EntryView {
    (
        b.subrange(off, off + 16),
        b.subrange(off + 16, off + 32),
        le_u64_at(b, off + 32),
        le_u64_at(b, off + 40),
        le_u64_at(b, off + 48),
        Seq::new(36, |k: int| le_u16_at(b, off + 56 + 2 * k)),
    )
}

impl GPTPartitionEntry {
    /// The entry held by the 128 bytes of `b` at `off`.
    pub fn from_bytes(b: &[u8], off: usize) -> (r: Self)
        requires
            off + GPT_ENTRY_SIZE <= b@.len(),
        ensures
            r@ == entry_view_at(b@, off as int),
    {
        let n = b.len();
        let mut partition_type = [0u8; 16];
        copy_into(&mut partition_type, b, off);
        let mut guid = [0u8; 16];
        copy_into(&mut guid, b, off + 16);
        let mut name = [0u16; 36];
        let mut k: usize = 0;
        while k < 36
            invariant
                off + GPT_ENTRY_SIZE <= b@.len(),
                n == b@.len(),
                k <= 36,
                forall|j: int| 0 <= j < k ==> name@[j] == le_u16_at(b@, off + 56 + 2 * j),
            decreases 36 - k,
        {
            name[k] = read_u16(b, off + 56 + 2 * k);
            k = k + 1;
        }
        let r = GPTPartitionEntry {
            partition_type,
            guid,
            start_lba: read_u64(b, off + 32),
            end_lba: read_u64(b, off + 40),
            flags: read_u64(b, off + 48),
            name,
        };
        assert(r.name@ =~= Seq::new(36, |k: int| le_u16_at(b@, off + 56 + 2 * k)));
        r
    }
}

} // verus!
