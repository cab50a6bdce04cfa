//! The data headers of the hash-table layout.

use vstd::prelude::*;
use super::{FILENAME_LEN, MAGIC, HashFsError};
use crate::fs::lemonfs::disk::byte_bit;

verus! {

/// Size of a sector in bytes.
pub const LBA_SIZE: u64 = 512;

/// Hash entries per hash-table block (a 74-byte entry in a 512-byte block).
pub const HASHES_PER_BLOCK: usize = 6;

/// Link entries per link block.
pub const LINKS_PER_BLOCK: usize = 32;

/// Hash pointers per directory block (a 9-byte pointer in a 512-byte block).
pub const CHILDREN_PER_BLOCK: usize = 56;

/// Bytes of a bitmap block.
pub const BITMAP_SIZE: usize = 512;

/// The superblock of the hash-table layout.
#[derive(Debug, Clone, Copy)]
pub struct SuperBlock {
    pub magic: u64,
    pub version: u16,
    pub total_blocks: u64,
    pub hashmap_size: u64,
    pub bitmap_size: u64,
    pub dirty: bool,
    pub padding: [u8; 477],
}

/// `a / b` rounded up.
pub open spec fn div_ceil(a: int, b: int) -> int {
    (a + b - 1) / b
}

/// `a / b` rounded up, for `b > 0`.
pub fn u64_div_ceil(a: u64, b: u64) -> (r: u64)
    requires
        b > 0,
    ensures
        r == div_ceil(a as int, b as int),
{
    let q = a / b;
    let m = a % b;
    proof {
        vstd::arithmetic::div_mod::lemma_fundamental_div_mod(a as int, b as int);
        assert(m != 0 ==> b >= 2);
        assert(b >= 2 ==> q * b <= a && q < u64::MAX) by (nonlinear_arith)
            requires q * b + m == a, m >= 0, a <= u64::MAX;
    }
    let r = if m != 0 { q + 1 } else { q };
    proof {
        let rem: int = if m != 0 { m - 1 } else { b - 1 };
        assert(a + b - 1 == r * b + rem) by (nonlinear_arith)
            requires a == q * b + m, r == (if m != 0 { q + 1 } else { q as int }), rem == (if m != 0 { m - 1 } else { b - 1 });
        vstd::arithmetic::div_mod::lemma_fundamental_div_mod_converse(a + b - 1, b as int, r as int, rem);
    }
    r
}

/// The number of hash-table slots for a disk of `lbas` sectors.
pub open spec fn spec_hashmap_size(lbas: int) -> int {
    if 4096 >= lbas / 10_000 { 4096 } else { lbas / 10_000 }
}

impl SuperBlock {
    /// A fresh superblock for a drive of `capacity` bytes: the table has one slot per 10 000
    /// sectors (at least 4096) and the bitmap covers every sector after the table.
    pub fn new(capacity: u64) -> (r: Self)
        requires
            capacity / LBA_SIZE >= 1 + div_ceil(spec_hashmap_size((capacity / LBA_SIZE) as int), HASHES_PER_BLOCK as int),
        ensures
            r.magic == MAGIC,
            r.version == 2,
            r.total_blocks == capacity / LBA_SIZE,
            r.hashmap_size == spec_hashmap_size((capacity / LBA_SIZE) as int),
            r.bitmap_size == div_ceil(r.total_blocks - (1 + div_ceil(r.hashmap_size as int, HASHES_PER_BLOCK as int)), 4096),
            !r.dirty,
            r.padding@ == Seq::new(477, |i: int| 0xFFu8),
    {
        let lbas = capacity / LBA_SIZE;
        let hashmap_size = if 4096 >= lbas / 10_000 { 4096 } else { lbas / 10_000 };
        let remaining = lbas - (1 + u64_div_ceil(hashmap_size, HASHES_PER_BLOCK as u64));
        let bitmap_size = u64_div_ceil(remaining, 4096);
        let r = Self {
            magic: MAGIC,
            version: 2,
            total_blocks: lbas,
            hashmap_size,
            bitmap_size,
            dirty: false,
            padding: [u8::MAX; 477],
        };
        assert(r.padding@ =~= Seq::new(477, |i: int| 0xFFu8));
        r
    }

    /// The first bitmap block: right after the superblock and the hash table.
    pub fn bitmap_start(&self) -> (r: u64)
        ensures
            r == 1 + div_ceil(self.hashmap_size as int, HASHES_PER_BLOCK as int),
    {
        1 + u64_div_ceil(self.hashmap_size, HASHES_PER_BLOCK as u64)
    }

    /// The first data block: right after the bitmap.
    pub fn data_start(&self) -> (r: u64)
        requires
            1 + div_ceil(self.hashmap_size as int, HASHES_PER_BLOCK as int) + self.bitmap_size <= u64::MAX,
        ensures
            r == 1 + div_ceil(self.hashmap_size as int, HASHES_PER_BLOCK as int) + self.bitmap_size,
    {
        self.bitmap_start() + self.bitmap_size
    }
}

/// The status of a hash-table slot.
#[derive(Debug, Clone, Copy, PartialEq, Eq, Structural)]
pub enum HashStatus {
    Unused,
    Used,
    Tombstone,
}

impl HashStatus {
    /// The on-disk byte of the status.
    pub fn as_byte(&self) -> (r: u8)
        ensures
            r == (match *self { HashStatus::Unused => 0u8, HashStatus::Used => 1u8, HashStatus::Tombstone => 255u8 }),
    {
        match self { Self::Unused => 0, Self::Used => 1, Self::Tombstone => 255 }
    }
}

/// The kinds of entries.
#[derive(Debug, Clone, Copy, PartialEq, Eq, Structural)]
pub enum FileType {
    File,
    Directory,
    Unknown,
}

/// The kind that a type byte stands for.
pub open spec fn spec_file_type(v: u8) -> FileType {
    if v == 0 { FileType::File } else if v == 1 { FileType::Directory } else { FileType::Unknown }
}

impl FileType {
    /// The on-disk byte of the kind.
    pub fn as_byte(&self) -> (r: u8)
        ensures
            r == (match *self { FileType::File => 0u8, FileType::Directory => 1u8, FileType::Unknown => 2u8 }),
    {
        match self { Self::File => 0, Self::Directory => 1, Self::Unknown => 2 }
    }
}

impl From<u8> for FileType {
    fn from(v: u8) -> (r: Self) {
        match v {
            0 => FileType::File,
            1 => FileType::Directory,
            _ => FileType::Unknown,
        }
    }
}

impl vstd::std_specs::convert::FromSpecImpl<u8> for FileType {
    open spec fn obeys_from_spec() -> bool {
        true
    }

    open spec fn from_spec(v: u8) -> FileType {
        spec_file_type(v)
    }
}

/// A pointer to the next fragment of a file: the data (if direct, `size != 0`) or the link
/// block (if indirect, `size == 0`) at `ptr`.
#[derive(Debug, Clone, Copy, PartialEq, Eq, Structural)]
pub struct LinkEntry {
    pub ptr: u64,
    pub size: u64,
}

/// An entry of the hash table.
#[derive(Debug, Clone, Copy)]
pub struct HashEntry {
    pub status: HashStatus,
    pub type_: FileType,
    pub name: [u8; FILENAME_LEN],
    pub start_block: u64,
    pub file_size: u64,
    pub link: LinkEntry,
}

impl HashEntry {
    /// A used entry of kind `type_` named `name`, starting at `start`, of `size` bytes, no link.
    pub fn new(type_: FileType, name: [u8; FILENAME_LEN], start: u64, size: u64) -> (r: Self)
        ensures
            r.status == HashStatus::Used,
            r.type_ == type_,
            r.name == name,
            r.start_block == start,
            r.file_size == size,
            r.link == (LinkEntry { ptr: 0, size: 0 }),
    {
        HashEntry {
            status: HashStatus::Used,
            type_,
            name,
            start_block: start,
            file_size: size,
            link: LinkEntry { ptr: 0, size: 0 },
        }
    }
}

/// A sector's worth of hash entries.
#[derive(Debug, Clone, Copy)]
pub struct HashTableBlock {
    pub entries: [HashEntry; HASHES_PER_BLOCK],
    pub padding: [u8; 68],
}

impl HashEntry {
    /// An unused entry with every field zero.
    pub fn unused() -> (r: Self)
        ensures
            r.status == HashStatus::Unused,
            r.type_ == FileType::File,
            forall|i: int| 0 <= i < FILENAME_LEN ==> r.name@[i] == 0u8,
            r.start_block == 0,
            r.file_size == 0,
            r.link == (LinkEntry { ptr: 0, size: 0 }),
    {
        HashEntry {
            status: HashStatus::Unused,
            type_: FileType::File,
            name: [0u8; FILENAME_LEN],
            start_block: 0,
            file_size: 0,
            link: LinkEntry { ptr: 0, size: 0 },
        }
    }
}

/// A pointer to a hash entry: its hash-table block and its index in that block.
#[derive(Debug, Clone, Copy, PartialEq, Eq, Structural)]
pub struct HashPointer {
    pub lba: u64,
    pub offset: u8,
}

impl HashPointer {
    /// The pointer to slot `index` of the table (pass `index % hashmap_size`).
    pub fn new(index: u64) -> (r: Self)
        ensures
            r.lba == 1 + index / HASHES_PER_BLOCK as u64,
            r.offset == index % HASHES_PER_BLOCK as u64,
    {
        let lba = 1 + index / HASHES_PER_BLOCK as u64;
        let offset = (index % HASHES_PER_BLOCK as u64) as u8;
        Self { lba, offset }
    }

    /// The hash-table block of the pointer.
    pub fn lba(&self) -> (r: u64)
        ensures r == self.lba,
    {
        self.lba
    }
}

/// A block of link entries.
#[derive(Debug, Clone, Copy)]
pub struct LinkBlock {
    pub entries: [LinkEntry; LINKS_PER_BLOCK],
}

impl LinkBlock {
    /// A block of null links.
    pub fn new() -> (r: Self)
        ensures
            forall|i: int| 0 <= i < LINKS_PER_BLOCK ==> r.entries@[i] == (LinkEntry { ptr: 0, size: 0 }),
    {
        Self { entries: [LinkEntry { ptr: 0, size: 0 }; LINKS_PER_BLOCK] }
    }
}

/// A bitmap block for file allocation.
#[derive(Debug, Clone, Copy)]
pub struct Bitmap {
    pub entries: [u8; BITMAP_SIZE],
}

impl Bitmap {
    /// Bit `i` of the bitmap; `true` means used.
    pub open spec fn bit(&self, i: int) -> bool {
        byte_bit(self.entries@[i / 8], i % 8)
    }

    /// The 4096 bits of the bitmap.
    pub open spec fn bits(&self) -> Seq<bool> {
        Seq::new((BITMAP_SIZE * 8) as nat, |i: int| self.bit(i))
    }

    /// An all-free bitmap.
    pub fn new() -> (r: Self)
        ensures
            forall|i: int| 0 <= i < BITMAP_SIZE ==> r.entries@[i] == 0u8,
            r.bits() == Seq::new((BITMAP_SIZE * 8) as nat, |i: int| false),
    {
        let r = Bitmap { entries: [0; BITMAP_SIZE] };
        assert forall|i: int| 0 <= i < BITMAP_SIZE * 8 implies !r.bit(i) by {
            let j = (i % 8) as u8;
            assert(((0u8 >> j) & 1u8) == 0u8) by (bit_vector) requires j < 8u8;
        }
        assert(r.bits() =~= Seq::new((BITMAP_SIZE * 8) as nat, |i: int| false));
        r
    }

    /// Marks bit `index` used (or free); an index past the bitmap is an I/O error.
    pub fn set(&mut self, index: usize, used: bool) -> (r: Result<(), HashFsError>)
        ensures
            index >= BITMAP_SIZE * 8 ==> r == Err::<(), HashFsError>(HashFsError::IO) && *final(self) == *old(self),
            index < BITMAP_SIZE * 8 ==> r is Ok && final(self).bits() == old(self).bits().update(index as int, used),
    {
        if index >= BITMAP_SIZE * 8 { return Err(HashFsError::IO) }
        let (byte_idx, mask) = self.byte_index(index);
        let shift: u8 = (index % 8) as u8;
        let old_byte = self.entries[byte_idx];
        let new_byte = if used { old_byte | mask } else { old_byte & !mask };
        self.entries[byte_idx] = new_byte;
        proof {
            assert(mask == 1u8 << shift);
            if used {
                assert(((old_byte | (1u8 << shift)) >> shift) & 1u8 == 1u8) by (bit_vector) requires shift < 8u8;
            } else {
                assert(((old_byte & !(1u8 << shift)) >> shift) & 1u8 == 0u8) by (bit_vector) requires shift < 8u8;
            }
            assert forall|i: int| 0 <= i < BITMAP_SIZE * 8 implies #[trigger] self.bits()[i] == old(self).bits().update(index as int, used)[i] by {
                if i / 8 == index / 8 && i != index {
                    let jj = (i % 8) as u8;
                    assert(jj != shift);
                    assert(((old_byte | (1u8 << shift)) >> jj) & 1u8 == (old_byte >> jj) & 1u8) by (bit_vector)
                        requires shift < 8u8, jj < 8u8, jj != shift;
                    assert(((old_byte & !(1u8 << shift)) >> jj) & 1u8 == (old_byte >> jj) & 1u8) by (bit_vector)
                        requires shift < 8u8, jj < 8u8, jj != shift;
                }
            }
            assert(self.bits() =~= old(self).bits().update(index as int, used));
        }
        Ok(())
    }

    /// Returns whether bit `index` is used; an index past the bitmap is an I/O error.
    pub fn check(&self, index: usize) -> (r: Result<bool, HashFsError>)
        ensures
            index >= BITMAP_SIZE * 8 ==> r == Err::<bool, HashFsError>(HashFsError::IO),
            index < BITMAP_SIZE * 8 ==> r == Ok::<bool, HashFsError>(self.bits()[index as int]),
    {
        if index >= BITMAP_SIZE * 8 { return Err(HashFsError::IO) }
        let (byte_idx, mask) = self.byte_index(index);
        let shift: u8 = (index % 8) as u8;
        let b = self.entries[byte_idx];
        proof {
            assert(((b & (1u8 << shift)) > 0u8) == (((b >> shift) & 1u8) == 1u8)) by (bit_vector) requires shift < 8u8;
        }
        Ok(self.entries[byte_idx] & mask > 0)
    }

    /// The byte that holds bit `index` and the mask of the bit in it.
    pub fn byte_index(&self, index: usize) -> (r: (usize, u8))
        ensures
            r.0 == index / 8,
            r.1 == 1u8 << ((index % 8) as u8),
    {
        (index / 8, 1u8 << ((index % 8) as u8))
    }
}

/// A directory block: pointers to the hash entries of the children.
#[derive(Debug, Clone, Copy)]
pub struct DirectoryEntry {
    pub entries: [HashPointer; CHILDREN_PER_BLOCK],
    pub padding: [u8; 8],
}

impl DirectoryEntry {
    /// A block of null pointers.
    pub fn new() -> (r: Self)
        ensures
            forall|i: int| 0 <= i < CHILDREN_PER_BLOCK ==> r.entries@[i] == (HashPointer { lba: 0, offset: 0 }),
    {
        DirectoryEntry { entries: [HashPointer { lba: 0, offset: 0 }; CHILDREN_PER_BLOCK], padding: [0; 8] }
    }
}

} // verus!
