//! Classification and naming of GPT partitions, and the address translation of a partition.

use vstd::prelude::*;
use super::headers::GPTPartitionEntry;
use super::partition::EFI_GUID;
use crate::fs::hashtable::drive::StorageDrive;
use crate::fs::hashtable::HashFsError;

verus! {

/// The type GUID of a LemonFS partition (8CBD0D4E-FE62-49CC-A982-FBD6F69ED888), as stored on
/// disk: the first three fields little-endian, the last two big-endian.
pub const LEMONFS_GUID: [u8; 16] = [
    0x4E, 0x0D, 0xBD, 0x8C, 0x62, 0xFE, 0xCC, 0x49,
    0xA9, 0x82, 0xFB, 0xD6, 0xF6, 0x9E, 0xD8, 0x88,
];

/// What a partition holds, by its type GUID.
#[derive(Debug, PartialEq, Eq, Structural, Clone, Copy)]
pub enum PartitionType {
    Reserved,
    LemonFS,
    Unknown,
}

/// The kind of partition a type GUID names.
pub open spec fn spec_partition_type(t: Seq<u8>) -> PartitionType {
    if t == LEMONFS_GUID@ {
        PartitionType::LemonFS
    } else if t == EFI_GUID@ {
        PartitionType::Reserved
    } else {
        PartitionType::Unknown
    }
}

fn guid_eq(a: &[u8; 16], b: &[u8; 16]) -> (r: bool)
    ensures
        r == (a@ == b@),
{
    let mut i: usize = 0;
    while i < 16
        invariant
            i <= 16,
            forall|j: int| 0 <= j < i ==> a@[j] == b@[j],
        decreases 16 - i,
    {
        if a[i] != b[i] {
            return false;
        }
        i = i + 1;
    }
    assert(a@ =~= b@);
    true
}

impl PartitionType {
    /// The kind of partition that `partition_type` names: LemonFS, the EFI system partition
    /// (reserved), or unknown.
    pub fn classify(partition_type: &[u8; 16]) -> (r: Self)
        ensures
            r == spec_partition_type(partition_type@),
    {
        let lemon = LEMONFS_GUID;
        let efi = EFI_GUID;
        if guid_eq(partition_type, &lemon) {
            PartitionType::LemonFS
        } else if guid_eq(partition_type, &efi) {
            PartitionType::Reserved
        } else {
            PartitionType::Unknown
        }
    }
}

/// The character with code point `c`, if `c` is a Unicode scalar value.
pub open spec fn scalar_value(c: u32) -> bool {
    c <= 0xD7FF || (0xE000 <= c <= 0x10FFFF)
}

/// Calls `char::from_u32`: its documentation says it returns the character whose code point is
/// `c` when `c` is a Unicode scalar value (not a surrogate, at most 0x10FFFF), and `None`
/// otherwise.
#[verifier::external_body]
fn char_from_u32(c: u32) -> (r: Option<char>)
    ensures
        r is Some <==> scalar_value(c),
        r matches Some(ch) ==> ch == c as char,
{
    char::from_u32(c)
}

/// Calls `String::push`, which appends `c` to the string.
#[verifier::external_body]
fn string_push(s: &mut String, c: char)
    ensures
        final(s)@ == old(s)@.push(c),
{
    s.push(c)
}

/// The characters of UTF-16 code units taken one by one: a unit that is a scalar value is
/// that character, a surrogate half is skipped.
pub open spec fn decode_units(units: Seq<u16>) -> Seq<char>
    decreases units.len(),
{
    if units.len() == 0 {
        Seq::empty()
    } else if scalar_value(units.last() as u32) {
        decode_units(units.drop_last()).push(units.last() as u32 as char)
    } else {
        decode_units(units.drop_last())
    }
}

/// `n` is where a name stored in `units` ends: its first zero unit.
pub open spec fn is_units_end(units: Seq<u16>, n: int) -> bool {
    &&& 0 <= n < units.len()
    &&& units[n] == 0
    &&& forall|j: int| 0 <= j < n ==> units[j] != 0
}

/// The name stored in `units`: the units before the first zero, decoded.
pub open spec fn partition_name(units: Seq<u16>) -> Seq<char> {
    let n = if exists|n: int| is_units_end(units, n) { choose|n: int| is_units_end(units, n) } else { units.len() as int };
    decode_units(units.subrange(0, n))
}

/// The name of the partition `entry`.
pub fn name_of(entry: &GPTPartitionEntry) -> (r: String)
    ensures
        r@ == partition_name(entry.name@),
{
    let mut name = String::new();
    let mut i: usize = 0;
    let ghost units = entry.name@;
    proof { assert(units.subrange(0, 0) =~= Seq::<u16>::empty()); }
    while i < 36
        invariant
            units == entry.name@,
            units.len() == 36,
            i <= 36,
            forall|j: int| 0 <= j < i ==> units[j] != 0,
            name@ == decode_units(units.subrange(0, i as int)),
        decreases 36 - i,
    {
        let c = entry.name[i];
        if c == 0 {
            proof {
                assert(is_units_end(units, i as int));
                let n = choose|n: int| is_units_end(units, n);
                if n < i { assert(units[n] != 0); }
                if n > i { assert(units[i as int] != 0); }
            }
            return name;
        }
        let ghost before = name@;
        match char_from_u32(c as u32) {
            Some(ch) => {
                string_push(&mut name, ch);
                assert(ch == (c as u32) as char);
                assert(name@ == before.push((c as u32) as char));
            },
            None => {
                assert(!scalar_value(c as u32));
            },
        }
        proof {
            let p = units.subrange(0, i + 1);
            assert(p.drop_last() =~= units.subrange(0, i as int));
            assert(p.last() == c);
        }
        i = i + 1;
    }
    proof {
        assert(units.subrange(0, 36) =~= units);
        if exists|n: int| is_units_end(units, n) {
            let n = choose|n: int| is_units_end(units, n);
            assert(units[n] != 0);
        }
    }
    name
}

/// The number of sectors of a partition: its last LBA is inclusive.
pub fn partition_blocks(entry: &GPTPartitionEntry) -> (r: u64)
    requires
        entry.start_lba <= entry.end_lba < u64::MAX,
    ensures
        r == entry.end_lba - entry.start_lba + 1,
{
    entry.end_lba - entry.start_lba + 1
}

/// Where sector `lba` of a partition that starts at `start_lba` and holds `blocks` sectors lies on
/// the whole drive; `None` when `count` sectors from `lba` would leave the partition.
pub fn translate_lba(start_lba: u64, blocks: u64, lba: u64, count: u64) -> (r: Option<u64>)
    requires
        lba + start_lba <= u64::MAX,
        lba + count <= u64::MAX,
    ensures
        lba + count > blocks ==> r is None,
        lba + count <= blocks ==> r == Some((lba + start_lba) as u64),
{
    let new_lba = lba + start_lba;
    if lba + count > blocks {
        return None;
    }
    Some(new_lba)
}

/// A partition seen as a drive of its own: sector `i` of the partition is sector
/// `start_lba + i` of the parent drive (one past the parent's end cannot be read or written).
pub struct PartitionDrive<D: StorageDrive> {
    pub parent: D,
    pub start_lba: u64,
    pub blocks: u64,
    pub name: String,
    pub type_: PartitionType,
}

impl<D: StorageDrive> PartitionDrive<D> {
    /// The partition that `entry` describes on `drive`: its first LBA, its number of sectors,
    /// its name and its kind.
    pub fn from_partition(drive: D, entry: &GPTPartitionEntry) -> (r: Self)
        requires
            entry.start_lba <= entry.end_lba < u64::MAX,
        ensures
            r.parent == drive,
            r.start_lba == entry.start_lba,
            r.blocks == entry.end_lba - entry.start_lba + 1,
            r.name@ == partition_name(entry.name@),
            r.type_ == spec_partition_type(entry.partition_type@),
    {
        let name = name_of(entry);
        let blocks = partition_blocks(entry);
        let type_ = PartitionType::classify(&entry.partition_type);
        Self { parent: drive, start_lba: entry.start_lba, blocks, name, type_ }
    }
}

impl<D: StorageDrive> StorageDrive for PartitionDrive<D> {
    open spec fn sectors(&self) -> Seq<[u8; 512]> {
        Seq::new(self.blocks as nat, |i: int|
            if self.start_lba + i < self.parent.sectors().len() { self.parent.sectors()[self.start_lba + i] } else { vstd::pervasive::arbitrary() })
    }

    open spec fn answers_all() -> bool {
        false
    }

    fn sector_count(&self) -> (r: u64) {
        self.blocks
    }

    /// A partition keeps the size its entry gives it.
    fn grow(&mut self, count: u64) -> (r: Result<(), HashFsError>) {
        Err(HashFsError::IO)
    }

    fn read_sector(&mut self, lba: u64) -> (r: Result<[u8; 512], HashFsError>) {
        if lba >= self.blocks || lba > u64::MAX - self.start_lba {
            return Err(HashFsError::IO);
        }
        self.parent.read_sector(lba + self.start_lba)
    }

    fn write_sector(&mut self, lba: u64, data: &[u8; 512]) -> (r: Result<(), HashFsError>) {
        if lba >= self.blocks || lba > u64::MAX - self.start_lba {
            return Err(HashFsError::IO);
        }
        let ghost before = self.sectors();
        let r = self.parent.write_sector(lba + self.start_lba, data);
        proof {
            if r is Ok {
                assert(self.sectors() =~= before.update(lba as int, *data));
            } else {
                assert(self.sectors() =~= before);
            }
        }
        r
    }
}

} // verus!
