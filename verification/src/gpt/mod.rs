//! GUID Partition Table (GPT): the protective MBR, the header checks with their fallback to
//! the backup header, and the enumeration of partition entries.

use vstd::prelude::*;

pub mod headers;
pub mod partition;
pub mod partition_drive;

use headers::{GPTPartitionEntry, PrimaryGPTHeader};
use partition::{attest_integrity, parse_partitions, sound_header, entry_array, kept_entries};
use partition_drive::{partition_name, spec_partition_type};
use crate::helpers::crc::spec_crc32;
use partition_drive::PartitionDrive;
use crate::fs::hashtable::drive::StorageDrive;

verus! {

/// Why a partition table was refused.
#[derive(Debug, Clone, Copy, PartialEq, Eq, Structural)]
pub enum GPTError {
    /// The protective MBR does not end in the boot signature.
    InvalidProtectiveMBR,
    /// The partition entry array does not match its checksum.
    BadPartition,
    /// Neither the primary nor the backup header is sound.
    BadGPTHeader,
    /// The drive could not be read.
    IO,
}

/// The partition table of the drive whose sectors are `s` lists `v`: some sound header (see
/// [`sound_header`]) describes an entry array that matches its checksum and whose kept entries
/// are `v`.
pub open spec fn lists_entries(s: Seq<[u8; 512]>, v: Seq<GPTPartitionEntry>) -> bool {
    exists|h: PrimaryGPTHeader| #[trigger] sound_header(s, h)
        && spec_crc32(entry_array(s, h)) == h.entry_array_crc
        && v.map_values(|e: GPTPartitionEntry| e@) == kept_entries(entry_array(s, h), h.entry_count as nat, h)
}

/// The partition entries of the drive (see [`attest_integrity`] and [`parse_partitions`]).
pub fn test_gpt<D: StorageDrive>(drive: &mut D) -> (r: Result<Vec<GPTPartitionEntry>, GPTError>)
    ensures
        final(drive).sectors() == old(drive).sectors(),
        r matches Ok(v) ==> lists_entries(old(drive).sectors(), v@),
        r == Err::<Vec<GPTPartitionEntry>, GPTError>(GPTError::InvalidProtectiveMBR)
            ==> old(drive).sectors().len() > 0 && headers::le_u16_at(old(drive).sectors()[0]@, 510) != 0xAA55,
{
    let header = attest_integrity(drive)?;
    let r = parse_partitions(drive, header);
    proof {
        if r is Ok {
            assert(sound_header(old(drive).sectors(), header));
        }
    }
    r
}

/// The partitions of the drive, each seen as a drive of its own over a copy of the drive's
/// handle (see [`PartitionDrive::from_partition`]).
pub fn parse_gpt<D: StorageDrive + Clone>(drive: D) -> (r: Result<Vec<PartitionDrive<D>>, GPTError>)
    ensures
        r matches Ok(ps) ==> exists|v: Seq<GPTPartitionEntry>| #[trigger] lists_entries(drive.sectors(), v)
            && ps@.len() == v.len()
            && forall|i: int| 0 <= i < v.len() ==> {
                let p = #[trigger] ps@[i];
                &&& p.start_lba == v[i].start_lba
                &&& p.blocks == v[i].end_lba - v[i].start_lba + 1
                &&& p.name@ == partition_name(v[i].name@)
                &&& p.type_ == spec_partition_type(v[i].partition_type@)
            },
        r == Err::<Vec<PartitionDrive<D>>, GPTError>(GPTError::InvalidProtectiveMBR)
            ==> drive.sectors().len() > 0 && headers::le_u16_at(drive.sectors()[0]@, 510) != 0xAA55,
        r == Err::<Vec<PartitionDrive<D>>, GPTError>(GPTError::BadPartition) ==> ({
            ||| exists|h: PrimaryGPTHeader| #[trigger] sound_header(drive.sectors(), h)
                && spec_crc32(entry_array(drive.sectors(), h)) != h.entry_array_crc
            ||| exists|v: Seq<GPTPartitionEntry>| #[trigger] lists_entries(drive.sectors(), v)
                && exists|i: int| 0 <= i < v.len() && !(v[i].start_lba <= #[trigger] v[i].end_lba && v[i].end_lba < u64::MAX)
        }),
{
    let ghost s0 = drive.sectors();
    let mut dev = drive;
    let header = attest_integrity(&mut dev)?;
    let partitions = match parse_partitions(&mut dev, header) {
        Ok(v) => v,
        Err(e) => {
            proof {
                assert(sound_header(s0, header));
            }
            return Err(e);
        }
    };
    proof {
        assert(sound_header(s0, header));
        assert(lists_entries(s0, partitions@));
    }
    let mut res: Vec<PartitionDrive<D>> = Vec::new();
    let mut i: usize = 0;
    while i < partitions.len()
        invariant
            s0 == dev.sectors(),
            s0 == drive.sectors(),
            lists_entries(s0, partitions@),
            i <= partitions@.len(),
            res@.len() == i,
            forall|k: int| 0 <= k < i ==> {
                let p = #[trigger] res@[k];
                &&& p.start_lba == partitions@[k].start_lba
                &&& p.blocks == partitions@[k].end_lba - partitions@[k].start_lba + 1
                &&& p.name@ == partition_name(partitions@[k].name@)
                &&& p.type_ == spec_partition_type(partitions@[k].partition_type@)
            },
        decreases partitions@.len() - i,
    {
        let p = &partitions[i];
        if !(p.start_lba <= p.end_lba && p.end_lba < u64::MAX) {
            proof {
                let v = partitions@;
                assert(!(v[i as int].start_lba <= v[i as int].end_lba && v[i as int].end_lba < u64::MAX));
                assert(exists|i: int| 0 <= i < v.len() && !(v[i].start_lba <= #[trigger] v[i].end_lba && v[i].end_lba < u64::MAX));
                assert(lists_entries(s0, v));
                assert(exists|v: Seq<GPTPartitionEntry>| #[trigger] lists_entries(s0, v)
                    && exists|i: int| 0 <= i < v.len() && !(v[i].start_lba <= #[trigger] v[i].end_lba && v[i].end_lba < u64::MAX));
            }
            return Err(GPTError::BadPartition);
        }
        res.push(PartitionDrive::from_partition(dev.clone(), p));
        i = i + 1;
    }
    Ok(res)
}

} // verus!
