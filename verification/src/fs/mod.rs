//! Filesystems of the kernel. Only LemonFS is supported.

use vstd::prelude::*;

pub mod lemonfs;
pub mod hashtable;

use hashtable::drive::StorageDrive;
use lemonfs::volume::LemonFS;
use lemonfs::disk::LEMONFS_MAGIC;
use crate::gpt::partition_drive::{PartitionDrive, PartitionType};

verus! {

/// The errors of filesystem operations.
#[derive(Debug, Clone, Copy, PartialEq, Eq, Structural)]
pub enum FSError {
    /// Wrong filesystem type.
    WrongFS,
    /// Invalid superblock.
    BadSuperblock,
    /// I/O error.
    IOError,
    /// Out of space on the partition.
    NoSpace,
    /// Wrong file type.
    BadFileType,
    /// File not found.
    FileNotFound,
    /// File already exists.
    FileExists,
    /// Invalid file name.
    BadFilename,
    /// The operation is not allowed on the filesystem root.
    IsRoot,
    /// Bad flags.
    BadFlags,
}

/// Whether a sector starts with the LemonFS magic.
fn has_magic(sector: &[u8; 512]) -> (r: bool)
    ensures
        r == (sector@.subrange(0, 8) == LEMONFS_MAGIC@),
{
    let magic = LEMONFS_MAGIC;
    let mut i: usize = 0;
    while i < 8
        invariant
            i <= 8,
            magic@ == LEMONFS_MAGIC@,
            forall|j: int| 0 <= j < i ==> sector@[j] == magic@[j],
        decreases 8 - i,
    {
        if sector[i] != magic[i] {
            return false;
        }
        i = i + 1;
    }
    assert(sector@.subrange(0, 8) =~= LEMONFS_MAGIC@);
    true
}

/// Whether `p` holds a LemonFS filesystem to mount: it is of the LemonFS type, or of unknown
/// type with a first sector that starts with the LemonFS magic.
pub open spec fn mountable<D: StorageDrive>(p: PartitionDrive<D>) -> bool {
    match p.type_ {
        PartitionType::LemonFS => true,
        PartitionType::Reserved => false,
        PartitionType::Unknown => p.sectors().len() > 0 && p.sectors()[0]@.subrange(0, 8) == LEMONFS_MAGIC@,
    }
}

/// The number of partitions of `ps` that hold a filesystem to mount.
pub open spec fn mount_count<D: StorageDrive>(ps: Seq<PartitionDrive<D>>) -> nat
    decreases ps.len(),
{
    if ps.len() == 0 {
        0
    } else {
        (if mountable(ps[0]) { 1nat } else { 0nat }) + mount_count(ps.drop_first())
    }
}

/// Mounts the LemonFS filesystems among `partitions`, in order: every partition of the LemonFS
/// type, and every partition of unknown type whose first sector starts with the LemonFS magic;
/// reserved partitions are skipped (see [`LemonFS::init`]). A first sector that cannot be read
/// is an I/O error; a partition that cannot be mounted ends the mounting with its error.
pub fn init<D: StorageDrive>(partitions: Vec<PartitionDrive<D>>) -> (r: Result<Vec<LemonFS<PartitionDrive<D>>>, FSError>)
    ensures
        r matches Ok(v) ==> v@.len() == mount_count(partitions@)
            && forall|i: int| 0 <= i < v@.len() ==> (#[trigger] v@[i]).wf(),
        r matches Err(e) ==> e == FSError::IOError || e == FSError::BadSuperblock || e == FSError::NoSpace,
{
    let mut partitions = partitions;
    let ghost n0 = mount_count(partitions@);
    let mut filesystems: Vec<LemonFS<PartitionDrive<D>>> = Vec::new();
    while partitions.len() > 0
        invariant
            filesystems@.len() + mount_count(partitions@) == n0,
            forall|i: int| 0 <= i < filesystems@.len() ==> (#[trigger] filesystems@[i]).wf(),
        decreases partitions@.len(),
    {
        let ghost before = partitions@;
        let mut partition = partitions.remove(0);
        proof {
            assert(partitions@ =~= before.drop_first());
        }
        match partition.type_ {
            PartitionType::LemonFS => {
                let fs = LemonFS::init(partition)?;
                filesystems.push(fs);
            }
            PartitionType::Reserved => {}
            PartitionType::Unknown => {
                let ghost p0 = partition;
                let sector = match partition.read_sector(0) {
                    Ok(b) => b,
                    Err(_) => return Err(FSError::IOError),
                };
                if has_magic(&sector) {
                    let fs = LemonFS::init(partition)?;
                    filesystems.push(fs);
                } else {
                    assert(!mountable(p0));
                }
            }
        }
    }
    Ok(filesystems)
}

} // verus!
