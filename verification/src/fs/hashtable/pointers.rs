//! Pointers into the hash table and link entries.

use vstd::prelude::*;
use super::headers::{HashPointer, LinkEntry, HASHES_PER_BLOCK};
use super::HashFsError;
use super::drive::StorageDrive;
use super::space::{mounted_superblock, raw_link, read_superblock, hash_error, spec_hash_error};
use crate::lemoncc::disk as raw;
use crate::lemoncc::disk::links_of;
use crate::lemoncc::links::{chain, freed, append_target, first_empty_link};
use crate::lemoncc::table::sector_spliced;
use crate::lemoncc::space::{image_bits, only_bitmap_changed};

verus! {

impl HashPointer {
    /// The pointer `n` slots after this one: `None` if it lies past the hash block `max_hash_lba`.
    pub fn add(&self, max_hash_lba: u64, n: u64) -> (r: Option<Self>)
        requires
            self.offset + n <= u64::MAX,
            self.lba + (self.offset + n) / HASHES_PER_BLOCK as int <= u64::MAX,
        ensures
            ({
                let tmp = self.offset + n;
                let lba = self.lba + tmp / HASHES_PER_BLOCK as int;
                if lba > max_hash_lba {
                    r is None
                } else {
                    r == Some(HashPointer { lba: lba as u64, offset: (tmp % HASHES_PER_BLOCK as int) as u8 })
                }
            }),
    {
        let tmp = self.offset as u64 + n;
        let offset = (tmp % HASHES_PER_BLOCK as u64) as u8;
        let lba = self.lba + (tmp / HASHES_PER_BLOCK as u64);

        if lba > max_hash_lba { None } else { Some(Self { lba, offset }) }
    }

    /// A pointer is valid when it points into the table (`lba != 0`).
    pub fn is_valid(&self) -> (r: bool)
        ensures r == (self.lba != 0),
    {
        self.lba != 0
    }
}

impl LinkEntry {
    /// A link is valid when it points somewhere (`ptr != 0`).
    pub fn is_valid(&self) -> (r: bool)
        ensures r == (self.ptr != 0),
    {
        self.ptr != 0
    }

    /// A link is direct when it holds data (`size != 0`); otherwise it points to a link block.
    pub fn is_direct(&self) -> (r: bool)
        ensures r == (self.size != 0),
    {
        self.size != 0
    }
}

/// Appends `append` to the chain in `link`: a chain that is none becomes `append`; otherwise
/// the first free slot of the chain's link blocks, following each full block's last slot,
/// takes it, and a full block whose last slot is an extent moves that extent and `append` to a
/// block allocated at the first fit (see [`super::space::bitmap_alloc_first_fit`]). A chain
/// that follows more link blocks than the drive has is an I/O error.
pub fn extend_link<D: StorageDrive>(drive: &mut D, link: &mut LinkEntry, append: LinkEntry) -> (r: Result<(), HashFsError>)
    ensures
        old(link).ptr == 0 ==> r is Ok && *final(link) == append && final(drive).sectors() == old(drive).sectors(),
        old(link).ptr != 0 ==> *final(link) == *old(link),
        final(drive).sectors().len() == old(drive).sectors().len(),
        r is Ok && old(link).ptr != 0 ==> exists|lba: int, k: int| 0 <= lba < final(drive).sectors().len() && 0 <= k < 32
            && #[trigger] links_of(final(drive).sectors()[lba]@)[k] == raw_link(append),
        r is Ok && old(link).ptr != 0 ==> (append_target(old(drive).sectors(), old(link).ptr as int, old(drive).sectors().len()) matches Some(t)
            && ((exists|k: int| #[trigger] first_empty_link(old(drive).sectors()[t]@, k)
                    && sector_spliced(old(drive).sectors(), final(drive).sectors(), t, k * 16, raw_link(append).image()))
                || ((forall|k: int| 0 <= k < 32 ==> #[trigger] links_of(old(drive).sectors()[t]@)[k].ptr != 0)
                    && links_of(old(drive).sectors()[t]@)[31].size != 0
                    && exists|nl: int| 0 <= nl < final(drive).sectors().len() && nl != t
                        && #[trigger] links_of(final(drive).sectors()[nl]@)[0] == links_of(old(drive).sectors()[t]@)[31]
                        && links_of(final(drive).sectors()[nl]@)[1] == raw_link(append)
                        && links_of(final(drive).sectors()[t]@)[31] == (raw::LinkEntry { ptr: nl as u64, size: 0 })))),
        r matches Err(e) ==> e == HashFsError::IO || e == HashFsError::DiskFull,
{
    if !link.is_valid() {
        *link = append;
        return Ok(());
    }
    let sb = read_superblock(drive)?;
    let mut l = raw::LinkEntry { ptr: link.ptr, size: link.size };
    let a = raw::LinkEntry { ptr: append.ptr, size: append.size };
    match crate::lemoncc::links::extend_link(drive, &sb, &mut l, a) {
        Ok(()) => Ok(()),
        Err(e) => Err(hash_error(e)),
    }
}

/// Marks free, in the bitmap that the superblock in sector 0 lays out, the blocks of every
/// extent and every link block of the chain from `link`. A chain that cannot be followed, or
/// that reaches outside the bitmap's area, is an I/O error.
pub fn free_link_chain<D: StorageDrive>(drive: &mut D, link: LinkEntry) -> (r: Result<(), HashFsError>)
    ensures
        final(drive).sectors().len() == old(drive).sectors().len(),
        r is Ok && link.ptr != 0 ==> exists|sb: raw::SuperBlock| #[trigger] mounted_superblock(old(drive).sectors(), sb)
            && (chain(old(drive).sectors(), raw_link(link)) matches Some(v)
            && image_bits(final(drive).sectors(), sb.spec_bitmap_start(), sb.bitmap_size as int)
                == freed(image_bits(old(drive).sectors(), sb.spec_bitmap_start(), sb.bitmap_size as int), v, sb.spec_data_start()))
            && only_bitmap_changed(old(drive).sectors(), final(drive).sectors(), sb.spec_bitmap_start(), sb.bitmap_size as int),
        link.ptr == 0 ==> r is Ok && final(drive).sectors() == old(drive).sectors(),
        r matches Err(e) ==> e == HashFsError::IO,
{
    if !link.is_valid() {
        return Ok(());
    }
    let sb = read_superblock(drive)?;
    let l = raw::LinkEntry { ptr: link.ptr, size: link.size };
    match crate::lemoncc::links::free_link_chain(drive, &sb, l) {
        Ok(()) => Ok(()),
        Err(_) => Err(HashFsError::IO),
    }
}

} // verus!
