//! The allocation bitmap and the link chains of the hash-table layout, as the mounted drive
//! holds them: the superblock in sector 0 says where the bitmap and the data blocks are.

use vstd::prelude::*;
use super::HashFsError;
use super::drive::StorageDrive;
use super::headers::LinkEntry;
use crate::lemoncc::ImageError;
use crate::lemoncc::disk as raw;
use crate::lemoncc::image::layout_fits;
use crate::lemoncc::space::{layout_ok, alloc_blocks, free_blocks, alloc_search, bits_changed, only_bitmap_changed};
use crate::lemoncc::table::table_ok;

verus! {

/// The error of this layout that an image error stands for: a full disk stays one, anything
/// else is an I/O error.
pub open spec fn spec_hash_error(e: ImageError) -> HashFsError {
    if e == ImageError::DiskFull { HashFsError::DiskFull } else { HashFsError::IO }
}

pub(crate) fn hash_error(e: ImageError) -> (r: HashFsError)
    ensures
        r == spec_hash_error(e),
{
    match e {
        ImageError::DiskFull => HashFsError::DiskFull,
        _ => HashFsError::IO,
    }
}

/// `sb` is the superblock that sector 0 of `s` holds, and its layout fits.
pub open spec fn mounted_superblock(s: Seq<[u8; 512]>, sb: raw::SuperBlock) -> bool {
    &&& 0 < s.len()
    &&& sb.image() == s[0]@
    &&& layout_ok(sb)
    &&& table_ok(sb)
}

/// The pointer as the image tool's layout holds it.
pub open spec fn raw_link(l: LinkEntry) -> raw::LinkEntry {
    raw::LinkEntry { ptr: l.ptr, size: l.size }
}

/// Reads the superblock in sector 0; one whose layout does not fit is an I/O error.
pub(crate) fn read_superblock<D: StorageDrive>(drive: &mut D) -> (r: Result<raw::SuperBlock, HashFsError>)
    ensures
        final(drive).sectors() == old(drive).sectors(),
        r matches Ok(sb) ==> mounted_superblock(old(drive).sectors(), sb),
        r matches Err(e) ==> e == HashFsError::IO,
{
    let b = match drive.read_sector(0) {
        Ok(b) => b,
        Err(_) => return Err(HashFsError::IO),
    };
    let sb = raw::SuperBlock::from_sector(&b);
    if !layout_fits(&sb) {
        return Err(HashFsError::IO);
    }
    Ok(sb)
}

/// Allocates `count` consecutive data blocks at the first run that one bitmap sector holds, as
/// the superblock in sector 0 lays the bitmap out, and returns the first; no such run is
/// `DiskFull`.
pub fn bitmap_alloc_first_fit<D: StorageDrive>(drive: &mut D, count: u64) -> (r: Result<u64, HashFsError>)
    ensures
        final(drive).sectors().len() == old(drive).sectors().len(),
        r matches Ok(lba) ==> exists|sb: raw::SuperBlock| #[trigger] mounted_superblock(old(drive).sectors(), sb)
            && lba >= sb.spec_data_start()
            && (count > 0 ==> (alloc_search(old(drive).sectors(), sb.spec_bitmap_start(), sb.bitmap_size as int,
                    sb.total_blocks - sb.spec_data_start(), count as int, 0) matches Some(st)
                && lba == sb.spec_data_start() + st
                && bits_changed(old(drive).sectors(), final(drive).sectors(), sb.spec_bitmap_start(), sb.bitmap_size as int,
                    st, count as int, true)))
            && only_bitmap_changed(old(drive).sectors(), final(drive).sectors(), sb.spec_bitmap_start(), sb.bitmap_size as int),
        r == Err::<u64, HashFsError>(HashFsError::DiskFull) ==> exists|sb: raw::SuperBlock| #[trigger] mounted_superblock(old(drive).sectors(), sb)
            && alloc_search(old(drive).sectors(), sb.spec_bitmap_start(), sb.bitmap_size as int,
                sb.total_blocks - sb.spec_data_start(), count as int, 0) is None,
        r matches Err(e) ==> e == HashFsError::IO || e == HashFsError::DiskFull,
{
    let sb = read_superblock(drive)?;
    match alloc_blocks(drive, &sb, count) {
        Ok(lba) => Ok(lba),
        Err(e) => Err(hash_error(e)),
    }
}

/// Marks free the `count` data blocks from `start`, as the superblock in sector 0 lays the
/// bitmap out. Blocks outside the bitmap's area are an I/O error.
pub fn free_range<D: StorageDrive>(drive: &mut D, start: u64, count: u64) -> (r: Result<(), HashFsError>)
    ensures
        final(drive).sectors().len() == old(drive).sectors().len(),
        r is Ok && count > 0 ==> exists|sb: raw::SuperBlock| #[trigger] mounted_superblock(old(drive).sectors(), sb)
            && bits_changed(old(drive).sectors(), final(drive).sectors(), sb.spec_bitmap_start(), sb.bitmap_size as int,
                start - sb.spec_data_start(), count as int, false)
            && only_bitmap_changed(old(drive).sectors(), final(drive).sectors(), sb.spec_bitmap_start(), sb.bitmap_size as int),
        r matches Err(e) ==> e == HashFsError::IO,
{
    let sb = read_superblock(drive)?;
    match free_blocks(drive, &sb, start, count) {
        Ok(()) => Ok(()),
        Err(_) => Err(HashFsError::IO),
    }
}

} // verus!
