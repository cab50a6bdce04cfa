//! Sector reads and writes of an image.

use vstd::prelude::*;
use crate::fs::hashtable::drive::StorageDrive;
use super::ImageError;

verus! {

/// Reads sector `lba`.
pub fn read_lba<D: StorageDrive>(drive: &mut D, lba: u64) -> (r: Result<[u8; 512], ImageError>)
    ensures
        final(drive).sectors() == old(drive).sectors(),
        r matches Ok(b) ==> lba < old(drive).sectors().len() && b == old(drive).sectors()[lba as int],
        r matches Err(e) ==> e == ImageError::Io,
        lba >= old(drive).sectors().len() ==> r is Err,
        D::answers_all() && lba < old(drive).sectors().len() ==> r is Ok,
{
    match drive.read_sector(lba) {
        Ok(b) => Ok(b),
        Err(_) => Err(ImageError::Io),
    }
}

/// Writes sector `lba`; a failed write changes nothing.
pub fn write_lba<D: StorageDrive>(drive: &mut D, lba: u64, data: &[u8; 512]) -> (r: Result<(), ImageError>)
    ensures
        r is Ok ==> lba < old(drive).sectors().len() && final(drive).sectors() == old(drive).sectors().update(lba as int, *data),
        r is Err ==> final(drive).sectors() == old(drive).sectors(),
        r matches Err(e) ==> e == ImageError::Io,
        lba >= old(drive).sectors().len() ==> r is Err,
        D::answers_all() && lba < old(drive).sectors().len() ==> r is Ok,
{
    match drive.write_sector(lba, data) {
        Ok(()) => Ok(()),
        Err(_) => Err(ImageError::Io),
    }
}

} // verus!
