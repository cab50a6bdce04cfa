//! The hash-table layout of LemonFS: a superblock, an open-addressing table of file entries,
//! an allocation bitmap and the data blocks.

use vstd::prelude::*;

pub mod headers;
pub mod hash;
pub mod helpers;
pub mod pointers;
pub mod cache;
pub mod drive;
pub mod table;
pub mod space;

verus! {

/// Length of a file name in this layout.
pub const FILENAME_LEN: usize = 40;

/// The LemonFS magic as a little-endian `u64` (`b"LEMONFS\0"`).
pub const MAGIC: u64 = 0x0053_464E_4F4D_454C;

/// The errors of the hash-table layout.
#[derive(Debug, Clone, Copy, PartialEq, Eq, Structural)]
pub enum HashFsError {
    /// An I/O error, or an index outside a structure.
    IO,
    /// The name is empty or too long.
    InvalidFilename,
    /// The table or the disk is full.
    DiskFull,
    /// A file was found where a directory was expected.
    IsFile,
    /// No such file.
    FileNotFound,
}

} // verus!
