//! LemonFS disk images in the hash-table layout, as the image tool builds them.

use vstd::prelude::*;

pub mod disk;
pub mod io;
pub mod table;
pub mod space;
pub mod links;
pub mod dirs;
pub mod paths;
pub mod image;

verus! {

/// Why an operation on an image failed.
#[derive(Debug, Clone, Copy, PartialEq, Eq, Structural)]
pub enum ImageError {
    /// A sector could not be read or written.
    Io,
    /// The image has fewer than three sectors.
    TooSmall,
    /// The image's structures contradict each other: a superblock whose layout does not fit
    /// in 64-bit sector numbers, or a link chain that visits more link sectors than the image
    /// holds.
    Corrupt,
    /// A name is empty or longer than the name field.
    InvalidFilename,
    /// No slot of the hash table is free.
    TableFull,
    /// No run of free data sectors is long enough.
    DiskFull,
    /// No entry holds the name.
    NotFound,
    /// A path component names something that is not a directory.
    NotADirectory,
    /// The name to write is a directory.
    IsADirectory,
    /// The name to read, measure or remove is not a file.
    NotAFile,
    /// The path names the root directory, which the operation cannot take.
    RootPath,
    /// The path has no components.
    EmptyPath,
    /// The destination of a move has no components.
    InvalidDestination,
    /// The directory does not list the entry.
    NotInDirectory,
}

} // verus!
