//! LemonFS: on-disk structures, block allocation and directory logic.

pub mod disk;
pub mod bitmap;
pub mod superblock;
pub mod links;
pub mod file;
pub mod directory;
pub mod path;
pub mod chain;
pub mod rewrite;
pub mod dir_sync;
pub mod ops;
pub mod io;
pub mod tree;
pub mod volume;
