//! The user-space binary loader: which virtual memory areas an ELF executable asks for.

use vstd::prelude::*;

pub mod elf;

verus! {

/// Size of the user stack.
pub const USER_STACK_SIZE: u64 = 0x100_000;

/// Top of the user stack.
pub const USER_STACK_TOP: u64 = 0x7FF_FFF_000_000;

/// Address of the syscall buffer in user space.
pub const SYSCALL_BUF_ADDR: u64 = 0x7FF_FFC_000_000;

/// Size of the syscall buffer (2 MiB).
pub const SYSCALL_BUFFER_SIZE: u64 = 0x200_000;

/// Why a binary could not be loaded.
#[derive(Debug, Clone, Copy, PartialEq, Eq, Structural)]
pub enum LoaderError {
    /// The file is not an ELF file.
    InvalidFile,
    /// The file could not be read.
    IOError,
    /// The ELF file is neither an executable nor a shared object.
    NotExecutable,
}

} // verus!
