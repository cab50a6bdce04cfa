//! The syscalls: printing, task management and memory management.

use vstd::prelude::*;
use vstd::string::StringSliceAdditionalSpecFns;
use crate::helpers::time::Time;
use super::syscall_internal::{read_from_buffer, read_u32_from_buffer, read_str_from_buffer, buffer_u64,
    buffer_u32, buffer_str, SYSCALL_BUFFER_SIZE};

verus! {

/// Sub-functions of the print syscall.
pub const PRINT_STRING: u64 = 0;
pub const PRINT_COLOR: u64 = 1;
pub const CLEAR_SCREEN: u64 = 2;
pub const SET_CURSOR: u64 = 3;

/// Sub-functions of the task syscall.
pub const YIELD: u64 = 0;
pub const SLEEP: u64 = 1;
pub const TERMINATE: u64 = 2;

/// Sub-function of the memory syscall.
pub const ALLOCATE: u64 = 0;

/// Size of a page.
pub const PAGE_SIZE: u64 = 4096;

/// First address handed out to user allocations.
pub const USER_PAGE_START: u64 = 0x1000;

/// Address of the syscall buffer in user space.
pub const SYSCALL_BUF_ADDR: u64 = 0x7FF_FFC_000_000;

/// Answer of an unknown sub-function.
pub const UNKNOWN_SUBCALL: u64 = 0x7FFF_FFFF_FFFF_FFFF;

/// What the kernel is to do after a syscall has been decoded.
pub enum SyscallAction {
    Nothing,
    /// Print the text and a newline.
    Print(String),
    /// Print the text and a newline in the foreground and background colours.
    PrintColored(String, u32, u32),
    /// Clear the screen.
    Clear,
    /// Move the cursor to the offsets.
    SetCursor(u64, u64),
    /// Give up the processor.
    Yield,
    /// Sleep for the span.
    Sleep(Time),
    /// End the calling task.
    Terminate,
    /// Allocate and map this many pages.
    Allocate(u64),
}

/// The answer of the print syscall with sub-function `sub` on buffer `buf`.
pub open spec fn print_result(sub: u64, buf: Seq<u8>, r: (u64, SyscallAction)) -> bool {
    if sub == PRINT_STRING {
        match buffer_str(buf, 0) {
            None => r.0 == 1 && r.1 is Nothing,
            Some(t) => r.0 == 0 && (r.1 matches SyscallAction::Print(s) && s@ == t),
        }
    } else if sub == PRINT_COLOR {
        match buffer_str(buf, 0) {
            None => r.0 == 1 && r.1 is Nothing,
            Some(t) => {
                let n = vstd::utf8::encode_utf8(t).len();
                match (buffer_u32(buf, (n + 1) as int), buffer_u32(buf, (n + 5) as int)) {
                    (Some(fg), Some(bg)) => r.0 == 0
                        && (r.1 matches SyscallAction::PrintColored(s, f, b) && s@ == t && f == fg && b == bg),
                    _ => r.0 == 2 && r.1 is Nothing,
                }
            },
        }
    } else if sub == CLEAR_SCREEN {
        r.0 == 0 && r.1 is Clear
    } else if sub == SET_CURSOR {
        match (buffer_u64(buf, 0), buffer_u64(buf, 8)) {
            (Some(x), Some(y)) => r.0 == 0 && r.1 == SyscallAction::SetCursor(x, y),
            _ => r.0 == 1 && r.1 is Nothing,
        }
    } else {
        r.0 == UNKNOWN_SUBCALL && r.1 is Nothing
    }
}

/// The print syscall: prints the string at the start of the buffer, or prints it in the
/// colours stored after it, clears the screen, or moves the cursor to the two offsets stored
/// at the start of the buffer.
pub fn sys_print(arg1: u64, buf: &[u8]) -> (r: (u64, SyscallAction))
    requires
        buf@.len() == SYSCALL_BUFFER_SIZE,
    ensures
        print_result(arg1, buf@, r),
{
    match arg1 {
        PRINT_STRING => {
            let string = match read_str_from_buffer(buf, 0) {
                Some(s) => s,
                None => return (1, SyscallAction::Nothing),
            };
            (0, SyscallAction::Print(string))
        },
        PRINT_COLOR => {
            let string = match read_str_from_buffer(buf, 0) {
                Some(s) => s,
                None => return (1, SyscallAction::Nothing),
            };
            let len = string.as_str().as_bytes().len();
            let fg = match read_u32_from_buffer(buf, len + 1) {
                Some(fg) => fg,
                None => return (2, SyscallAction::Nothing),
            };
            let bg = match read_u32_from_buffer(buf, len + 4 + 1) {
                Some(bg) => bg,
                None => return (2, SyscallAction::Nothing),
            };
            (0, SyscallAction::PrintColored(string, fg, bg))
        },
        CLEAR_SCREEN => (0, SyscallAction::Clear),
        SET_CURSOR => {
            let x = match read_from_buffer(buf, 0) {
                Some(x) => x,
                None => return (1, SyscallAction::Nothing),
            };
            let y = match read_from_buffer(buf, 8) {
                Some(y) => y,
                None => return (1, SyscallAction::Nothing),
            };
            (0, SyscallAction::SetCursor(x, y))
        },
        _ => (UNKNOWN_SUBCALL, SyscallAction::Nothing),
    }
}

/// The answer of the task syscall with sub-function `sub` on buffer `buf`.
pub open spec fn task_result(sub: u64, buf: Seq<u8>, r: (u64, SyscallAction)) -> bool {
    if sub == YIELD {
        r.0 == 0 && r.1 is Yield
    } else if sub == SLEEP {
        match buffer_u64(buf, 0) {
            Some(x) => r.0 == 0 && r.1 == SyscallAction::Sleep(Time::Nanoseconds(x)),
            None => r.0 == 1 && r.1 is Nothing,
        }
    } else if sub == TERMINATE {
        r.0 == 0 && r.1 is Terminate
    } else {
        r.0 == UNKNOWN_SUBCALL && r.1 is Nothing
    }
}

/// The task syscall: yields, sleeps for the nanoseconds stored at the start of the buffer, or
/// ends the calling task.
pub fn sys_task_manage(arg1: u64, buf: &[u8]) -> (r: (u64, SyscallAction))
    requires
        buf@.len() == SYSCALL_BUFFER_SIZE,
    ensures
        task_result(arg1, buf@, r),
{
    match arg1 {
        YIELD => (0, SyscallAction::Yield),
        SLEEP => {
            let duration = match read_from_buffer(buf, 0) {
                Some(x) => Time::Nanoseconds(x),
                None => return (1, SyscallAction::Nothing),
            };
            (0, SyscallAction::Sleep(duration))
        },
        TERMINATE => (0, SyscallAction::Terminate),
        _ => (UNKNOWN_SUBCALL, SyscallAction::Nothing),
    }
}

/// `a / b` rounded up.
pub open spec fn ceil_div(a: int, b: int) -> int {
    (a + b - 1) / b
}

/// The answer of the memory syscall with sub-function `sub` on buffer `buf`.
pub open spec fn memory_result(sub: u64, buf: Seq<u8>, r: (u64, SyscallAction)) -> bool {
    if sub == ALLOCATE {
        match buffer_u64(buf, 0) {
            Some(size) => r.0 == 0 && r.1 == SyscallAction::Allocate(ceil_div(size as int, PAGE_SIZE as int) as u64),
            None => r.0 == 0 && r.1 is Nothing,
        }
    } else {
        r.0 == UNKNOWN_SUBCALL && r.1 is Nothing
    }
}

/// The memory syscall: asks for the pages that hold the number of bytes stored at the start of
/// the buffer. The address of the mapping is the answer, filled in by the caller; a refused
/// request answers 0.
pub fn sys_memory_manage(arg1: u64, buf: &[u8]) -> (r: (u64, SyscallAction))
    requires
        buf@.len() == SYSCALL_BUFFER_SIZE,
    ensures
        memory_result(arg1, buf@, r),
{
    match arg1 {
        ALLOCATE => {
            let size = match read_from_buffer(buf, 0) {
                Some(s) => s,
                None => return (0, SyscallAction::Nothing),
            };
            let pages = size / PAGE_SIZE + if size % PAGE_SIZE != 0 { 1 } else { 0 };
            proof {
                vstd::arithmetic::div_mod::lemma_fundamental_div_mod(size as int, PAGE_SIZE as int);
                vstd::arithmetic::div_mod::lemma_fundamental_div_mod_converse(size + PAGE_SIZE - 1, PAGE_SIZE as int,
                    pages as int, if size % PAGE_SIZE != 0 { size % PAGE_SIZE - 1 } else { PAGE_SIZE - 1 });
            }
            (0, SyscallAction::Allocate(pages))
        },
        _ => (UNKNOWN_SUBCALL, SyscallAction::Nothing),
    }
}

/// Where the next user allocation goes, after `mapped` pages are already mapped: right after
/// them, unless that would pass the syscall buffer.
pub fn next_user_address(mapped: u64) -> (r: Option<u64>)
    requires
        USER_PAGE_START + PAGE_SIZE * mapped <= u64::MAX,
    ensures
        USER_PAGE_START + PAGE_SIZE * mapped > SYSCALL_BUF_ADDR ==> r is None,
        USER_PAGE_START + PAGE_SIZE * mapped <= SYSCALL_BUF_ADDR ==> r == Some((USER_PAGE_START + PAGE_SIZE * mapped) as u64),
{
    let virt = USER_PAGE_START + PAGE_SIZE * mapped;
    if virt > SYSCALL_BUF_ADDR {
        return None;
    }
    Some(virt)
}

} // verus!
