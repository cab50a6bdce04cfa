//! Syscall dispatch and the readers of the syscall buffer.

use vstd::prelude::*;
use vstd::utf8::{valid_utf8, decode_utf8};
use crate::gpt::headers::{le_u32_at, le_u64_at, read_u32, read_u64};
use crate::text::str_from_utf8;
use super::functions::{sys_print, sys_task_manage, sys_memory_manage, SyscallAction, print_result,
    task_result, memory_result};

verus! {

/// Size of a task's syscall buffer (2 MiB).
pub const SYSCALL_BUFFER_SIZE: usize = 0x200_000;

/// Longest string a syscall reads from the buffer.
pub const MAX_STRLEN: usize = 4096;

/// Syscall numbers.
pub const PRINT: u64 = 0;
pub const TASK_MGMT: u64 = 1;
pub const MEMORY_MGMT: u64 = 2;

/// The `u64` at `offset` of the buffer, or `None` if it does not lie within the buffer.
pub open spec fn buffer_u64(buf: Seq<u8>, offset: int) -> Option<u64> {
    if 8 + offset > SYSCALL_BUFFER_SIZE { None } else { Some(le_u64_at(buf, offset)) }
}

/// The `u32` at `offset` of the buffer, or `None` if it does not lie within the buffer.
pub open spec fn buffer_u32(buf: Seq<u8>, offset: int) -> Option<u32> {
    if 4 + offset > SYSCALL_BUFFER_SIZE { None } else { Some(le_u32_at(buf, offset)) }
}

/// Where a string stored in `w` ends: its first zero byte, or the whole window.
pub open spec fn is_str_end(w: Seq<u8>, n: int) -> bool {
    &&& 0 <= n < w.len()
    &&& w[n] == 0
    &&& forall|j: int| 0 <= j < n ==> w[j] != 0
}

/// The text of the string stored in `w`: its bytes up to the first zero, or the empty text
/// when those bytes are not UTF-8.
pub open spec fn window_text(w: Seq<u8>) -> Seq<char> {
    let n = if exists|n: int| is_str_end(w, n) { choose|n: int| is_str_end(w, n) } else { w.len() as int };
    let p = w.subrange(0, n);
    if valid_utf8(p) { decode_utf8(p) } else { Seq::empty() }
}

/// The string at `offset` of the buffer: the text in the 4096 bytes from there, or `None` when
/// that window does not lie within the buffer.
pub open spec fn buffer_str(buf: Seq<u8>, offset: int) -> Option<Seq<char>> {
    if offset + MAX_STRLEN > SYSCALL_BUFFER_SIZE {
        None
    } else {
        Some(window_text(buf.subrange(offset, offset + MAX_STRLEN)))
    }
}

/// Reads a `u64` from the syscall buffer at `offset`.
pub fn read_from_buffer(buf: &[u8], offset: usize) -> (r: Option<u64>)
    requires
        buf@.len() == SYSCALL_BUFFER_SIZE,
        offset + 8 <= usize::MAX,
    ensures
        r == buffer_u64(buf@, offset as int),
{
    if 8 + offset > SYSCALL_BUFFER_SIZE {
        return None;
    }
    Some(read_u64(buf, offset))
}

/// Reads a `u32` from the syscall buffer at `offset`.
pub fn read_u32_from_buffer(buf: &[u8], offset: usize) -> (r: Option<u32>)
    requires
        buf@.len() == SYSCALL_BUFFER_SIZE,
        offset + 4 <= usize::MAX,
    ensures
        r == buffer_u32(buf@, offset as int),
{
    if 4 + offset > SYSCALL_BUFFER_SIZE {
        return None;
    }
    Some(read_u32(buf, offset))
}

/// Reads the string at `offset` of the syscall buffer (see [`buffer_str`]).
pub fn read_str_from_buffer(buf: &[u8], offset: usize) -> (r: Option<String>)
    requires
        buf@.len() == SYSCALL_BUFFER_SIZE,
        offset + MAX_STRLEN <= usize::MAX,
    ensures
        match buffer_str(buf@, offset as int) {
            Some(t) => r matches Some(s) && s@ == t,
            None => r is None,
        },
        r matches Some(s) ==> vstd::utf8::encode_utf8(s@).len() <= MAX_STRLEN,
{
    if offset + MAX_STRLEN > SYSCALL_BUFFER_SIZE {
        return None;
    }
    let window = vstd::slice::slice_subrange(buf, offset, offset + MAX_STRLEN);
    let ghost w = window@;
    let mut len: usize = 0;
    while len < MAX_STRLEN && window[len] != 0
        invariant
            w.len() == MAX_STRLEN,
            window@ == w,
            len <= MAX_STRLEN,
            forall|j: int| 0 <= j < len ==> w[j] != 0,
        decreases MAX_STRLEN - len,
    {
        len = len + 1;
    }
    proof {
        if len < MAX_STRLEN {
            assert(is_str_end(w, len as int));
            let n = choose|n: int| is_str_end(w, n);
            if n < len { assert(w[n] != 0); }
            if n > len { assert(w[len as int] != 0); }
        } else if exists|n: int| is_str_end(w, n) {
            let n = choose|n: int| is_str_end(w, n);
            assert(w[n] != 0);
        }
    }
    let prefix = vstd::slice::slice_subrange(window, 0, len);
    let text = match str_from_utf8(prefix) {
        Some(s) => {
            proof { vstd::utf8::decode_utf8_encode_utf8(prefix@); }
            s.to_owned()
        },
        None => {
            let empty = "";
            proof {
                reveal_strlit("");
                assert(vstd::utf8::encode_utf8(empty@) =~= Seq::<u8>::empty());
            }
            empty.to_owned()
        },
    };
    Some(text)
}

/// Dispatches syscall `number` with sub-argument `sub` on the task's buffer `buf`; an unknown
/// number answers `u64::MAX` and does nothing.
pub fn dispatch(number: u64, sub: u64, buf: &[u8]) -> (r: (u64, SyscallAction))
    requires
        buf@.len() == SYSCALL_BUFFER_SIZE,
    ensures
        number == PRINT ==> print_result(sub, buf@, r),
        number == TASK_MGMT ==> task_result(sub, buf@, r),
        number == MEMORY_MGMT ==> memory_result(sub, buf@, r),
        number > MEMORY_MGMT ==> r.0 == u64::MAX && r.1 is Nothing,
{
    match number {
        PRINT => sys_print(sub, buf),
        TASK_MGMT => sys_task_manage(sub, buf),
        MEMORY_MGMT => sys_memory_manage(sub, buf),
        _ => (u64::MAX, SyscallAction::Nothing),
    }
}

} // verus!
