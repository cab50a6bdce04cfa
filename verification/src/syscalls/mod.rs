//! System calls: the decisions that the entry stub dispatches to. Each call reads its arguments
//! from the task's syscall buffer and answers with a return code and the action the kernel
//! is to carry out.

pub mod syscall_internal;
pub mod functions;
