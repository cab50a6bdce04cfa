//! Tasks as the scheduler sees them.

use vstd::prelude::*;
use crate::helpers::time::Time;

verus! {

/// What a task is doing.
#[derive(Debug, Clone, Copy, PartialEq, Eq, Structural, PartialOrd, Ord)]
pub enum TaskState {
    /// Runnable.
    Ready,
    /// Sleeping until the time given.
    Wait(Time),
    /// Finished, waiting to be reaped.
    Terminate,
}

/// The queue a task of state `s` belongs in: 0 ready, 1 sleeping, 2 terminated.
pub open spec fn queue_of(s: TaskState) -> int {
    match s {
        TaskState::Ready => 0,
        TaskState::Wait(_) => 1,
        TaskState::Terminate => 2,
    }
}

/// A task as the scheduler handles it: its identity, its state and its saved stack pointer.
#[derive(Debug, Clone, Copy, PartialEq, Eq, Structural)]
pub struct Task {
    pub id: u64,
    pub state: TaskState,
    pub sp: usize,
}

impl Task {
    /// A ready task `id` whose saved stack pointer is `sp`.
    pub fn new(id: u64, sp: usize) -> (r: Self)
        ensures
            r == (Task { id, state: TaskState::Ready, sp }),
    {
        Task { id, state: TaskState::Ready, sp }
    }
}

} // verus!
