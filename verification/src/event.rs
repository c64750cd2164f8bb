//! What the scheduler reports of its work.

use vstd::prelude::*;
use crate::memory::hole::Hole;
use crate::task::ProcessState;

verus! {

/// One step of the scheduler's work, for the host to log or to show.
#[derive(Debug, Clone, Copy, PartialEq, Eq, Structural)]
pub enum Event {
    /// A task was submitted and accepted.
    Admitted { pid: u32 },
    /// A task went from one state to another.
    Transition { pid: u32, from: ProcessState, to: ProcessState },
    /// A task was given a range of memory.
    Allocated { pid: u32, hole: Hole },
    /// A task gave its range of memory back.
    Freed { pid: u32, hole: Hole },
    /// A running task is about to lose its processor to a ready task of
    /// higher priority.
    Preempted { pid: u32, by: u32 },
    /// A task has terminated.
    Terminated { pid: u32 },
}

} // verus!
