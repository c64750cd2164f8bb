//! One-shot completion latches.

use vstd::prelude::*;

verus! {

/// The two states of a latch.
#[derive(Eq, PartialEq, Structural, Clone, Copy, Debug)]
pub enum CondState {
    NotDone,
    Done,
}

/// A latch that a task sets once, when it terminates, and that the tasks
/// waiting for it read. It never goes back to `NotDone`.
#[derive(Debug)]
pub struct Condition {
    pub cond: CondState,
}

impl View for Condition {
    type V = bool;

    /// A latch is modelled by whether it has been set.
    open spec fn view(&self) -> bool {
        self.cond == CondState::Done
    }
}

impl Condition {
    /// A fresh latch, not yet set.
    pub fn new() -> (c: Self)
        ensures
            !c@,
            c.cond == CondState::NotDone,
    {
        Self { cond: CondState::NotDone }
    }

    /// Sets the latch. Setting it twice is the same as setting it once.
    pub fn set_ok(&mut self)
        ensures
            final(self)@,
            final(self).cond == CondState::Done,
    {
        self.cond = CondState::Done;
    }

    /// Whether the latch has been set.
    pub fn is_done(&self) -> (done: bool)
        ensures
            done == self@,
    {
        self.cond == CondState::Done
    }
}

} // verus!
