//! Tasks and their lifecycle state.

use core::cmp::Ordering;
use std::collections::HashMap;
use vstd::prelude::*;
use vstd::std_specs::cmp::PartialEqSpecImpl;
use vstd::std_specs::cmp::PartialOrdSpecImpl;
use crate::condition::Condition;
use crate::memory::hole::Hole;

verus! {

broadcast use vstd::std_specs::hash::group_hash_axioms;

/// Where a task stands in its life.
#[derive(Debug, Clone, Copy, Eq, PartialEq, Structural)]
pub enum ProcessState {
    New,
    Ready,
    Running,
    Terminated,
    Blocked,
}

/// A handle on the latch of another task: that task's pid. The latch itself
/// lives in a table that the scheduler owns.
pub type ConditionRef = u32;

/// The slice a task has before it was ever dispatched.
pub const UNSCHEDULED_SLICE: i32 = 0x3f3f3f3f;

/// A task: what it asks for, and where it stands.
#[derive(Debug)]
pub struct Task {
    pub pid: u32,
    pub request_time: i32,
    pub sch_time: i32,
    pub priority: u32,
    pub state: ProcessState,
    pub in_queue_time: i32,
    pub memory_size: u32,
    pub memory_range: Option<Hole>,
    pub cond: Option<ConditionRef>,
    pub is_suspended: bool,
}

impl Task {
    /// Whether the task may run as far as its predecessor is concerned: it
    /// waits for nobody, or the latch it waits for is in `latches` and set.
    pub open spec fn cond_satisfied(self, latches: Map<u32, Condition>) -> bool {
        match self.cond {
            None => true,
            Some(p) => latches.contains_key(p) && latches[p]@,
        }
    }

    /// A new task: not yet scheduled, without memory, waiting for nobody.
    pub fn new(pid: u32, request_time: i32, priority: u32, memory_size: u32) -> (t: Self)
        ensures
            t == (Task {
                pid,
                request_time,
                sch_time: UNSCHEDULED_SLICE,
                priority,
                state: ProcessState::New,
                in_queue_time: 0,
                memory_size,
                memory_range: None,
                cond: None,
                is_suspended: false,
            }),
    {
        Task {
            pid,
            request_time,
            priority,
            state: ProcessState::New,
            in_queue_time: 0,
            sch_time: UNSCHEDULED_SLICE,
            memory_size,
            memory_range: None,
            cond: None,
            is_suspended: false,
        }
    }

    /// The pid of the task.
    pub fn pid(&self) -> (pid: u32)
        ensures
            pid == self.pid,
    {
        self.pid
    }

    /// The processor time the task still needs.
    pub fn request_time(&self) -> (t: i32)
        ensures
            t == self.request_time,
    {
        self.request_time
    }

    /// The priority of the task; a larger number is a higher priority.
    pub fn priority(&self) -> (p: u32)
        ensures
            p == self.priority,
    {
        self.priority
    }

    /// The state of the task.
    pub fn state(&self) -> (s: &ProcessState)
        ensures
            *s == self.state,
    {
        &self.state
    }

    /// Sets the processor time the task still needs.
    pub fn set_request_time(&mut self, request_time: i32)
        ensures
            *final(self) == (Task { request_time, ..*old(self) }),
    {
        self.request_time = request_time;
    }

    /// Sets the priority.
    pub fn set_priority(&mut self, priority: u32)
        ensures
            *final(self) == (Task { priority, ..*old(self) }),
    {
        self.priority = priority;
    }

    /// Sets the state.
    pub fn set_state(&mut self, state: ProcessState)
        ensures
            *final(self) == (Task { state, ..*old(self) }),
    {
        self.state = state;
    }

    /// The time at which the task last entered a queue.
    pub fn in_queue_time(&self) -> (t: i32)
        ensures
            t == self.in_queue_time,
    {
        self.in_queue_time
    }

    /// Sets the time at which the task entered its queue.
    pub fn set_in_queue_time(&mut self, in_queue_time: i32)
        ensures
            *final(self) == (Task { in_queue_time, ..*old(self) }),
    {
        self.in_queue_time = in_queue_time;
    }

    /// Takes `t` ticks off both the time the task still needs and the rest
    /// of its slice.
    pub fn decrement_time(&mut self, t: i32)
        requires
            i32::MIN <= old(self).request_time - t <= i32::MAX,
            i32::MIN <= old(self).sch_time - t <= i32::MAX,
        ensures
            *final(self) == (Task {
                request_time: (old(self).request_time - t) as i32,
                sch_time: (old(self).sch_time - t) as i32,
                ..*old(self)
            }),
    {
        self.request_time -= t;
        self.sch_time -= t;
    }

    /// The pages the task holds, if it is resident.
    pub fn memory_range(&self) -> (r: Option<Hole>)
        ensures
            r == self.memory_range,
    {
        self.memory_range
    }

    /// Notes the pages the task holds.
    pub fn set_memory_range(&mut self, h: Hole)
        ensures
            *final(self) == (Task { memory_range: Some(h), ..*old(self) }),
    {
        self.memory_range = Some(h);
    }

    /// Forgets the pages the task held.
    pub fn clear_memory_range(&mut self)
        ensures
            *final(self) == (Task { memory_range: None, ..*old(self) }),
    {
        self.memory_range = None;
    }

    /// The number of pages the task needs to be resident.
    pub fn memory_size(&self) -> (n: u32)
        ensures
            n == self.memory_size,
    {
        self.memory_size
    }

    /// The ticks left in the current slice.
    pub fn sch_time(&self) -> (t: i32)
        ensures
            t == self.sch_time,
    {
        self.sch_time
    }

    /// Sets the ticks left in the current slice.
    pub fn set_sch_time(&mut self, sch_time: i32)
        ensures
            *final(self) == (Task { sch_time, ..*old(self) }),
    {
        self.sch_time = sch_time;
    }

    /// The task whose completion this one waits for, if any.
    pub fn cond(&self) -> (c: Option<ConditionRef>)
        ensures
            c == self.cond,
    {
        self.cond
    }

    /// Sets the task whose completion this one waits for.
    pub fn set_cond(&mut self, cond: Option<ConditionRef>)
        ensures
            *final(self) == (Task { cond, ..*old(self) }),
    {
        self.cond = cond;
    }

    /// Whether the task's predecessor, if it has one, has set its latch in
    /// `latches`.
    pub fn is_cond_satisfied(&self, latches: &HashMap<u32, Condition>) -> (ok: bool)
        ensures
            ok == self.cond_satisfied(latches@),
    {
        match self.cond {
            None => true,
            Some(p) => match latches.get(&p) {
                None => false,
                Some(latch) => latch.is_done(),
            },
        }
    }

    /// Whether the task is suspended.
    pub fn is_suspended(&self) -> (s: bool)
        ensures
            s == self.is_suspended,
    {
        self.is_suspended
    }

    /// Marks the task as suspended.
    pub fn suspend(&mut self)
        ensures
            *final(self) == (Task { is_suspended: true, ..*old(self) }),
    {
        self.is_suspended = true;
    }

    /// Marks the task as not suspended.
    pub fn unsuspend(&mut self)
        ensures
            *final(self) == (Task { is_suspended: false, ..*old(self) }),
    {
        self.is_suspended = false;
    }
}

impl PartialEqSpecImpl for Task {
    open spec fn obeys_eq_spec() -> bool {
        true
    }

    /// Two tasks compare equal when they agree in priority, in the time
    /// they entered their queue, and in state.
    open spec fn eq_spec(&self, other: &Task) -> bool {
        self.priority == other.priority && self.in_queue_time == other.in_queue_time && self.state
            == other.state
    }
}

impl PartialEq for Task {
    fn eq(&self, other: &Self) -> (r: bool) {
        self.priority == other.priority && self.in_queue_time == other.in_queue_time && self.state
            == other.state
    }
}

impl Eq for Task {

}

impl PartialOrdSpecImpl for Task {
    open spec fn obeys_partial_cmp_spec() -> bool {
        true
    }

    /// Tasks are ordered by priority, and among equal priorities the one
    /// that entered its queue earlier is the greater.
    open spec fn partial_cmp_spec(&self, other: &Task) -> Option<Ordering> {
        if self.priority < other.priority {
            Some(Ordering::Less)
        } else if self.priority > other.priority {
            Some(Ordering::Greater)
        } else if self.in_queue_time > other.in_queue_time {
            Some(Ordering::Less)
        } else if self.in_queue_time < other.in_queue_time {
            Some(Ordering::Greater)
        } else {
            Some(Ordering::Equal)
        }
    }
}

impl PartialOrd for Task {
    fn partial_cmp(&self, other: &Self) -> (r: Option<Ordering>) {
        if self.priority < other.priority {
            Some(Ordering::Less)
        } else if self.priority > other.priority {
            Some(Ordering::Greater)
        } else if self.in_queue_time > other.in_queue_time {
            Some(Ordering::Less)
        } else if self.in_queue_time < other.in_queue_time {
            Some(Ordering::Greater)
        } else {
            Some(Ordering::Equal)
        }
    }
}

} // verus!
