//! What the invariant of the scheduler says of the tasks it holds.

use vstd::prelude::*;
use crate::scheduler::model::SchedulerModel;
use crate::scheduler::model::taken_slot;
use crate::task::ProcessState;
use crate::task::Task;

verus! {

impl SchedulerModel {
    /// The task of pid `pid` that the scheduler holds, if it holds one.
    pub open spec fn task_of(self, pid: u32) -> Option<Task> {
        if self.running[0] matches Some(t) && t.pid == pid {
            self.running[0]
        } else if self.running[1] matches Some(t) && t.pid == pid {
            self.running[1]
        } else if self.ready_q.contains_key(pid) {
            Some(self.ready_q[pid])
        } else if self.new_q.contains_key(pid) {
            Some(self.new_q[pid])
        } else if self.blocked_q.contains_key(pid) {
            Some(self.blocked_q[pid])
        } else if self.ready_susp_q.contains_key(pid) {
            Some(self.ready_susp_q[pid])
        } else if self.blocked_susp_q.contains_key(pid) {
            Some(self.blocked_susp_q[pid])
        } else if self.terminated.contains_key(pid) {
            Some(self.terminated[pid])
        } else {
            None
        }
    }

    /// What `task_of` finds under a pid is a task of that pid that the
    /// scheduler holds; it finds none only where the scheduler holds none.
    pub proof fn lemma_task_of(self, pid: u32)
        requires
            self.inv(),
        ensures
            match self.task_of(pid) {
                Some(t) => t.pid == pid && self.holds(t),
                None => self.places(pid) == 0,
            },
    {
        if self.new_q.contains_key(pid) {
            assert(self.new_q[pid].pid == pid);
        }
        if self.ready_q.contains_key(pid) {
            assert(self.ready_q[pid].pid == pid);
        }
        if self.ready_susp_q.contains_key(pid) {
            assert(self.ready_susp_q[pid].pid == pid);
        }
        if self.blocked_q.contains_key(pid) {
            assert(self.blocked_q[pid].pid == pid);
        }
        if self.blocked_susp_q.contains_key(pid) {
            assert(self.blocked_susp_q[pid].pid == pid);
        }
        if self.terminated.contains_key(pid) {
            assert(self.terminated[pid].pid == pid);
        }
    }

    /// Every task that the scheduler holds fits it.
    pub proof fn lemma_held_is_coherent(self, t: Task)
        requires
            self.inv(),
            self.holds(t),
        ensures
            self.coherent(t),
            self.places(t.pid) == 1,
    {
        assert(self.places(t.pid) <= 1);
        if self.new_q.contains_key(t.pid) && self.new_q[t.pid] == t {
            assert(self.coherent(self.new_q[t.pid]));
        }
        if self.ready_q.contains_key(t.pid) && self.ready_q[t.pid] == t {
            assert(self.coherent(self.ready_q[t.pid]));
        }
        if self.ready_susp_q.contains_key(t.pid) && self.ready_susp_q[t.pid] == t {
            assert(self.coherent(self.ready_susp_q[t.pid]));
        }
        if self.blocked_q.contains_key(t.pid) && self.blocked_q[t.pid] == t {
            assert(self.coherent(self.blocked_q[t.pid]));
        }
        if self.blocked_susp_q.contains_key(t.pid) && self.blocked_susp_q[t.pid] == t {
            assert(self.coherent(self.blocked_susp_q[t.pid]));
        }
        if self.terminated.contains_key(t.pid) && self.terminated[t.pid] == t {
            assert(self.coherent(self.terminated[t.pid]));
        }
    }

    /// Where every accepted task is held, the task of each pid that was
    /// accepted can be found.
    pub proof fn lemma_accepted_is_held(self, pid: u32)
        requires
            self.inv(),
            self.complete(),
            self.latches.contains_key(pid),
        ensures
            self.task_of(pid) is Some,
            self.holds(self.task_of(pid).unwrap()),
            self.task_of(pid).unwrap().pid == pid,
    {
        self.lemma_task_of(pid);
        assert(self.places(pid) == 1);
    }

    /// The tasks that are ready in memory and those that run are together
    /// no more than there are slots.
    pub proof fn lemma_slots_respected(self)
        requires
            self.inv(),
        ensures
            self.ready_q.len() + taken_slot(self.running[0]) + taken_slot(self.running[1])
                <= self.slots,
    {
    }

    /// A task has terminated exactly if its latch is set.
    pub proof fn lemma_terminated_iff_done(self, t: Task)
        requires
            self.inv(),
            self.holds(t),
        ensures
            (t.state == ProcessState::Terminated) <==> self.latches[t.pid]@,
            self.latches.contains_key(t.pid),
    {
        self.lemma_held_is_coherent(t);
    }

    /// A task that is ready, running or blocked, and not suspended, holds
    /// memory: the range that the allocator has for its pid.
    pub proof fn lemma_resident_holds_memory(self, t: Task)
        requires
            self.inv(),
            self.holds(t),
            t.state == ProcessState::Ready || t.state == ProcessState::Running || t.state
                == ProcessState::Blocked,
            !t.is_suspended,
        ensures
            t.memory_range is Some,
            self.memory.used.contains_key(t.pid),
            t.memory_range == Some(self.memory.used[t.pid]),
    {
        self.lemma_held_is_coherent(t);
    }

    /// A suspended task holds no memory.
    pub proof fn lemma_suspended_holds_none(self, t: Task)
        requires
            self.inv(),
            self.holds(t),
            t.is_suspended,
        ensures
            t.memory_range is None,
            !self.memory.used.contains_key(t.pid),
    {
        self.lemma_held_is_coherent(t);
    }

    /// No task is bound to both processors.
    pub proof fn lemma_bound_once(self)
        requires
            self.inv(),
        ensures
            self.running.len() == 2,
            self.running[0] is Some && self.running[1] is Some ==> self.running[0].unwrap().pid
                != self.running[1].unwrap().pid,
    {
        if self.running[0] is Some && self.running[1] is Some {
            assert(self.places(self.running[0].unwrap().pid) <= 1);
        }
    }

    /// No task entered its queue later than now.
    pub proof fn lemma_entered_by_now(self, t: Task)
        requires
            self.inv(),
            self.holds(t),
        ensures
            t.in_queue_time <= self.time,
    {
        self.lemma_held_is_coherent(t);
    }

    /// A task submitted to wait for one that has terminated waits for
    /// nothing: its predecessor is done from the start.
    pub proof fn lemma_late_dependent(self, t: Task, p: u32, done: Task)
        requires
            self.inv(),
            self.holds(done),
            done.pid == p,
            done.state == ProcessState::Terminated,
            !self.latches.contains_key(t.pid),
        ensures
            self.after_submit(t, Some(p)).holds(self.after_submit(t, Some(p)).new_q[t.pid]),
            self.after_submit(t, Some(p)).new_q[t.pid].cond_satisfied(
                self.after_submit(t, Some(p)).latches,
            ),
    {
        self.lemma_held_is_coherent(done);
    }
}

} // verus!
