//! The scheduler as a mathematical value, its invariant, and the
//! transitions that move one task.

use vstd::prelude::*;
use crate::condition::CondState;
use crate::condition::Condition;
use crate::event::Event;
use crate::memory::MemoryModel;
use crate::memory::hole::Hole;
use crate::queue::is_highest;
use crate::queue::is_lowest;
use crate::queue::keyed_by_pid;
use crate::queue::rank_le;
use crate::queue::rank_of;
use crate::task::ProcessState;
use crate::task::Task;

verus! {

/// A task is resident when it is not suspended and is ready, running or
/// blocked: it then holds memory.
pub open spec fn resident(t: Task) -> bool {
    !t.is_suspended && (t.state == ProcessState::Ready || t.state == ProcessState::Running
        || t.state == ProcessState::Blocked)
}

/// The two tables agree on every pid but `pid`.
pub open spec fn same_but(a: Map<u32, Hole>, b: Map<u32, Hole>, pid: u32) -> bool {
    &&& forall|q: u32| q != pid ==> (#[trigger] a.contains_key(q)) == b.contains_key(q)
    &&& forall|q: u32| q != pid && a.contains_key(q) ==> #[trigger] a[q] == b[q]
}

/// One if the map holds the pid, zero if not.
pub open spec fn in_map(q: Map<u32, Task>, pid: u32) -> int {
    if q.contains_key(pid) {
        1
    } else {
        0
    }
}

/// One if the sequence holds a task of that pid, zero if not.
pub open spec fn in_seq(w: Seq<Task>, pid: u32) -> int {
    if exists|i: int| 0 <= i < w.len() && (#[trigger] w[i]).pid == pid {
        1
    } else {
        0
    }
}

/// One if the slot holds a task of that pid, zero if not.
pub open spec fn in_slot(slot: Option<Task>, pid: u32) -> int {
    if slot matches Some(t) && t.pid == pid {
        1
    } else {
        0
    }
}

/// One if the slot holds a task, zero if not.
pub open spec fn taken_slot(slot: Option<Task>) -> int {
    if slot is Some {
        1
    } else {
        0
    }
}

/// `t` as it enters a queue in state `state` at time `now`.
pub open spec fn entering(t: Task, state: ProcessState, now: int) -> Task {
    Task { state, in_queue_time: now as i32, ..t }
}

/// `t` as it leaves memory at time `now`.
pub open spec fn swapped_out(t: Task, now: int) -> Task {
    Task { is_suspended: true, in_queue_time: now as i32, memory_range: None, ..t }
}

/// `t` as it comes back into memory at time `now`, in the range `h`.
pub open spec fn swapped_in(t: Task, h: Hole, now: int) -> Task {
    Task { is_suspended: false, in_queue_time: now as i32, memory_range: Some(h), ..t }
}

/// `t` as it is bound to a processor with a slice of `slice` ticks.
pub open spec fn dispatched(t: Task, slice: int) -> Task {
    Task { sch_time: slice as i32, state: ProcessState::Running, ..t }
}

/// `t` when it has terminated.
pub open spec fn ended(t: Task) -> Task {
    Task { state: ProcessState::Terminated, memory_range: None, ..t }
}

/// A latch that has been set.
pub open spec fn done_latch() -> Condition {
    Condition { cond: CondState::Done }
}

/// A latch that has not been set.
pub open spec fn fresh_latch() -> Condition {
    Condition { cond: CondState::NotDone }
}

/// `t` is the task of highest rank in `q`.
pub open spec fn is_top(q: Map<u32, Task>, t: Task) -> bool {
    q.contains_key(t.pid) && q[t.pid] == t && is_highest(q, t)
}

/// `t` is the task of lowest rank in `q`.
pub open spec fn is_bottom(q: Map<u32, Task>, t: Task) -> bool {
    q.contains_key(t.pid) && q[t.pid] == t && is_lowest(q, t)
}

/// The task of highest rank in `q`, where `q` holds a task.
pub open spec fn top(q: Map<u32, Task>) -> Task {
    choose|t: Task| is_top(q, t)
}

/// The task of lowest rank in `q`, where `q` holds a task.
pub open spec fn bottom(q: Map<u32, Task>) -> Task {
    choose|t: Task| is_bottom(q, t)
}

/// A queue has one task of highest rank only.
pub proof fn lemma_top_unique(q: Map<u32, Task>, t: Task)
    requires
        keyed_by_pid(q),
        is_top(q, t),
    ensures
        top(q) == t,
{
    let c = top(q);
    assert(is_top(q, c));
    assert(rank_le(rank_of(q[t.pid]), rank_of(c)));
    assert(rank_le(rank_of(q[c.pid]), rank_of(t)));
    assert(q[c.pid].pid == c.pid);
    assert(q[t.pid].pid == t.pid);
}

/// A queue has one task of lowest rank only.
pub proof fn lemma_bottom_unique(q: Map<u32, Task>, t: Task)
    requires
        keyed_by_pid(q),
        is_bottom(q, t),
    ensures
        bottom(q) == t,
{
    let c = bottom(q);
    assert(is_bottom(q, c));
    assert(rank_le(rank_of(t), rank_of(q[c.pid])));
    assert(rank_le(rank_of(c), rank_of(q[t.pid])));
    assert(q[c.pid].pid == c.pid);
    assert(q[t.pid].pid == t.pid);
}

/// The scheduler as a mathematical value: the tasks of each queue by pid,
/// the task bound to each processor, the tasks that have terminated, the
/// latch of each pid, the allocator, the clock, and the events that were
/// reported and not yet taken by the host.
pub struct SchedulerModel {
    pub new_q: Map<u32, Task>,
    pub ready_q: Map<u32, Task>,
    pub ready_susp_q: Map<u32, Task>,
    pub blocked_q: Map<u32, Task>,
    pub blocked_susp_q: Map<u32, Task>,
    pub running: Seq<Option<Task>>,
    pub terminated: Map<u32, Task>,
    pub latches: Map<u32, Condition>,
    pub memory: MemoryModel,
    pub time: int,
    pub time_slice: int,
    pub slots: int,
    pub events: Seq<Event>,
}

impl SchedulerModel {
    /// What must hold of a task for it to fit this scheduler, wherever the
    /// task is. Its pid is registered, and so is the pid it waits for; it
    /// entered its queue no later than now; it has terminated exactly if
    /// its latch is set; only a ready or blocked task is suspended; and it
    /// holds memory, the range that the allocator has for its pid and of
    /// the size it asks for, exactly if it is resident.
    pub open spec fn coherent(self, t: Task) -> bool {
        &&& self.latches.contains_key(t.pid)
        &&& (t.cond matches Some(p) ==> self.latches.contains_key(p))
        &&& t.in_queue_time <= self.time
        &&& t.memory_size > 0
        &&& (t.state == ProcessState::Terminated) == self.latches[t.pid]@
        &&& (t.is_suspended ==> t.state == ProcessState::Ready || t.state == ProcessState::Blocked)
        &&& if resident(t) {
            &&& self.memory.used.contains_key(t.pid)
            &&& t.memory_range == Some(self.memory.used[t.pid])
            &&& self.memory.used[t.pid].pages() == t.memory_size
        } else {
            &&& t.memory_range is None
            &&& !self.memory.used.contains_key(t.pid)
        }
    }

    /// Every task of the queue `q` is filed under its pid, fits the
    /// scheduler, is in state `state`, and is suspended or not as `susp`
    /// says.
    pub open spec fn lane_ok(self, q: Map<u32, Task>, state: ProcessState, susp: bool) -> bool {
        &&& q.dom().finite()
        &&& forall|pid: u32|
            q.contains_key(pid) ==> {
                let t = #[trigger] q[pid];
                &&& t.pid == pid
                &&& self.coherent(t)
                &&& t.state == state
                &&& t.is_suspended == susp
                &&& t.request_time > i32::MIN
            }
    }

    /// Every task on record as terminated is filed under its pid, fits the
    /// scheduler and has terminated.
    pub open spec fn terminated_ok(self) -> bool {
        forall|pid: u32|
            self.terminated.contains_key(pid) ==> {
                let t = #[trigger] self.terminated[pid];
                &&& t.pid == pid
                &&& self.coherent(t)
                &&& t.state == ProcessState::Terminated
            }
    }

    /// The task bound to a processor fits the scheduler and is running,
    /// and its slice has not fallen behind the time it still needs by more
    /// than a slice can hold.
    pub open spec fn bound_ok(self, slot: Option<Task>) -> bool {
        slot matches Some(t) ==> {
            &&& self.coherent(t)
            &&& t.state == ProcessState::Running
            &&& t.sch_time - t.request_time >= -i32::MAX
        }
    }

    /// The task bound to a processor can run one more tick: it still needs
    /// time, or it has its whole slice before it.
    pub open spec fn can_tick(self, slot: Option<Task>) -> bool {
        slot matches Some(t) ==> t.request_time > 0 || (t.sch_time == self.time_slice
            && t.request_time > i32::MIN)
    }

    /// In how many places the scheduler holds a task of that pid.
    pub open spec fn places(self, pid: u32) -> int {
        in_map(self.new_q, pid) + in_map(self.ready_q, pid) + in_map(self.ready_susp_q, pid)
            + in_map(self.blocked_q, pid) + in_map(self.blocked_susp_q, pid) + in_map(
            self.terminated,
            pid,
        ) + in_slot(self.running[0], pid) + in_slot(self.running[1], pid)
    }

    /// The number of slots in use: the tasks that are ready in memory and
    /// those that run.
    pub open spec fn busy(self) -> int {
        self.ready_q.len() + taken_slot(self.running[0]) + taken_slot(self.running[1])
    }

    /// Whether a slot is free.
    pub open spec fn has_slot(self) -> bool {
        self.slots > self.busy()
    }

    /// The scheduler's invariant.
    pub open spec fn inv(self) -> bool {
        &&& self.running.len() == 2
        &&& 0 <= self.time <= i32::MAX
        &&& 0 <= self.time_slice <= i32::MAX
        &&& 0 <= self.slots <= u32::MAX
        &&& self.memory.inv()
        &&& self.latches.dom().finite()
        &&& self.memory.used.dom().subset_of(self.latches.dom())
        &&& self.lane_ok(self.new_q, ProcessState::New, false)
        &&& self.lane_ok(self.ready_q, ProcessState::Ready, false)
        &&& self.lane_ok(self.ready_susp_q, ProcessState::Ready, true)
        &&& self.lane_ok(self.blocked_q, ProcessState::Blocked, false)
        &&& self.lane_ok(self.blocked_susp_q, ProcessState::Blocked, true)
        &&& self.terminated_ok()
        &&& self.bound_ok(self.running[0])
        &&& self.bound_ok(self.running[1])
        &&& forall|pid: u32| #[trigger] self.places(pid) <= 1
        &&& self.busy() <= self.slots
    }

    /// Every task that was accepted is held in exactly one place.
    pub open spec fn complete(self) -> bool {
        forall|pid: u32| self.latches.contains_key(pid) ==> #[trigger] self.places(pid) == 1
    }

    /// Each pid is held in `post` in as many places as here.
    pub open spec fn same_places(self, post: SchedulerModel) -> bool {
        forall|pid: u32| #[trigger] post.places(pid) == self.places(pid)
    }

    /// The scheduler holds `t`, in a queue, on a processor, or on record as
    /// terminated.
    pub open spec fn holds(self, t: Task) -> bool {
        ||| self.new_q.contains_key(t.pid) && self.new_q[t.pid] == t
        ||| self.ready_q.contains_key(t.pid) && self.ready_q[t.pid] == t
        ||| self.ready_susp_q.contains_key(t.pid) && self.ready_susp_q[t.pid] == t
        ||| self.blocked_q.contains_key(t.pid) && self.blocked_q[t.pid] == t
        ||| self.blocked_susp_q.contains_key(t.pid) && self.blocked_susp_q[t.pid] == t
        ||| self.terminated.contains_key(t.pid) && self.terminated[t.pid] == t
        ||| self.running[0] == Some(t)
        ||| self.running[1] == Some(t)
    }

    /// `t` fits the scheduler and the scheduler holds no task of its pid:
    /// it is on its way from one place to another.
    pub open spec fn detached(self, t: Task) -> bool {
        self.coherent(t) && self.places(t.pid) == 0
    }

    /// `t` is detached and can stand in a queue: the time it needs can
    /// still be counted down.
    pub open spec fn queueable(self, t: Task) -> bool {
        self.detached(t) && t.request_time > i32::MIN
    }

    /// The scheduler with one more event reported.
    pub open spec fn noted(self, e: Event) -> SchedulerModel {
        SchedulerModel { events: self.events.push(e), ..self }
    }

    /// The scheduler with `t` in the queue that its state and suspension
    /// call for.
    pub open spec fn enqueued(self, t: Task) -> SchedulerModel {
        match (t.state, t.is_suspended) {
            (ProcessState::New, _) => SchedulerModel {
                new_q: self.new_q.insert(t.pid, t),
                ..self
            },
            (ProcessState::Ready, false) => SchedulerModel {
                ready_q: self.ready_q.insert(t.pid, t),
                ..self
            },
            (ProcessState::Ready, true) => SchedulerModel {
                ready_susp_q: self.ready_susp_q.insert(t.pid, t),
                ..self
            },
            (ProcessState::Blocked, false) => SchedulerModel {
                blocked_q: self.blocked_q.insert(t.pid, t),
                ..self
            },
            (ProcessState::Blocked, true) => SchedulerModel {
                blocked_susp_q: self.blocked_susp_q.insert(t.pid, t),
                ..self
            },
            _ => self,
        }
    }

    /// The scheduler after the resident task `t` was suspended: its memory
    /// is free, which is reported, and it waits in the suspended queue of
    /// its state.
    pub open spec fn after_suspend(self, t: Task) -> SchedulerModel {
        (SchedulerModel { memory: self.memory.after_free(t.pid), ..self }).enqueued(
            swapped_out(t, self.time),
        ).noted(Event::Freed { pid: t.pid, hole: self.memory.used[t.pid] })
    }

    /// The scheduler after the suspended task `t` got memory: it holds the
    /// first fit, which is reported, and waits in the resident queue of its
    /// state.
    pub open spec fn after_unsuspend(self, t: Task) -> SchedulerModel {
        (SchedulerModel {
            memory: self.memory.after_allocate(t.memory_size as int, t.pid),
            ..self
        }).enqueued(swapped_in(t, self.memory.grant(t.memory_size as int), self.time)).noted(
            Event::Allocated { pid: t.pid, hole: self.memory.grant(t.memory_size as int) },
        )
    }

    /// The scheduler after the resident task `t` terminated: its memory is
    /// free, its latch is set, and it is on record; both are reported.
    pub open spec fn after_terminate(self, t: Task) -> SchedulerModel {
        (SchedulerModel {
            memory: self.memory.after_free(t.pid),
            latches: self.latches.insert(t.pid, done_latch()),
            terminated: self.terminated.insert(t.pid, ended(t)),
            ..self
        }).noted(Event::Freed { pid: t.pid, hole: self.memory.used[t.pid] }).noted(
            Event::Terminated { pid: t.pid },
        )
    }

    /// The scheduler after `t` was submitted, waiting for `cond`: it has a
    /// fresh latch and stands in the queue of new tasks, which is reported.
    pub open spec fn after_submit(self, t: Task, cond: Option<u32>) -> SchedulerModel {
        (SchedulerModel {
            latches: self.latches.insert(t.pid, fresh_latch()),
            new_q: self.new_q.insert(
                t.pid,
                Task {
                    state: ProcessState::New,
                    in_queue_time: self.time as i32,
                    cond,
                    is_suspended: false,
                    memory_range: None,
                    ..t
                },
            ),
            ..self
        }).noted(Event::Admitted { pid: t.pid })
    }

    /// The scheduler after `t`, on its way between two places, entered the
    /// queue of state `state` at this time.
    pub open spec fn entered(self, t: Task, state: ProcessState) -> SchedulerModel {
        self.enqueued(entering(t, state, self.time)).noted(
            Event::Transition { pid: t.pid, from: t.state, to: state },
        )
    }

    /// The scheduler holds `t` in the queue that its state and suspension
    /// call for.
    pub open spec fn queued(self, t: Task) -> bool {
        match (t.state, t.is_suspended) {
            (ProcessState::New, false) => self.new_q.contains_key(t.pid) && self.new_q[t.pid] == t,
            (ProcessState::Ready, false) => self.ready_q.contains_key(t.pid) && self.ready_q[t.pid]
                == t,
            (ProcessState::Ready, true) => self.ready_susp_q.contains_key(t.pid)
                && self.ready_susp_q[t.pid] == t,
            (ProcessState::Blocked, false) => self.blocked_q.contains_key(t.pid)
                && self.blocked_q[t.pid] == t,
            (ProcessState::Blocked, true) => self.blocked_susp_q.contains_key(t.pid)
                && self.blocked_susp_q[t.pid] == t,
            _ => false,
        }
    }

    /// The scheduler without `t` in the queue that its state and
    /// suspension call for.
    pub open spec fn dequeued(self, t: Task) -> SchedulerModel {
        match (t.state, t.is_suspended) {
            (ProcessState::New, _) => SchedulerModel { new_q: self.new_q.remove(t.pid), ..self },
            (ProcessState::Ready, false) => SchedulerModel {
                ready_q: self.ready_q.remove(t.pid),
                ..self
            },
            (ProcessState::Ready, true) => SchedulerModel {
                ready_susp_q: self.ready_susp_q.remove(t.pid),
                ..self
            },
            (ProcessState::Blocked, false) => SchedulerModel {
                blocked_q: self.blocked_q.remove(t.pid),
                ..self
            },
            (ProcessState::Blocked, true) => SchedulerModel {
                blocked_susp_q: self.blocked_susp_q.remove(t.pid),
                ..self
            },
            _ => self,
        }
    }

    /// Two schedulers agree on everything that the fitness of a task
    /// depends on.
    pub open spec fn same_ground(self, other: SchedulerModel) -> bool {
        &&& self.latches == other.latches
        &&& self.memory == other.memory
        &&& self.time == other.time
        &&& self.time_slice == other.time_slice
        &&& self.slots == other.slots
    }

    /// Putting a detached task into its queue keeps the invariant, and
    /// changes the place of no other task.
    pub proof fn lemma_enqueued(self, t: Task)
        requires
            self.inv(),
            self.queueable(t),
            t.state == ProcessState::New || t.state == ProcessState::Ready || t.state
                == ProcessState::Blocked,
            t.state == ProcessState::Ready && !t.is_suspended ==> self.has_slot(),
        ensures
            self.enqueued(t).inv(),
            self.enqueued(t).queued(t),
            self.enqueued(t).same_ground(self),
            self.enqueued(t).running == self.running,
            self.enqueued(t).places(t.pid) == 1,
            forall|pid: u32| pid != t.pid ==> #[trigger] self.enqueued(t).places(pid) == self.places(pid),
            self.enqueued(t).busy() == self.busy() + (if t.state == ProcessState::Ready
                && !t.is_suspended {
                1int
            } else {
                0int
            }),
    {
        let after = self.enqueued(t);
        assert(self.places(t.pid) == 0);
        assert forall|pid: u32| #[trigger] after.places(pid) <= 1 by {
            assert(self.places(pid) <= 1);
        }
    }

    /// Taking a task out of its queue keeps the invariant and leaves the
    /// task detached.
    pub proof fn lemma_dequeued(self, t: Task)
        requires
            self.inv(),
            self.queued(t),
        ensures
            self.dequeued(t).inv(),
            self.dequeued(t).queueable(t),
            self.dequeued(t).same_ground(self),
            self.dequeued(t).running == self.running,
            forall|pid: u32| pid != t.pid ==> #[trigger] self.dequeued(t).places(pid) == self.places(pid),
            self.dequeued(t).busy() == self.busy() - (if t.state == ProcessState::Ready
                && !t.is_suspended {
                1int
            } else {
                0int
            }),
    {
        let after = self.dequeued(t);
        assert(self.places(t.pid) <= 1);
        assert forall|pid: u32| #[trigger] after.places(pid) <= 1 by {
            assert(self.places(pid) <= 1);
        }
    }

    /// The scheduler once the host has taken the events.
    pub open spec fn without_events(self) -> SchedulerModel {
        SchedulerModel { events: Seq::empty(), ..self }
    }

    /// Taking the events keeps the invariant.
    pub proof fn lemma_without_events(self)
        requires
            self.inv(),
        ensures
            self.without_events().inv(),
            self.same_places(self.without_events()),
    {
        let after = self.without_events();
        assert forall|u: Task| #[trigger] after.coherent(u) == self.coherent(u) by {}
        assert forall|pid: u32| #[trigger] after.places(pid) <= 1 by {
            assert(self.places(pid) <= 1);
        }
    }

    /// Reporting an event changes nothing else.
    pub proof fn lemma_noted(self, e: Event)
        ensures
            self.inv() ==> self.noted(e).inv(),
            self.noted(e).same_ground(self),
            self.noted(e).running == self.running,
            self.noted(e).busy() == self.busy(),
            forall|u: Task| #[trigger] self.noted(e).coherent(u) == self.coherent(u),
            forall|u: Task| #[trigger] self.noted(e).queued(u) == self.queued(u),
            forall|pid: u32| #[trigger] self.noted(e).places(pid) == self.places(pid),
    {
        let after = self.noted(e);
        assert forall|u: Task| #[trigger] after.coherent(u) == self.coherent(u) by {}
        assert forall|pid: u32| #[trigger] after.places(pid) == self.places(pid) by {}
        if self.inv() {
            assert forall|pid: u32| #[trigger] after.places(pid) <= 1 by {
                assert(self.places(pid) <= 1);
            }
        }
    }

    /// The scheduler holds no task of a pid that has no latch.
    pub proof fn lemma_unknown_pid(self, pid: u32)
        requires
            self.inv(),
            !self.latches.contains_key(pid),
        ensures
            self.places(pid) == 0,
            !self.memory.used.contains_key(pid),
    {
        if self.new_q.contains_key(pid) {
            assert(self.coherent(self.new_q[pid]));
        }
        if self.ready_q.contains_key(pid) {
            assert(self.coherent(self.ready_q[pid]));
        }
        if self.ready_susp_q.contains_key(pid) {
            assert(self.coherent(self.ready_susp_q[pid]));
        }
        if self.blocked_q.contains_key(pid) {
            assert(self.coherent(self.blocked_q[pid]));
        }
        if self.blocked_susp_q.contains_key(pid) {
            assert(self.coherent(self.blocked_susp_q[pid]));
        }
        if self.terminated.contains_key(pid) {
            assert(self.coherent(self.terminated[pid]));
        }
    }

    /// The scheduler with another allocator in place of its own.
    pub open spec fn with_memory(self, memory: MemoryModel) -> SchedulerModel {
        SchedulerModel { memory, ..self }
    }

    /// Where the scheduler holds no task of a pid, each task it holds
    /// fits it as before whatever that pid holds in memory.
    pub proof fn lemma_memory_of_absent(self, memory: MemoryModel, pid: u32)
        requires
            self.inv(),
            self.places(pid) == 0,
            self.latches.contains_key(pid),
            memory.inv(),
            same_but(memory.used, self.memory.used, pid),
        ensures
            self.with_memory(memory).inv(),
            forall|u: Task|
                u.pid != pid ==> #[trigger] self.with_memory(memory).coherent(u) == self.coherent(u),
            forall|q: u32| #[trigger] self.with_memory(memory).places(q) == self.places(q),
    {
        let after = self.with_memory(memory);
        assert forall|u: Task| u.pid != pid implies #[trigger] after.coherent(u) == self.coherent(
            u,
        ) by {}
        assert forall|q: u32| #[trigger] after.places(q) <= 1 by {
            assert(self.places(q) <= 1);
        }
        assert(after.memory.used.dom().subset_of(after.latches.dom())) by {
            assert forall|q: u32| after.memory.used.dom().contains(q) implies after.latches.dom().contains(
                q,
            ) by {
                if q != pid {
                    assert(self.memory.used.dom().contains(q));
                }
            }
        }
    }

    /// Suspending a detached resident task keeps the invariant.
    pub proof fn lemma_suspended(self, t: Task)
        requires
            self.inv(),
            self.queueable(t),
            !t.is_suspended,
            t.state == ProcessState::Ready || t.state == ProcessState::Blocked,
        ensures
            self.after_suspend(t).inv(),
            self.after_suspend(t).queued(swapped_out(t, self.time)),
            self.after_suspend(t).latches == self.latches,
            self.after_suspend(t).time == self.time,
            self.after_suspend(t).running == self.running,
            self.after_suspend(t).busy() == self.busy(),
            self.after_suspend(t).places(t.pid) == 1,
            forall|pid: u32|
                pid != t.pid ==> #[trigger] self.after_suspend(t).places(pid) == self.places(pid),
            forall|u: Task|
                u.pid != t.pid ==> #[trigger] self.after_suspend(t).coherent(u) == self.coherent(u),
    {
        self.memory.lemma_slot_exists(t.pid);
        self.memory.lemma_free_inv(t.pid, self.memory.slot(self.memory.used[t.pid]));
        let memory = self.memory.after_free(t.pid);
        self.lemma_memory_of_absent(memory, t.pid);
        let mid = self.with_memory(memory);
        let t2 = swapped_out(t, self.time);
        mid.lemma_enqueued(t2);
        let core = mid.enqueued(t2);
        let e = Event::Freed { pid: t.pid, hole: self.memory.used[t.pid] };
        core.lemma_noted(e);
        assert(core.noted(e) == self.after_suspend(t));
        assert forall|u: Task| u.pid != t.pid implies #[trigger] self.after_suspend(t).coherent(u)
            == self.coherent(u) by {
            assert(mid.coherent(u) == self.coherent(u));
            assert(core.noted(e).coherent(u) == core.coherent(u));
        }
        assert forall|pid: u32| pid != t.pid implies #[trigger] self.after_suspend(t).places(pid)
            == self.places(pid) by {
            assert(mid.places(pid) == self.places(pid));
            assert(core.places(pid) == mid.places(pid));
            assert(core.noted(e).places(pid) == core.places(pid));
        }
        assert(core.noted(e).places(t.pid) == core.places(t.pid));
        assert(core.noted(e).queued(t2) == core.queued(t2));
    }

    /// Giving memory to a detached task that holds none keeps the
    /// invariant.
    pub proof fn lemma_granted(self, t: Task)
        requires
            self.inv(),
            self.detached(t),
            !resident(t),
            self.memory.fits(t.memory_size as int),
        ensures
            self.with_memory(self.memory.after_allocate(t.memory_size as int, t.pid)).inv(),
            self.memory.grant(t.memory_size as int).pages() == t.memory_size,
            forall|pid: u32| #[trigger]
                self.with_memory(self.memory.after_allocate(t.memory_size as int, t.pid)).places(pid)
                    == self.places(pid),
            forall|u: Task|
                u.pid != t.pid ==> #[trigger] self.with_memory(
                    self.memory.after_allocate(t.memory_size as int, t.pid),
                ).coherent(u) == self.coherent(u),
    {
        let n = t.memory_size as int;
        self.memory.lemma_first_fit_exists(n);
        self.memory.lemma_allocate_inv(n, t.pid, self.memory.first_fit(n));
        self.lemma_memory_of_absent(self.memory.after_allocate(n, t.pid), t.pid);
    }

    /// Bringing a detached suspended task back into memory keeps the
    /// invariant.
    pub proof fn lemma_unsuspended(self, t: Task)
        requires
            self.inv(),
            self.queueable(t),
            t.is_suspended,
            self.memory.fits(t.memory_size as int),
            t.state == ProcessState::Ready ==> self.has_slot(),
        ensures
            self.after_unsuspend(t).inv(),
            self.after_unsuspend(t).queued(
                swapped_in(t, self.memory.grant(t.memory_size as int), self.time),
            ),
            self.after_unsuspend(t).latches == self.latches,
            self.after_unsuspend(t).time == self.time,
            self.after_unsuspend(t).running == self.running,
            self.after_unsuspend(t).busy() == self.busy() + (if t.state == ProcessState::Ready {
                1int
            } else {
                0int
            }),
            self.after_unsuspend(t).places(t.pid) == 1,
            forall|pid: u32|
                pid != t.pid ==> #[trigger] self.after_unsuspend(t).places(pid) == self.places(pid),
            forall|u: Task|
                u.pid != t.pid ==> #[trigger] self.after_unsuspend(t).coherent(u) == self.coherent(u),
    {
        let n = t.memory_size as int;
        self.lemma_granted(t);
        self.memory.lemma_first_fit_exists(n);
        self.memory.lemma_allocate_inv(n, t.pid, self.memory.first_fit(n));
        let mid = self.with_memory(self.memory.after_allocate(n, t.pid));
        let t2 = swapped_in(t, self.memory.grant(n), self.time);
        assert(mid.places(t.pid) == self.places(t.pid));
        mid.lemma_enqueued(t2);
        let core = mid.enqueued(t2);
        let e = Event::Allocated { pid: t.pid, hole: self.memory.grant(n) };
        core.lemma_noted(e);
        assert(core.noted(e) == self.after_unsuspend(t));
        assert forall|u: Task| u.pid != t.pid implies #[trigger] self.after_unsuspend(t).coherent(
            u,
        ) == self.coherent(u) by {
            assert(mid.coherent(u) == self.coherent(u));
            assert(core.noted(e).coherent(u) == core.coherent(u));
        }
        assert forall|pid: u32| pid != t.pid implies #[trigger] self.after_unsuspend(t).places(pid)
            == self.places(pid) by {
            assert(mid.places(pid) == self.places(pid));
            assert(core.places(pid) == mid.places(pid));
            assert(core.noted(e).places(pid) == core.places(pid));
        }
        assert(core.noted(e).places(t.pid) == core.places(t.pid));
        assert(core.noted(e).queued(t2) == core.queued(t2));
    }

    /// Terminating a detached running task keeps the invariant.
    pub proof fn lemma_terminated(self, t: Task)
        requires
            self.inv(),
            self.detached(t),
            t.state == ProcessState::Running,
        ensures
            self.after_terminate(t).inv(),
            self.after_terminate(t).time == self.time,
            self.after_terminate(t).running == self.running,
            self.after_terminate(t).busy() == self.busy(),
            self.after_terminate(t).places(t.pid) == 1,
            forall|pid: u32|
                pid != t.pid ==> #[trigger] self.after_terminate(t).places(pid) == self.places(pid),
            forall|u: Task|
                u.pid != t.pid ==> #[trigger] self.after_terminate(t).coherent(u) == self.coherent(u),
    {
        self.memory.lemma_slot_exists(t.pid);
        self.memory.lemma_free_inv(t.pid, self.memory.slot(self.memory.used[t.pid]));
        let memory = self.memory.after_free(t.pid);
        self.lemma_memory_of_absent(memory, t.pid);
        let mid = self.with_memory(memory);
        let after = self.after_terminate(t);
        assert forall|u: Task| u.pid != t.pid implies #[trigger] after.coherent(u) == self.coherent(
            u,
        ) by {
            assert(mid.coherent(u) == self.coherent(u));
        }
        assert forall|pid: u32| #[trigger] after.places(pid) <= 1 by {
            assert(mid.places(pid) == self.places(pid));
            assert(self.places(pid) <= 1);
        }
        assert forall|pid: u32| pid != t.pid implies #[trigger] after.places(pid) == self.places(
            pid,
        ) by {}
        assert(after.memory.used.dom().subset_of(after.latches.dom())) by {
            assert forall|q: u32| after.memory.used.dom().contains(q) implies after.latches.dom().contains(
                q,
            ) by {
                assert(mid.memory.used.dom().contains(q));
                assert(mid.latches.dom().contains(q));
            }
        }
        assert(after.lane_ok(after.new_q, ProcessState::New, false));
        assert(after.lane_ok(after.ready_q, ProcessState::Ready, false));
        assert(after.lane_ok(after.ready_susp_q, ProcessState::Ready, true));
        assert(after.lane_ok(after.blocked_q, ProcessState::Blocked, false));
        assert(after.lane_ok(after.blocked_susp_q, ProcessState::Blocked, true));
        assert(after.terminated_ok()) by {
            assert forall|pid: u32| after.terminated.contains_key(pid) implies {
                let u = #[trigger] after.terminated[pid];
                &&& u.pid == pid
                &&& after.coherent(u)
                &&& u.state == ProcessState::Terminated
            } by {
                if pid != t.pid {
                    assert(after.terminated[pid] == self.terminated[pid]);
                    assert(self.coherent(self.terminated[pid]));
                }
            }
        }
    }

    /// Submitting a task under a pid that is not yet registered keeps the
    /// invariant.
    pub proof fn lemma_submitted(self, t: Task, cond: Option<u32>)
        requires
            self.inv(),
            !self.latches.contains_key(t.pid),
            cond matches Some(p) ==> self.latches.contains_key(p),
            t.memory_size > 0,
            t.request_time > i32::MIN,
        ensures
            self.after_submit(t, cond).inv(),
            self.complete() ==> self.after_submit(t, cond).complete(),
    {
        self.lemma_unknown_pid(t.pid);
        let after = self.after_submit(t, cond);
        if self.complete() {
            assert forall|pid: u32| after.latches.contains_key(pid) implies #[trigger] after.places(
                pid,
            ) == 1 by {
                if pid != t.pid {
                    assert(self.places(pid) == 1);
                }
            }
        }
        assert forall|u: Task| u.pid != t.pid && self.coherent(u) implies #[trigger] after.coherent(
            u,
        ) by {}
        assert forall|pid: u32| #[trigger] after.places(pid) <= 1 by {
            assert(self.places(pid) <= 1);
        }
        assert(after.lane_ok(after.new_q, ProcessState::New, false)) by {
            assert forall|pid: u32| after.new_q.contains_key(pid) implies {
                let u = #[trigger] after.new_q[pid];
                &&& u.pid == pid
                &&& after.coherent(u)
                &&& u.state == ProcessState::New
                &&& u.is_suspended == false
                &&& u.request_time > i32::MIN
            } by {
                if pid != t.pid {
                    assert(after.new_q[pid] == self.new_q[pid]);
                    assert(self.coherent(self.new_q[pid]));
                }
            }
        }
        assert(after.lane_ok(after.ready_q, ProcessState::Ready, false)) by {
            assert forall|pid: u32| after.ready_q.contains_key(pid) implies after.coherent(
                #[trigger] after.ready_q[pid],
            ) by {
                assert(self.coherent(self.ready_q[pid]));
            }
        }
        assert(after.lane_ok(after.ready_susp_q, ProcessState::Ready, true)) by {
            assert forall|pid: u32| after.ready_susp_q.contains_key(pid) implies after.coherent(
                #[trigger] after.ready_susp_q[pid],
            ) by {
                assert(self.coherent(self.ready_susp_q[pid]));
            }
        }
        assert(after.lane_ok(after.blocked_q, ProcessState::Blocked, false)) by {
            assert forall|pid: u32| after.blocked_q.contains_key(pid) implies after.coherent(
                #[trigger] after.blocked_q[pid],
            ) by {
                assert(self.coherent(self.blocked_q[pid]));
            }
        }
        assert(after.lane_ok(after.blocked_susp_q, ProcessState::Blocked, true)) by {
            assert forall|pid: u32| after.blocked_susp_q.contains_key(pid) implies after.coherent(
                #[trigger] after.blocked_susp_q[pid],
            ) by {
                assert(self.coherent(self.blocked_susp_q[pid]));
            }
        }
        assert(after.terminated_ok()) by {
            assert forall|pid: u32| after.terminated.contains_key(pid) implies after.coherent(
                #[trigger] after.terminated[pid],
            ) by {
                assert(self.coherent(self.terminated[pid]));
            }
        }
    }

    /// The scheduler one tick later.
    pub open spec fn later(self) -> SchedulerModel {
        SchedulerModel { time: self.time + 1, ..self }
    }

    /// Advancing the clock keeps the invariant.
    pub proof fn lemma_later(self)
        requires
            self.inv(),
            self.time < i32::MAX,
        ensures
            self.later().inv(),
            forall|u: Task| self.coherent(u) ==> #[trigger] self.later().coherent(u),
            forall|pid: u32| #[trigger] self.later().places(pid) == self.places(pid),
    {
        let after = self.later();
        assert forall|u: Task| self.coherent(u) implies #[trigger] after.coherent(u) by {}
        assert forall|pid: u32| #[trigger] after.places(pid) <= 1 by {
            assert(self.places(pid) <= 1);
        }
        assert(after.lane_ok(after.new_q, ProcessState::New, false)) by {
            assert forall|pid: u32| after.new_q.contains_key(pid) implies after.coherent(
                #[trigger] after.new_q[pid],
            ) by {
                assert(self.coherent(self.new_q[pid]));
            }
        }
        assert(after.lane_ok(after.ready_q, ProcessState::Ready, false)) by {
            assert forall|pid: u32| after.ready_q.contains_key(pid) implies after.coherent(
                #[trigger] after.ready_q[pid],
            ) by {
                assert(self.coherent(self.ready_q[pid]));
            }
        }
        assert(after.lane_ok(after.ready_susp_q, ProcessState::Ready, true)) by {
            assert forall|pid: u32| after.ready_susp_q.contains_key(pid) implies after.coherent(
                #[trigger] after.ready_susp_q[pid],
            ) by {
                assert(self.coherent(self.ready_susp_q[pid]));
            }
        }
        assert(after.lane_ok(after.blocked_q, ProcessState::Blocked, false)) by {
            assert forall|pid: u32| after.blocked_q.contains_key(pid) implies after.coherent(
                #[trigger] after.blocked_q[pid],
            ) by {
                assert(self.coherent(self.blocked_q[pid]));
            }
        }
        assert(after.lane_ok(after.blocked_susp_q, ProcessState::Blocked, true)) by {
            assert forall|pid: u32| after.blocked_susp_q.contains_key(pid) implies after.coherent(
                #[trigger] after.blocked_susp_q[pid],
            ) by {
                assert(self.coherent(self.blocked_susp_q[pid]));
            }
        }
        assert(after.terminated_ok()) by {
            assert forall|pid: u32| after.terminated.contains_key(pid) implies after.coherent(
                #[trigger] after.terminated[pid],
            ) by {
                assert(self.coherent(self.terminated[pid]));
            }
        }
    }

    /// Every task of `held` is filed under its pid, is detached from the
    /// scheduler, is in state `state`, and is suspended or not as `susp`
    /// says: the tasks that a pass has set aside.
    pub open spec fn parked(self, held: Map<u32, Task>, state: ProcessState, susp: bool) -> bool {
        forall|pid: u32|
            held.contains_key(pid) ==> {
                let t = #[trigger] held[pid];
                &&& t.pid == pid
                &&& self.queueable(t)
                &&& t.state == state
                &&& t.is_suspended == susp
            }
    }

    /// Tasks set aside stay so when the scheduler changes only in what
    /// concerns one other pid.
    pub proof fn lemma_parked_frame(
        self,
        after: SchedulerModel,
        held: Map<u32, Task>,
        state: ProcessState,
        susp: bool,
        pid: u32,
    )
        requires
            self.parked(held, state, susp),
            !held.contains_key(pid),
            forall|u: Task| u.pid != pid ==> #[trigger] after.coherent(u) == self.coherent(u),
            forall|q: u32| q != pid ==> #[trigger] after.places(q) == self.places(q),
        ensures
            after.parked(held, state, susp),
    {
        assert forall|q: u32| held.contains_key(q) implies {
            let t = #[trigger] held[q];
            &&& t.pid == q
            &&& after.queueable(t)
            &&& t.state == state
            &&& t.is_suspended == susp
        } by {
            let t = held[q];
            assert(after.coherent(t) == self.coherent(t));
            assert(after.places(q) == self.places(q));
        }
    }

    /// The scheduler with the tasks of `held` back in the queue of new
    /// tasks.
    pub open spec fn rejoined_new(self, held: Map<u32, Task>) -> SchedulerModel {
        SchedulerModel { new_q: self.new_q.union_prefer_right(held), ..self }
    }

    /// The scheduler with the tasks of `held` back in the queue of
    /// suspended ready tasks.
    pub open spec fn rejoined_ready_susp(self, held: Map<u32, Task>) -> SchedulerModel {
        SchedulerModel { ready_susp_q: self.ready_susp_q.union_prefer_right(held), ..self }
    }

    /// Putting new tasks that were set aside back into their queue keeps
    /// the invariant.
    pub proof fn lemma_rejoined_new(self, held: Map<u32, Task>)
        requires
            self.inv(),
            held.dom().finite(),
            self.parked(held, ProcessState::New, false),
        ensures
            self.rejoined_new(held).inv(),
            self.new_q.dom().disjoint(held.dom()),
            forall|pid: u32| #[trigger]
                self.rejoined_new(held).places(pid) == self.places(pid) + in_map(held, pid),
    {
        let after = self.rejoined_new(held);
        assert forall|pid: u32| #[trigger] after.places(pid) <= 1 by {
            assert(self.places(pid) <= 1);
            if held.contains_key(pid) {
                assert(self.queueable(held[pid]));
            }
        }
        assert(self.new_q.dom().disjoint(held.dom())) by {
            assert forall|pid: u32| !(self.new_q.dom().contains(pid) && held.dom().contains(
                pid,
            )) by {
                if held.contains_key(pid) {
                    assert(self.queueable(held[pid]));
                }
            }
        }
        assert(after.lane_ok(after.new_q, ProcessState::New, false)) by {
            assert(after.new_q.dom() =~= self.new_q.dom().union(held.dom()));
            assert forall|pid: u32| after.new_q.contains_key(pid) implies {
                let t = #[trigger] after.new_q[pid];
                &&& t.pid == pid
                &&& after.coherent(t)
                &&& t.state == ProcessState::New
                &&& t.is_suspended == false
                &&& t.request_time > i32::MIN
            } by {
                if held.contains_key(pid) {
                    assert(self.queueable(held[pid]));
                } else {
                    assert(self.coherent(self.new_q[pid]));
                }
            }
        }
    }

    /// Putting suspended ready tasks that were set aside back into their
    /// queue keeps the invariant.
    pub proof fn lemma_rejoined_ready_susp(self, held: Map<u32, Task>)
        requires
            self.inv(),
            held.dom().finite(),
            self.parked(held, ProcessState::Ready, true),
        ensures
            self.rejoined_ready_susp(held).inv(),
            self.ready_susp_q.dom().disjoint(held.dom()),
            forall|pid: u32| #[trigger]
                self.rejoined_ready_susp(held).places(pid) == self.places(pid) + in_map(held, pid),
    {
        let after = self.rejoined_ready_susp(held);
        assert forall|pid: u32| #[trigger] after.places(pid) <= 1 by {
            assert(self.places(pid) <= 1);
            if held.contains_key(pid) {
                assert(self.queueable(held[pid]));
            }
        }
        assert(self.ready_susp_q.dom().disjoint(held.dom())) by {
            assert forall|pid: u32| !(self.ready_susp_q.dom().contains(pid) && held.dom().contains(
                pid,
            )) by {
                if held.contains_key(pid) {
                    assert(self.queueable(held[pid]));
                }
            }
        }
        assert(after.lane_ok(after.ready_susp_q, ProcessState::Ready, true)) by {
            assert(after.ready_susp_q.dom() =~= self.ready_susp_q.dom().union(held.dom()));
            assert forall|pid: u32| after.ready_susp_q.contains_key(pid) implies {
                let t = #[trigger] after.ready_susp_q[pid];
                &&& t.pid == pid
                &&& after.coherent(t)
                &&& t.state == ProcessState::Ready
                &&& t.is_suspended == true
                &&& t.request_time > i32::MIN
            } by {
                if held.contains_key(pid) {
                    assert(self.queueable(held[pid]));
                } else {
                    assert(self.coherent(self.ready_susp_q[pid]));
                }
            }
        }
    }

    /// The tasks of `w` are blocked tasks, suspended or not as `susp`
    /// says, each detached from the scheduler, no two of one pid: the
    /// tasks that were taken out of a queue of blocked tasks.
    pub open spec fn waiting_ok(self, w: Seq<Task>, susp: bool) -> bool {
        &&& forall|i: int|
            0 <= i < w.len() ==> {
                let t = #[trigger] w[i];
                &&& self.queueable(t)
                &&& t.state == ProcessState::Blocked
                &&& t.is_suspended == susp
            }
        &&& forall|i: int, j: int|
            0 <= i < w.len() && 0 <= j < w.len() && i != j ==> (#[trigger] w[i]).pid != (
            #[trigger] w[j]).pid
    }

    /// The scheduler with one of its queues of blocked tasks emptied.
    pub open spec fn without_blocked(self, susp: bool) -> SchedulerModel {
        if susp {
            SchedulerModel { blocked_susp_q: Map::empty(), ..self }
        } else {
            SchedulerModel { blocked_q: Map::empty(), ..self }
        }
    }

    /// Emptying a queue of blocked tasks keeps the invariant and leaves
    /// the tasks that were in it detached.
    pub proof fn lemma_without_blocked(self, susp: bool, w: Seq<Task>)
        requires
            self.inv(),
            forall|i: int|
                0 <= i < w.len() ==> (if susp {
                    self.blocked_susp_q
                } else {
                    self.blocked_q
                }).contains_key((#[trigger] w[i]).pid) && (if susp {
                    self.blocked_susp_q
                } else {
                    self.blocked_q
                })[w[i].pid] == w[i],
            forall|i: int, j: int|
                0 <= i < w.len() && 0 <= j < w.len() && i != j ==> (#[trigger] w[i]).pid != (
                #[trigger] w[j]).pid,
        ensures
            self.without_blocked(susp).inv(),
            self.without_blocked(susp).waiting_ok(w, susp),
            self.without_blocked(susp).busy() == self.busy(),
            (forall|pid: u32|
                self.blocked_lane(susp).contains_key(pid) ==> exists|i: int|
                    0 <= i < w.len() && (#[trigger] w[i]).pid == pid) ==> forall|pid: u32| #[trigger]
                self.without_blocked(susp).places(pid) + in_seq(w, pid) == self.places(pid),
    {
        let after = self.without_blocked(susp);
        if forall|pid: u32|
            self.blocked_lane(susp).contains_key(pid) ==> exists|i: int|
                0 <= i < w.len() && (#[trigger] w[i]).pid == pid {
            assert forall|pid: u32| #[trigger] after.places(pid) + in_seq(w, pid) == self.places(
                pid,
            ) by {
                if in_seq(w, pid) == 1 {
                    let i = choose|i: int| 0 <= i < w.len() && (#[trigger] w[i]).pid == pid;
                    assert(self.blocked_lane(susp).contains_key(w[i].pid));
                } else if self.blocked_lane(susp).contains_key(pid) {
                    let i = choose|i: int| 0 <= i < w.len() && (#[trigger] w[i]).pid == pid;
                    assert(w[i].pid == pid);
                }
            }
        }
        assert forall|pid: u32| #[trigger] after.places(pid) <= 1 by {
            assert(self.places(pid) <= 1);
        }
        assert forall|i: int| 0 <= i < w.len() implies {
            let t = #[trigger] w[i];
            &&& after.queueable(t)
            &&& t.state == ProcessState::Blocked
            &&& t.is_suspended == susp
        } by {
            let t = w[i];
            assert(self.places(t.pid) <= 1);
            if susp {
                assert(self.coherent(self.blocked_susp_q[t.pid]));
            } else {
                assert(self.coherent(self.blocked_q[t.pid]));
            }
        }
    }

    /// Tasks taken out of a queue stay detached when one of them goes
    /// back into a queue.
    pub proof fn lemma_waiting_frame(self, w: Seq<Task>, susp: bool, t: Task)
        requires
            self.inv(),
            self.waiting_ok(w.push(t), susp),
            t.state == ProcessState::Ready || t.state == ProcessState::Blocked || t.state
                == ProcessState::New,
        ensures
            forall|u: Task|
                self.queueable(u) && (u.state == ProcessState::Ready || u.state
                    == ProcessState::Blocked) && u.pid == t.pid && (u.state == ProcessState::Ready
                    && !u.is_suspended ==> self.has_slot()) ==> (#[trigger] self.enqueued(
                    u,
                )).waiting_ok(w, susp),
    {
        assert forall|u: Task|
            self.queueable(u) && (u.state == ProcessState::Ready || u.state
                == ProcessState::Blocked) && u.pid == t.pid && (u.state == ProcessState::Ready
                && !u.is_suspended ==> self.has_slot()) implies (#[trigger] self.enqueued(
            u,
        )).waiting_ok(w, susp) by {
            self.lemma_enqueued(u);
            let after = self.enqueued(u);
            let wt = w.push(t);
            assert(wt[w.len() as int] == t);
            assert forall|i: int| 0 <= i < w.len() implies {
                let x = #[trigger] w[i];
                &&& after.queueable(x)
                &&& x.state == ProcessState::Blocked
                &&& x.is_suspended == susp
            } by {
                assert(wt[i] == w[i]);
                assert(wt[i].pid != wt[w.len() as int].pid);
                assert(after.places(w[i].pid) == self.places(w[i].pid));
            }
            assert forall|i: int, j: int|
                0 <= i < w.len() && 0 <= j < w.len() && i != j implies (#[trigger] w[i]).pid != (
            #[trigger] w[j]).pid by {
                assert(wt[i] == w[i] && wt[j] == w[j]);
            }
        }
    }

    /// The scheduler with `slot` as what processor `proc` is bound to.
    pub open spec fn with_running(self, proc: int, slot: Option<Task>) -> SchedulerModel {
        SchedulerModel { running: self.running.update(proc, slot), ..self }
    }

    /// Binding a detached ready task to a processor, in place of what was
    /// bound before, keeps the invariant, as long as the slots allow it.
    pub proof fn lemma_bound(self, proc: int, n: Task)
        requires
            self.inv(),
            0 <= proc < 2,
            self.queueable(n),
            n.state == ProcessState::Ready,
            !n.is_suspended,
            self.running[proc] is Some || self.has_slot(),
        ensures
            self.with_running(proc, Some(dispatched(n, self.time_slice))).inv(),
            self.with_running(proc, Some(dispatched(n, self.time_slice))).can_tick(
                Some(dispatched(n, self.time_slice)),
            ),
            self.running[proc] matches Some(o) ==> self.with_running(
                proc,
                Some(dispatched(n, self.time_slice)),
            ).detached(o),
            forall|pid: u32| #[trigger]
                self.with_running(proc, Some(dispatched(n, self.time_slice))).places(pid)
                    == self.places(pid) + (if pid == n.pid {
                    1int
                } else {
                    0int
                }) - in_slot(self.running[proc], pid),
            self.with_running(proc, Some(dispatched(n, self.time_slice))).busy() == self.busy() + (
            if self.running[proc] is Some {
                0int
            } else {
                1int
            }),
    {
        let after = self.with_running(proc, Some(dispatched(n, self.time_slice)));
        assert(after.running[proc] == Some(dispatched(n, self.time_slice)));
        assert(after.running[1 - proc] == self.running[1 - proc]);
        assert forall|pid: u32| #[trigger] after.places(pid) <= 1 by {
            assert(self.places(pid) <= 1);
        }
        if self.running[proc] is Some {
            let o = self.running[proc].unwrap();
            assert(self.places(o.pid) <= 1);
            assert(self.places(n.pid) == 0);
        }
    }

    /// Unbinding the task of a processor keeps the invariant and leaves
    /// the task detached.
    pub proof fn lemma_unbound(self, proc: int)
        requires
            self.inv(),
            0 <= proc < 2,
            self.running[proc] is Some,
        ensures
            self.with_running(proc, None).inv(),
            self.with_running(proc, None).detached(self.running[proc].unwrap()),
            self.with_running(proc, None).busy() == self.busy() - 1,
            forall|pid: u32| #[trigger]
                self.with_running(proc, None).places(pid) == self.places(pid) - in_slot(
                    self.running[proc],
                    pid,
                ),
    {
        let after = self.with_running(proc, None);
        let o = self.running[proc].unwrap();
        assert(after.running[proc] == None::<Task>);
        assert(after.running[1 - proc] == self.running[1 - proc]);
        assert(self.places(o.pid) <= 1);
        assert forall|pid: u32| #[trigger] after.places(pid) <= 1 by {
            assert(self.places(pid) <= 1);
        }
    }
}

} // verus!
