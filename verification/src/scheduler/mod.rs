//! The three-level scheduler: admission and suspension, promotion of new
//! tasks, and dispatch to the processors.

pub mod facts;
pub mod levels;
pub mod model;

use std::collections::HashMap;
use std::collections::HashSet;
use vstd::prelude::*;
use crate::condition::Condition;
use crate::event::Event;
use crate::list::TaskList;
use crate::memory::MemoryManager;
use crate::memory::MemoryModel;
use crate::memory::hole::Hole;
use crate::processor::Processor;
use crate::queue::TaskQueue;
use crate::queue::rank_of;
use crate::scheduler::levels::has_bottom;
use crate::scheduler::levels::has_top;
use crate::scheduler::levels::latches_advance;
use crate::scheduler::levels::lemma_relocated_step;
use crate::scheduler::levels::lemma_relocated_twice;
use crate::scheduler::levels::promoted;
use crate::scheduler::levels::rank_below;
use crate::scheduler::levels::rank_point;
use crate::scheduler::levels::relocated;
use crate::scheduler::levels::top_point;
use crate::scheduler::levels::unblocking;
use crate::scheduler::levels::within;
use crate::scheduler::model::SchedulerModel;
use crate::scheduler::model::bottom;
use crate::scheduler::model::dispatched;
use crate::scheduler::model::entering;
use crate::scheduler::model::in_map;
use crate::scheduler::model::in_seq;
use crate::scheduler::model::is_bottom;
use crate::scheduler::model::is_top;
use crate::scheduler::model::lemma_bottom_unique;
use crate::scheduler::model::lemma_top_unique;
use crate::scheduler::model::swapped_out;
use crate::scheduler::model::top;
use crate::task::ProcessState;
use crate::task::Task;

verus! {

broadcast use vstd::std_specs::hash::group_hash_axioms;

/// Why a task was not accepted.
#[derive(Debug, Clone, Copy, PartialEq, Eq, Structural)]
pub enum SchedulerError {
    /// A fault of no other kind.
    UnknownError,
    /// The task it is to wait for was never submitted.
    InvalidCondition,
    /// A task of that pid was submitted before.
    InvalidPid,
}

/// The bytes of memory that a scheduler manages.
pub const MEMORY_SIZE: u64 = 16777216;

/// The bytes of a page.
pub const PAGE_SIZE: u32 = 4096;

/// A scheduler for two processors.
pub struct Scheduler {
    new_queue: TaskList,
    task_queue: TaskQueue,
    blocked_queue: TaskQueue,
    blocked_suspend_queue: TaskList,
    ready_suspend_queue: TaskList,
    time: i32,
    time_slice: u32,
    slots: u32,
    processors: [Processor; 2],
    memory_manager: MemoryManager,
    pid_to_trigger: HashMap<u32, Condition>,
    valid_pid: HashSet<u32>,
    terminated: HashMap<u32, Task>,
    events: Vec<Event>,
}

impl View for Scheduler {
    type V = SchedulerModel;

    closed spec fn view(&self) -> SchedulerModel {
        SchedulerModel {
            new_q: self.new_queue@,
            ready_q: self.task_queue@,
            ready_susp_q: self.ready_suspend_queue@,
            blocked_q: self.blocked_queue@,
            blocked_susp_q: self.blocked_suspend_queue@,
            running: seq![self.processors[0].executing_task, self.processors[1].executing_task],
            terminated: self.terminated@,
            latches: self.pid_to_trigger@,
            memory: self.memory_manager@,
            time: self.time as int,
            time_slice: self.time_slice as int,
            slots: self.slots as int,
            events: self.events@,
        }
    }
}

impl Scheduler {
    /// The parts of the scheduler are each in order: the queues are well
    /// formed, the set of known pids is that of the latches, and the
    /// processors are numbered 0 and 1.
    pub closed spec fn parts_wf(&self) -> bool {
        &&& self.new_queue.wf()
        &&& self.task_queue.wf()
        &&& self.ready_suspend_queue.wf()
        &&& self.blocked_queue.wf()
        &&& self.blocked_suspend_queue.wf()
        &&& self.valid_pid@ == self.pid_to_trigger@.dom()
        &&& self.processors[0].proc_id == 0
        &&& self.processors[1].proc_id == 1
    }

    /// The scheduler is well formed: its parts are in order and its model
    /// meets the invariant.
    pub open spec fn wf(&self) -> bool {
        self.parts_wf() && self@.inv()
    }

    /// A scheduler with no task, at time 0, over `size` bytes of memory in
    /// pages of `page_size` bytes.
    pub fn with_memory(time_slice: u32, slots: u32, size: u64, page_size: u32) -> (s: Self)
        requires
            time_slice <= i32::MAX,
            page_size > 0,
            0 < size / (page_size as u64) <= u32::MAX,
        ensures
            s.wf(),
            s@.complete(),
            s@.time == 0,
            s@.time_slice == time_slice,
            s@.slots == slots,
            s@.new_q == Map::<u32, Task>::empty(),
            s@.ready_q == Map::<u32, Task>::empty(),
            s@.ready_susp_q == Map::<u32, Task>::empty(),
            s@.blocked_q == Map::<u32, Task>::empty(),
            s@.blocked_susp_q == Map::<u32, Task>::empty(),
            s@.terminated == Map::<u32, Task>::empty(),
            s@.latches == Map::<u32, Condition>::empty(),
            s@.running == seq![None::<Task>, None::<Task>],
            s@.events == Seq::<Event>::empty(),
            s@.memory == (MemoryModel {
                size: size as int,
                page_size: page_size as int,
                free: seq![Hole { beg: 0, end: (size / (page_size as u64)) as u32 }],
                used: Map::empty(),
            }),
    {
        let s = Scheduler {
            new_queue: TaskList::new(),
            task_queue: TaskQueue::new(),
            blocked_queue: TaskQueue::new(),
            ready_suspend_queue: TaskList::new(),
            blocked_suspend_queue: TaskList::new(),
            time: 0,
            time_slice,
            slots,
            processors: [Processor::new(0), Processor::new(1)],
            memory_manager: MemoryManager::new(size, page_size),
            pid_to_trigger: HashMap::new(),
            valid_pid: HashSet::new(),
            terminated: HashMap::new(),
            events: Vec::new(),
        };
        proof {
            assert(s@.running =~= seq![None::<Task>, None::<Task>]);
            assert(s.valid_pid@ =~= s.pid_to_trigger@.dom());
            assert forall|pid: u32| #[trigger] s@.places(pid) <= 1 by {}
        }
        s
    }

    /// A scheduler with no task, at time 0, over 16 MiB of memory in pages
    /// of 4 KiB.
    pub fn new(time_slice: u32, slots: u32) -> (s: Self)
        requires
            time_slice <= i32::MAX,
        ensures
            s.wf(),
            s@.complete(),
            s@.time == 0,
            s@.time_slice == time_slice,
            s@.slots == slots,
            s@.new_q == Map::<u32, Task>::empty(),
            s@.ready_q == Map::<u32, Task>::empty(),
            s@.ready_susp_q == Map::<u32, Task>::empty(),
            s@.blocked_q == Map::<u32, Task>::empty(),
            s@.blocked_susp_q == Map::<u32, Task>::empty(),
            s@.terminated == Map::<u32, Task>::empty(),
            s@.latches == Map::<u32, Condition>::empty(),
            s@.running == seq![None::<Task>, None::<Task>],
            s@.events == Seq::<Event>::empty(),
            s@.memory == (MemoryModel {
                size: MEMORY_SIZE as int,
                page_size: PAGE_SIZE as int,
                free: seq![Hole { beg: 0, end: 4096 }],
                used: Map::empty(),
            }),
    {
        Self::with_memory(time_slice, slots, MEMORY_SIZE, PAGE_SIZE)
    }

    /// Submits `task`, to run once the task of pid `cond`, if one is
    /// named, has terminated; the task starts out new, whatever state it
    /// was handed over in, and its admission is reported. Refuses a pid
    /// that was submitted before, and a `cond` that was never submitted,
    /// and changes nothing then.
    pub fn add_task(&mut self, task: Task, cond: Option<u32>) -> (r: Result<(), SchedulerError>)
        requires
            old(self).wf(),
            task.memory_size > 0,
            task.request_time > i32::MIN,
        ensures
            final(self).wf(),
            old(self)@.complete() ==> final(self)@.complete(),
            old(self)@.latches.contains_key(task.pid) ==> r == Err::<(), SchedulerError>(
                SchedulerError::InvalidPid,
            ) && final(self)@ == old(self)@,
            !old(self)@.latches.contains_key(task.pid) && (cond matches Some(p) && !old(self)@.latches.contains_key(p)) ==> r == Err::<(), SchedulerError>(
                SchedulerError::InvalidCondition,
            ) && final(self)@ == old(self)@,
            !old(self)@.latches.contains_key(task.pid) && (cond matches Some(p) ==> old(self)@.latches.contains_key(p)) ==> r == Ok::<(), SchedulerError>(()) && final(self)@
                == old(self)@.after_submit(task, cond),
            r is Ok && (cond matches Some(p) ==> old(self)@.latches[p]@) ==> final(self)@.new_q[task.pid].cond_satisfied(final(self)@.latches),
    {
        if self.valid_pid.contains(&task.pid()) {
            return Err(SchedulerError::InvalidPid);
        }
        if let Some(pid) = cond {
            if !self.valid_pid.contains(&pid) {
                return Err(SchedulerError::InvalidCondition);
            }
        }
        let mut task = task;
        task.set_cond(cond);
        task.set_state(ProcessState::New);
        task.set_in_queue_time(self.time);
        task.unsuspend();
        task.clear_memory_range();
        proof {
            old(self)@.lemma_submitted(task, cond);
            old(self)@.lemma_unknown_pid(task.pid);
        }
        self.pid_to_trigger.insert(task.pid(), Condition::new());
        self.valid_pid.insert(task.pid());
        let pid = task.pid();
        self.new_queue.push(task);
        self.events.push(Event::Admitted { pid });
        proof {
            assert(self.valid_pid@ =~= self.pid_to_trigger@.dom());
            assert(self@.running =~= old(self)@.running);
            assert(self@ == old(self)@.after_submit(task, cond));
        }
        Ok(())
    }

    /// Whether a slot is free: fewer tasks are ready in memory or running
    /// than there are slots.
    pub fn has_available_slots(&self) -> (free: bool)
        requires
            self.wf(),
        ensures
            free == self@.has_slot(),
    {
        self.slots > self.running_tasks_count()
    }

    /// The number of slots in use: the tasks that are ready in memory and
    /// those that run.
    pub fn running_tasks_count(&self) -> (cnt: u32)
        requires
            self.wf(),
        ensures
            cnt == self@.busy(),
    {
        let mut cnt: u32 = 0;
        if self.processors[0].executing_task().is_some() {
            cnt += 1;
        }
        if self.processors[1].executing_task().is_some() {
            cnt += 1;
        }
        let ready: usize = self.task_queue.len();
        cnt += ready as u32;
        cnt
    }

    /// Moves a ready or running task, on its way between two places, into
    /// the queue of blocked tasks that its suspension calls for, and
    /// reports the transition.
    pub fn block_task(&mut self, task: Task)
        requires
            old(self).wf(),
            old(self)@.queueable(task),
            task.state == ProcessState::Ready || task.state == ProcessState::Running,
        ensures
            final(self).wf(),
            final(self)@ == old(self)@.entered(task, ProcessState::Blocked),
    {
        let from = *task.state();
        let pid = task.pid();
        let mut task = task;
        task.set_state(ProcessState::Blocked);
        task.set_in_queue_time(self.time);
        proof {
            old(self)@.lemma_enqueued(task);
            old(self)@.enqueued(task).lemma_noted(
                Event::Transition { pid, from, to: ProcessState::Blocked },
            );
        }
        if task.is_suspended() {
            self.blocked_suspend_queue.push(task);
        } else {
            self.blocked_queue.push(task);
        }
        self.events.push(Event::Transition { pid, from, to: ProcessState::Blocked });
    }

    /// Moves a new task, which has just been given its memory, into the
    /// queue of ready tasks, and reports the transition.
    pub fn new_to_ready_task(&mut self, task: Task)
        requires
            old(self).wf(),
            task.state == ProcessState::New,
            !task.is_suspended,
            old(self)@.queueable(entering(task, ProcessState::Ready, old(self)@.time)),
            old(self)@.has_slot(),
        ensures
            final(self).wf(),
            final(self)@ == old(self)@.entered(task, ProcessState::Ready),
    {
        let pid = task.pid();
        let mut task = task;
        task.set_state(ProcessState::Ready);
        task.set_in_queue_time(self.time);
        proof {
            old(self)@.lemma_enqueued(task);
            old(self)@.enqueued(task).lemma_noted(
                Event::Transition { pid, from: ProcessState::New, to: ProcessState::Ready },
            );
        }
        self.task_queue.push(task);
        self.events.push(
            Event::Transition { pid, from: ProcessState::New, to: ProcessState::Ready },
        );
    }

    /// Moves a blocked or running task, on its way between two places,
    /// into the queue of ready tasks that its suspension calls for, and
    /// reports the transition.
    pub fn ready_task(&mut self, task: Task)
        requires
            old(self).wf(),
            old(self)@.queueable(task),
            task.state == ProcessState::Blocked || task.state == ProcessState::Running,
            !task.is_suspended ==> old(self)@.has_slot(),
        ensures
            final(self).wf(),
            final(self)@ == old(self)@.entered(task, ProcessState::Ready),
    {
        let from = *task.state();
        let pid = task.pid();
        let mut task = task;
        task.set_state(ProcessState::Ready);
        task.set_in_queue_time(self.time);
        proof {
            old(self)@.lemma_enqueued(task);
            old(self)@.enqueued(task).lemma_noted(
                Event::Transition { pid, from, to: ProcessState::Ready },
            );
        }
        if task.is_suspended() {
            self.ready_suspend_queue.push(task);
        } else {
            self.task_queue.push(task);
        }
        self.events.push(Event::Transition { pid, from, to: ProcessState::Ready });
    }

    /// Suspends a resident task that is ready or blocked, on its way
    /// between two places: frees its memory, which it reports, and moves
    /// the task into the suspended queue of its state.
    pub fn suspend_task(&mut self, task: Task)
        requires
            old(self).wf(),
            old(self)@.queueable(task),
            !task.is_suspended,
            task.state == ProcessState::Ready || task.state == ProcessState::Blocked,
        ensures
            final(self).wf(),
            final(self)@ == old(self)@.after_suspend(task),
    {
        let ghost given = task;
        let held = task.memory_range();
        let mut task = task;
        task.suspend();
        task.set_in_queue_time(self.time);
        task.clear_memory_range();
        proof {
            old(self)@.lemma_suspended(given);
        }
        let pid = task.pid();
        let _ = self.memory_manager.free(pid);
        match task.state() {
            ProcessState::Ready => self.ready_suspend_queue.push(task),
            _ => self.blocked_suspend_queue.push(task),
        }
        if let Some(hole) = held {
            self.events.push(Event::Freed { pid, hole });
        }
    }

    /// Tries to bring a suspended task, on its way between two places,
    /// back into memory. Where the allocator has room, the task gets the
    /// first fit, which is reported, and moves into the resident queue of
    /// its state; where it has none, nothing changes and the task is
    /// handed back.
    pub fn unsuspend_task(&mut self, task: Task) -> (r: Result<(), Task>)
        requires
            old(self).wf(),
            old(self)@.queueable(task),
            task.is_suspended,
            task.state == ProcessState::Ready ==> old(self)@.has_slot(),
        ensures
            final(self).wf(),
            old(self)@.memory.fits(task.memory_size as int) ==> r == Ok::<(), Task>(()) && final(self)@ == old(self)@.after_unsuspend(task),
            !old(self)@.memory.fits(task.memory_size as int) ==> r == Err::<(), Task>(task)
                && final(self)@ == old(self)@,
    {
        let (size, pid) = (task.memory_size(), task.pid());
        proof {
            if old(self)@.memory.fits(size as int) {
                old(self)@.lemma_unsuspended(task);
            }
        }
        match self.memory_manager.allocate(size, pid) {
            Ok(h) => {
                let mut task = task;
                task.unsuspend();
                task.set_memory_range(h);
                task.set_in_queue_time(self.time);
                match task.state() {
                    ProcessState::Ready => self.task_queue.push(task),
                    _ => self.blocked_queue.push(task),
                }
                self.events.push(Event::Allocated { pid, hole: h });
                Ok(())
            },
            Err(_) => Err(task),
        }
    }

    /// Terminates a running task that has just left its processor: frees
    /// its memory, sets its latch, puts it on record, and reports both.
    pub fn terminate_task(&mut self, task: Task)
        requires
            old(self).wf(),
            old(self)@.detached(task),
            task.state == ProcessState::Running,
        ensures
            final(self).wf(),
            final(self)@ == old(self)@.after_terminate(task),
    {
        let ghost given = task;
        let held = task.memory_range();
        let pid = task.pid();
        let mut task = task;
        task.set_state(ProcessState::Terminated);
        task.clear_memory_range();
        proof {
            old(self)@.lemma_terminated(given);
        }
        let _ = self.memory_manager.free(task.pid());
        let mut latch = Condition::new();
        latch.set_ok();
        self.pid_to_trigger.insert(task.pid(), latch);
        self.terminated.insert(task.pid(), task);
        if let Some(hole) = held {
            self.events.push(Event::Freed { pid, hole });
        }
        self.events.push(Event::Terminated { pid });
        proof {
            assert(self.valid_pid@ =~= self.pid_to_trigger@.dom());
        }
    }

    /// Settles the tasks that were taken out of a queue of blocked tasks,
    /// which is empty meanwhile: each becomes ready if its predecessor is
    /// done and a slot is free, and goes back into the queue otherwise.
    fn settle_waiting(&mut self, waiting: Vec<Task>, Ghost(susp): Ghost<bool>)
        requires
            old(self).wf(),
            old(self)@.waiting_ok(waiting@, susp),
            old(self)@.blocked_lane(susp) =~= Map::<u32, Task>::empty(),
        ensures
            final(self).wf(),
            final(self)@.same_ground(old(self)@),
            final(self)@.terminated == old(self)@.terminated,
            final(self)@.running == old(self)@.running,
            final(self)@.new_q == old(self)@.new_q,
            final(self)@.blocked_lane(!susp) == old(self)@.blocked_lane(!susp),
            final(self)@.ready_lane(!susp) == old(self)@.ready_lane(!susp),
            within(old(self)@.ready_lane(susp), final(self)@.ready_lane(susp)),
            final(self)@.busy() >= old(self)@.busy(),
            forall|pid: u32| #[trigger]
                final(self)@.places(pid) == old(self)@.places(pid) + in_seq(waiting@, pid),
            forall|i: int|
                0 <= i < waiting@.len() ==> {
                    let t = #[trigger] waiting@[i];
                    let stays = final(self)@.blocked_lane(susp).contains_key(t.pid) && final(self)@.blocked_lane(susp)[t.pid] == t;
                    let goes = final(self)@.ready_lane(susp).contains_key(t.pid) && final(self)@.ready_lane(susp)[t.pid] == entering(
                        t,
                        ProcessState::Ready,
                        old(self)@.time,
                    ) && t.cond_satisfied(old(self)@.latches);
                    &&& stays || goes
                    &&& stays && final(self)@.has_slot() ==> !t.cond_satisfied(old(self)@.latches)
                },
            forall|pid: u32|
                final(self)@.blocked_lane(susp).contains_key(pid) ==> exists|i: int|
                    0 <= i < waiting@.len() && (#[trigger] waiting@[i]).pid == pid,
            forall|pid: u32|
                final(self)@.ready_lane(susp).contains_key(pid) && !old(self)@.ready_lane(
                    susp,
                ).contains_key(pid) ==> exists|i: int|
                    0 <= i < waiting@.len() && (#[trigger] waiting@[i]).pid == pid,
            old(self)@.events.len() <= final(self)@.events.len(),
            forall|i: int|
                0 <= i < old(self)@.events.len() ==> #[trigger] final(self)@.events[i] == old(self)@.events[i],
            forall|i: int|
                old(self)@.events.len() <= i < final(self)@.events.len() ==> match #[trigger] final(self)@.events[i] {
                    Event::Transition { pid, from, to } => {
                        &&& from == ProcessState::Blocked
                        &&& to == ProcessState::Ready
                        &&& final(self)@.ready_lane(susp).contains_key(pid)
                        &&& !old(self)@.ready_lane(susp).contains_key(pid)
                    },
                    _ => false,
                },
            forall|pid: u32| #[trigger]
                final(self)@.ready_lane(susp).contains_key(pid) && !old(self)@.ready_lane(
                    susp,
                ).contains_key(pid) ==> old(self)@.reported(final(self)@, unblocking(pid)),
    {
        let mut rest = waiting;
        let ghost all = waiting@;
        loop
            invariant
                self.wf(),
                self@.waiting_ok(rest@, susp),
                all == waiting@,
                rest@.len() <= all.len(),
                rest@ =~= all.subrange(0, rest@.len() as int),
                self@.same_ground(old(self)@),
                self@.terminated == old(self)@.terminated,
                self@.running == old(self)@.running,
                self@.new_q == old(self)@.new_q,
                self@.blocked_lane(!susp) == old(self)@.blocked_lane(!susp),
                self@.ready_lane(!susp) == old(self)@.ready_lane(!susp),
                within(old(self)@.ready_lane(susp), self@.ready_lane(susp)),
                self@.busy() >= old(self)@.busy(),
                forall|pid: u32| #[trigger]
                    self@.places(pid) + in_seq(rest@, pid) == old(self)@.places(pid) + in_seq(
                        all,
                        pid,
                    ),
                forall|i: int|
                    rest@.len() <= i < all.len() ==> {
                        let t = #[trigger] all[i];
                        let stays = self@.blocked_lane(susp).contains_key(t.pid)
                            && self@.blocked_lane(susp)[t.pid] == t;
                        let goes = self@.ready_lane(susp).contains_key(t.pid) && self@.ready_lane(
                            susp,
                        )[t.pid] == entering(t, ProcessState::Ready, self@.time)
                            && t.cond_satisfied(self@.latches);
                        &&& stays || goes
                        &&& stays && self@.has_slot() ==> !t.cond_satisfied(self@.latches)
                    },
                forall|pid: u32|
                    self@.blocked_lane(susp).contains_key(pid) ==> exists|i: int|
                        rest@.len() <= i < all.len() && (#[trigger] all[i]).pid == pid,
                forall|pid: u32|
                    self@.ready_lane(susp).contains_key(pid) && !old(self)@.ready_lane(
                        susp,
                    ).contains_key(pid) ==> exists|i: int|
                        rest@.len() <= i < all.len() && (#[trigger] all[i]).pid == pid,
                old(self)@.events.len() <= self@.events.len(),
                forall|i: int|
                    0 <= i < old(self)@.events.len() ==> #[trigger] self@.events[i] == old(self)@.events[i],
                forall|i: int|
                    old(self)@.events.len() <= i < self@.events.len() ==> match #[trigger] self@.events[i] {
                        Event::Transition { pid, from, to } => {
                            &&& from == ProcessState::Blocked
                            &&& to == ProcessState::Ready
                            &&& self@.ready_lane(susp).contains_key(pid)
                            &&& !old(self)@.ready_lane(susp).contains_key(pid)
                        },
                        _ => false,
                    },
                forall|pid: u32| #[trigger]
                    self@.ready_lane(susp).contains_key(pid) && !old(self)@.ready_lane(
                        susp,
                    ).contains_key(pid) ==> old(self)@.reported(self@, unblocking(pid)),
            ensures
                rest@.len() == 0,
            decreases rest@.len(),
        {
            let ghost pre = self@;
            let ghost before = rest@;
            let task = match rest.pop() {
                Some(t) => t,
                None => {
                    break ;
                },
            };
            let ghost n = rest@.len() as int;
            proof {
                assert(before =~= rest@.push(task));
                assert(before[n] == task);
                assert(all[n] == task);
                assert(pre.queueable(task));
                pre.lemma_waiting_frame(rest@, susp, task);
            }
            if task.is_cond_satisfied(&self.pid_to_trigger) && self.has_available_slots() {
                proof {
                    pre.lemma_enqueued(entering(task, ProcessState::Ready, pre.time));
                    pre.enqueued(entering(task, ProcessState::Ready, pre.time)).lemma_noted(
                        unblocking(task.pid),
                    );
                }
                self.ready_task(task);
                proof {
                    assert(self@.events == pre.events.push(unblocking(task.pid)));
                    assert(!pre.ready_lane(susp).contains_key(task.pid)) by {
                        assert(pre.places(task.pid) == 0);
                    }
                    assert(self@.events[pre.events.len() as int] == unblocking(task.pid));
                    assert forall|q: u32| #[trigger]
                        self@.ready_lane(susp).contains_key(q) && !old(self)@.ready_lane(
                            susp,
                        ).contains_key(q) implies old(self)@.reported(self@, unblocking(q)) by {
                        if q == task.pid {
                            assert(self@.events[pre.events.len() as int] == unblocking(q));
                        } else {
                            assert(pre.ready_lane(susp).contains_key(q));
                            assert(old(self)@.reported(pre, unblocking(q)));
                            let i = choose|i: int|
                                old(self)@.events.len() <= i < pre.events.len()
                                    && #[trigger] pre.events[i] == unblocking(q);
                            assert(self@.events[i] == unblocking(q));
                        }
                    }
                    assert forall|i: int|
                        old(self)@.events.len() <= i < self@.events.len() implies match #[trigger] self@.events[i] {
                        Event::Transition { pid, from, to } => {
                            &&& from == ProcessState::Blocked
                            &&& to == ProcessState::Ready
                            &&& self@.ready_lane(susp).contains_key(pid)
                            &&& !old(self)@.ready_lane(susp).contains_key(pid)
                        },
                        _ => false,
                    } by {
                        if i < pre.events.len() {
                            assert(self@.events[i] == pre.events[i]);
                        }
                    }
                }
            } else {
                proof {
                    pre.lemma_enqueued(task);
                }
                if task.is_suspended() {
                    self.blocked_suspend_queue.push(task);
                } else {
                    self.blocked_queue.push(task);
                }
                assert(self@ == pre.enqueued(task));
            }
            proof {
                assert forall|i: int| n <= i < all.len() implies {
                    let t = #[trigger] all[i];
                    let stays = self@.blocked_lane(susp).contains_key(t.pid) && self@.blocked_lane(
                        susp,
                    )[t.pid] == t;
                    let goes = self@.ready_lane(susp).contains_key(t.pid) && self@.ready_lane(
                        susp,
                    )[t.pid] == entering(t, ProcessState::Ready, self@.time) && t.cond_satisfied(
                        self@.latches,
                    );
                    &&& stays || goes
                    &&& stays && self@.has_slot() ==> !t.cond_satisfied(self@.latches)
                } by {
                    if i > n {
                        let t = all[i];
                        assert(pre.blocked_lane(susp).contains_key(t.pid) || pre.ready_lane(
                            susp,
                        ).contains_key(t.pid));
                        assert(pre.places(t.pid) >= 1);
                        assert(t.pid != task.pid);
                    }
                }
                assert forall|pid: u32| self@.blocked_lane(susp).contains_key(pid) implies exists|
                    i: int,
                | n <= i < all.len() && (#[trigger] all[i]).pid == pid by {
                    if pid == task.pid {
                        assert(all[n].pid == pid);
                    } else {
                        assert(pre.blocked_lane(susp).contains_key(pid));
                        let i = choose|i: int|
                            n + 1 <= i < all.len() && (#[trigger] all[i]).pid == pid;
                        assert(all[i].pid == pid);
                    }
                }
                assert forall|pid: u32|
                    self@.ready_lane(susp).contains_key(pid) && !old(self)@.ready_lane(
                        susp,
                    ).contains_key(pid) implies exists|i: int|
                    n <= i < all.len() && (#[trigger] all[i]).pid == pid by {
                    if pid == task.pid {
                        assert(all[n].pid == pid);
                    } else {
                        assert(pre.ready_lane(susp).contains_key(pid));
                        let i = choose|i: int|
                            n + 1 <= i < all.len() && (#[trigger] all[i]).pid == pid;
                        assert(all[i].pid == pid);
                    }
                }
            }
        }
    }

    /// Looks at every blocked task: one whose predecessor is done becomes
    /// ready, suspended or not as it was, if a slot is free; every other
    /// stays where it was.
    pub fn check_and_unblock(&mut self)
        requires
            old(self).wf(),
        ensures
            final(self).wf(),
            old(self)@.unblock_step(final(self)@),
    {
        let ghost pre = self@;
        let resident = self.blocked_queue.drain();
        let ghost emptied = self@;
        proof {
            pre.lemma_without_blocked(false, resident@);
            assert(self@ == pre.without_blocked(false));
        }
        self.settle_waiting(resident, Ghost(false));
        let ghost mid = self@;
        proof {
            assert forall|pid: u32| mid.blocked_q.contains_key(pid) implies pre.blocked_q.contains_key(
                pid,
            ) && pre.blocked_q[pid] == #[trigger] mid.blocked_q[pid] by {
                let i = choose|i: int|
                    0 <= i < resident@.len() && (#[trigger] resident@[i]).pid == pid;
                let t = resident@[i];
                assert(mid.places(pid) <= 1);
            }
            assert forall|pid: u32| pre.blocked_q.contains_key(pid) implies {
                let t = #[trigger] pre.blocked_q[pid];
                let stays = mid.blocked_q.contains_key(pid);
                let goes = mid.ready_q.contains_key(pid) && mid.ready_q[pid] == entering(
                    t,
                    ProcessState::Ready,
                    pre.time,
                ) && t.cond_satisfied(pre.latches);
                &&& stays || goes
                &&& stays && mid.has_slot() ==> !t.cond_satisfied(pre.latches)
            } by {
                let i = choose|i: int|
                    0 <= i < resident@.len() && (#[trigger] resident@[i]).pid == pid;
                let t = resident@[i];
                assert(mid.places(pid) <= 1);
            }
            assert forall|pid: u32| #[trigger]
                mid.ready_q.contains_key(pid) && !pre.ready_q.contains_key(
                    pid,
                ) implies pre.blocked_q.contains_key(pid) && pre.reported(
                mid,
                unblocking(pid),
            ) by {
                let i = choose|i: int|
                    0 <= i < resident@.len() && (#[trigger] resident@[i]).pid == pid;
                let t = resident@[i];
                assert(emptied.reported(mid, unblocking(pid)));
                let k = choose|k: int|
                    emptied.events.len() <= k < mid.events.len() && #[trigger] mid.events[k]
                        == unblocking(pid);
                assert(mid.events[k] == unblocking(pid));
            }
            assert(pre.unblocked(mid, false));
        }
        let suspended = self.blocked_suspend_queue.drain();
        let ghost emptied_again = self@;
        proof {
            mid.lemma_without_blocked(true, suspended@);
            assert(self@ == mid.without_blocked(true));
        }
        self.settle_waiting(suspended, Ghost(true));
        proof {
            let post = self@;
            assert forall|pid: u32| post.blocked_susp_q.contains_key(
                pid,
            ) implies pre.blocked_susp_q.contains_key(pid) && pre.blocked_susp_q[pid]
                == #[trigger] post.blocked_susp_q[pid] by {
                let i = choose|i: int|
                    0 <= i < suspended@.len() && (#[trigger] suspended@[i]).pid == pid;
                let t = suspended@[i];
                assert(post.places(pid) <= 1);
            }
            assert forall|pid: u32| pre.blocked_susp_q.contains_key(pid) implies {
                let t = #[trigger] pre.blocked_susp_q[pid];
                let stays = post.blocked_susp_q.contains_key(pid);
                let goes = post.ready_susp_q.contains_key(pid) && post.ready_susp_q[pid]
                    == entering(t, ProcessState::Ready, pre.time) && t.cond_satisfied(pre.latches);
                &&& stays || goes
                &&& stays && post.has_slot() ==> !t.cond_satisfied(pre.latches)
            } by {
                let i = choose|i: int|
                    0 <= i < suspended@.len() && (#[trigger] suspended@[i]).pid == pid;
                let t = suspended@[i];
                assert(post.places(pid) <= 1);
            }
            assert forall|pid: u32| #[trigger]
                post.ready_susp_q.contains_key(pid) && !pre.ready_susp_q.contains_key(
                    pid,
                ) implies pre.blocked_susp_q.contains_key(pid) && pre.reported(
                post,
                unblocking(pid),
            ) by {
                let i = choose|i: int|
                    0 <= i < suspended@.len() && (#[trigger] suspended@[i]).pid == pid;
                let t = suspended@[i];
                assert(emptied_again.reported(post, unblocking(pid)));
                let k = choose|k: int|
                    emptied_again.events.len() <= k < post.events.len() && #[trigger] post.events[k]
                        == unblocking(pid);
                assert(post.events[k] == unblocking(pid));
            }
            assert(pre.unblocked(post, true));
            assert forall|pid: u32| #[trigger]
                post.ready_q.contains_key(pid) && !pre.ready_q.contains_key(
                    pid,
                ) implies pre.blocked_q.contains_key(pid) && pre.reported(
                post,
                unblocking(pid),
            ) by {
                assert(mid.ready_q.contains_key(pid));
                assert(pre.reported(mid, unblocking(pid)));
                let k = choose|k: int|
                    pre.events.len() <= k < mid.events.len() && #[trigger] mid.events[k]
                        == unblocking(pid);
                assert(post.events[k] == mid.events[k]);
            }
            assert(pre.unblocked(post, false));
            assert(pre.reports_unblocking(post)) by {
                assert forall|i: int| 0 <= i < pre.events.len() implies #[trigger] post.events[i]
                    == pre.events[i] by {
                    assert(mid.events[i] == pre.events[i]);
                    assert(post.events[i] == mid.events[i]);
                }
                assert forall|i: int|
                    pre.events.len() <= i < post.events.len() implies match #[trigger] post.events[i] {
                    Event::Transition { pid, from, to } => {
                        &&& from == ProcessState::Blocked
                        &&& to == ProcessState::Ready
                        &&& post.ready_all().contains_key(pid)
                        &&& !pre.ready_all().contains_key(pid)
                    },
                    _ => false,
                } by {
                    if i < mid.events.len() {
                        assert(post.events[i] == mid.events[i]);
                        match mid.events[i] {
                            Event::Transition { pid, from, to } => {
                                assert(mid.ready_q.contains_key(pid) && !pre.ready_q.contains_key(
                                    pid,
                                ));
                                assert(pre.blocked_q.contains_key(pid));
                                assert(pre.places(pid) <= 1);
                            },
                            _ => {},
                        }
                    } else {
                        match post.events[i] {
                            Event::Transition { pid, from, to } => {
                                assert(post.ready_susp_q.contains_key(pid)
                                    && !pre.ready_susp_q.contains_key(pid));
                                assert(pre.blocked_susp_q.contains_key(pid));
                                assert(pre.places(pid) <= 1);
                            },
                            _ => {},
                        }
                    }
                }
            }
        }
    }

    /// Brings suspended ready tasks back into memory, highest rank first,
    /// while a slot is free. A task for which there is no room stays
    /// suspended.
    fn resume_suspended(&mut self)
        requires
            old(self).wf(),
        ensures
            final(self).wf(),
            final(self)@.time == old(self)@.time,
            final(self)@.time_slice == old(self)@.time_slice,
            final(self)@.slots == old(self)@.slots,
            final(self)@.latches == old(self)@.latches,
            final(self)@.terminated == old(self)@.terminated,
            final(self)@.running == old(self)@.running,
            final(self)@.new_q == old(self)@.new_q,
            final(self)@.blocked_q == old(self)@.blocked_q,
            final(self)@.blocked_susp_q == old(self)@.blocked_susp_q,
            relocated(old(self)@.ready_all(), final(self)@.ready_all(), old(self)@.time),
            old(self)@.same_places(final(self)@),
            final(self)@ == old(self)@.resuming(Map::empty()),
            final(self)@.has_slot() ==> forall|pid: u32|
                final(self)@.ready_susp_q.contains_key(pid) ==> !final(self)@.memory.fits(
                    (#[trigger] final(self)@.ready_susp_q[pid]).memory_size as int,
                ),
    {
        let mut held = TaskList::new();
        loop
            invariant
                self.wf(),
                held.wf(),
                forall|pid: u32| #[trigger]
                    self@.places(pid) + in_map(held@, pid) == old(self)@.places(pid),
                self@.parked(held@, ProcessState::Ready, true),
                self@.resuming(held@) == old(self)@.resuming(Map::empty()),
                forall|pid: u32|
                    held@.contains_key(pid) ==> !self@.memory.fits(
                        (#[trigger] held@[pid]).memory_size as int,
                    ),
                self@.time == old(self)@.time,
                self@.time_slice == old(self)@.time_slice,
                self@.slots == old(self)@.slots,
                self@.latches == old(self)@.latches,
                self@.terminated == old(self)@.terminated,
                self@.running == old(self)@.running,
                relocated(
                    old(self)@.ready_all(),
                    self@.ready_all().union_prefer_right(held@),
                    self@.time,
                ),
                self@.new_q == old(self)@.new_q,
                self@.blocked_q == old(self)@.blocked_q,
                self@.blocked_susp_q == old(self)@.blocked_susp_q,
            ensures
                self@.ready_susp_q =~= Map::<u32, Task>::empty() || !self@.has_slot(),
                self@.ready_susp_q.len() == 0 || !self@.has_slot(),
            decreases self@.ready_susp_q.len(),
        {
            if !self.has_available_slots() || self.ready_suspend_queue.is_empty() {
                break ;
            }
            let ghost pre = self@;
            let ghost cur = self@.ready_all().union_prefer_right(held@);
            let ghost held_before = held@;
            let task = match self.ready_suspend_queue.pop_max() {
                Some(t) => t,
                None => {
                    break ;
                },
            };
            proof {
                lemma_top_unique(pre.ready_susp_q, task);
                assert(is_top(pre.ready_susp_q, task));
                pre.lemma_dequeued(task);
                assert(self@ == pre.dequeued(task));
                assert(pre.places(task.pid) >= 1);
                if held@.contains_key(task.pid) {
                    assert(pre.queueable(held@[task.pid]));
                }
                pre.lemma_parked_frame(self@, held@, ProcessState::Ready, true, task.pid);
            }
            let ghost mid = self@;
            match self.unsuspend_task(task) {
                Ok(()) => {
                    proof {
                        mid.lemma_unsuspended(task);
                        mid.lemma_parked_frame(self@, held@, ProcessState::Ready, true, task.pid);
                        assert forall|q: u32| held@.contains_key(q) implies !self@.memory.fits(
                            (#[trigger] held@[q]).memory_size as int,
                        ) by {
                            if self@.memory.fits(held@[q].memory_size as int) {
                                mid.memory.lemma_allocate_shrinks(
                                    task.memory_size as int,
                                    task.pid,
                                    held@[q].memory_size as int,
                                );
                            }
                        }
                    }
                },
                Err(t) => {
                    held.push(t);
                },
            }
            proof {
                assert(pre.resuming(held_before) == self@.resuming(held@));
                assert(pre.places(task.pid) <= 1);
                lemma_relocated_step(
                    old(self)@.ready_all(),
                    cur,
                    self@.ready_all().union_prefer_right(held@),
                    set![task.pid],
                    self@.time,
                );
            }
        }
        proof {
            self@.lemma_rejoined_ready_susp(held@);
        }
        let ghost rest = self@;
        self.ready_suspend_queue.extend(held);
        proof {
            assert(self@ == rest.rejoined_ready_susp(held@));
            assert(rest.resuming(held@) == rest.rejoined_ready_susp(held@));
            assert(self@.ready_all() =~= rest.ready_all().union_prefer_right(held@));
            if self@.has_slot() {
                assert(rest.ready_susp_q =~= Map::<u32, Task>::empty());
            }
        }
    }

    /// While no slot is free: compares the resident ready task of lowest
    /// rank with the suspended ready task of highest rank. If the
    /// suspended one has the higher priority and needs no more memory than
    /// the resident one holds, the resident one is suspended and the
    /// suspended one is brought back, if the allocator finds room for it;
    /// if it has the higher priority but needs more, or finds no room, it
    /// is passed over. The pass ends with the first suspended task that
    /// has no higher priority.
    fn swap_in_suspended(&mut self)
        requires
            old(self).wf(),
        ensures
            final(self).wf(),
            final(self)@.time == old(self)@.time,
            final(self)@.time_slice == old(self)@.time_slice,
            final(self)@.slots == old(self)@.slots,
            final(self)@.latches == old(self)@.latches,
            final(self)@.terminated == old(self)@.terminated,
            final(self)@.running == old(self)@.running,
            final(self)@.new_q == old(self)@.new_q,
            final(self)@.blocked_q == old(self)@.blocked_q,
            final(self)@.blocked_susp_q == old(self)@.blocked_susp_q,
            relocated(old(self)@.ready_all(), final(self)@.ready_all(), old(self)@.time),
            old(self)@.same_places(final(self)@),
            final(self)@ == old(self)@.swapping(Map::empty(), top_point()),
    {
        let mut held = TaskList::new();
        let ghost mut bound: (int, int, int) = top_point();
        loop
            invariant
                self.wf(),
                held.wf(),
                forall|pid: u32| #[trigger]
                    self@.places(pid) + in_map(held@, pid) == old(self)@.places(pid),
                self@.parked(held@, ProcessState::Ready, true),
                self@.bounded(bound),
                self@.swapping(held@, bound) == old(self)@.swapping(Map::empty(), top_point()),
                self@.time == old(self)@.time,
                self@.time_slice == old(self)@.time_slice,
                self@.slots == old(self)@.slots,
                self@.latches == old(self)@.latches,
                self@.terminated == old(self)@.terminated,
                self@.running == old(self)@.running,
                relocated(
                    old(self)@.ready_all(),
                    self@.ready_all().union_prefer_right(held@),
                    self@.time,
                ),
                self@.new_q == old(self)@.new_q,
                self@.blocked_q == old(self)@.blocked_q,
                self@.blocked_susp_q == old(self)@.blocked_susp_q,
            ensures
                self@.swapping(held@, bound) == self@.rejoined_ready_susp(held@),
            decreases bound.0, bound.1, bound.2,
        {
            if self.has_available_slots() || self.task_queue.is_empty()
                || self.ready_suspend_queue.is_empty() {
                break ;
            }
            let ghost held_before = held@;
            let ghost bound_before = bound;
            let (a_priority, a_memory) = match self.task_queue.peek_min() {
                Some(a) => {
                    proof {
                        lemma_bottom_unique(self@.ready_q, *a);
                        assert(is_bottom(self@.ready_q, *a));
                    }
                    (a.priority(), a.memory_size())
                },
                None => {
                    break ;
                },
            };
            let (b_priority, b_memory) = match self.ready_suspend_queue.peek_max() {
                Some(b) => {
                    proof {
                        lemma_top_unique(self@.ready_susp_q, *b);
                        assert(is_top(self@.ready_susp_q, *b));
                    }
                    (b.priority(), b.memory_size())
                },
                None => {
                    break ;
                },
            };
            let ghost pre = self@;
            let ghost low = bottom(pre.ready_q);
            let ghost high = top(pre.ready_susp_q);
            assert(has_bottom(pre.ready_q) && low.priority == a_priority && low.memory_size
                == a_memory);
            assert(has_top(pre.ready_susp_q) && high.priority == b_priority && high.memory_size
                == b_memory);
            if a_priority >= b_priority {
                break ;
            }
            let ghost cur = self@.ready_all().union_prefer_right(held@);
            let ghost mut a_pid = None::<u32>;
            let b = match self.ready_suspend_queue.pop_max() {
                Some(b) => b,
                None => {
                    break ;
                },
            };
            proof {
                lemma_top_unique(pre.ready_susp_q, b);
                assert(b == high);
                pre.lemma_dequeued(b);
                assert(self@ == pre.dequeued(b));
                if held@.contains_key(b.pid) {
                    assert(pre.queueable(held@[b.pid]));
                }
                pre.lemma_parked_frame(self@, held@, ProcessState::Ready, true, b.pid);
                assert forall|pid: u32| self@.ready_susp_q.contains_key(pid) implies rank_below(
                    rank_of(#[trigger] self@.ready_susp_q[pid]),
                    rank_point(rank_of(b)),
                ) by {
                    assert(pre.ready_susp_q.contains_key(pid));
                    assert(pre.ready_susp_q[pid].pid == pid);
                }
                assert(rank_below(rank_of(pre.ready_susp_q[b.pid]), bound));
                bound = rank_point(rank_of(b));
            }
            if a_memory >= b_memory {
                let ghost m1 = self@;
                match self.task_queue.pop_min() {
                    None => {
                        held.push(b);
                    },
                    Some(a) => {
                        proof {
                            a_pid = Some(a.pid);
                            assert(pre.places(a.pid) <= 1);
                            lemma_bottom_unique(m1.ready_q, a);
                            assert(a == low);
                            m1.lemma_dequeued(a);
                            assert(self@ == m1.dequeued(a));
                            if held@.contains_key(a.pid) {
                                assert(m1.queueable(held@[a.pid]));
                            }
                            m1.lemma_parked_frame(self@, held@, ProcessState::Ready, true, a.pid);
                        }
                        let ghost m2 = self@;
                        self.suspend_task(a);
                        proof {
                            m2.lemma_suspended(a);
                            m2.lemma_parked_frame(self@, held@, ProcessState::Ready, true, a.pid);
                            assert(m2.after_suspend(a).ready_susp_q == m2.ready_susp_q.insert(
                                a.pid,
                                swapped_out(a, m2.time),
                            ));
                        }
                        let ghost m3 = self@;
                        match self.unsuspend_task(b) {
                            Ok(()) => {
                                proof {
                                    assert(m3 == pre.dequeued(b).dequeued(a).after_suspend(a));
                                    assert(self@ == m3.after_unsuspend(b));
                                    assert(pre.swapping(held_before, bound_before)
                                        == self@.swapping(held@, bound));
                                    m3.lemma_unsuspended(b);
                                    m3.lemma_parked_frame(
                                        self@,
                                        held@,
                                        ProcessState::Ready,
                                        true,
                                        b.pid,
                                    );
                                }
                            },
                            Err(b) => {
                                held.push(b);
                                proof {
                                    assert(m3 == pre.dequeued(b).dequeued(a).after_suspend(a));
                                    assert(self@ == m3);
                                    assert(held@ == held_before.insert(b.pid, b));
                                    assert(pre.swapping(held_before, bound_before)
                                        == self@.swapping(held@, bound));
                                }
                            },
                        }
                    },
                }
            } else {
                held.push(b);
                proof {
                    assert(self@ == pre.dequeued(b));
                    assert(held@ == held_before.insert(b.pid, b));
                    assert(pre.swapping(held_before, bound_before) == self@.swapping(held@, bound));
                }
            }
            proof {
                assert(pre.swapping(held_before, bound_before) == self@.swapping(held@, bound));
                assert(pre.places(b.pid) <= 1);
                let changed = match a_pid {
                    Some(a) => set![a, b.pid],
                    None => set![b.pid],
                };
                lemma_relocated_step(
                    old(self)@.ready_all(),
                    cur,
                    self@.ready_all().union_prefer_right(held@),
                    changed,
                    self@.time,
                );
            }
        }
        proof {
            self@.lemma_rejoined_ready_susp(held@);
        }
        let ghost rest = self@;
        self.ready_suspend_queue.extend(held);
        proof {
            assert(self@ == rest.rejoined_ready_susp(held@));
            assert(self@.ready_all() =~= rest.ready_all().union_prefer_right(held@));
        }
    }

    /// While no slot is free: compares the resident ready task of lowest
    /// rank with the new task of highest rank. If the new task has the
    /// higher priority and needs no more memory than the ready one holds,
    /// the ready one is suspended, which frees a slot. If it has the
    /// higher priority but needs more, it is passed over. The pass ends
    /// with the first new task that has no higher priority.
    fn make_room_for_new(&mut self)
        requires
            old(self).wf(),
        ensures
            final(self).wf(),
            final(self)@.time == old(self)@.time,
            final(self)@.time_slice == old(self)@.time_slice,
            final(self)@.slots == old(self)@.slots,
            final(self)@.latches == old(self)@.latches,
            final(self)@.terminated == old(self)@.terminated,
            final(self)@.running == old(self)@.running,
            final(self)@.new_q == old(self)@.new_q,
            final(self)@.blocked_q == old(self)@.blocked_q,
            final(self)@.blocked_susp_q == old(self)@.blocked_susp_q,
            relocated(old(self)@.ready_all(), final(self)@.ready_all(), old(self)@.time),
            old(self)@.same_places(final(self)@),
            final(self)@ == old(self)@.making_room(Map::empty()),
    {
        let mut held = TaskList::new();
        loop
            invariant
                self.wf(),
                held.wf(),
                forall|pid: u32| #[trigger]
                    self@.places(pid) + in_map(held@, pid) == old(self)@.places(pid),
                self@.parked(held@, ProcessState::New, false),
                self@.making_room(held@) == old(self)@.making_room(Map::empty()),
                self@.new_q.union_prefer_right(held@) =~= old(self)@.new_q,
                self@.time == old(self)@.time,
                self@.time_slice == old(self)@.time_slice,
                self@.slots == old(self)@.slots,
                self@.latches == old(self)@.latches,
                self@.terminated == old(self)@.terminated,
                self@.running == old(self)@.running,
                relocated(old(self)@.ready_all(), self@.ready_all(), self@.time),
                self@.blocked_q == old(self)@.blocked_q,
                self@.blocked_susp_q == old(self)@.blocked_susp_q,
            ensures
                self@.making_room(held@) == self@.rejoined_new(held@),
            decreases self@.new_q.len() + self@.ready_q.len(),
        {
            if self.has_available_slots() || self.task_queue.is_empty()
                || self.new_queue.is_empty() {
                break ;
            }
            let ghost held_before = held@;
            let (a_priority, a_memory) = match self.task_queue.peek_min() {
                Some(a) => {
                    proof {
                        lemma_bottom_unique(self@.ready_q, *a);
                        assert(is_bottom(self@.ready_q, *a));
                    }
                    (a.priority(), a.memory_size())
                },
                None => {
                    break ;
                },
            };
            let (n_priority, n_memory) = match self.new_queue.peek_max() {
                Some(n) => {
                    proof {
                        lemma_top_unique(self@.new_q, *n);
                        assert(is_top(self@.new_q, *n));
                    }
                    (n.priority(), n.memory_size())
                },
                None => {
                    break ;
                },
            };
            let ghost pre = self@;
            let ghost low = bottom(pre.ready_q);
            let ghost high = top(pre.new_q);
            assert(has_bottom(pre.ready_q) && low.priority == a_priority && low.memory_size
                == a_memory);
            assert(has_top(pre.new_q) && high.priority == n_priority && high.memory_size
                == n_memory);
            if a_priority >= n_priority {
                break ;
            }
            if a_memory >= n_memory {
                match self.task_queue.pop_min() {
                    None => {},
                    Some(a) => {
                        proof {
                            lemma_bottom_unique(pre.ready_q, a);
                            assert(a == low);
                            pre.lemma_dequeued(a);
                            assert(self@ == pre.dequeued(a));
                            if held@.contains_key(a.pid) {
                                assert(pre.queueable(held@[a.pid]));
                            }
                            pre.lemma_parked_frame(self@, held@, ProcessState::New, false, a.pid);
                        }
                        let ghost mid = self@;
                        self.suspend_task(a);
                        proof {
                            assert(self@ == pre.dequeued(a).after_suspend(a));
                            assert(held@ == held_before);
                            assert(pre.places(a.pid) <= 1);
                            assert forall|pid: u32| #[trigger]
                                self@.places(pid) == pre.places(pid) by {
                                if pid != a.pid {
                                    assert(mid.places(pid) == pre.places(pid));
                                    assert(mid.after_suspend(a).places(pid) == mid.places(pid));
                                }
                            }
                            assert(pre.making_room(held_before) == self@.making_room(held@));
                            mid.lemma_suspended(a);
                            mid.lemma_parked_frame(self@, held@, ProcessState::New, false, a.pid);
                            assert(pre.places(a.pid) <= 1);
                            lemma_relocated_step(
                                old(self)@.ready_all(),
                                pre.ready_all(),
                                self@.ready_all(),
                                set![a.pid],
                                self@.time,
                            );
                        }
                    },
                }
            } else {
                match self.new_queue.pop_max() {
                    None => {},
                    Some(n) => {
                        proof {
                            lemma_top_unique(pre.new_q, n);
                            assert(n == high);
                            pre.lemma_dequeued(n);
                            assert(self@ == pre.dequeued(n));
                            if held@.contains_key(n.pid) {
                                assert(pre.queueable(held@[n.pid]));
                            }
                            pre.lemma_parked_frame(self@, held@, ProcessState::New, false, n.pid);
                        }
                        held.push(n);
                        assert(self@ == pre.dequeued(n));
                        assert(held@ == held_before.insert(n.pid, n));
                        assert(pre.places(n.pid) <= 1);
                        assert forall|pid: u32| #[trigger]
                            self@.places(pid) + in_map(held@, pid) == pre.places(pid) + in_map(
                                held_before,
                                pid,
                            ) by {
                            if pid != n.pid {
                                assert(self@.places(pid) == pre.places(pid));
                            }
                        }
                        assert(pre.making_room(held_before) == self@.making_room(held@));
                    },
                }
            }
        }
        proof {
            self@.lemma_rejoined_new(held@);
        }
        let ghost rest = self@;
        self.new_queue.extend(held);
        proof {
            assert(self@ == rest.rejoined_new(held@));
        }
    }

    /// Suspends resident blocked tasks, lowest rank first, while new tasks
    /// wait: until no blocked task is resident or no new task waits.
    fn relieve_blocked(&mut self)
        requires
            old(self).wf(),
        ensures
            final(self).wf(),
            final(self)@.time == old(self)@.time,
            final(self)@.time_slice == old(self)@.time_slice,
            final(self)@.slots == old(self)@.slots,
            final(self)@.latches == old(self)@.latches,
            final(self)@.terminated == old(self)@.terminated,
            final(self)@.running == old(self)@.running,
            final(self)@.new_q == old(self)@.new_q,
            final(self)@.ready_q == old(self)@.ready_q,
            final(self)@.ready_susp_q == old(self)@.ready_susp_q,
            relocated(old(self)@.blocked_all(), final(self)@.blocked_all(), old(self)@.time),
            within(final(self)@.blocked_q, old(self)@.blocked_q),
            within(old(self)@.blocked_susp_q, final(self)@.blocked_susp_q),
            old(self)@.same_places(final(self)@),
            final(self)@ == old(self)@.relieving(),
            final(self)@.blocked_q.len() == 0 || final(self)@.new_q.len() == 0,
    {
        while !self.blocked_queue.is_empty() && !self.new_queue.is_empty()
            invariant
                self.wf(),
                self@.relieving() == old(self)@.relieving(),
                old(self)@.same_places(self@),
                self@.time == old(self)@.time,
                self@.time_slice == old(self)@.time_slice,
                self@.slots == old(self)@.slots,
                self@.latches == old(self)@.latches,
                self@.terminated == old(self)@.terminated,
                self@.running == old(self)@.running,
                relocated(old(self)@.blocked_all(), self@.blocked_all(), self@.time),
                within(self@.blocked_q, old(self)@.blocked_q),
                within(old(self)@.blocked_susp_q, self@.blocked_susp_q),
                self@.new_q == old(self)@.new_q,
                self@.ready_q == old(self)@.ready_q,
                self@.ready_susp_q == old(self)@.ready_susp_q,
            decreases self@.blocked_q.len(),
        {
            let ghost pre = self@;
            match self.blocked_queue.pop_min() {
                None => {},
                Some(task) => {
                    proof {
                        lemma_bottom_unique(pre.blocked_q, task);
                        assert(is_bottom(pre.blocked_q, task));
                        pre.lemma_dequeued(task);
                        assert(self@ == pre.dequeued(task));
                        pre.dequeued(task).lemma_suspended(task);
                    }
                    self.suspend_task(task);
                    proof {
                        assert(pre.relieving() == self@.relieving());
                        assert(pre.places(task.pid) <= 1);
                        lemma_relocated_step(
                            old(self)@.blocked_all(),
                            pre.blocked_all(),
                            self@.blocked_all(),
                            set![task.pid],
                            self@.time,
                        );
                    }
                },
            }
        }
    }

    /// Decides which tasks are in memory. Suspended ready tasks come back
    /// while slots are free; while none is, a suspended ready task or a
    /// new task of higher priority takes the place of the resident ready
    /// task of lowest rank, if it needs no more memory; and resident
    /// blocked tasks are suspended while new tasks wait.
    pub fn high_level_schedule(&mut self)
        requires
            old(self).wf(),
        ensures
            final(self).wf(),
            old(self)@.high_level_step(final(self)@),
    {
        self.resume_suspended();
        let ghost a = self@;
        self.swap_in_suspended();
        let ghost b = self@;
        self.make_room_for_new();
        let ghost c = self@;
        self.relieve_blocked();
        proof {
            let now = old(self)@.time;
            lemma_relocated_twice(old(self)@.ready_all(), a.ready_all(), b.ready_all(), now);
            lemma_relocated_twice(old(self)@.ready_all(), b.ready_all(), c.ready_all(), now);
        }
    }

    /// Promotes new tasks to ready ones, highest rank first, while a slot
    /// is free: a task whose memory can be had becomes ready, one for
    /// which there is no room stays new. Afterwards no slot is free, or no
    /// new task is left for which there is room.
    pub fn mid_level_schedule(&mut self)
        requires
            old(self).wf(),
        ensures
            final(self).wf(),
            old(self)@.mid_level_step(final(self)@),
    {
        let mut held = TaskList::new();
        loop
            invariant
                self.wf(),
                held.wf(),
                forall|pid: u32| #[trigger]
                    self@.places(pid) + in_map(held@, pid) == old(self)@.places(pid),
                self@.parked(held@, ProcessState::New, false),
                self@.promoting(held@) == old(self)@.promoting(Map::empty()),
                forall|pid: u32|
                    held@.contains_key(pid) ==> !self@.memory.fits(
                        (#[trigger] held@[pid]).memory_size as int,
                    ),
                self@.time == old(self)@.time,
                self@.time_slice == old(self)@.time_slice,
                self@.slots == old(self)@.slots,
                self@.latches == old(self)@.latches,
                self@.terminated == old(self)@.terminated,
                self@.running == old(self)@.running,
                self@.ready_susp_q == old(self)@.ready_susp_q,
                self@.blocked_q == old(self)@.blocked_q,
                self@.blocked_susp_q == old(self)@.blocked_susp_q,
                within(self@.new_q, old(self)@.new_q),
                within(held@, old(self)@.new_q),
                within(old(self)@.ready_q, self@.ready_q),
                forall|pid: u32| #[trigger]
                    old(self)@.new_q.contains_key(pid) ==> self@.new_q.contains_key(pid)
                        || held@.contains_key(pid) || (self@.ready_q.contains_key(pid) && promoted(
                        old(self)@.new_q[pid],
                        self@.ready_q[pid],
                        self@.time,
                    )),
                forall|pid: u32| #[trigger]
                    self@.ready_q.contains_key(pid) && !old(self)@.ready_q.contains_key(pid)
                        ==> old(self)@.new_q.contains_key(pid) && !self@.new_q.contains_key(pid)
                        && !held@.contains_key(pid),
            ensures
                self@.new_q =~= Map::<u32, Task>::empty() || !self@.has_slot(),
                self@.new_q.len() == 0 || !self@.has_slot(),
            decreases self@.new_q.len(),
        {
            if self.new_queue.is_empty() || !self.has_available_slots() {
                break ;
            }
            let ghost pre = self@;
            let ghost held_before = held@;
            let task = match self.new_queue.pop_max() {
                Some(t) => t,
                None => {
                    break ;
                },
            };
            proof {
                lemma_top_unique(pre.new_q, task);
                assert(is_top(pre.new_q, task));
                pre.lemma_dequeued(task);
                assert(self@ == pre.dequeued(task));
                assert(pre.places(task.pid) >= 1);
                if held@.contains_key(task.pid) {
                    assert(pre.queueable(held@[task.pid]));
                }
                pre.lemma_parked_frame(self@, held@, ProcessState::New, false, task.pid);
            }
            let (size, pid) = (task.memory_size(), task.pid());
            let ghost mid = self@;
            match self.memory_manager.allocate(size, pid) {
                Ok(hole) => {
                    proof {
                        mid.lemma_granted(task);
                        assert(self@ == mid.with_memory(
                            mid.memory.after_allocate(size as int, pid),
                        ));
                        mid.lemma_parked_frame(self@, held@, ProcessState::New, false, pid);
                        assert forall|q: u32| held@.contains_key(q) implies !self@.memory.fits(
                            (#[trigger] held@[q]).memory_size as int,
                        ) by {
                            if self@.memory.fits(held@[q].memory_size as int) {
                                mid.memory.lemma_allocate_shrinks(
                                    size as int,
                                    pid,
                                    held@[q].memory_size as int,
                                );
                            }
                        }
                    }
                    let ghost popped = task;
                    let ghost allocated = self@;
                    proof {
                        allocated.lemma_noted(Event::Allocated { pid, hole });
                    }
                    self.events.push(Event::Allocated { pid, hole });
                    proof {
                        allocated.lemma_parked_frame(self@, held@, ProcessState::New, false, pid);
                    }
                    let mut task = task;
                    task.set_memory_range(hole);
                    let ghost granted = self@;
                    self.new_to_ready_task(task);
                    proof {
                        let t2 = entering(task, ProcessState::Ready, granted.time);
                        granted.lemma_enqueued(t2);
                        let e = Event::Transition {
                            pid,
                            from: ProcessState::New,
                            to: ProcessState::Ready,
                        };
                        granted.enqueued(t2).lemma_noted(e);
                        granted.lemma_parked_frame(self@, held@, ProcessState::New, false, pid);
                        assert(self@.ready_q == pre.ready_q.insert(pid, t2));
                        assert(promoted(popped, t2, self@.time));
                        assert(pre.new_q.dom().contains(pid) && pre.new_q[pid] == popped);
                        assert(old(self)@.new_q[pid] == popped);
                        assert(!pre.ready_q.contains_key(pid)) by {
                            assert(pre.places(pid) <= 1);
                        }
                        assert(pre.promoting(held_before) == self@.promoting(held@));
                    }
                },
                Err(_) => {
                    held.push(task);
                    assert(pre.promoting(held_before) == self@.promoting(held@));
                },
            }
        }
        proof {
            self@.lemma_rejoined_new(held@);
        }
        let ghost rest = self@;
        self.new_queue.extend(held);
        proof {
            assert(self@ == rest.rejoined_new(held@));
            assert(rest.promoting(held@) == rest.rejoined_new(held@));
            if self@.has_slot() {
                assert(rest.new_q =~= Map::<u32, Task>::empty());
            }
        }
    }

    /// Blocks every ready task that ranks highest and waits for a
    /// predecessor that is not done.
    fn block_heads(&mut self)
        requires
            old(self).wf(),
        ensures
            final(self).wf(),
            final(self)@ == old(self)@.after_blocking(),
            !final(self)@.head_must_wait(),
            final(self)@.running == old(self)@.running,
            final(self)@.time == old(self)@.time,
            final(self)@.time_slice == old(self)@.time_slice,
            final(self)@.latches == old(self)@.latches,
            final(self)@.terminated == old(self)@.terminated,
            old(self)@.same_places(final(self)@),
    {
        loop
            invariant
                self.wf(),
                self@.after_blocking() == old(self)@.after_blocking(),
                old(self)@.same_places(self@),
                self@.running == old(self)@.running,
                self@.time == old(self)@.time,
                self@.time_slice == old(self)@.time_slice,
                self@.latches == old(self)@.latches,
                self@.terminated == old(self)@.terminated,
            ensures
                !self@.head_must_wait(),
            decreases self@.ready_q.len(),
        {
            let must_wait = match self.task_queue.peek_max() {
                None => false,
                Some(t) => {
                    proof {
                        lemma_top_unique(self@.ready_q, *t);
                    }
                    !t.is_cond_satisfied(&self.pid_to_trigger)
                },
            };
            if !must_wait {
                break ;
            }
            let ghost pre = self@;
            let task = match self.task_queue.pop_max() {
                Some(t) => t,
                None => {
                    break ;
                },
            };
            proof {
                lemma_top_unique(pre.ready_q, task);
                pre.lemma_dequeued(task);
                assert(self@ == pre.dequeued(task));
            }
            self.block_task(task);
            proof {
                assert(pre.places(task.pid) <= 1);
                assert(self@ == pre.head_blocked());
                let core = pre.dequeued(task).enqueued(
                    entering(task, ProcessState::Blocked, pre.time),
                );
                pre.dequeued(task).lemma_enqueued(entering(task, ProcessState::Blocked, pre.time));
                core.lemma_noted(
                    Event::Transition {
                        pid: task.pid,
                        from: task.state,
                        to: ProcessState::Blocked,
                    },
                );
                assert forall|pid: u32| #[trigger] self@.places(pid) == pre.places(pid) by {
                    assert(self@.places(pid) == core.places(pid));
                    if pid != task.pid {
                        assert(pre.dequeued(task).places(pid) == pre.places(pid));
                        assert(core.places(pid) == pre.dequeued(task).places(pid));
                    }
                }
            }
        }
        proof {
            assert(self@.after_blocking() == self@);
        }
    }

    /// Gives processor `proc` the ready task of highest rank, if the
    /// processor is free or that task has a higher priority than the task
    /// bound to it, and reclassifies the task that was bound.
    fn dispatch(&mut self, proc: usize)
        requires
            old(self).wf(),
            proc < 2,
        ensures
            final(self).wf(),
            final(self)@ == old(self)@.after_dispatch(proc as int),
            final(self)@.can_tick(final(self)@.running[proc as int]),
            final(self)@.running[1 - proc] == old(self)@.running[1 - proc],
            final(self)@.time == old(self)@.time,
            final(self)@.time_slice == old(self)@.time_slice,
            latches_advance(old(self)@.latches, final(self)@.latches),
            within(old(self)@.terminated, final(self)@.terminated),
            old(self)@.same_places(final(self)@),
    {
        let ghost mid = self@;
        let head: Option<(u32, u32)> = match self.task_queue.peek_max() {
            None => None,
            Some(t) => {
                proof {
                    lemma_top_unique(self@.ready_q, *t);
                }
                Some((t.priority(), t.pid()))
            },
        };
        let preempted: Option<(u32, u32)> = match (head, self.processors[proc].executing_task()) {
            (Some((priority, by)), Some(o)) => if priority > o.priority() {
                Some((o.pid(), by))
            } else {
                None
            },
            _ => None,
        };
        assert(mid.running[proc as int] == self.processors[proc as int].executing_task);
        assert(preempted is Some == mid.preempts(proc as int));
        let finished = self.processors[proc].is_task_finished();
        if let Some((pid, by)) = preempted {
            proof {
                mid.lemma_noted(Event::Preempted { pid, by });
            }
            self.events.push(Event::Preempted { pid, by });
        }
        let ghost announced = self@;
        if preempted.is_some() || finished {
            assert(mid.dispatches(proc as int));
            match self.task_queue.pop_max() {
                Some(t) => {
                    proof {
                        lemma_top_unique(mid.ready_q, t);
                        announced.lemma_dequeued(t);
                    }
                    let ghost taken = t;
                    let pid = t.pid();
                    let mut t = t;
                    t.set_sch_time(self.time_slice as i32);
                    t.set_state(ProcessState::Running);
                    let prev = self.processors[proc].turn_to_task(Some(t));
                    let ghost e = Event::Transition {
                        pid,
                        from: ProcessState::Ready,
                        to: ProcessState::Running,
                    };
                    proof {
                        let m1 = announced.dequeued(taken);
                        m1.lemma_bound(proc as int, taken);
                        assert(self@.running =~= m1.running.update(
                            proc as int,
                            Some(dispatched(taken, mid.time_slice)),
                        ));
                        let m2 = m1.with_running(
                            proc as int,
                            Some(dispatched(taken, mid.time_slice)),
                        );
                        assert(self@ == m2);
                        m2.lemma_noted(e);
                    }
                    self.events.push(
                        Event::Transition {
                            pid,
                            from: ProcessState::Ready,
                            to: ProcessState::Running,
                        },
                    );
                    let ghost bound = self@;
                    match prev {
                        None => {},
                        Some(o) => {
                            if o.request_time() <= 0 {
                                proof {
                                    bound.lemma_terminated(o);
                                }
                                self.terminate_task(o);
                            } else {
                                proof {
                                    bound.lemma_enqueued(
                                        entering(o, ProcessState::Ready, bound.time),
                                    );
                                    bound.enqueued(
                                        entering(o, ProcessState::Ready, bound.time),
                                    ).lemma_noted(
                                        Event::Transition {
                                            pid: o.pid,
                                            from: o.state,
                                            to: ProcessState::Ready,
                                        },
                                    );
                                }
                                self.ready_task(o);
                            }
                        },
                    }
                },
                None => {
                    let prev = self.processors[proc].turn_to_task(None);
                    match prev {
                        None => {
                            assert(self@.running =~= mid.running);
                        },
                        Some(o) => {
                            proof {
                                mid.lemma_unbound(proc as int);
                                assert(self@.running =~= mid.running.update(proc as int, None));
                                assert(self@ == mid.with_running(proc as int, None));
                                self@.lemma_terminated(o);
                            }
                            self.terminate_task(o);
                        },
                    }
                },
            }
        } else {
            assert(!mid.dispatches(proc as int));
        }
    }

    /// Looks after processor `proc`. First every ready task that ranks
    /// highest and waits for a predecessor that is not done becomes
    /// blocked. Then, if the processor is free, or the ready task of
    /// highest rank has a higher priority than the task bound to it, that
    /// ready task is bound to it with a new slice, and the task that was
    /// bound terminates if it needs no more time and is ready again
    /// otherwise.
    pub fn low_level_schedule(&mut self, proc: usize)
        requires
            old(self).wf(),
            proc < 2,
        ensures
            final(self).wf(),
            final(self)@ == old(self)@.low_level_step(proc as int),
            final(self)@.can_tick(final(self)@.running[proc as int]),
            final(self)@.running[1 - proc] == old(self)@.running[1 - proc],
            final(self)@.time == old(self)@.time,
            final(self)@.time_slice == old(self)@.time_slice,
            latches_advance(old(self)@.latches, final(self)@.latches),
            within(old(self)@.terminated, final(self)@.terminated),
            old(self)@.same_places(final(self)@),
    {
        self.block_heads();
        self.dispatch(proc);
    }

    /// One round of scheduling: unblocks, decides who is in memory,
    /// promotes new tasks, and looks after each processor in turn.
    /// Afterwards each processor's task can run for a tick.
    pub fn schedule(&mut self)
        requires
            old(self).wf(),
        ensures
            final(self).wf(),
            old(self)@.scheduled(final(self)@),
            final(self)@.time == old(self)@.time,
            final(self)@.can_tick(final(self)@.running[0]),
            final(self)@.can_tick(final(self)@.running[1]),
            latches_advance(old(self)@.latches, final(self)@.latches),
            old(self)@.same_places(final(self)@),
            old(self)@.complete() ==> final(self)@.complete(),
            within(old(self)@.terminated, final(self)@.terminated),
    {
        self.check_and_unblock();
        let ghost a = self@;
        self.high_level_schedule();
        self.mid_level_schedule();
        self.low_level_schedule(0);
        self.low_level_schedule(1);
        proof {
            assert(old(self)@.unblock_step(a) && self@ == a.after_levels());
        }
    }

    /// One tick: the clock advances, a round of scheduling follows, and
    /// each processor runs its task for the tick.
    pub fn advance_time(&mut self)
        requires
            old(self).wf(),
            old(self)@.time < i32::MAX,
        ensures
            final(self).wf(),
            old(self)@.ticked_to(final(self)@),
            final(self)@.time == old(self)@.time + 1,
            latches_advance(old(self)@.latches, final(self)@.latches),
            old(self)@.same_places(final(self)@),
            old(self)@.complete() ==> final(self)@.complete(),
            within(old(self)@.terminated, final(self)@.terminated),
    {
        proof {
            self@.lemma_later();
        }
        self.time += 1;
        assert(self@ == old(self)@.later());
        self.schedule();
        let ghost mid = self@;
        proof {
            mid.lemma_run();
        }
        self.processors[0].run_task();
        self.processors[1].run_task();
        proof {
            assert(self@.running =~= mid.after_run().running);
            assert(self@ == mid.after_run());
            assert(old(self)@.later().scheduled(mid));
        }
    }

    /// The allocator.
    pub fn memory_manager(&self) -> (m: &MemoryManager)
        ensures
            m@ == self@.memory,
    {
        &self.memory_manager
    }

    /// The pid of the task bound to each processor.
    pub fn get_executing_tasks(&self) -> (pids: [Option<u32>; 2])
        ensures
            forall|i: int|
                0 <= i < 2 ==> #[trigger] pids[i] == match self@.running[i] {
                    None => None,
                    Some(t) => Some(t.pid),
                },
    {
        let first = match self.processors[0].executing_task() {
            None => None,
            Some(t) => Some(t.pid()),
        };
        let second = match self.processors[1].executing_task() {
            None => None,
            Some(t) => Some(t.pid()),
        };
        [first, second]
    }

    /// The simulated time.
    pub fn time(&self) -> (t: i32)
        ensures
            t == self@.time,
    {
        self.time
    }

    /// The task of pid `pid`, wherever the scheduler holds it: on a
    /// processor, in a queue, or on record as terminated.
    pub fn task(&self, pid: u32) -> (found: Option<&Task>)
        requires
            self.wf(),
        ensures
            match found {
                None => self@.task_of(pid) is None && self@.places(pid) == 0,
                Some(t) => self@.task_of(pid) == Some(*t) && t.pid == pid && self@.holds(*t),
            },
    {
        proof {
            self@.lemma_task_of(pid);
        }
        if let Some(t) = self.processors[0].executing_task() {
            if t.pid() == pid {
                return Some(t);
            }
        }
        if let Some(t) = self.processors[1].executing_task() {
            if t.pid() == pid {
                return Some(t);
            }
        }
        if let Some(t) = self.task_queue.get(pid) {
            return Some(t);
        }
        if let Some(t) = self.new_queue.get(pid) {
            return Some(t);
        }
        if let Some(t) = self.blocked_queue.get(pid) {
            return Some(t);
        }
        if let Some(t) = self.ready_suspend_queue.get(pid) {
            return Some(t);
        }
        if let Some(t) = self.blocked_suspend_queue.get(pid) {
            return Some(t);
        }
        self.terminated.get(&pid)
    }

    /// Whether the task of pid `pid` has terminated.
    pub fn is_done(&self, pid: u32) -> (done: bool)
        ensures
            done == (self@.latches.contains_key(pid) && self@.latches[pid]@),
    {
        match self.pid_to_trigger.get(&pid) {
            None => false,
            Some(latch) => latch.is_done(),
        }
    }

    /// Hands over the events that were reported since they were last
    /// taken, in the order in which they were reported.
    pub fn take_events(&mut self) -> (events: Vec<Event>)
        ensures
            events@ == old(self)@.events,
            final(self)@ == old(self)@.without_events(),
            old(self).wf() ==> final(self).wf(),
            old(self).wf() && old(self)@.complete() ==> final(self)@.complete(),
    {
        let mut events: Vec<Event> = Vec::new();
        proof {
            if self.wf() {
                self@.lemma_without_events();
                if self@.complete() {
                    assert forall|pid: u32|
                        self@.without_events().latches.contains_key(
                            pid,
                        ) implies #[trigger] self@.without_events().places(pid) == 1 by {
                        assert(self@.places(pid) == 1);
                    }
                }
            }
        }
        core::mem::swap(&mut self.events, &mut events);
        events
    }
}

} // verus!
