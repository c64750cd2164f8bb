//! The front of the simulation: a scheduler with four-tick slices and five
//! slots, and a counter that numbers the tasks as they are created.

use std::collections::HashMap;
use vstd::prelude::*;
use crate::event::Event;
use crate::memory::hole::Hole;
use crate::scheduler::Scheduler;
use crate::scheduler::SchedulerError;
use crate::scheduler::model::SchedulerModel;
use crate::task::ProcessState;
use crate::task::Task;
use crate::task::UNSCHEDULED_SLICE;

verus! {

/// The ticks of a time slice.
pub const TIME_SLICE: u32 = 4;

/// The number of tasks that may be ready in memory or running at once.
pub const SLOTS: u32 = 5;

/// A task as `Task::new` makes it.
pub open spec fn new_task(pid: u32, request_time: i32, priority: u32, memory_size: u32) -> Task {
    Task {
        pid,
        request_time,
        sch_time: UNSCHEDULED_SLICE,
        priority,
        state: ProcessState::New,
        in_queue_time: 0,
        memory_size,
        memory_range: None,
        cond: None,
        is_suspended: false,
    }
}

/// A scheduler together with the pid that the next task gets.
pub struct Manager {
    scheduler: Scheduler,
    pid_counter: u32,
}

impl Manager {
    /// The scheduler, as a mathematical value.
    pub closed spec fn scheduler(&self) -> SchedulerModel {
        self.scheduler@
    }

    /// The pid that the next task gets.
    pub closed spec fn next_pid(&self) -> u32 {
        self.pid_counter
    }

    /// The scheduler itself is well formed.
    pub closed spec fn scheduler_wf(&self) -> bool {
        self.scheduler.wf()
    }

    /// The manager's invariant: its scheduler is well formed and holds
    /// every task that was accepted, and every pid in use is below the
    /// next one.
    pub open spec fn wf(&self) -> bool {
        &&& self.scheduler_wf()
        &&& self.scheduler().inv()
        &&& self.scheduler().complete()
        &&& self.next_pid() >= 1
        &&& forall|pid: u32| #[trigger]
            self.scheduler().latches.contains_key(pid) ==> 1 <= pid < self.next_pid()
    }

    /// A manager without tasks, at time 0; the first task gets pid 1.
    pub fn new() -> (m: Self)
        ensures
            m.wf(),
            m.next_pid() == 1,
            m.scheduler().time == 0,
            m.scheduler().time_slice == TIME_SLICE,
            m.scheduler().slots == SLOTS,
            m.scheduler().latches == Map::<u32, crate::condition::Condition>::empty(),
            m.scheduler().events == Seq::<Event>::empty(),
            m.scheduler().memory.used == Map::<u32, Hole>::empty(),
            m.scheduler().memory.free == seq![Hole { beg: 0, end: 4096 }],
    {
        Self { scheduler: Scheduler::new(TIME_SLICE, SLOTS), pid_counter: 1 }
    }

    /// Creates a task under the next pid, to run once the task of pid
    /// `pre`, if one is named, has terminated. The pid is used up whether
    /// or not the task is accepted; it is refused, and the scheduler left
    /// as it is, exactly when `pre` names a pid that was never accepted.
    pub fn create_task(
        &mut self,
        req_time: i32,
        priority: u32,
        memory_size: u32,
        pre: Option<u32>,
    ) -> (r: Result<(), SchedulerError>)
        requires
            old(self).wf(),
            old(self).next_pid() < u32::MAX,
            memory_size > 0,
            req_time > i32::MIN,
        ensures
            final(self).wf(),
            final(self).next_pid() == old(self).next_pid() + 1,
            (pre matches Some(p) && !old(self).scheduler().latches.contains_key(p)) ==> r
                == Err::<(), SchedulerError>(SchedulerError::InvalidCondition) && final(self).scheduler() == old(self).scheduler(),
            (pre matches Some(p) ==> old(self).scheduler().latches.contains_key(p)) ==> r
                == Ok::<(), SchedulerError>(()) && final(self).scheduler() == old(self).scheduler().after_submit(
                new_task(old(self).next_pid(), req_time, priority, memory_size),
                pre,
            ),
    {
        let task = Task::new(self.pid_counter, req_time, priority, memory_size);
        let r = self.scheduler.add_task(task, pre);
        self.pid_counter += 1;
        r
    }

    /// One tick of the simulation.
    pub fn advance(&mut self)
        requires
            old(self).wf(),
            old(self).scheduler().time < i32::MAX,
        ensures
            final(self).wf(),
            final(self).next_pid() == old(self).next_pid(),
            old(self).scheduler().ticked_to(final(self).scheduler()),
            final(self).scheduler().time == old(self).scheduler().time + 1,
    {
        self.scheduler.advance_time();
    }

    /// The range of memory that each resident task holds, by pid.
    pub fn get_mem_usage(&self) -> (usage: &HashMap<u32, Hole>)
        ensures
            usage@ == self.scheduler().memory.used,
    {
        self.scheduler.memory_manager().get_mem_usage()
    }

    /// The pid of the task that runs on each processor.
    pub fn get_running_task(&self) -> (pids: [Option<u32>; 2])
        ensures
            forall|i: int|
                0 <= i < 2 ==> #[trigger] pids[i] == match self.scheduler().running[i] {
                    None => None,
                    Some(t) => Some(t.pid),
                },
    {
        self.scheduler.get_executing_tasks()
    }

    /// Hands over the events that the scheduler reported since they were
    /// last taken, in the order in which they were reported.
    pub fn take_events(&mut self) -> (events: Vec<Event>)
        requires
            old(self).wf(),
        ensures
            final(self).wf(),
            final(self).next_pid() == old(self).next_pid(),
            events@ == old(self).scheduler().events,
            final(self).scheduler() == old(self).scheduler().without_events(),
    {
        self.scheduler.take_events()
    }

    /// The pid that the next task gets.
    pub fn pid_counter(&self) -> (pid: u32)
        ensures
            pid == self.next_pid(),
    {
        self.pid_counter
    }

    /// The simulated time.
    pub fn time(&self) -> (t: i32)
        ensures
            t == self.scheduler().time,
    {
        self.scheduler.time()
    }
}

} // verus!
