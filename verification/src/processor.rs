//! Processors: slots in which one task at a time runs.

use vstd::prelude::*;
use crate::task::Task;

verus! {

/// A task after one tick on a processor.
pub open spec fn ticked(t: Task) -> Task {
    Task { request_time: (t.request_time - 1) as i32, sch_time: (t.sch_time - 1) as i32, ..t }
}

/// A processor and the task bound to it, if any.
pub struct Processor {
    pub proc_id: u32,
    pub executing_task: Option<Task>,
}

impl Processor {
    /// The bound task needs no more time, or its slice is used up, or no
    /// task is bound.
    pub open spec fn finished(self) -> bool {
        match self.executing_task {
            None => true,
            Some(t) => t.request_time <= 0 || t.sch_time <= 0,
        }
    }

    /// An idle processor.
    pub fn new(proc_id: u32) -> (p: Self)
        ensures
            p == (Processor { proc_id, executing_task: None }),
    {
        Self { proc_id, executing_task: None }
    }

    /// One tick: the bound task, if any, has one tick less to run and one
    /// tick less of its slice.
    pub fn run_task(&mut self)
        requires
            old(self).executing_task matches Some(t) ==> t.request_time > i32::MIN && t.sch_time
                > i32::MIN,
        ensures
            final(self).proc_id == old(self).proc_id,
            final(self).executing_task == match old(self).executing_task {
                None => None,
                Some(t) => Some(ticked(t)),
            },
    {
        match self.executing_task.take() {
            None => {},
            Some(mut task) => {
                task.decrement_time(1);
                self.executing_task = Some(task);
            },
        }
    }

    /// Whether the processor is free to take another task.
    pub fn is_task_finished(&self) -> (done: bool)
        ensures
            done == self.finished(),
    {
        match &self.executing_task {
            None => true,
            Some(task) => task.request_time() <= 0 || task.sch_time() <= 0,
        }
    }

    /// Binds `task`, if one is given, and returns the task that was bound
    /// before. Given none, unbinds and returns the bound task if it needs
    /// no more time, and otherwise lets it run on and returns nothing.
    pub fn turn_to_task(&mut self, task: Option<Task>) -> (prev: Option<Task>)
        ensures
            final(self).proc_id == old(self).proc_id,
            task is Some ==> final(self).executing_task == task && prev == old(self).executing_task,
            task is None && (old(self).executing_task matches Some(t) && t.request_time > 0)
                ==> prev is None && final(self).executing_task == old(self).executing_task,
            task is None && !(old(self).executing_task matches Some(t) && t.request_time > 0)
                ==> prev == old(self).executing_task && final(self).executing_task is None,
    {
        match task {
            Some(t) => {
                let prev = self.executing_task.take();
                self.executing_task = Some(t);
                prev
            },
            None => {
                let runs_on = match &self.executing_task {
                    Some(cur) => cur.request_time() > 0,
                    None => false,
                };
                if runs_on {
                    None
                } else {
                    self.executing_task.take()
                }
            },
        }
    }

    /// The number of the processor.
    pub fn proc_id(&self) -> (id: u32)
        ensures
            id == self.proc_id,
    {
        self.proc_id
    }

    /// The bound task, if any.
    pub fn executing_task(&self) -> (task: Option<&Task>)
        ensures
            match task {
                None => self.executing_task is None,
                Some(t) => self.executing_task == Some(*t),
            },
    {
        self.executing_task.as_ref()
    }
}

} // verus!
