use task_scheduler::memory::hole::Hole;
use task_scheduler::scheduler::Scheduler;
use task_scheduler::scheduler::SchedulerError;
use task_scheduler::task::ProcessState;
use task_scheduler::task::Task;

fn hole(beg: u32, end: u32) -> Hole {
    Hole::new(beg, end).unwrap()
}

fn submit(s: &mut Scheduler, pid: u32, req: i32, pri: u32, mem: u32, pre: Option<u32>) {
    assert_eq!(s.add_task(Task::new(pid, req, pri, mem), pre), Ok(()));
}

fn state(s: &Scheduler, pid: u32) -> ProcessState {
    *s.task(pid).unwrap().state()
}

/// What must hold of the tasks `1..=last` after every operation.
fn check_invariants(s: &Scheduler, last: u32, slots: u32, pages: u32) {
    let running = s.get_executing_tasks();
    if let (Some(a), Some(b)) = (running[0], running[1]) {
        assert!(a != b);
    }
    assert!(s.running_tasks_count() <= slots);
    let usage = s.memory_manager().get_mem_usage();
    let mut ready_in_memory = 0;
    let mut bound = 0;
    for pid in 1..=last {
        let t = s.task(pid).unwrap();
        assert_eq!(t.pid(), pid);
        assert!(t.in_queue_time() <= s.time());
        assert_eq!(*t.state() == ProcessState::Terminated, s.is_done(pid));
        let resident = !t.is_suspended() && matches!(
            *t.state(),
            ProcessState::Ready | ProcessState::Running | ProcessState::Blocked
        );
        if resident {
            let range = t.memory_range().unwrap();
            assert_eq!(usage.get(&pid), Some(&range));
            assert_eq!(range.get_size(), t.memory_size());
        } else {
            assert_eq!(t.memory_range(), None);
            assert!(usage.get(&pid).is_none());
        }
        if t.is_suspended() {
            assert!(matches!(*t.state(), ProcessState::Ready | ProcessState::Blocked));
        }
        if *t.state() == ProcessState::Running {
            assert!(running[0] == Some(pid) || running[1] == Some(pid));
            bound += 1;
        } else {
            assert!(running[0] != Some(pid) && running[1] != Some(pid));
        }
        if *t.state() == ProcessState::Ready && !t.is_suspended() {
            ready_in_memory += 1;
        }
    }
    assert_eq!(s.running_tasks_count(), ready_in_memory + bound);
    assert!(usage.len() <= last as usize);
    // the free and the held ranges partition the memory
    let m = s.memory_manager();
    let mut ranges: Vec<(u32, u32)> = m.free_holes().iter().map(|h| h.to_tuple()).collect();
    for i in 0..m.free_holes().len() {
        if i + 1 < m.free_holes().len() {
            assert!(m.free_holes()[i].to_tuple().1 < m.free_holes()[i + 1].to_tuple().0);
        }
    }
    for h in usage.values() {
        ranges.push(h.to_tuple());
    }
    ranges.sort();
    let mut at = 0;
    for (beg, end) in ranges {
        assert_eq!(beg, at);
        assert!(beg < end);
        at = end;
    }
    assert_eq!(at, pages);
}

#[test]
fn new_scheduler_is_empty() {
    let s = Scheduler::new(4, 5);
    assert_eq!(s.time(), 0);
    assert_eq!(s.get_executing_tasks(), [None, None]);
    assert_eq!(s.running_tasks_count(), 0);
    assert!(s.has_available_slots());
    assert!(s.memory_manager().get_mem_usage().is_empty());
    assert_eq!(s.memory_manager().free_holes(), &vec![hole(0, 4096)]);
    assert_eq!(s.memory_manager().size(), 16777216);
    assert_eq!(s.memory_manager().page_size(), 4096);
    assert!(s.task(1).is_none());
    assert!(!s.is_done(1));
}

#[test]
fn a_scheduler_without_slots_has_none_free() {
    let s = Scheduler::new(4, 0);
    assert!(!s.has_available_slots());
}

#[test]
fn a_submitted_task_is_new() {
    let mut s = Scheduler::new(4, 5);
    let mut t = Task::new(1, 3, 2, 400);
    t.set_state(ProcessState::Running);
    t.set_in_queue_time(77);
    t.set_cond(Some(9));
    t.suspend();
    t.set_memory_range(hole(0, 400));
    assert_eq!(s.add_task(t, None), Ok(()));
    let t = s.task(1).unwrap();
    assert_eq!(*t.state(), ProcessState::New);
    assert_eq!(t.in_queue_time(), 0);
    assert_eq!(t.cond(), None);
    assert!(!t.is_suspended());
    assert_eq!(t.memory_range(), None);
    assert_eq!(t.request_time(), 3);
    assert_eq!(t.priority(), 2);
    assert_eq!(t.memory_size(), 400);
    assert!(!s.is_done(1));
    check_invariants(&s, 1, 5, 4096);
}

#[test]
fn a_pid_is_accepted_once() {
    let mut s = Scheduler::new(4, 5);
    submit(&mut s, 1, 3, 1, 400, None);
    assert_eq!(s.add_task(Task::new(1, 9, 9, 9), None), Err(SchedulerError::InvalidPid));
    assert_eq!(s.add_task(Task::new(1, 9, 9, 9), Some(1)), Err(SchedulerError::InvalidPid));
    assert_eq!(s.add_task(Task::new(1, 9, 9, 9), Some(5)), Err(SchedulerError::InvalidPid));
    assert_eq!(s.task(1).unwrap().request_time(), 3);
    check_invariants(&s, 1, 5, 4096);
}

#[test]
fn a_predecessor_must_be_known() {
    let mut s = Scheduler::new(4, 5);
    assert_eq!(s.add_task(Task::new(1, 3, 1, 400), Some(2)), Err(SchedulerError::InvalidCondition));
    assert!(s.task(1).is_none());
    // a task cannot wait for itself
    assert_eq!(s.add_task(Task::new(1, 3, 1, 400), Some(1)), Err(SchedulerError::InvalidCondition));
    assert!(s.task(1).is_none());
    submit(&mut s, 1, 3, 1, 400, None);
    submit(&mut s, 2, 3, 1, 400, Some(1));
    assert_eq!(s.task(2).unwrap().cond(), Some(1));
    check_invariants(&s, 2, 5, 4096);
}

#[test]
fn a_tick_advances_the_clock() {
    let mut s = Scheduler::new(4, 5);
    s.advance_time();
    assert_eq!(s.time(), 1);
    s.advance_time();
    assert_eq!(s.time(), 2);
    assert_eq!(s.get_executing_tasks(), [None, None]);
}

#[test]
fn tasks_of_equal_priority_run_in_order_of_submission() {
    let mut s = Scheduler::new(4, 5);
    submit(&mut s, 1, 3, 1, 400, None);
    submit(&mut s, 2, 2, 1, 200, None);
    // tick 1
    s.advance_time();
    check_invariants(&s, 2, 5, 4096);
    assert_eq!(s.get_executing_tasks(), [Some(1), Some(2)]);
    assert_eq!(s.task(1).unwrap().memory_range(), Some(hole(0, 400)));
    assert_eq!(s.task(2).unwrap().memory_range(), Some(hole(400, 600)));
    assert_eq!(s.task(1).unwrap().request_time(), 2);
    assert_eq!(s.task(1).unwrap().sch_time(), 3);
    assert_eq!(s.task(2).unwrap().request_time(), 1);
    // tick 2
    s.advance_time();
    check_invariants(&s, 2, 5, 4096);
    assert_eq!(s.get_executing_tasks(), [Some(1), Some(2)]);
    assert_eq!(s.task(2).unwrap().request_time(), 0);
    // tick 3
    s.advance_time();
    check_invariants(&s, 2, 5, 4096);
    assert_eq!(s.get_executing_tasks(), [Some(1), None]);
    assert_eq!(state(&s, 2), ProcessState::Terminated);
    assert!(s.is_done(2));
    assert!(!s.is_done(1));
    assert_eq!(s.memory_manager().get_mem_usage().len(), 1);
    // tick 4
    s.advance_time();
    check_invariants(&s, 2, 5, 4096);
    assert_eq!(s.get_executing_tasks(), [None, None]);
    assert_eq!(state(&s, 1), ProcessState::Terminated);
    assert!(s.is_done(1));
    assert!(s.memory_manager().get_mem_usage().is_empty());
    assert_eq!(s.memory_manager().free_holes(), &vec![hole(0, 4096)]);
    assert_eq!(s.time(), 4);
}

#[test]
fn a_dependent_waits_for_its_predecessor() {
    let mut s = Scheduler::new(4, 5);
    submit(&mut s, 1, 5, 1, 1200, None);
    submit(&mut s, 2, 3, 1, 1200, Some(1));
    let mut started = None;
    let mut ended = None;
    let mut pid1_ended = None;
    for tick in 1..=12 {
        s.advance_time();
        check_invariants(&s, 2, 5, 4096);
        let running = s.get_executing_tasks();
        let pid2_runs = running[0] == Some(2) || running[1] == Some(2);
        if !s.is_done(1) {
            assert!(!pid2_runs);
            if tick > 1 || state(&s, 2) != ProcessState::Ready {
                assert_eq!(state(&s, 2), ProcessState::Blocked);
            }
        }
        if s.is_done(1) && pid1_ended.is_none() {
            pid1_ended = Some(tick);
        }
        if pid2_runs && started.is_none() {
            started = Some(tick);
        }
        if s.is_done(2) && ended.is_none() {
            ended = Some(tick);
        }
    }
    // pid 1 runs for ticks 1 to 5 and is found finished at tick 6
    assert_eq!(pid1_ended, Some(6));
    // pid 2 is unblocked and dispatched by the round that follows
    assert_eq!(started, Some(7));
    // and is found finished three ticks of running later
    assert_eq!(ended, Some(10));
    assert!(s.memory_manager().get_mem_usage().is_empty());
}

#[test]
fn a_blocked_task_keeps_its_memory() {
    let mut s = Scheduler::new(4, 5);
    submit(&mut s, 1, 5, 1, 1200, None);
    submit(&mut s, 2, 3, 1, 1200, Some(1));
    s.advance_time();
    assert_eq!(state(&s, 2), ProcessState::Blocked);
    assert!(!s.task(2).unwrap().is_suspended());
    assert_eq!(s.task(2).unwrap().memory_range(), Some(hole(1200, 2400)));
    assert_eq!(s.task(2).unwrap().in_queue_time(), 1);
    assert_eq!(s.get_executing_tasks(), [Some(1), None]);
}

#[test]
fn a_task_submitted_after_its_predecessor_ended_runs_at_once() {
    let mut s = Scheduler::new(4, 5);
    submit(&mut s, 1, 1, 1, 100, None);
    s.advance_time();
    s.advance_time();
    assert!(s.is_done(1));
    assert_eq!(state(&s, 1), ProcessState::Terminated);
    submit(&mut s, 2, 3, 1, 100, Some(1));
    assert_eq!(s.task(2).unwrap().cond(), Some(1));
    s.advance_time();
    check_invariants(&s, 2, 5, 4096);
    assert_eq!(s.get_executing_tasks(), [Some(2), None]);
    assert_eq!(state(&s, 2), ProcessState::Running);
}

#[test]
fn the_task_of_higher_priority_gets_the_memory_first() {
    let mut s = Scheduler::with_memory(4, 5, 2000 * 4096, 4096);
    assert_eq!(s.memory_manager().free_holes(), &vec![hole(0, 2000)]);
    submit(&mut s, 1, 10, 1, 1500, None);
    submit(&mut s, 2, 10, 2, 1000, None);
    s.advance_time();
    check_invariants(&s, 2, 5, 2000);
    assert_eq!(s.get_executing_tasks(), [Some(2), None]);
    assert_eq!(s.task(2).unwrap().memory_range(), Some(hole(0, 1000)));
    assert_eq!(state(&s, 1), ProcessState::New);
    assert_eq!(s.task(1).unwrap().memory_range(), None);
    // pid 2 needs ten ticks and is found finished at tick 11
    for _ in 2..=10 {
        s.advance_time();
        check_invariants(&s, 2, 5, 2000);
        assert_eq!(state(&s, 1), ProcessState::New);
        assert_eq!(s.memory_manager().get_mem_usage().len(), 1);
    }
    s.advance_time();
    check_invariants(&s, 2, 5, 2000);
    assert!(s.is_done(2));
    // its memory is free again, and the next round admits pid 1
    assert_eq!(state(&s, 1), ProcessState::New);
    s.advance_time();
    check_invariants(&s, 2, 5, 2000);
    assert_eq!(state(&s, 1), ProcessState::Running);
    assert_eq!(s.task(1).unwrap().memory_range(), Some(hole(0, 1500)));
    assert_eq!(s.get_executing_tasks(), [Some(1), None]);
}

#[test]
fn a_running_task_keeps_its_memory_against_a_higher_priority() {
    let mut s = Scheduler::with_memory(4, 5, 2000 * 4096, 4096);
    submit(&mut s, 1, 10, 1, 1500, None);
    s.advance_time();
    assert_eq!(s.get_executing_tasks(), [Some(1), None]);
    submit(&mut s, 2, 10, 2, 1000, None);
    // pid 1 runs on, past its slice, for want of a ready task
    for tick in 2..=10 {
        s.advance_time();
        check_invariants(&s, 2, 5, 2000);
        assert_eq!(s.get_executing_tasks(), [Some(1), None]);
        assert_eq!(s.task(1).unwrap().request_time(), 10 - tick);
        assert_eq!(state(&s, 2), ProcessState::New);
        assert_eq!(s.task(1).unwrap().memory_range(), Some(hole(0, 1500)));
    }
    // it is found finished at tick 11, after the round has looked for memory
    s.advance_time();
    assert!(s.is_done(1));
    assert_eq!(state(&s, 2), ProcessState::New);
    assert_eq!(s.get_executing_tasks(), [None, None]);
    s.advance_time();
    check_invariants(&s, 2, 5, 2000);
    assert_eq!(s.get_executing_tasks(), [Some(2), None]);
    assert_eq!(s.task(2).unwrap().memory_range(), Some(hole(0, 1000)));
}

#[test]
fn a_ready_task_is_suspended_for_a_new_one_of_higher_priority() {
    let mut s = Scheduler::with_memory(4, 3, 2000 * 4096, 4096);
    submit(&mut s, 1, 10, 1, 100, None);
    submit(&mut s, 2, 10, 1, 100, None);
    submit(&mut s, 3, 10, 1, 1500, None);
    s.advance_time();
    check_invariants(&s, 3, 3, 2000);
    assert_eq!(s.get_executing_tasks(), [Some(1), Some(2)]);
    assert_eq!(state(&s, 3), ProcessState::Ready);
    assert_eq!(s.task(3).unwrap().memory_range(), Some(hole(200, 1700)));
    assert!(!s.has_available_slots());
    submit(&mut s, 4, 3, 2, 1000, None);
    s.advance_time();
    check_invariants(&s, 4, 3, 2000);
    // pid 3 gave way
    assert_eq!(state(&s, 3), ProcessState::Ready);
    assert!(s.task(3).unwrap().is_suspended());
    assert_eq!(s.task(3).unwrap().memory_range(), None);
    assert_eq!(s.task(3).unwrap().in_queue_time(), 2);
    // pid 4 came in and preempted pid 1, which waits in memory: pid 2 has
    // the same priority and its slice is not used up
    assert_eq!(s.task(4).unwrap().memory_range(), Some(hole(200, 1200)));
    assert_eq!(s.get_executing_tasks(), [Some(4), Some(2)]);
    assert_eq!(state(&s, 1), ProcessState::Ready);
    assert!(!s.task(1).unwrap().is_suspended());
    assert_eq!(s.task(1).unwrap().request_time(), 9);
    // pid 3 comes back once a slot is free and there is room
    let mut back = None;
    for tick in 3..=40 {
        s.advance_time();
        check_invariants(&s, 4, 3, 2000);
        if back.is_none() && !s.task(3).unwrap().is_suspended() {
            back = Some(tick);
            assert!(s.is_done(4));
        }
    }
    assert!(back.is_some());
    for pid in 1..=4 {
        assert!(s.is_done(pid));
    }
    assert!(s.memory_manager().get_mem_usage().is_empty());
    assert_eq!(s.memory_manager().free_holes(), &vec![hole(0, 2000)]);
}

#[test]
fn a_task_of_higher_priority_preempts() {
    let mut s = Scheduler::new(4, 5);
    submit(&mut s, 1, 10, 1, 100, None);
    s.advance_time();
    s.advance_time();
    assert_eq!(s.task(1).unwrap().request_time(), 8);
    assert_eq!(s.task(1).unwrap().sch_time(), 2);
    assert_eq!(s.get_executing_tasks(), [Some(1), None]);
    submit(&mut s, 2, 4, 5, 100, None);
    assert_eq!(s.task(2).unwrap().in_queue_time(), 2);
    // the next round, up to the first processor
    s.check_and_unblock();
    s.high_level_schedule();
    s.mid_level_schedule();
    check_invariants(&s, 2, 5, 4096);
    assert_eq!(state(&s, 2), ProcessState::Ready);
    s.low_level_schedule(0);
    check_invariants(&s, 2, 5, 4096);
    assert_eq!(s.get_executing_tasks(), [Some(2), None]);
    assert_eq!(state(&s, 2), ProcessState::Running);
    assert_eq!(s.task(2).unwrap().sch_time(), 4);
    assert_eq!(state(&s, 1), ProcessState::Ready);
    assert_eq!(s.task(1).unwrap().request_time(), 8);
    assert_eq!(s.task(1).unwrap().in_queue_time(), 2);
    assert_eq!(s.task(1).unwrap().memory_range(), Some(hole(0, 100)));
    // the second processor is free and takes pid 1 with a new slice
    s.low_level_schedule(1);
    check_invariants(&s, 2, 5, 4096);
    assert_eq!(s.get_executing_tasks(), [Some(2), Some(1)]);
    assert_eq!(s.task(1).unwrap().sch_time(), 4);
    assert_eq!(s.task(1).unwrap().request_time(), 8);
}

#[test]
fn a_whole_tick_preempts_and_redispatches() {
    let mut s = Scheduler::new(4, 5);
    submit(&mut s, 1, 10, 1, 100, None);
    s.advance_time();
    s.advance_time();
    submit(&mut s, 2, 4, 5, 100, None);
    s.advance_time();
    check_invariants(&s, 2, 5, 4096);
    assert_eq!(s.get_executing_tasks(), [Some(2), Some(1)]);
    assert_eq!(s.task(1).unwrap().request_time(), 7);
    assert_eq!(s.task(2).unwrap().request_time(), 3);
}

#[test]
fn a_task_of_equal_priority_does_not_preempt() {
    let mut s = Scheduler::new(4, 5);
    submit(&mut s, 1, 10, 3, 100, None);
    submit(&mut s, 2, 10, 3, 100, None);
    s.advance_time();
    submit(&mut s, 3, 10, 3, 100, None);
    s.advance_time();
    check_invariants(&s, 3, 5, 4096);
    assert_eq!(s.get_executing_tasks(), [Some(1), Some(2)]);
    assert_eq!(state(&s, 3), ProcessState::Ready);
}

#[test]
fn a_used_up_slice_gives_the_processor_to_the_next_task() {
    let mut s = Scheduler::new(4, 5);
    submit(&mut s, 1, 10, 1, 100, None);
    submit(&mut s, 2, 10, 1, 100, None);
    submit(&mut s, 3, 10, 1, 100, None);
    for _ in 1..=4 {
        s.advance_time();
        check_invariants(&s, 3, 5, 4096);
        assert_eq!(s.get_executing_tasks(), [Some(1), Some(2)]);
        assert_eq!(state(&s, 3), ProcessState::Ready);
    }
    assert_eq!(s.task(1).unwrap().sch_time(), 0);
    assert_eq!(s.task(2).unwrap().sch_time(), 0);
    assert_eq!(s.task(1).unwrap().request_time(), 6);
    s.advance_time();
    check_invariants(&s, 3, 5, 4096);
    // pid 3 waited longest; pid 1 was requeued before the second
    // processor was looked after
    assert_eq!(s.get_executing_tasks(), [Some(3), Some(1)]);
    assert_eq!(state(&s, 2), ProcessState::Ready);
    assert_eq!(s.task(2).unwrap().in_queue_time(), 5);
    assert_eq!(s.task(2).unwrap().request_time(), 6);
    assert_eq!(s.task(3).unwrap().sch_time(), 3);
    assert_eq!(s.task(1).unwrap().sch_time(), 3);
    assert_eq!(s.task(1).unwrap().request_time(), 5);
}

#[test]
fn a_lone_task_runs_on_past_its_slice() {
    let mut s = Scheduler::new(2, 5);
    submit(&mut s, 1, 5, 1, 100, None);
    for tick in 1..=5 {
        s.advance_time();
        check_invariants(&s, 1, 5, 4096);
        assert_eq!(s.get_executing_tasks(), [Some(1), None]);
        assert_eq!(s.task(1).unwrap().request_time(), 5 - tick);
        assert_eq!(s.task(1).unwrap().sch_time(), 2 - tick);
    }
    s.advance_time();
    assert!(s.is_done(1));
    assert_eq!(s.get_executing_tasks(), [None, None]);
}

#[test]
fn a_task_that_asks_for_no_time_runs_one_tick() {
    let mut s = Scheduler::new(4, 5);
    submit(&mut s, 1, 0, 1, 100, None);
    submit(&mut s, 2, -7, 1, 100, None);
    s.advance_time();
    check_invariants(&s, 2, 5, 4096);
    assert_eq!(s.get_executing_tasks(), [Some(1), Some(2)]);
    assert_eq!(s.task(1).unwrap().request_time(), -1);
    assert_eq!(s.task(2).unwrap().request_time(), -8);
    s.advance_time();
    check_invariants(&s, 2, 5, 4096);
    assert!(s.is_done(1));
    assert!(s.is_done(2));
    assert_eq!(s.get_executing_tasks(), [None, None]);
}

#[test]
fn slots_bound_the_tasks_in_memory() {
    let mut s = Scheduler::new(4, 3);
    for pid in 1..=6 {
        submit(&mut s, pid, 6, 1, 10, None);
    }
    s.advance_time();
    check_invariants(&s, 6, 3, 4096);
    assert_eq!(s.running_tasks_count(), 3);
    assert!(!s.has_available_slots());
    assert_eq!(s.memory_manager().get_mem_usage().len(), 3);
    let mut new = 0;
    for pid in 1..=6 {
        if state(&s, pid) == ProcessState::New {
            new += 1;
        }
    }
    assert_eq!(new, 3);
    for _ in 0..40 {
        s.advance_time();
        check_invariants(&s, 6, 3, 4096);
    }
    for pid in 1..=6 {
        assert!(s.is_done(pid));
    }
}

#[test]
fn a_task_too_large_for_the_memory_stays_new() {
    let mut s = Scheduler::new(4, 5);
    submit(&mut s, 1, 2, 1, 5000, None);
    submit(&mut s, 2, 2, 1, 4096, None);
    for _ in 0..6 {
        s.advance_time();
        check_invariants(&s, 2, 5, 4096);
        assert_eq!(state(&s, 1), ProcessState::New);
    }
    assert!(s.is_done(2));
    assert!(!s.is_done(1));
}

#[test]
fn blocked_tasks_make_room_for_new_ones() {
    let mut s = Scheduler::with_memory(4, 5, 1000 * 4096, 4096);
    submit(&mut s, 1, 6, 1, 100, None);
    submit(&mut s, 2, 3, 1, 800, Some(1));
    s.advance_time();
    check_invariants(&s, 2, 5, 1000);
    assert_eq!(state(&s, 2), ProcessState::Blocked);
    assert!(!s.task(2).unwrap().is_suspended());
    submit(&mut s, 3, 2, 1, 500, None);
    s.advance_time();
    check_invariants(&s, 3, 5, 1000);
    // pid 2 was swapped out, and pid 3 took the room
    assert_eq!(state(&s, 2), ProcessState::Blocked);
    assert!(s.task(2).unwrap().is_suspended());
    assert_eq!(s.task(2).unwrap().memory_range(), None);
    assert_eq!(s.get_executing_tasks(), [Some(1), Some(3)]);
    assert_eq!(s.task(3).unwrap().memory_range(), Some(hole(100, 600)));
    for _ in 0..30 {
        s.advance_time();
        check_invariants(&s, 3, 5, 1000);
    }
    for pid in 1..=3 {
        assert!(s.is_done(pid));
    }
    assert_eq!(s.memory_manager().free_holes(), &vec![hole(0, 1000)]);
}

#[test]
fn many_tasks_all_terminate() {
    let mut s = Scheduler::with_memory(3, 4, 1500 * 4096, 4096);
    let mut pid = 0;
    for round in 0..6u32 {
        for k in 0..4u32 {
            pid += 1;
            let pre = if pid > 2 && k % 2 == 0 { Some(pid - 2) } else { None };
            submit(&mut s, pid, (k + round) as i32 % 5 + 1, (k * 7 + round) % 4, 100 + 150 * k, pre);
            check_invariants(&s, pid, 4, 1500);
        }
        for _ in 0..3 {
            s.advance_time();
            check_invariants(&s, pid, 4, 1500);
        }
    }
    for _ in 0..200 {
        s.advance_time();
        check_invariants(&s, pid, 4, 1500);
    }
    for p in 1..=pid {
        assert!(s.is_done(p));
        assert_eq!(state(&s, p), ProcessState::Terminated);
        assert!(s.task(p).unwrap().request_time() <= 0);
    }
    assert_eq!(s.get_executing_tasks(), [None, None]);
    assert_eq!(s.memory_manager().free_holes(), &vec![hole(0, 1500)]);
}
