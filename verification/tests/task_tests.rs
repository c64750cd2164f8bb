use std::cmp::Ordering;
use std::collections::HashMap;
use task_scheduler::condition::Condition;
use task_scheduler::memory::hole::Hole;
use task_scheduler::task::ProcessState;
use task_scheduler::task::Task;

#[test]
fn new_task_starts_out_new() {
    let t = Task::new(7, 12, 3, 400);
    assert_eq!(t.pid(), 7);
    assert_eq!(t.request_time(), 12);
    assert_eq!(t.priority(), 3);
    assert_eq!(t.memory_size(), 400);
    assert_eq!(*t.state(), ProcessState::New);
    assert_eq!(t.in_queue_time(), 0);
    assert_eq!(t.sch_time(), 0x3f3f3f3f);
    assert_eq!(t.memory_range(), None);
    assert_eq!(t.cond(), None);
    assert!(!t.is_suspended());
}

#[test]
fn setters_change_one_field() {
    let mut t = Task::new(7, 12, 3, 400);
    t.set_request_time(-4);
    assert_eq!(t.request_time(), -4);
    t.set_priority(9);
    assert_eq!(t.priority(), 9);
    t.set_state(ProcessState::Blocked);
    assert_eq!(*t.state(), ProcessState::Blocked);
    t.set_in_queue_time(33);
    assert_eq!(t.in_queue_time(), 33);
    t.set_sch_time(4);
    assert_eq!(t.sch_time(), 4);
    t.set_cond(Some(2));
    assert_eq!(t.cond(), Some(2));
    let h = Hole::new(10, 410).unwrap();
    t.set_memory_range(h);
    assert_eq!(t.memory_range(), Some(h));
    t.clear_memory_range();
    assert_eq!(t.memory_range(), None);
    t.suspend();
    assert!(t.is_suspended());
    t.unsuspend();
    assert!(!t.is_suspended());
    assert_eq!(t.pid(), 7);
    assert_eq!(t.memory_size(), 400);
    assert_eq!(t.request_time(), -4);
    assert_eq!(t.priority(), 9);
}

#[test]
fn decrement_takes_time_off_both_counters() {
    let mut t = Task::new(1, 10, 1, 1);
    t.set_sch_time(4);
    t.decrement_time(1);
    assert_eq!(t.request_time(), 9);
    assert_eq!(t.sch_time(), 3);
    t.decrement_time(5);
    assert_eq!(t.request_time(), 4);
    assert_eq!(t.sch_time(), -2);
}

#[test]
fn a_task_without_predecessor_is_satisfied() {
    let latches: HashMap<u32, Condition> = HashMap::new();
    let t = Task::new(1, 10, 1, 1);
    assert!(t.is_cond_satisfied(&latches));
}

#[test]
fn a_task_waits_until_its_predecessor_is_done() {
    let mut latches: HashMap<u32, Condition> = HashMap::new();
    latches.insert(1, Condition::new());
    let mut t = Task::new(2, 10, 1, 1);
    t.set_cond(Some(1));
    assert!(!t.is_cond_satisfied(&latches));
    latches.get_mut(&1).unwrap().set_ok();
    assert!(t.is_cond_satisfied(&latches));
}

#[test]
fn an_unknown_predecessor_is_never_done() {
    let latches: HashMap<u32, Condition> = HashMap::new();
    let mut t = Task::new(2, 10, 1, 1);
    t.set_cond(Some(1));
    assert!(!t.is_cond_satisfied(&latches));
}

#[test]
fn tasks_compare_by_priority_then_by_age() {
    let mut a = Task::new(1, 10, 1, 1);
    let mut b = Task::new(2, 10, 2, 1);
    assert_eq!(a.partial_cmp(&b), Some(Ordering::Less));
    assert_eq!(b.partial_cmp(&a), Some(Ordering::Greater));
    b.set_priority(1);
    assert_eq!(a.partial_cmp(&b), Some(Ordering::Equal));
    a.set_in_queue_time(5);
    b.set_in_queue_time(3);
    // the one that entered earlier is the greater
    assert_eq!(a.partial_cmp(&b), Some(Ordering::Less));
    assert_eq!(b.partial_cmp(&a), Some(Ordering::Greater));
    assert!(a < b);
}

#[test]
fn tasks_are_equal_by_priority_age_and_state() {
    let a = Task::new(1, 10, 1, 100);
    let mut b = Task::new(2, 99, 1, 5);
    assert!(a == b);
    b.set_state(ProcessState::Ready);
    assert!(a != b);
    b.set_state(ProcessState::New);
    b.set_in_queue_time(1);
    assert!(a != b);
    b.set_in_queue_time(0);
    b.set_priority(2);
    assert!(a != b);
}
