use task_scheduler::processor::Processor;
use task_scheduler::task::Task;

fn running(pid: u32, request_time: i32, slice: i32) -> Task {
    let mut t = Task::new(pid, request_time, 1, 1);
    t.set_sch_time(slice);
    t
}

#[test]
fn new_processor_is_idle() {
    let p = Processor::new(1);
    assert_eq!(p.proc_id(), 1);
    assert!(p.executing_task().is_none());
    assert!(p.is_task_finished());
}

#[test]
fn an_idle_processor_stays_idle_over_a_tick() {
    let mut p = Processor::new(0);
    p.run_task();
    assert!(p.executing_task().is_none());
    assert_eq!(p.proc_id(), 0);
}

#[test]
fn a_tick_takes_one_off_both_counters() {
    let mut p = Processor::new(0);
    assert!(p.turn_to_task(Some(running(3, 10, 4))).is_none());
    p.run_task();
    let t = p.executing_task().unwrap();
    assert_eq!(t.pid(), 3);
    assert_eq!(t.request_time(), 9);
    assert_eq!(t.sch_time(), 3);
}

#[test]
fn a_task_is_finished_when_time_or_slice_is_used_up() {
    let mut p = Processor::new(0);
    p.turn_to_task(Some(running(3, 2, 4)));
    assert!(!p.is_task_finished());
    p.run_task();
    assert!(!p.is_task_finished());
    p.run_task();
    assert!(p.is_task_finished());
    let mut p = Processor::new(0);
    p.turn_to_task(Some(running(3, 10, 1)));
    assert!(!p.is_task_finished());
    p.run_task();
    assert!(p.is_task_finished());
}

#[test]
fn binding_returns_the_previous_task() {
    let mut p = Processor::new(0);
    assert!(p.turn_to_task(Some(running(1, 10, 4))).is_none());
    let prev = p.turn_to_task(Some(running(2, 10, 4))).unwrap();
    assert_eq!(prev.pid(), 1);
    assert_eq!(p.executing_task().unwrap().pid(), 2);
}

#[test]
fn without_a_new_task_an_unfinished_task_runs_on() {
    let mut p = Processor::new(0);
    p.turn_to_task(Some(running(1, 10, 0)));
    assert!(p.turn_to_task(None).is_none());
    assert_eq!(p.executing_task().unwrap().pid(), 1);
}

#[test]
fn without_a_new_task_a_finished_task_is_unbound() {
    let mut p = Processor::new(0);
    p.turn_to_task(Some(running(1, 0, 3)));
    let prev = p.turn_to_task(None).unwrap();
    assert_eq!(prev.pid(), 1);
    assert!(p.executing_task().is_none());
    assert!(p.turn_to_task(None).is_none());
}
