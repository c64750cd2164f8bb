use task_scheduler::memory::hole::Hole;
use task_scheduler::manager::Manager;
use task_scheduler::scheduler::SchedulerError;

#[test]
fn new_manager_is_at_time_zero() {
    let m = Manager::new();
    assert_eq!(m.time(), 0);
    assert_eq!(m.get_running_task(), [None, None]);
    assert!(m.get_mem_usage().is_empty());
}

#[test]
fn tasks_are_numbered_from_one() {
    let mut m = Manager::new();
    assert_eq!(m.create_task(3, 1, 400, None), Ok(()));
    assert_eq!(m.create_task(2, 1, 200, None), Ok(()));
    m.advance();
    assert_eq!(m.time(), 1);
    assert_eq!(m.get_running_task(), [Some(1), Some(2)]);
    assert_eq!(m.get_mem_usage().get(&1), Some(&Hole::new(0, 400).unwrap()));
    assert_eq!(m.get_mem_usage().get(&2), Some(&Hole::new(400, 600).unwrap()));
    assert_eq!(m.get_mem_usage().len(), 2);
}

#[test]
fn a_refused_task_uses_up_its_pid() {
    let mut m = Manager::new();
    assert_eq!(m.create_task(3, 1, 400, Some(1)), Err(SchedulerError::InvalidCondition));
    assert_eq!(m.create_task(3, 1, 400, Some(7)), Err(SchedulerError::InvalidCondition));
    assert_eq!(m.create_task(3, 1, 400, None), Ok(()));
    m.advance();
    assert_eq!(m.get_running_task(), [Some(3), None]);
    assert_eq!(m.create_task(3, 1, 400, Some(3)), Ok(()));
    assert_eq!(m.create_task(3, 1, 400, Some(2)), Err(SchedulerError::InvalidCondition));
}

#[test]
fn the_slice_is_four_ticks_and_the_slots_are_five() {
    let mut m = Manager::new();
    for _ in 0..7 {
        assert_eq!(m.create_task(10, 1, 10, None), Ok(()));
    }
    m.advance();
    // five of the seven are in memory
    assert_eq!(m.get_mem_usage().len(), 5);
    assert_eq!(m.get_running_task(), [Some(1), Some(2)]);
    for _ in 0..3 {
        m.advance();
        assert_eq!(m.get_running_task(), [Some(1), Some(2)]);
    }
    m.advance();
    assert_eq!(m.get_running_task(), [Some(3), Some(4)]);
}

#[test]
fn the_first_tasks_of_the_demonstration_run_to_their_end() {
    let mut m = Manager::new();
    assert_eq!(m.create_task(3, 1, 400, None), Ok(()));
    assert_eq!(m.create_task(2, 1, 200, None), Ok(()));
    assert_eq!(m.create_task(4, 1, 50, None), Ok(()));
    assert_eq!(m.create_task(3, 1, 1200, Some(3)), Ok(()));
    assert_eq!(m.create_task(5, 1, 1200, None), Ok(()));
    assert_eq!(m.create_task(2, 1, 2000, None), Ok(()));
    assert_eq!(m.create_task(6, 1, 20, None), Ok(()));
    for _ in 0..60 {
        m.advance();
    }
    assert_eq!(m.time(), 60);
    assert_eq!(m.get_running_task(), [None, None]);
    assert!(m.get_mem_usage().is_empty());
}
