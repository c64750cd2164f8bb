use task_scheduler::queue::rank;
use task_scheduler::queue::TaskQueue;
use task_scheduler::task::Task;

fn task(pid: u32, priority: u32, in_queue_time: i32) -> Task {
    let mut t = Task::new(pid, 10, priority, 1);
    t.set_in_queue_time(in_queue_time);
    t
}

#[test]
fn rank_is_priority_then_age_then_pid() {
    assert_eq!(rank(&task(1, 5, 7)), (5, -7, u32::MAX - 1));
    assert_eq!(rank(&task(0, 0, 0)), (0, 0, u32::MAX));
    assert_eq!(rank(&task(u32::MAX, u32::MAX, i32::MIN)), (u32::MAX, 2147483648, 0));
    assert!(rank(&task(1, 2, 9)) > rank(&task(2, 1, 0)));
    assert!(rank(&task(1, 1, 3)) > rank(&task(2, 1, 4)));
    assert!(rank(&task(1, 1, 3)) > rank(&task(2, 1, 3)));
}

#[test]
fn new_queue_is_empty() {
    let mut q = TaskQueue::new();
    assert!(q.is_empty());
    assert_eq!(q.len(), 0);
    assert!(q.peek_max().is_none());
    assert!(q.peek_min().is_none());
    assert!(q.pop_max().is_none());
    assert!(q.pop_min().is_none());
    assert!(q.get(1).is_none());
    assert!(q.drain().is_empty());
}

#[test]
fn push_makes_the_queue_longer() {
    let mut q = TaskQueue::new();
    q.push(task(1, 1, 0));
    assert!(!q.is_empty());
    assert_eq!(q.len(), 1);
    q.push(task(2, 1, 0));
    assert_eq!(q.len(), 2);
    assert_eq!(q.get(2).unwrap().pid(), 2);
    assert!(q.get(3).is_none());
}

#[test]
fn pop_max_goes_by_priority() {
    let mut q = TaskQueue::new();
    q.push(task(1, 1, 0));
    q.push(task(2, 3, 0));
    q.push(task(3, 2, 0));
    assert_eq!(q.peek_max().unwrap().pid(), 2);
    assert_eq!(q.len(), 3);
    assert_eq!(q.pop_max().unwrap().pid(), 2);
    assert_eq!(q.pop_max().unwrap().pid(), 3);
    assert_eq!(q.pop_max().unwrap().pid(), 1);
    assert!(q.pop_max().is_none());
    assert!(q.is_empty());
}

#[test]
fn among_equal_priorities_the_older_goes_first() {
    let mut q = TaskQueue::new();
    q.push(task(1, 1, 5));
    q.push(task(2, 1, 3));
    q.push(task(3, 1, 4));
    assert_eq!(q.pop_max().unwrap().pid(), 2);
    assert_eq!(q.pop_max().unwrap().pid(), 3);
    assert_eq!(q.pop_max().unwrap().pid(), 1);
}

#[test]
fn among_equal_ages_the_smaller_pid_goes_first() {
    let mut q = TaskQueue::new();
    q.push(task(9, 1, 3));
    q.push(task(4, 1, 3));
    q.push(task(6, 1, 3));
    assert_eq!(q.pop_max().unwrap().pid(), 4);
    assert_eq!(q.pop_max().unwrap().pid(), 6);
    assert_eq!(q.pop_max().unwrap().pid(), 9);
}

#[test]
fn pop_min_takes_the_lowest_rank() {
    let mut q = TaskQueue::new();
    q.push(task(1, 2, 0));
    q.push(task(2, 1, 1));
    q.push(task(3, 1, 2));
    q.push(task(4, 1, 2));
    assert_eq!(q.peek_min().unwrap().pid(), 4);
    assert_eq!(q.pop_min().unwrap().pid(), 4);
    assert_eq!(q.pop_min().unwrap().pid(), 3);
    assert_eq!(q.peek_max().unwrap().pid(), 1);
    assert_eq!(q.pop_min().unwrap().pid(), 2);
    assert_eq!(q.pop_min().unwrap().pid(), 1);
    assert!(q.pop_min().is_none());
}

#[test]
fn a_popped_task_is_the_task_that_was_pushed() {
    let mut q = TaskQueue::new();
    let mut t = Task::new(5, -3, 8, 77);
    t.set_in_queue_time(2);
    t.set_cond(Some(4));
    q.push(t);
    let back = q.pop_max().unwrap();
    assert_eq!(back.pid(), 5);
    assert_eq!(back.request_time(), -3);
    assert_eq!(back.priority(), 8);
    assert_eq!(back.memory_size(), 77);
    assert_eq!(back.in_queue_time(), 2);
    assert_eq!(back.cond(), Some(4));
}

#[test]
fn both_ends_work_together() {
    let mut q = TaskQueue::new();
    for pid in 1..=20u32 {
        q.push(task(pid, pid % 5, (pid % 3) as i32));
    }
    let mut last_max = None;
    let mut last_min = None;
    while !q.is_empty() {
        let top = q.pop_max().unwrap();
        if let Some(prev) = last_max {
            assert!(rank(&top) < prev);
        }
        last_max = Some(rank(&top));
        if let Some(bottom) = q.pop_min() {
            assert!(rank(&bottom) < rank(&top));
            if let Some(prev) = last_min {
                assert!(rank(&bottom) > prev);
            }
            last_min = Some(rank(&bottom));
        }
    }
    assert_eq!(q.len(), 0);
}

#[test]
fn drain_empties_the_queue_and_returns_every_task_once() {
    let mut q = TaskQueue::new();
    for pid in [4u32, 9, 2, 7, 1] {
        q.push(task(pid, pid, 0));
    }
    let out = q.drain();
    assert!(q.is_empty());
    assert_eq!(q.len(), 0);
    assert!(q.pop_max().is_none());
    let mut pids: Vec<u32> = out.iter().map(|t| t.pid()).collect();
    pids.sort();
    assert_eq!(pids, vec![1, 2, 4, 7, 9]);
    for t in out.iter() {
        assert_eq!(t.priority(), t.pid());
    }
    q.push(task(3, 1, 0));
    assert_eq!(q.pop_max().unwrap().pid(), 3);
}
