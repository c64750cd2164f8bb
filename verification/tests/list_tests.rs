use task_scheduler::list::ranks_above;
use task_scheduler::list::TaskList;
use task_scheduler::task::Task;

fn entry(pid: u32, priority: u32, in_queue_time: i32) -> Task {
    let mut t = Task::new(pid, 10, priority, 1);
    t.set_in_queue_time(in_queue_time);
    t
}

#[test]
fn a_higher_priority_ranks_above() {
    assert!(ranks_above(&entry(2, 2, 9), &entry(1, 1, 0)));
    assert!(!ranks_above(&entry(1, 1, 0), &entry(2, 2, 9)));
}

#[test]
fn an_earlier_entry_ranks_above() {
    assert!(ranks_above(&entry(2, 1, 3), &entry(1, 1, 4)));
    assert!(!ranks_above(&entry(1, 1, 4), &entry(2, 1, 3)));
    assert!(ranks_above(&entry(2, 1, -5), &entry(1, 1, -4)));
}

#[test]
fn a_smaller_pid_ranks_above() {
    assert!(ranks_above(&entry(1, 1, 3), &entry(2, 1, 3)));
    assert!(!ranks_above(&entry(2, 1, 3), &entry(1, 1, 3)));
}

#[test]
fn no_task_ranks_above_itself() {
    assert!(!ranks_above(&entry(1, 1, 3), &entry(1, 1, 3)));
}

#[test]
fn new_list_is_empty() {
    let mut q = TaskList::new();
    assert!(q.is_empty());
    assert_eq!(q.len(), 0);
    assert!(q.peek_max().is_none());
    assert!(q.pop_max().is_none());
    assert!(q.get(1).is_none());
    assert!(q.drain().is_empty());
}

#[test]
fn the_list_finds_a_task_by_pid() {
    let mut q = TaskList::new();
    q.push(entry(4, 1, 0));
    q.push(entry(2, 7, 0));
    assert_eq!(q.len(), 2);
    assert!(!q.is_empty());
    assert_eq!(q.get(2).unwrap().priority(), 7);
    assert_eq!(q.get(4).unwrap().priority(), 1);
    assert!(q.get(3).is_none());
}

#[test]
fn the_list_gives_the_highest_rank_first() {
    let mut q = TaskList::new();
    q.push(entry(1, 1, 5));
    q.push(entry(2, 3, 9));
    q.push(entry(3, 1, 3));
    q.push(entry(4, 1, 3));
    q.push(entry(5, 2, 0));
    assert_eq!(q.peek_max().unwrap().pid(), 2);
    assert_eq!(q.len(), 5);
    assert_eq!(q.pop_max().unwrap().pid(), 2);
    assert_eq!(q.pop_max().unwrap().pid(), 5);
    assert_eq!(q.peek_max().unwrap().pid(), 3);
    assert_eq!(q.pop_max().unwrap().pid(), 3);
    assert_eq!(q.pop_max().unwrap().pid(), 4);
    assert_eq!(q.pop_max().unwrap().pid(), 1);
    assert!(q.pop_max().is_none());
    assert!(q.is_empty());
}

#[test]
fn draining_a_list_returns_every_task_once() {
    let mut q = TaskList::new();
    for pid in [4u32, 9, 2, 7, 1] {
        q.push(entry(pid, pid, 0));
    }
    let out = q.drain();
    assert!(q.is_empty());
    assert!(q.get(4).is_none());
    let mut pids: Vec<u32> = out.iter().map(|t| t.pid()).collect();
    pids.sort();
    assert_eq!(pids, vec![1, 2, 4, 7, 9]);
    q.push(entry(4, 1, 0));
    assert_eq!(q.len(), 1);
}

#[test]
fn extending_a_list_moves_every_task_over() {
    let mut q = TaskList::new();
    q.push(entry(1, 1, 0));
    q.push(entry(2, 5, 0));
    let mut other = TaskList::new();
    other.push(entry(3, 3, 0));
    other.push(entry(4, 9, 0));
    q.extend(other);
    assert_eq!(q.len(), 4);
    assert_eq!(q.pop_max().unwrap().pid(), 4);
    assert_eq!(q.pop_max().unwrap().pid(), 2);
    assert_eq!(q.pop_max().unwrap().pid(), 3);
    assert_eq!(q.pop_max().unwrap().pid(), 1);
}

#[test]
fn extending_by_an_empty_list_changes_nothing() {
    let mut q = TaskList::new();
    q.push(entry(1, 1, 0));
    q.extend(TaskList::new());
    assert_eq!(q.len(), 1);
    assert_eq!(q.pop_max().unwrap().pid(), 1);
}
