use task_scheduler::condition::CondState;
use task_scheduler::condition::Condition;

#[test]
fn fresh_latch_is_not_done() {
    let c = Condition::new();
    assert!(!c.is_done());
    assert_eq!(c.cond, CondState::NotDone);
}

#[test]
fn set_latch_is_done() {
    let mut c = Condition::new();
    c.set_ok();
    assert!(c.is_done());
    assert_eq!(c.cond, CondState::Done);
}

#[test]
fn setting_twice_is_setting_once() {
    let mut c = Condition::new();
    c.set_ok();
    c.set_ok();
    assert!(c.is_done());
}
