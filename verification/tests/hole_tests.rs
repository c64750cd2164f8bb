use std::cmp::Ordering;
use task_scheduler::memory::hole::Hole;

fn hole(beg: u32, end: u32) -> Hole {
    Hole::new(beg, end).unwrap()
}

#[test]
fn new_keeps_the_bounds() {
    let h = hole(3, 10);
    assert_eq!(h.to_tuple(), (3, 10));
    assert_eq!(h.get_size(), 7);
}

#[test]
fn new_refuses_an_empty_range() {
    assert_eq!(Hole::new(5, 5), Err("invalid range"));
    assert_eq!(Hole::new(6, 5), Err("invalid range"));
    assert_eq!(Hole::new(0, 0), Err("invalid range"));
}

#[test]
fn from_range_is_new_on_a_pair() {
    assert_eq!(Hole::from_range((2, 4)), Hole::new(2, 4));
    assert_eq!(Hole::from_range((4, 2)), Err("invalid range"));
}

#[test]
fn one_page_has_size_one() {
    assert_eq!(hole(u32::MAX - 1, u32::MAX).get_size(), 1);
    assert_eq!(hole(0, u32::MAX).get_size(), u32::MAX);
}

#[test]
fn adjacency_is_a_shared_endpoint() {
    let a = hole(0, 10);
    let b = hole(10, 20);
    let c = hole(11, 20);
    assert!(a.test_adjacency(&b));
    assert!(b.test_adjacency(&a));
    assert!(!a.test_adjacency(&c));
    assert!(!c.test_adjacency(&a));
    assert!(!a.test_adjacency(&a));
}

#[test]
fn merge_extends_to_the_right() {
    let mut a = hole(0, 10);
    assert_eq!(a.merge_into_self(&hole(10, 25)), Ok(()));
    assert_eq!(a.to_tuple(), (0, 25));
}

#[test]
fn merge_extends_to_the_left() {
    let mut a = hole(10, 25);
    assert_eq!(a.merge_into_self(&hole(4, 10)), Ok(()));
    assert_eq!(a.to_tuple(), (4, 25));
}

#[test]
fn merge_refuses_ranges_that_do_not_touch() {
    let mut a = hole(0, 10);
    assert_eq!(a.merge_into_self(&hole(11, 25)), Err("Cannot Merge"));
    assert_eq!(a.to_tuple(), (0, 10));
    assert_eq!(a.merge_into_self(&hole(5, 25)), Err("Cannot Merge"));
    assert_eq!(a.to_tuple(), (0, 10));
}

#[test]
fn shrink_head_drops_the_first_pages() {
    let mut a = hole(10, 20);
    assert_eq!(a.shrink_head(4), Ok(()));
    assert_eq!(a.to_tuple(), (14, 20));
    assert_eq!(a.shrink_head(0), Ok(()));
    assert_eq!(a.to_tuple(), (14, 20));
}

#[test]
fn shrink_head_refuses_the_whole_range() {
    let mut a = hole(10, 20);
    assert_eq!(a.shrink_head(10), Err("hole is not large enough"));
    assert_eq!(a.shrink_head(11), Err("hole is not large enough"));
    assert_eq!(a.to_tuple(), (10, 20));
}

#[test]
fn split_head_returns_the_first_pages() {
    let mut a = hole(10, 20);
    assert_eq!(a.split_head(3), Ok(hole(10, 13)));
    assert_eq!(a.to_tuple(), (13, 20));
    assert_eq!(a.split_head(6), Ok(hole(13, 19)));
    assert_eq!(a.to_tuple(), (19, 20));
}

#[test]
fn split_head_refuses_the_whole_range() {
    let mut a = hole(10, 20);
    assert_eq!(a.split_head(10), Err("hole is not large enough"));
    assert_eq!(a.split_head(100), Err("hole is not large enough"));
    assert_eq!(a.to_tuple(), (10, 20));
}

#[test]
fn split_head_refuses_no_pages() {
    let mut a = hole(10, 20);
    assert_eq!(a.split_head(0), Err("invalid range"));
    assert_eq!(a.to_tuple(), (10, 20));
}

#[test]
fn ranges_are_ordered_by_position() {
    let a = hole(0, 10);
    let b = hole(10, 20);
    assert_eq!(a.partial_cmp(&b), Some(Ordering::Less));
    assert_eq!(b.partial_cmp(&a), Some(Ordering::Greater));
    assert_eq!(a.partial_cmp(&a), Some(Ordering::Equal));
    assert!(a < b);
    assert!(b > a);
    assert!(!(a > b));
}

#[test]
fn overlapping_ranges_are_not_comparable() {
    let a = hole(0, 10);
    let b = hole(5, 15);
    assert_eq!(a.partial_cmp(&b), None);
    assert_eq!(b.partial_cmp(&a), None);
    assert!(!(a < b));
    assert!(!(a > b));
    assert!(a != b);
}

#[test]
fn equal_ranges_are_equal() {
    assert!(hole(3, 4) == hole(3, 4));
    assert!(hole(3, 4) != hole(3, 5));
}
