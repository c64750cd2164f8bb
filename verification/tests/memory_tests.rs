use task_scheduler::memory::hole::Hole;
use task_scheduler::memory::MemoryError;
use task_scheduler::memory::MemoryManager;

fn hole(beg: u32, end: u32) -> Hole {
    Hole::new(beg, end).unwrap()
}

fn four_thousand_pages() -> MemoryManager {
    MemoryManager::new(16777216, 4096)
}

fn check_layout(m: &MemoryManager, pages: u32) {
    let free = m.free_holes();
    for i in 0..free.len() {
        let (beg, end) = free[i].to_tuple();
        assert!(beg < end);
        assert!(end <= pages);
        if i + 1 < free.len() {
            assert!(end < free[i + 1].to_tuple().0);
        }
    }
    let mut ranges: Vec<(u32, u32)> = free.iter().map(|h| h.to_tuple()).collect();
    for h in m.get_mem_usage().values() {
        ranges.push(h.to_tuple());
    }
    ranges.sort();
    let mut at = 0;
    for (beg, end) in ranges {
        assert_eq!(beg, at);
        assert!(beg < end);
        at = end;
    }
    assert_eq!(at, pages);
}

#[test]
fn new_allocator_is_one_free_range() {
    let m = four_thousand_pages();
    assert_eq!(m.size(), 16777216);
    assert_eq!(m.page_size(), 4096);
    assert_eq!(m.free_holes(), &vec![hole(0, 4096)]);
    assert!(m.get_mem_usage().is_empty());
    check_layout(&m, 4096);
}

#[test]
fn pages_are_size_over_page_size_rounded_down() {
    let m = MemoryManager::new(10, 3);
    assert_eq!(m.free_holes(), &vec![hole(0, 3)]);
}

#[test]
fn allocate_takes_the_head_of_the_first_fit() {
    let mut m = four_thousand_pages();
    assert_eq!(m.allocate(100, 7), Ok(hole(0, 100)));
    assert_eq!(m.free_holes(), &vec![hole(100, 4096)]);
    assert_eq!(m.get_mem_usage().get(&7), Some(&hole(0, 100)));
    assert_eq!(m.get_mem_usage().len(), 1);
    check_layout(&m, 4096);
}

#[test]
fn allocate_skips_ranges_that_are_too_small() {
    let mut m = four_thousand_pages();
    m.allocate(100, 1).unwrap();
    m.allocate(50, 2).unwrap();
    m.allocate(100, 3).unwrap();
    m.free(2).unwrap();
    assert_eq!(m.free_holes(), &vec![hole(100, 150), hole(250, 4096)]);
    assert_eq!(m.allocate(60, 4), Ok(hole(250, 310)));
    assert_eq!(m.free_holes(), &vec![hole(100, 150), hole(310, 4096)]);
    assert_eq!(m.allocate(10, 5), Ok(hole(100, 110)));
    assert_eq!(m.free_holes(), &vec![hole(110, 150), hole(310, 4096)]);
    check_layout(&m, 4096);
}

#[test]
fn an_exact_fit_removes_the_range() {
    let mut m = four_thousand_pages();
    m.allocate(100, 1).unwrap();
    m.allocate(50, 2).unwrap();
    m.allocate(100, 3).unwrap();
    m.free(2).unwrap();
    assert_eq!(m.allocate(50, 4), Ok(hole(100, 150)));
    assert_eq!(m.free_holes(), &vec![hole(250, 4096)]);
    check_layout(&m, 4096);
}

#[test]
fn allocate_reports_out_of_memory() {
    let mut m = four_thousand_pages();
    assert_eq!(m.allocate(4097, 1), Err(MemoryError::OutOfMemory));
    assert_eq!(m.free_holes(), &vec![hole(0, 4096)]);
    assert!(m.get_mem_usage().is_empty());
    assert_eq!(m.allocate(4096, 1), Ok(hole(0, 4096)));
    assert!(m.free_holes().is_empty());
    assert_eq!(m.allocate(1, 2), Err(MemoryError::OutOfMemory));
    check_layout(&m, 4096);
}

#[test]
fn the_same_request_for_two_pids_gives_two_ranges() {
    let mut m = four_thousand_pages();
    assert_eq!(m.allocate(10, 1), Ok(hole(0, 10)));
    assert_eq!(m.allocate(10, 2), Ok(hole(10, 20)));
    check_layout(&m, 4096);
}

#[test]
fn free_reports_an_unknown_pid() {
    let mut m = four_thousand_pages();
    assert_eq!(m.free(1), Err(MemoryError::PIDInvalid));
    m.allocate(10, 1).unwrap();
    assert_eq!(m.free(2), Err(MemoryError::PIDInvalid));
    assert_eq!(m.free_holes(), &vec![hole(10, 4096)]);
    assert_eq!(m.free(1), Ok(()));
    assert_eq!(m.free(1), Err(MemoryError::PIDInvalid));
}

#[test]
fn holes_coalesce_as_they_are_freed() {
    let mut m = four_thousand_pages();
    assert_eq!(m.allocate(100, 1), Ok(hole(0, 100)));
    assert_eq!(m.allocate(100, 2), Ok(hole(100, 200)));
    assert_eq!(m.allocate(100, 3), Ok(hole(200, 300)));
    assert_eq!(m.free(2), Ok(()));
    assert_eq!(m.free_holes(), &vec![hole(100, 200), hole(300, 4096)]);
    check_layout(&m, 4096);
    assert_eq!(m.free(1), Ok(()));
    assert_eq!(m.free_holes(), &vec![hole(0, 200), hole(300, 4096)]);
    check_layout(&m, 4096);
    assert_eq!(m.free(3), Ok(()));
    assert_eq!(m.free_holes(), &vec![hole(0, 4096)]);
    check_layout(&m, 4096);
}

#[test]
fn a_range_freed_behind_every_free_range_goes_last() {
    let mut m = MemoryManager::new(300, 1);
    m.allocate(100, 1).unwrap();
    m.allocate(100, 2).unwrap();
    m.allocate(100, 3).unwrap();
    assert!(m.free_holes().is_empty());
    assert_eq!(m.free(1), Ok(()));
    assert_eq!(m.free_holes(), &vec![hole(0, 100)]);
    assert_eq!(m.free(3), Ok(()));
    assert_eq!(m.free_holes(), &vec![hole(0, 100), hole(200, 300)]);
    check_layout(&m, 300);
    assert_eq!(m.free(2), Ok(()));
    assert_eq!(m.free_holes(), &vec![hole(0, 300)]);
}

#[test]
fn a_range_freed_into_an_empty_list_is_the_list() {
    let mut m = MemoryManager::new(100, 1);
    m.allocate(100, 9).unwrap();
    assert!(m.free_holes().is_empty());
    assert_eq!(m.free(9), Ok(()));
    assert_eq!(m.free_holes(), &vec![hole(0, 100)]);
}

#[test]
fn a_freed_range_merges_with_its_successor_only() {
    let mut m = MemoryManager::new(400, 1);
    m.allocate(100, 1).unwrap();
    m.allocate(100, 2).unwrap();
    m.allocate(100, 3).unwrap();
    assert_eq!(m.free(3), Ok(()));
    assert_eq!(m.free_holes(), &vec![hole(200, 400)]);
    assert_eq!(m.free(1), Ok(()));
    assert_eq!(m.free_holes(), &vec![hole(0, 100), hole(200, 400)]);
    check_layout(&m, 400);
}

#[test]
fn allocate_then_free_restores_the_allocator() {
    let mut m = four_thousand_pages();
    m.allocate(100, 1).unwrap();
    m.allocate(50, 2).unwrap();
    m.allocate(100, 3).unwrap();
    m.free(2).unwrap();
    let free_before = m.free_holes().clone();
    let used_before = m.get_mem_usage().clone();
    // a split of the first fit
    m.allocate(20, 4).unwrap();
    m.free(4).unwrap();
    assert_eq!(m.free_holes(), &free_before);
    assert_eq!(m.get_mem_usage(), &used_before);
    // an exact fit
    assert_eq!(m.allocate(50, 5), Ok(hole(100, 150)));
    m.free(5).unwrap();
    assert_eq!(m.free_holes(), &free_before);
    assert_eq!(m.get_mem_usage(), &used_before);
    // a fit in the last range
    assert_eq!(m.allocate(51, 6), Ok(hole(250, 301)));
    m.free(6).unwrap();
    assert_eq!(m.free_holes(), &free_before);
    assert_eq!(m.get_mem_usage(), &used_before);
}

#[test]
fn all_pages_allocated_and_freed_leave_one_range() {
    let mut m = four_thousand_pages();
    let sizes = [1000u32, 96, 2000, 500, 500];
    assert_eq!(sizes.iter().sum::<u32>(), 4096);
    for (i, n) in sizes.iter().enumerate() {
        assert!(m.allocate(*n, i as u32 + 1).is_ok());
    }
    assert!(m.free_holes().is_empty());
    check_layout(&m, 4096);
    for pid in [3u32, 1, 5, 2, 4] {
        assert_eq!(m.free(pid), Ok(()));
        check_layout(&m, 4096);
    }
    assert_eq!(m.free_holes(), &vec![hole(0, 4096)]);
    assert!(m.get_mem_usage().is_empty());
}
