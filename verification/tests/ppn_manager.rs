use rvos::ppn_manager::PPNManager;
use rvos::addr::PhysicalPageNumber;
use rvos::ppn_manager::{init, PPNManagerImpl, MAX_MANAGED_PAGE};
use rvos::task_manager::TASK_RUNNING_ADDR;

#[test]
fn fresh_allocator_has_nothing() {
    let mut a = PPNManagerImpl::new();
    assert_eq!(a.alloc_page().unwrap_err(), "failed to alloc");
}

#[test]
fn alloc_hands_out_lowest_free_page() {
    let mut a = PPNManagerImpl::new();
    // ceil(0x8000_0001) is page 0x80001; floor(0x8000_4000) is page 0x80004
    a.add_memory(0x8000_0001, 0x8000_4000);
    assert_eq!(a.alloc_page().unwrap().ppn.bits, 0x80001);
    assert_eq!(a.alloc_page().unwrap().ppn.bits, 0x80002);
    assert_eq!(a.alloc_page().unwrap().ppn.bits, 0x80003);
    assert_eq!(a.alloc_page().unwrap_err(), "failed to alloc");
}

#[test]
fn free_then_alloc_gives_the_page_back() {
    let mut a = PPNManagerImpl::new();
    a.add_memory(0x8000_0000, 0x8000_3000);
    let p0 = a.alloc_page().unwrap();
    let p1 = a.alloc_page().unwrap();
    a.free(p0.ppn);
    assert_eq!(a.alloc_page().unwrap().ppn.bits, p0.ppn.bits);
    a.free(p1.ppn);
    assert_eq!(a.alloc_page().unwrap().ppn.bits, 0x80001);
}

#[test]
fn free_undoes_alloc() {
    let mut a = PPNManagerImpl::new();
    a.add_memory(0x8000_0000, 0x8000_2000);
    let p = a.alloc_page().unwrap();
    a.free(PhysicalPageNumber::from(p.ppn.bits));
    let q = a.alloc_page().unwrap();
    assert_eq!(q.ppn.bits, p.ppn.bits);
    assert_eq!(a.alloc_page().unwrap().ppn.bits, 0x80001);
    assert_eq!(a.alloc_page().unwrap_err(), "failed to alloc");
}

#[test]
fn at_most_the_bitmap_is_managed() {
    let mut a = PPNManagerImpl::new();
    a.add_memory(0x1000, 0x1000_0000);
    let mut n = 0;
    while a.alloc_page().is_ok() {
        n += 1;
    }
    assert_eq!(n, MAX_MANAGED_PAGE);
}

#[test]
fn init_manages_memory_up_to_the_task_area() {
    let mut a = PPNManagerImpl::new();
    init(&mut a, TASK_RUNNING_ADDR - 2 * 4096);
    assert_eq!(a.alloc_page().unwrap().ppn.bits, TASK_RUNNING_ADDR / 4096 - 2);
    assert_eq!(a.alloc_page().unwrap().ppn.bits, TASK_RUNNING_ADDR / 4096 - 1);
    assert_eq!(a.alloc_page().unwrap_err(), "failed to alloc");
}
