use rvos::addr::PhysicalPageNumber;
use rvos::physical_mm_manager::{PhysicalAddr, PhysicalMMManager};

#[test]
fn physical_addr_pages() {
    assert!(PhysicalAddr { bits: 0x8000_0000 }.is_page_start());
    assert!(!PhysicalAddr { bits: 0x8000_0001 }.is_page_start());
    assert_eq!(PhysicalAddr { bits: 0x8000_1fff }.to_ppn().bits, 0x80001);
}

#[test]
fn alloc_hands_out_the_first_frame_and_free_returns_it() {
    let mut m = PhysicalMMManager::new();
    m.init(PhysicalAddr { bits: 0x8000_0000 }, PhysicalAddr { bits: 0x8000_4000 });
    let g = m.alloc_frame().unwrap();
    assert_eq!(g.guard_page_number.bits, 0x80000);
    m.free(PhysicalPageNumber::from(0x80000));
    let g = m.alloc_frame().unwrap();
    assert_eq!(g.guard_page_number.bits, 0x80000);
}

#[test]
fn empty_range_gives_nothing() {
    let mut m = PhysicalMMManager::new();
    m.init(PhysicalAddr { bits: 0x8000_0000 }, PhysicalAddr { bits: 0x8000_0000 });
    assert!(m.alloc_frame().is_none());
}
