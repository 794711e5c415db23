use rvos::addr::{page_number_to_addr, PhysicalPageNumber, VirtualPageNumber, PAGE_SIZE};

#[test]
fn ceil_rounds_up_to_next_page() {
    assert_eq!(PhysicalPageNumber::ceil(1).bits, 1);
    assert_eq!(PhysicalPageNumber::ceil(0x1000).bits, 1);
    assert_eq!(PhysicalPageNumber::ceil(0x1001).bits, 2);
    assert_eq!(VirtualPageNumber::ceil(0x2fff).bits, 3);
}

#[test]
fn floor_rounds_down() {
    assert_eq!(PhysicalPageNumber::floor(0).bits, 0);
    assert_eq!(PhysicalPageNumber::floor(0xfff).bits, 0);
    assert_eq!(PhysicalPageNumber::floor(0x1000).bits, 1);
    assert_eq!(VirtualPageNumber::floor(0x8040_0123).bits, 0x80400);
}

#[test]
fn page_numbers_give_page_addresses() {
    assert_eq!(PAGE_SIZE, 4096);
    assert_eq!(page_number_to_addr(0x80400), 0x8040_0000);
    assert_eq!(PhysicalPageNumber::from(3).as_addr(), 0x3000);
    assert_eq!(VirtualPageNumber::from(0x10).as_addr(), 0x10000);
}
