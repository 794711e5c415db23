use rvos::ppn_manager::PPNManager;
use rvos::addr::PhysicalPageNumber;
use rvos::page_table::{PageTable, PageTableEntry};
use rvos::ppn_manager::PPNManagerImpl;
use rvos::sv39::{split_vpn, PageTableEntryImpl, PageTableImpl, ENTRIES_PER_TABLE};

fn entry(ppn: usize, valid: bool, r: bool, w: bool, x: bool, u: bool) -> PageTableEntry {
    PageTableEntry { ppn: PhysicalPageNumber::from(ppn), valid, read: r, write: w, execute: x, user: u }
}

#[test]
fn split_vpn_gives_three_offsets() {
    assert_eq!(split_vpn(0), [0, 0, 0]);
    assert_eq!(split_vpn((3 << 18) | (5 << 9) | 7), [3, 5, 7]);
    assert_eq!(split_vpn(0x7ff_ffff), [511, 511, 511]);
    // bits above the 27 of a virtual page number are ignored
    assert_eq!(split_vpn(1 << 27), [0, 0, 0]);
}

#[test]
fn valid_bit_and_ppn_survive_encoding() {
    let e: PageTableEntry = PageTableEntryImpl::from(entry(0x80401, true, false, false, false, false)).into();
    assert_eq!(e.ppn.bits, 0x80401);
    assert!(e.valid);
    assert!(!e.read && !e.write && !e.execute && !e.user);
    let e: PageTableEntry = PageTableEntryImpl::from(entry(7, false, false, false, false, false)).into();
    assert_eq!(e.ppn.bits, 7);
    assert!(!e.valid);
}

#[test]
fn rights_bits_read_back_clear() {
    // Decoding tests a right's bit against 1, so only bit 0 (valid) can read back set.
    let e: PageTableEntry = PageTableEntryImpl::from(entry(1, true, true, true, true, true)).into();
    assert!(e.valid);
    assert!(!e.read);
    assert!(!e.write);
    assert!(!e.execute);
    assert!(!e.user);
    assert_eq!(e.ppn.bits, 1);
}

#[test]
fn zero_entry_is_invalid() {
    let e: PageTableEntry = PageTableEntryImpl::zero().into();
    assert!(!e.valid);
    assert_eq!(e.ppn.bits, 0);
}

#[test]
fn table_set_get_clear() {
    let mut t = PageTableImpl::new();
    t.set_entry(3, PageTableEntryImpl::from(entry(0x42, true, false, false, false, false)));
    let e: PageTableEntry = t.get_entry(3).into();
    assert_eq!(e.ppn.bits, 0x42);
    assert!(e.valid);
    let e: PageTableEntry = t.get_entry(4).into();
    assert!(!e.valid);
    t.clear();
    let e: PageTableEntry = t.get_entry(3).into();
    assert!(!e.valid);
    assert_eq!(e.ppn.bits, 0);
    assert_eq!(ENTRIES_PER_TABLE, 512);
}

#[test]
fn page_table_over_a_frame() {
    let mut a = PPNManagerImpl::new();
    a.add_memory(0x8000_0000, 0x8000_1000);
    let g = a.alloc_page().unwrap();
    let mut t = PageTable::from(g);
    assert!(!t.get_entry(0).valid);
    t.set_entry(511, entry(9, true, false, false, false, false));
    assert_eq!(t.get_entry(511).ppn.bits, 9);
    assert!(t.get_entry(511).valid);
}
