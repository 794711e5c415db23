use rvos::ppn_manager::PPNManager;
use rvos::addr::{PhysicalPageNumber, VirtualPageNumber};
use rvos::page_table::{PageTableEntry, PageTableTree};
use rvos::ppn_manager::PPNManagerImpl;

fn allocator_with_pages(n: usize) -> PPNManagerImpl {
    let mut a = PPNManagerImpl::new();
    // pages 0x80000 .. 0x80000 + n
    a.add_memory(0x8000_0000, 0x8000_0000 + n * 4096);
    a
}

fn rwxu(ppn: usize) -> PageTableEntry {
    PageTableEntry {
        ppn: PhysicalPageNumber::from(ppn),
        valid: true,
        read: true,
        write: true,
        execute: true,
        user: true,
    }
}

#[test]
fn map_then_translate() {
    let mut a = allocator_with_pages(16);
    let mut tree = PageTableTree::default();
    tree.init(&mut a).unwrap();
    tree.map(VirtualPageNumber::from(0x0), rwxu(0x1), &mut a).unwrap();
    assert_eq!(tree.translate(0), Some(0x1000));
    assert_eq!(tree.translate(1), Some(0x1001));
    assert_eq!(tree.translate(0xfff), Some(0x1fff));
    assert_eq!(tree.translate(0x1000), None);
    tree.unmap(VirtualPageNumber::from(0x0), &mut a).unwrap();
    assert_eq!(tree.translate(1), None);
}

#[test]
fn init_needs_a_frame() {
    let mut a = PPNManagerImpl::new();
    let mut tree = PageTableTree::default();
    assert_eq!(tree.init(&mut a).unwrap_err(), "failed to alloc");
}

#[test]
fn map_fails_without_frames_for_tables() {
    let mut a = allocator_with_pages(1);
    let mut tree = PageTableTree::default();
    tree.init(&mut a).unwrap();
    assert_eq!(tree.map(VirtualPageNumber::from(0x5), rwxu(0x7), &mut a).unwrap_err(), "failed to alloc");
    assert_eq!(tree.translate(0x5000), None);
}

#[test]
fn map_fails_when_table_slots_run_out() {
    let mut a = allocator_with_pages(64);
    let mut tree = PageTableTree::default();
    tree.init(&mut a).unwrap();
    // each new top-level offset needs a middle and a leaf table; the root
    // and four such pairs fill the ten slots
    for p0 in 0..4usize {
        tree.map(VirtualPageNumber::from(p0 << 18), rwxu(0x100 + p0), &mut a).unwrap();
    }
    assert_eq!(
        tree.map(VirtualPageNumber::from(4 << 18), rwxu(0x200), &mut a).unwrap_err(),
        "no area to save page_table"
    );
    // pages under existing tables can still be mapped
    tree.map(VirtualPageNumber::from((1 << 18) | 3), rwxu(0x300), &mut a).unwrap();
    assert_eq!(tree.translate(((1 << 18) | 3) * 4096 + 5), Some(0x300 * 4096 + 5));
    assert_eq!(tree.translate((1 << 18) * 4096), Some(0x101 * 4096));
}

#[test]
fn unmap_of_unmapped_page_keeps_it_unmapped() {
    let mut a = allocator_with_pages(8);
    let mut tree = PageTableTree::default();
    tree.init(&mut a).unwrap();
    tree.unmap(VirtualPageNumber::from(0x42), &mut a).unwrap();
    assert_eq!(tree.translate(0x42 * 4096), None);
}

#[test]
fn remap_replaces_the_frame() {
    let mut a = allocator_with_pages(8);
    let mut tree = PageTableTree::default();
    tree.init(&mut a).unwrap();
    tree.map(VirtualPageNumber::from(0x10), rwxu(0x1), &mut a).unwrap();
    tree.map(VirtualPageNumber::from(0x10), rwxu(0x2), &mut a).unwrap();
    assert_eq!(tree.translate(0x10 * 4096 + 1), Some(0x2001));
    assert_eq!(tree.translate(0x11 * 4096), None);
}

#[test]
fn root_and_satp() {
    let mut a = allocator_with_pages(4);
    let mut tree = PageTableTree::default();
    tree.init(&mut a).unwrap();
    assert_eq!(tree.get_root_ppn().bits, 0x80000);
    assert_eq!(tree.active().bits, 0x8000_0000_0008_0000);
}

#[test]
fn new_tables_take_first_slots_and_lowest_frames() {
    let mut a = allocator_with_pages(16);
    let mut tree = PageTableTree::default();
    tree.init(&mut a).unwrap();
    // a hole at 0x80002: the tables below must not skip it
    let g1 = a.alloc_page().unwrap();
    let g2 = a.alloc_page().unwrap();
    assert_eq!((g1.ppn.bits, g2.ppn.bits), (0x80001, 0x80002));
    a.free(g1.ppn);
    tree.map(VirtualPageNumber::from(0x0), rwxu(0x1), &mut a).unwrap();
    assert_eq!(tree.table(0).unwrap().frame().bits, 0x80000);
    assert_eq!(tree.table(1).unwrap().frame().bits, 0x80001);
    assert_eq!(tree.table(2).unwrap().frame().bits, 0x80003);
    assert!(tree.table(3).is_none());
    // root entry 0 links the middle table, middle entry 0 the leaf table
    assert_eq!(tree.table(0).unwrap().raw_entry(0), (0x80001 << 10) | 1);
    assert_eq!(tree.table(1).unwrap().raw_entry(0), (0x80003 << 10) | 1);
    assert_eq!(tree.table(2).unwrap().raw_entry(0), (0x1 << 10) | 0b11111);
    assert_eq!(tree.table(2).unwrap().raw_entry(1), 0);
}

#[test]
fn release_gives_every_table_frame_back() {
    let mut a = allocator_with_pages(16);
    let mut tree = PageTableTree::default();
    tree.init(&mut a).unwrap();
    tree.map(VirtualPageNumber::from(0x0), rwxu(0x1), &mut a).unwrap();
    assert_eq!(a.free_page_count(), 13);
    tree.release(&mut a);
    assert_eq!(a.free_page_count(), 16);
    assert!(!tree.has_root());
    assert!(tree.table(0).is_none());
    tree.init(&mut a).unwrap();
    assert_eq!(tree.get_root_ppn().bits, 0x80000);
}

#[test]
fn leaf_table_is_created_once_and_translation_stays() {
    let mut a = allocator_with_pages(16);
    let mut tree = PageTableTree::default();
    tree.init(&mut a).unwrap();
    let vpn = VirtualPageNumber::from(0x40201);
    let offsets = [1usize, 1, 1];
    assert_eq!(tree.get_or_create_leaf_table(&offsets, vpn, &mut a), Ok(2));
    assert_eq!(a.free_page_count(), 13);
    assert_eq!(tree.translate(0x4020_1000), None);
    assert_eq!(tree.get_or_create_leaf_table(&offsets, vpn, &mut a), Ok(2));
    assert_eq!(a.free_page_count(), 13);
    let mut other = PageTableTree::default();
    let mut b = allocator_with_pages(1);
    other.init(&mut b).unwrap();
    assert_eq!(other.get_or_create_leaf_table(&offsets, vpn, &mut b), Err("failed to alloc"));
}
