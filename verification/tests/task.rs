use rvos::ppn_manager::PPNManager;
use rvos::addr::PhysicalPageNumber;
use rvos::elf::{ElfImage, ElfSegment};
use rvos::ppn_manager::PPNManagerImpl;
use rvos::task::{Task, TaskState, MAX_RAW_PAGES};

fn allocator_with_pages(n: usize) -> PPNManagerImpl {
    let mut a = PPNManagerImpl::new();
    a.add_memory(0x8000_0000, 0x8000_0000 + n * 4096);
    a
}

fn code_segment(vaddr: u64, mem_size: u64, data: Vec<u8>) -> ElfSegment {
    ElfSegment { is_load: true, read: true, write: false, execute: true, virtual_addr: vaddr, mem_size, data }
}

fn image(entry: u64, segments: Vec<ElfSegment>) -> Result<ElfImage, &'static str> {
    Ok(ElfImage { entry_point: entry, segments })
}

fn count_free(a: &mut PPNManagerImpl) -> usize {
    let mut n = 0;
    while a.alloc_page().is_ok() {
        n += 1;
    }
    n
}

#[test]
fn new_task_takes_two_stack_pages() {
    let mut a = allocator_with_pages(4);
    let t = Task::new(0x8050_0000, 0x8060_0000, &mut a);
    assert_eq!(t.start_addr, 0x8050_0000);
    assert!(t.is_runnable());
    assert_eq!(count_free(&mut a), 2);
}

#[test]
fn stopped_task_does_not_run() {
    let mut a = allocator_with_pages(2);
    let mut t = Task::new(0, 0x1000, &mut a);
    t.set_state(TaskState::Running);
    assert!(t.is_runnable());
    t.set_state(TaskState::Stopped);
    assert!(!t.is_runnable());
}

#[test]
fn load_code_maps_segments_and_a_stack_page() {
    let mut a = allocator_with_pages(16);
    let mut t = Task::new(0, 0x1000, &mut a);
    // two pages of code and one page of stack, plus the root table
    let elf = image(0x10000, vec![code_segment(0x10000, 0x1800, vec![0x13; 0x1000])]);
    assert_eq!(t.load_code(&mut a, &elf), Ok(()));
    assert_eq!(t.get_page_table_root_ppn().bits, 0x80002);
    let code = t.raw_page(0).unwrap();
    assert_eq!(code.ppn.ppn.bits, 0x80003);
    assert!(code.raw.iter().all(|b| *b == 0x13));
    assert!(t.raw_page(1).unwrap().raw.iter().all(|b| *b == 0));
    assert_eq!(t.raw_page(2).unwrap().ppn.ppn.bits, 0x80005);
    assert!(t.raw_page(3).is_none());
    assert!(t.is_loaded());
    assert_eq!(count_free(&mut a), 16 - 2 - 1 - 3);
}

#[test]
fn load_code_runs_once() {
    let mut a = allocator_with_pages(16);
    let mut t = Task::new(0, 0x1000, &mut a);
    let elf = image(0x10000, vec![code_segment(0x10000, 0x10, vec![1, 2, 3])]);
    assert_eq!(t.load_code(&mut a, &elf), Ok(()));
    let root = t.get_page_table_root_ppn().bits;
    assert_eq!(t.load_code(&mut a, &elf), Ok(()));
    assert_eq!(t.get_page_table_root_ppn().bits, root);
    // root, one code page, one stack page
    assert_eq!(count_free(&mut a), 16 - 2 - 3);
}

#[test]
fn load_code_reports_a_parse_error() {
    let mut a = allocator_with_pages(8);
    let mut t = Task::new(0, 0x1000, &mut a);
    assert_eq!(t.load_code(&mut a, &Err("bad elf")), Err("bad elf"));
}

#[test]
fn load_code_needs_a_root_frame() {
    let mut a = allocator_with_pages(2);
    let mut t = Task::new(0, 0x1000, &mut a);
    let elf = image(0, vec![code_segment(0, 0x10, vec![0])]);
    assert_eq!(t.load_code(&mut a, &elf), Err("failed to alloc"));
}

#[test]
fn load_code_refuses_more_pages_than_slots() {
    let mut a = allocator_with_pages(256);
    let mut t = Task::new(0, 0x1000, &mut a);
    let pages = MAX_RAW_PAGES as u64;
    // one page too many once the stack page is added
    let elf = image(0, vec![code_segment(0, pages * 4096, vec![])]);
    assert_eq!(t.load_code(&mut a, &elf), Err("failed to save raw page"));
}

#[test]
fn segments_that_are_not_loadable_take_no_page() {
    let mut a = allocator_with_pages(16);
    let mut t = Task::new(0, 0x1000, &mut a);
    let mut note = code_segment(0x40000, 0x5000, vec![]);
    note.is_load = false;
    let elf = image(0x10000, vec![note, code_segment(0x10000, 0x1000, vec![7; 16])]);
    assert_eq!(t.load_code(&mut a, &elf), Ok(()));
    // root, one code page, one stack page
    assert_eq!(count_free(&mut a), 16 - 2 - 3);
}

#[test]
fn map_puts_user_and_kernel_pages_in_place() {
    let mut a = allocator_with_pages(32);
    let mut t = Task::new(0, 0x1000, &mut a);
    let elf = image(0x10000, vec![code_segment(0x10000, 0x1000, vec![0x73; 4])]);
    assert_eq!(t.load_code(&mut a, &elf), Ok(()));
    assert_eq!(t.map(&mut a, 0x8020_0000, 0x8020_1000, PhysicalPageNumber::from(0x80000)), Ok(()));
}

#[test]
fn load_code_takes_the_lowest_free_frames_in_order() {
    let mut a = allocator_with_pages(16);
    let mut t = Task::new(0, 0x1000, &mut a);
    // 0x80002 taken and given back, 0x80003 kept: a hole below a used frame
    let g1 = a.alloc_page().unwrap();
    let g2 = a.alloc_page().unwrap();
    assert_eq!((g1.ppn.bits, g2.ppn.bits), (0x80002, 0x80003));
    a.free(g1.ppn);
    let elf = image(0x10000, vec![code_segment(0x10000, 0x1800, vec![0x13; 0x1000])]);
    assert_eq!(t.load_code(&mut a, &elf), Ok(()));
    let root = t.get_page_table_root_ppn().bits;
    assert_eq!(root, 0x80002);
    let frames: Vec<usize> = (0..3).map(|i| t.raw_page(i).unwrap().ppn.ppn.bits).collect();
    assert_eq!(frames, vec![0x80004, 0x80005, 0x80006]);
    assert!(frames.iter().all(|f| *f != root && *f != g2.ppn.bits));
    assert!(frames.iter().all(|f| !t.kernel_stack_ppns().contains(f)));
}

#[test]
fn release_gives_every_frame_of_a_task_back() {
    let mut a = allocator_with_pages(16);
    let mut t = Task::new(0, 0x1000, &mut a);
    let elf = image(0x10000, vec![code_segment(0x10000, 0x1800, vec![0x13; 0x1000])]);
    assert_eq!(t.load_code(&mut a, &elf), Ok(()));
    assert_eq!(a.free_page_count(), 16 - 2 - 1 - 3);
    t.release(&mut a);
    assert_eq!(a.free_page_count(), 16);
}

#[test]
fn set_trap_context_replaces_the_saved_registers() {
    let mut a = allocator_with_pages(4);
    let mut t = Task::new(0, 0x1000, &mut a);
    let mut ctx = rvos::trap::TrapContext::default();
    ctx.set_word(10, 7);
    ctx.set_word(32, 0x1000);
    t.set_trap_context(&ctx);
    assert_eq!(t.get_trap_context().word(10), 7);
    assert_eq!(t.get_trap_context().get_pc(), 0x1000);
    assert_eq!(t.get_trap_context().word(11), 0);
}
