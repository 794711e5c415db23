use rvos::ppn_manager::PPNManager;
use rvos::ppn_manager::PPNManagerImpl;
use rvos::raw_page::RawPage;

#[test]
fn copy_fills_the_start_of_a_clear_page() {
    let mut a = PPNManagerImpl::new();
    a.add_memory(0x8000_0000, 0x8000_1000);
    let mut p = RawPage::from(a.alloc_page().unwrap());
    assert_eq!(p.ppn.ppn.bits, 0x80000);
    assert_eq!(p.ppn.as_addr(), 0x8000_0000);
    assert_eq!(p.raw.len(), 4096);
    assert!(p.raw.iter().all(|b| *b == 0));
    p.copy(&[1, 2, 3]);
    assert_eq!(&p.raw[..4], &[1, 2, 3, 0]);
    p.copy(&[9]);
    assert_eq!(&p.raw[..4], &[9, 2, 3, 0]);
}
