use rvos::ppn_manager::PPNManager;
use rvos::kernel_map::{init_kernel_map, KernelLayout};
use rvos::page_table::PageTableTree;
use rvos::ppn_manager::PPNManagerImpl;
use rvos::section::{bss_permission, data_permission, rodata_permission, text_permission, MapTarget, VirtualSection};

fn allocator_with_pages(n: usize) -> PPNManagerImpl {
    let mut a = PPNManagerImpl::new();
    a.add_memory(0x8000_0000, 0x8000_0000 + n * 4096);
    a
}

#[test]
fn permissions() {
    let t = text_permission();
    assert!(t.execute && !t.read && !t.write && !t.user);
    let r = rodata_permission();
    assert!(r.read && !r.write && !r.execute);
    let d = data_permission();
    assert!(d.read && d.write && !d.execute);
    let b = bss_permission();
    assert!(b.read && b.write && !b.execute);
    assert!(d.for_user().user);
    assert!(!d.for_user().for_kernel().user);
}

#[test]
fn section_covers_partial_pages() {
    let s = VirtualSection::new(0x1fff, 0x3001, MapTarget::Identity, text_permission());
    assert_eq!(s.start_vpn.bits, 1);
    assert_eq!(s.end_vpn.bits, 4);
}

#[test]
fn identity_section_maps_pages_to_themselves() {
    let mut a = allocator_with_pages(1);
    let s = VirtualSection::new(0x5000, 0x7000, MapTarget::Identity, data_permission().for_kernel());
    let mut it = s.iter();
    let (vpn, entry, raw) = it.next(&mut a).unwrap();
    assert_eq!(vpn.bits, 5);
    assert_eq!(entry.ppn.bits, 5);
    assert!(entry.valid && entry.read && entry.write && !entry.user);
    assert!(raw.is_none());
    let (vpn, entry, _) = it.next(&mut a).unwrap();
    assert_eq!(vpn.bits, 6);
    assert_eq!(entry.ppn.bits, 6);
    assert!(it.next(&mut a).is_none());
}

#[test]
fn random_section_fills_fresh_frames() {
    let mut a = allocator_with_pages(4);
    let data: Vec<u8> = (0..5000u32).map(|i| (i % 251) as u8).collect();
    let s = VirtualSection::new(0x10000, 0x12000, MapTarget::Random(Some(data.as_slice())), text_permission().for_user());
    let mut it = s.iter();
    let (vpn, entry, raw) = it.next(&mut a).unwrap();
    let raw = raw.unwrap();
    assert_eq!(vpn.bits, 0x10);
    assert_eq!(entry.ppn.bits, raw.ppn.ppn.bits);
    assert_eq!(raw.ppn.ppn.bits, 0x80000);
    assert_eq!(&raw.raw[..4096], &data[..4096]);
    let (_, _, raw) = it.next(&mut a).unwrap();
    let raw = raw.unwrap();
    assert_eq!(raw.ppn.ppn.bits, 0x80001);
    assert_eq!(&raw.raw[..904], &data[4096..]);
    assert!(raw.raw[904..].iter().all(|b| *b == 0));
    assert!(it.next(&mut a).is_none());
}

#[test]
fn kernel_map_is_identity() {
    let mut a = allocator_with_pages(16);
    let mut tree = PageTableTree::default();
    let layout = KernelLayout {
        text_start: 0x8020_0000,
        text_end: 0x8020_2000,
        rodata_start: 0x8020_2000,
        rodata_end: 0x8020_3000,
        data_start: 0x8020_3000,
        data_end: 0x8020_4000,
        bss_start: 0x8020_4000,
        bss_end: 0x8020_5000,
        kernel_end: 0x8020_5000,
    };
    let satp = init_kernel_map(&mut tree, &mut a, &layout);
    assert_eq!(satp.bits, tree.active().bits);
    assert_eq!(tree.translate(0x8020_0123), Some(0x8020_0123));
    assert_eq!(tree.translate(0x8040_0000), Some(0x8040_0000));
    assert_eq!(tree.translate(0x80df_ffff), Some(0x80df_ffff));
    assert_eq!(tree.translate(0x80e0_0000), None);
    assert_eq!(tree.translate(0x1000), None);
}
