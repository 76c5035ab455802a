use os_rs::addr::Page;
use os_rs::addr::PhysAddr;
use os_rs::addr::PhysFrame;
use os_rs::addr::VirtAddr;

#[test]
fn virt_addr_keeps_a_canonical_low_address() {
    let a = VirtAddr::new(0x4444_4444_0000);
    assert_eq!(a.as_u64(), 0x4444_4444_0000);
}

#[test]
fn virt_addr_keeps_a_canonical_high_address() {
    let a = VirtAddr::new(0xffff_8000_0000_1000);
    assert_eq!(a.as_u64(), 0xffff_8000_0000_1000);
}

#[test]
fn virt_addr_sign_extends_bit_47() {
    let a = VirtAddr::new(1u64 << 47);
    assert_eq!(a.as_u64(), 0xffff_8000_0000_0000);
    let b = VirtAddr::try_new(0x0000_8000_0000_0abc).unwrap();
    assert_eq!(b.as_u64(), 0xffff_8000_0000_0abc);
}

#[test]
fn virt_addr_rejects_data_in_the_high_bits() {
    assert!(VirtAddr::try_new(0x0001_0000_0000_0000).is_none());
    assert!(VirtAddr::try_new(0x1234_0000_0000_0000).is_none());
    assert!(VirtAddr::try_new(0xfffe_8000_0000_0000).is_none());
    assert!(VirtAddr::try_new(0xffff_0000_0000_0000).is_none());
}

#[test]
fn virt_addr_table_indices_of_the_heap_start() {
    let a = VirtAddr::new(0x4444_4444_0000);
    assert_eq!(a.p4_index(), 136);
    assert_eq!(a.p3_index(), 273);
    assert_eq!(a.p2_index(), 34);
    assert_eq!(a.p1_index(), 64);
    assert_eq!(a.page_offset(), 0);
}

#[test]
fn virt_addr_table_indices_and_offset() {
    let a = VirtAddr::new(0x0000_1234_5678_9abc);
    assert_eq!(a.p4_index(), 36);
    assert_eq!(a.p3_index(), 209);
    assert_eq!(a.p2_index(), 179);
    assert_eq!(a.p1_index(), 393);
    assert_eq!(a.page_offset(), 0xabc);
}

#[test]
fn virt_addr_indices_of_the_highest_address() {
    let a = VirtAddr::new(0xffff_ffff_ffff_ffff);
    assert_eq!(a.p4_index(), 511);
    assert_eq!(a.p3_index(), 511);
    assert_eq!(a.p2_index(), 511);
    assert_eq!(a.p1_index(), 511);
    assert_eq!(a.page_offset(), 0xfff);
}

#[test]
fn phys_addr_accepts_addresses_below_the_limit() {
    assert_eq!(PhysAddr::new(0xb8000).as_u64(), 0xb8000);
    assert_eq!(PhysAddr::try_new((1u64 << 52) - 1).unwrap().as_u64(), (1u64 << 52) - 1);
}

#[test]
fn phys_addr_rejects_addresses_from_the_limit_on() {
    assert!(PhysAddr::try_new(1u64 << 52).is_none());
    assert!(PhysAddr::try_new(u64::MAX).is_none());
}

#[test]
fn page_containing_address_rounds_down() {
    let page = Page::containing_address(VirtAddr::new(0x0000_1234_5678_9abc));
    assert_eq!(page.start_address().as_u64(), 0x0000_1234_5678_9000);
    let same = Page::containing_address(VirtAddr::new(0x0000_1234_5678_9000));
    assert_eq!(same.start_address().as_u64(), 0x0000_1234_5678_9000);
}

#[test]
fn page_containing_address_in_the_high_half() {
    let page = Page::containing_address(VirtAddr::new(0xffff_8000_0000_1fff));
    assert_eq!(page.start_address().as_u64(), 0xffff_8000_0000_1000);
}

#[test]
fn frame_containing_address_rounds_down() {
    let frame = PhysFrame::containing_address(PhysAddr::new(0xb8fff));
    assert_eq!(frame.start_address().as_u64(), 0xb8000);
    let zero = PhysFrame::containing_address(PhysAddr::new(0xfff));
    assert_eq!(zero.start_address().as_u64(), 0);
}
