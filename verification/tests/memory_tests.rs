use os_rs::addr::PhysAddr;
use os_rs::addr::VirtAddr;
use os_rs::addr::Page;
use os_rs::addr::PhysFrame;
use os_rs::memory::has_distinct_regions;
use os_rs::memory::init;
use os_rs::memory::is_valid_memory_map;
use os_rs::memory::phys_to_virt;
use os_rs::memory::BootInfoFrameAllocator;
use os_rs::memory::EmptyFrameAllocator;
use os_rs::memory::FrameAllocator;
use os_rs::memory::MemoryRegion;
use os_rs::memory::MemoryRegionType;

fn region(start: u64, end: u64, region_type: MemoryRegionType) -> MemoryRegion {
    MemoryRegion { start, end, region_type }
}

#[test]
fn frame_exhaustion_with_one_usable_frame() {
    let map = vec![region(0x1000, 0x2000, MemoryRegionType::Usable)];
    let mut allocator = BootInfoFrameAllocator::init(map);
    let first = allocator.allocate_frame();
    assert_eq!(first.unwrap().start_address().as_u64(), 0x1000);
    assert!(allocator.allocate_frame().is_none());
    assert!(allocator.allocate_frame().is_none());
}

#[test]
fn frames_come_in_the_order_of_the_map() {
    let map = vec![
        region(0x0, 0x1000, MemoryRegionType::FrameZero),
        region(0x5000, 0x7000, MemoryRegionType::Usable),
        region(0x7000, 0x9000, MemoryRegionType::Reserved),
        region(0x10_0000, 0x10_3000, MemoryRegionType::Usable),
        region(0x20_0000, 0x20_0000, MemoryRegionType::Usable),
        region(0x30_0000, 0x30_1000, MemoryRegionType::Kernel),
    ];
    let mut allocator = BootInfoFrameAllocator::init(map);
    let expected: [u64; 5] = [0x5000, 0x6000, 0x10_0000, 0x10_1000, 0x10_2000];
    for want in expected {
        assert_eq!(allocator.allocate_frame().unwrap().start_address().as_u64(), want);
    }
    assert!(allocator.allocate_frame().is_none());
}

#[test]
fn no_frame_is_handed_out_twice() {
    let map = vec![
        region(0x4000, 0x24000, MemoryRegionType::Usable),
        region(0x40000, 0x50000, MemoryRegionType::Usable),
    ];
    let mut allocator = BootInfoFrameAllocator::init(map);
    let mut seen: Vec<u64> = Vec::new();
    while let Some(frame) = allocator.allocate_frame() {
        let start = frame.start_address().as_u64();
        assert_eq!(start % 4096, 0);
        assert!(!seen.contains(&start));
        seen.push(start);
    }
    assert_eq!(seen.len(), 32 + 16);
}

#[test]
fn usable_frames_lists_every_frame() {
    let map = vec![
        region(0x3000, 0x5000, MemoryRegionType::Usable),
        region(0x5000, 0x8000, MemoryRegionType::AcpiNvs),
        region(0x9000, 0xa000, MemoryRegionType::Usable),
    ];
    let mut allocator = BootInfoFrameAllocator::init(map);
    let all: Vec<u64> = allocator.usable_frames().iter().map(|f| f.start_address().as_u64()).collect();
    assert_eq!(all, vec![0x3000, 0x4000, 0x9000]);
    assert_eq!(allocator.allocate_frame().unwrap().start_address().as_u64(), 0x3000);
    let again: Vec<u64> = allocator.usable_frames().iter().map(|f| f.start_address().as_u64()).collect();
    assert_eq!(again, vec![0x3000, 0x4000, 0x9000]);
}

#[test]
fn a_region_that_is_not_aligned_yields_the_frames_it_touches_in_steps() {
    let map = vec![region(0x1800, 0x3800, MemoryRegionType::Usable)];
    let mut allocator = BootInfoFrameAllocator::init(map);
    assert_eq!(allocator.allocate_frame().unwrap().start_address().as_u64(), 0x1000);
    assert_eq!(allocator.allocate_frame().unwrap().start_address().as_u64(), 0x2000);
    assert!(allocator.allocate_frame().is_none());
}

#[test]
fn an_empty_map_has_no_frames() {
    let mut allocator = BootInfoFrameAllocator::init(Vec::new());
    assert!(allocator.allocate_frame().is_none());
    assert!(allocator.usable_frames().is_empty());
}

#[test]
fn a_map_beyond_the_physical_limit_is_not_valid() {
    let good = vec![region(0x1000, 1u64 << 52, MemoryRegionType::Usable)];
    assert!(is_valid_memory_map(&good));
    let bad = vec![region(0x1000, (1u64 << 52) + 0x1000, MemoryRegionType::Usable)];
    assert!(!is_valid_memory_map(&bad));
    assert!(BootInfoFrameAllocator::try_init(bad).is_none());
    let reserved = vec![region(0x1000, u64::MAX, MemoryRegionType::Reserved)];
    assert!(is_valid_memory_map(&reserved));
    assert!(BootInfoFrameAllocator::try_init(reserved).is_some());
}

#[test]
fn try_init_gives_a_working_allocator() {
    let map = vec![region(0x8000, 0xa000, MemoryRegionType::Usable)];
    let mut allocator = BootInfoFrameAllocator::try_init(map).unwrap();
    assert_eq!(allocator.allocate_frame().unwrap().start_address().as_u64(), 0x8000);
    assert_eq!(allocator.allocate_frame().unwrap().start_address().as_u64(), 0x9000);
    assert!(allocator.allocate_frame().is_none());
}

#[test]
fn count_frames_of_a_region() {
    assert_eq!(region(0x1000, 0x2000, MemoryRegionType::Usable).count_frames(), 1);
    assert_eq!(region(0x1000, 0x2001, MemoryRegionType::Usable).count_frames(), 2);
    assert_eq!(region(0x1000, 0x1000, MemoryRegionType::Usable).count_frames(), 0);
    assert_eq!(region(0x2000, 0x1000, MemoryRegionType::Usable).count_frames(), 0);
    assert_eq!(region(0x1000, 0x9000, MemoryRegionType::Reserved).count_frames(), 0);
}

#[test]
fn the_empty_frame_allocator_never_has_a_frame() {
    let mut allocator = EmptyFrameAllocator;
    assert!(allocator.allocate_frame().is_none());
    assert!(allocator.allocate_frame().is_none());
}

#[test]
fn physical_memory_appears_at_the_offset() {
    let offset = VirtAddr::new(0x0000_1000_0000_0000);
    let virt = phys_to_virt(offset, PhysAddr::new(0xb8000)).unwrap();
    assert_eq!(virt.as_u64(), 0x0000_1000_000b_8000);
}

#[test]
fn physical_memory_offset_that_leaves_the_address_space() {
    let high = VirtAddr::new(0xffff_ffff_ffff_f000);
    assert!(phys_to_virt(high, PhysAddr::new(0x1000)).is_none());
    assert_eq!(phys_to_virt(high, PhysAddr::new(0xfff)).unwrap().as_u64(), 0xffff_ffff_ffff_ffff);
    let low = VirtAddr::new(0x0000_7fff_ffff_f000);
    assert_eq!(phys_to_virt(low, PhysAddr::new(0x1000)).unwrap().as_u64(), 0xffff_8000_0000_0000);
    assert!(phys_to_virt(low, PhysAddr::new(0x8000_0000_1000)).is_none());
}

#[test]
fn a_region_knows_what_it_holds() {
    let usable = region(0x1000, 0x3000, MemoryRegionType::Usable);
    assert!(usable.usable());
    assert!(!region(0x1000, 0x3000, MemoryRegionType::Bootloader).usable());
    assert!(!usable.holds(0xfff));
    assert!(usable.holds(0x1000));
    assert!(usable.holds(0x2fff));
    assert!(!usable.holds(0x3000));
}

#[test]
fn regions_that_overlap_or_are_not_aligned_are_not_distinct() {
    let apart = vec![
        region(0x1000, 0x3000, MemoryRegionType::Usable),
        region(0x2000, 0x8000, MemoryRegionType::Reserved),
        region(0x3000, 0x4000, MemoryRegionType::Usable),
        region(0x3800, 0x3800, MemoryRegionType::Kernel),
    ];
    assert!(has_distinct_regions(&apart));
    let overlapping = vec![
        region(0x1000, 0x3000, MemoryRegionType::Usable),
        region(0x9000, 0xa000, MemoryRegionType::Usable),
        region(0x2000, 0x4000, MemoryRegionType::Usable),
    ];
    assert!(!has_distinct_regions(&overlapping));
    let twice = vec![
        region(0x1000, 0x2000, MemoryRegionType::Usable),
        region(0x1000, 0x2000, MemoryRegionType::Usable),
    ];
    assert!(!has_distinct_regions(&twice));
    let crooked = vec![region(0x1000, 0x2800, MemoryRegionType::Usable)];
    assert!(!has_distinct_regions(&crooked));
    let empty_overlap = vec![
        region(0x1000, 0x3000, MemoryRegionType::Usable),
        region(0x2000, 0x2000, MemoryRegionType::Usable),
    ];
    assert!(has_distinct_regions(&empty_overlap));
    assert!(has_distinct_regions(&Vec::new()));
}

#[test]
fn an_allocator_keeps_clear_of_tables_outside_its_regions() {
    let mapper = init(PhysFrame::containing_address(PhysAddr::new(0x1000)), vec![0; 512], VirtAddr::new(0));
    let clear = BootInfoFrameAllocator::init(vec![
        region(0x0, 0x2000, MemoryRegionType::PageTable),
        region(0x2000, 0x9000, MemoryRegionType::Usable),
    ]);
    assert!(clear.keeps_clear_of(&mapper));
    let over_the_root = BootInfoFrameAllocator::init(vec![region(0x0, 0x9000, MemoryRegionType::Usable)]);
    assert!(!over_the_root.keeps_clear_of(&mapper));
    let overlapping = BootInfoFrameAllocator::init(vec![
        region(0x2000, 0x9000, MemoryRegionType::Usable),
        region(0x8000, 0xa000, MemoryRegionType::Usable),
    ]);
    assert!(!overlapping.keeps_clear_of(&mapper));
}

#[test]
fn an_allocator_does_not_keep_clear_of_the_tables_it_made() {
    let mut mapper = init(PhysFrame::containing_address(PhysAddr::new(0x1000)), vec![0; 512], VirtAddr::new(0));
    let mut allocator = BootInfoFrameAllocator::init(vec![region(0x10_0000, 0x20_0000, MemoryRegionType::Usable)]);
    assert!(allocator.keeps_clear_of(&mapper));
    let page = Page::containing_address(VirtAddr::new(0x4000));
    let frame = PhysFrame::containing_address(PhysAddr::new(0x8000));
    assert!(mapper.map_to(page, frame, 1, &mut allocator).is_ok());
    assert!(!allocator.keeps_clear_of(&mapper));
}
