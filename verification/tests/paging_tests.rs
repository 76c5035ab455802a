use os_rs::addr::Page;
use os_rs::addr::PhysAddr;
use os_rs::addr::PhysFrame;
use os_rs::addr::VirtAddr;
use os_rs::memory::create_example_mapping;
use os_rs::memory::init;
use os_rs::memory::BootInfoFrameAllocator;
use os_rs::memory::EmptyFrameAllocator;
use os_rs::memory::FrameAllocator;
use os_rs::memory::MemoryRegion;
use os_rs::memory::MemoryRegionType;
use os_rs::paging::entry_frame;
use os_rs::paging::leaf_flags_are_valid;
use os_rs::paging::mapper::MapToError;
use os_rs::paging::mapper::OffsetPageTable;
use os_rs::paging::mapper::TranslateResult;
use os_rs::paging::FrameError;
use os_rs::paging::HUGE_PAGE;
use os_rs::paging::PRESENT;
use os_rs::paging::USER_ACCESSIBLE;
use os_rs::paging::WRITABLE;

fn frames(start: u64, count: u64) -> BootInfoFrameAllocator {
    BootInfoFrameAllocator::init(vec![MemoryRegion {
        start,
        end: start + count * 4096,
        region_type: MemoryRegionType::Usable,
    }])
}

fn mapper() -> OffsetPageTable {
    init(PhysFrame::containing_address(PhysAddr::new(0x1000)), vec![0; 512], VirtAddr::new(0))
}

fn page(addr: u64) -> Page {
    Page::containing_address(VirtAddr::new(addr))
}

fn frame(addr: u64) -> PhysFrame {
    PhysFrame::containing_address(PhysAddr::new(addr))
}

fn translate(mapper: &OffsetPageTable, addr: u64) -> Option<u64> {
    mapper.translate_addr(VirtAddr::new(addr)).map(|p| p.as_u64())
}

#[test]
fn entry_frame_of_a_present_entry() {
    let frame = entry_frame(0x0000_0000_0012_3000 | PRESENT | WRITABLE).unwrap();
    assert_eq!(frame.start_address().as_u64(), 0x12_3000);
    let high = entry_frame(0x8000_0000_0012_3000 | PRESENT).unwrap();
    assert_eq!(high.start_address().as_u64(), 0x12_3000);
}

#[test]
fn entry_frame_of_an_entry_that_is_not_present() {
    assert_eq!(entry_frame(0).err(), Some(FrameError::FrameNotPresent));
    assert_eq!(entry_frame(0x12_3000 | WRITABLE).err(), Some(FrameError::FrameNotPresent));
    assert_eq!(entry_frame(0x12_3000 | WRITABLE | HUGE_PAGE).err(), Some(FrameError::FrameNotPresent));
}

#[test]
fn entry_frame_of_a_huge_entry() {
    assert_eq!(entry_frame(0x20_0000 | PRESENT | HUGE_PAGE).err(), Some(FrameError::HugeFrame));
}

#[test]
fn a_new_mapper_translates_nothing() {
    let mapper = mapper();
    assert_eq!(mapper.table_count(), 1);
    assert_eq!(mapper.table_frame(0).start_address().as_u64(), 0x1000);
    assert_eq!(mapper.phys_offset().as_u64(), 0);
    assert_eq!(translate(&mapper, 0), None);
    assert_eq!(translate(&mapper, 0x4444_4444_0000), None);
    assert_eq!(translate(&mapper, 0xffff_ffff_ffff_ffff), None);
    for index in 0..512u16 {
        assert_eq!(mapper.table_entry(0, index), 0);
    }
}

#[test]
fn map_to_makes_the_address_translate() {
    let mut mapper = mapper();
    let mut allocator = frames(0x10_0000, 8);
    let flush = mapper.map_to(page(0x4444_4444_0000), frame(0x5000), PRESENT | WRITABLE, &mut allocator).unwrap();
    assert_eq!(flush.page().start_address().as_u64(), 0x4444_4444_0000);
    assert_eq!(translate(&mapper, 0x4444_4444_0000), Some(0x5000));
    assert_eq!(translate(&mapper, 0x4444_4444_0abc), Some(0x5abc));
    assert_eq!(translate(&mapper, 0x4444_4444_0fff), Some(0x5fff));
    assert_eq!(translate(&mapper, 0x4444_4444_1000), None);
    assert_eq!(translate(&mapper, 0x4444_4443_ffff), None);
}

#[test]
fn map_to_builds_the_three_missing_tables() {
    let mut mapper = mapper();
    let mut allocator = frames(0x10_0000, 8);
    mapper.map_to(page(0x4444_4444_0000), frame(0x5000), PRESENT | WRITABLE, &mut allocator).unwrap();
    assert_eq!(mapper.table_count(), 4);
    assert_eq!(mapper.table_frame(1).start_address().as_u64(), 0x10_0000);
    assert_eq!(mapper.table_frame(2).start_address().as_u64(), 0x10_1000);
    assert_eq!(mapper.table_frame(3).start_address().as_u64(), 0x10_2000);
    assert_eq!(mapper.table_entry(0, 136), 0x10_0000 | PRESENT | WRITABLE);
    assert_eq!(mapper.table_entry(1, 273), 0x10_1000 | PRESENT | WRITABLE);
    assert_eq!(mapper.table_entry(2, 34), 0x10_2000 | PRESENT | WRITABLE);
    assert_eq!(mapper.table_entry(3, 64), 0x5000 | PRESENT | WRITABLE);
    assert_eq!(mapper.table_entry(3, 65), 0);
    assert_eq!(allocator.allocate_frame().unwrap().start_address().as_u64(), 0x10_3000);
}

#[test]
fn map_to_uses_the_tables_that_are_there() {
    let mut mapper = mapper();
    let mut allocator = frames(0x10_0000, 7);
    mapper.map_to(page(0x4444_4444_0000), frame(0x5000), PRESENT | WRITABLE, &mut allocator).unwrap();
    mapper.map_to(page(0x4444_4444_1000), frame(0x9000), PRESENT, &mut allocator).unwrap();
    assert_eq!(mapper.table_count(), 4);
    assert_eq!(translate(&mapper, 0x4444_4444_1234), Some(0x9234));
    assert_eq!(translate(&mapper, 0x4444_4444_0234), Some(0x5234));
    assert_eq!(mapper.table_entry(3, 65), 0x9000 | PRESENT);
    mapper.map_to(page(0x4444_4460_0000), frame(0xa000), PRESENT, &mut allocator).unwrap();
    assert_eq!(mapper.table_count(), 5);
    assert_eq!(translate(&mapper, 0x4444_4460_0001), Some(0xa001));
    mapper.map_to(page(0xffff_8000_0000_0000), frame(0xb000), PRESENT, &mut allocator).unwrap();
    assert_eq!(mapper.table_count(), 8);
    assert_eq!(translate(&mapper, 0xffff_8000_0000_0fff), Some(0xbfff));
    assert!(allocator.allocate_frame().is_none());
}

#[test]
fn map_to_adds_the_parent_flags_to_the_tables_on_the_walk() {
    let mut mapper = mapper();
    let mut allocator = frames(0x10_0000, 8);
    mapper.map_to(page(0x4444_4444_0000), frame(0x5000), PRESENT, &mut allocator).unwrap();
    assert_eq!(mapper.table_entry(0, 136), 0x10_0000 | PRESENT);
    mapper
        .map_to(
            page(0x4444_4444_1000),
            frame(0x6000),
            PRESENT | WRITABLE | USER_ACCESSIBLE | (1u64 << 63),
            &mut allocator,
        )
        .unwrap();
    assert_eq!(mapper.table_entry(0, 136), 0x10_0000 | PRESENT | WRITABLE | USER_ACCESSIBLE);
    assert_eq!(mapper.table_entry(1, 273), 0x10_1000 | PRESENT | WRITABLE | USER_ACCESSIBLE);
    assert_eq!(mapper.table_entry(2, 34), 0x10_2000 | PRESENT | WRITABLE | USER_ACCESSIBLE);
    assert_eq!(mapper.table_entry(3, 64), 0x5000 | PRESENT);
    assert_eq!(mapper.table_entry(3, 65), 0x6000 | PRESENT | WRITABLE | USER_ACCESSIBLE | (1u64 << 63));
}

#[test]
fn map_to_refuses_a_page_that_is_mapped() {
    let mut mapper = mapper();
    let mut allocator = frames(0x10_0000, 8);
    mapper.map_to(page(0x4444_4444_0000), frame(0x5000), PRESENT | WRITABLE, &mut allocator).unwrap();
    let second = mapper.map_to(page(0x4444_4444_0000), frame(0x7000), PRESENT, &mut allocator);
    match second {
        Err(MapToError::PageAlreadyMapped(offered)) => {
            assert_eq!(offered.start_address().as_u64(), 0x7000)
        }
        _ => panic!("the page was mapped before"),
    }
    assert_eq!(translate(&mapper, 0x4444_4444_0010), Some(0x5010));
    assert_eq!(allocator.allocate_frame().unwrap().start_address().as_u64(), 0x10_3000);
}

#[test]
fn map_to_fails_without_frames_for_the_tables() {
    let mut mapper = mapper();
    let mut none = EmptyFrameAllocator;
    let result = mapper.map_to(page(0x4444_4444_0000), frame(0x5000), PRESENT | WRITABLE, &mut none);
    assert!(matches!(result, Err(MapToError::FrameAllocationFailed)));
    assert_eq!(translate(&mapper, 0x4444_4444_0000), None);
    assert_eq!(mapper.table_count(), 1);
}

#[test]
fn map_to_fails_with_two_frames_for_three_tables() {
    let mut mapper = mapper();
    let mut allocator = frames(0x10_0000, 2);
    let result = mapper.map_to(page(0x4444_4444_0000), frame(0x5000), PRESENT | WRITABLE, &mut allocator);
    assert!(matches!(result, Err(MapToError::FrameAllocationFailed)));
    assert_eq!(translate(&mapper, 0x4444_4444_0000), None);
    assert_eq!(mapper.table_count(), 3);
    assert!(allocator.allocate_frame().is_none());
    let mut more = frames(0x20_0000, 1);
    mapper.map_to(page(0x4444_4444_0000), frame(0x5000), PRESENT | WRITABLE, &mut more).unwrap();
    assert_eq!(translate(&mapper, 0x4444_4444_0000), Some(0x5000));
    assert_eq!(mapper.table_count(), 4);
}

#[test]
fn map_to_needs_no_frame_where_the_tables_exist() {
    let mut mapper = mapper();
    let mut allocator = frames(0x10_0000, 3);
    mapper.map_to(page(0x4444_4444_0000), frame(0x5000), PRESENT | WRITABLE, &mut allocator).unwrap();
    let mut none = EmptyFrameAllocator;
    mapper.map_to(page(0x4444_4444_2000), frame(0x6000), PRESENT | WRITABLE, &mut none).unwrap();
    assert_eq!(translate(&mapper, 0x4444_4444_2fff), Some(0x6fff));
}

#[test]
fn two_pages_may_share_a_frame() {
    let mut mapper = mapper();
    let mut allocator = frames(0x10_0000, 8);
    mapper.map_to(page(0x1000), frame(0xb8000), PRESENT | WRITABLE, &mut allocator).unwrap();
    mapper.map_to(page(0x2000), frame(0xb8000), PRESENT | WRITABLE, &mut allocator).unwrap();
    assert_eq!(translate(&mapper, 0x1004), Some(0xb8004));
    assert_eq!(translate(&mapper, 0x2004), Some(0xb8004));
}

#[test]
fn example_mapping_leads_to_the_screen() {
    let mut mapper = mapper();
    let mut allocator = frames(0x10_0000, 8);
    let flush = create_example_mapping(page(0), &mut mapper, &mut allocator).unwrap();
    assert_eq!(flush.page().start_address().as_u64(), 0);
    assert_eq!(translate(&mapper, 0x0), Some(0xb8000));
    assert_eq!(translate(&mapper, 0x18), Some(0xb8018));
    assert_eq!(mapper.table_entry(3, 0), 0xb8000 | PRESENT | WRITABLE);
}

#[test]
fn example_mapping_fails_without_frames() {
    let mut mapper = mapper();
    let mut none = EmptyFrameAllocator;
    let result = create_example_mapping(page(0xdead_beaf_000), &mut mapper, &mut none);
    assert!(matches!(result, Err(MapToError::FrameAllocationFailed)));
    assert_eq!(translate(&mapper, 0xdead_beaf_000), None);
}

#[test]
fn flags_of_a_leaf_entry() {
    assert!(leaf_flags_are_valid(PRESENT));
    assert!(leaf_flags_are_valid(PRESENT | WRITABLE | USER_ACCESSIBLE | (1u64 << 63)));
    assert!(!leaf_flags_are_valid(WRITABLE));
    assert!(!leaf_flags_are_valid(0));
    assert!(!leaf_flags_are_valid(PRESENT | HUGE_PAGE));
    assert!(!leaf_flags_are_valid(PRESENT | 0x1000));
    assert!(!leaf_flags_are_valid(PRESENT | (1u64 << 51)));
}

fn boot_table() -> Vec<u64> {
    let mut entries = vec![0u64; 512];
    entries[0] = 0x2000 | PRESENT | WRITABLE;
    entries[511] = 0x3000 | PRESENT;
    entries[7] = 0x4000_0000 | PRESENT | WRITABLE | HUGE_PAGE;
    entries[9] = 0x5000 | WRITABLE;
    entries
}

fn table_with(index: usize, entry: u64) -> Vec<u64> {
    let mut entries = vec![0u64; 512];
    entries[index] = entry;
    entries
}

/// A mapper over the tables of a boot loader that maps the page at
/// 0xb8000 to the frame at 0xb8000, with all tables handed in.
fn booted() -> OffsetPageTable {
    let mut mapper = init(frame(0x1000), boot_table(), VirtAddr::new(0));
    mapper.adopt_table(frame(0x2000), table_with(0, 0x6000 | PRESENT | WRITABLE)).unwrap();
    mapper.adopt_table(frame(0x6000), table_with(0, 0x7000 | PRESENT | WRITABLE)).unwrap();
    mapper.adopt_table(frame(0x7000), table_with(0xb8, 0xb8000 | PRESENT | WRITABLE)).unwrap();
    mapper
}

#[test]
fn a_new_mapper_keeps_no_entry() {
    let mapper = OffsetPageTable::new(frame(0x1000), VirtAddr::new(0));
    assert_eq!(mapper.table_count(), 1);
    for index in 0..512u16 {
        assert_eq!(mapper.table_entry(0, index), 0);
    }
    assert!(matches!(mapper.translate(VirtAddr::new(0)), TranslateResult::NotMapped));
}

#[test]
fn entries_in_use_stand_as_they_were() {
    let mapper = init(frame(0x1000), boot_table(), VirtAddr::new(0));
    assert_eq!(mapper.table_count(), 1);
    assert_eq!(mapper.table_entry(0, 0), 0x2000 | PRESENT | WRITABLE);
    assert_eq!(mapper.table_entry(0, 511), 0x3000 | PRESENT);
    assert_eq!(mapper.table_entry(0, 7), 0x4000_0000 | PRESENT | WRITABLE | HUGE_PAGE);
    assert_eq!(mapper.table_entry(0, 9), 0x5000 | WRITABLE);
    assert_eq!(mapper.table_entry(0, 1), 0);
}

#[test]
fn translate_names_the_table_that_it_needs() {
    let mut mapper = init(frame(0x1000), boot_table(), VirtAddr::new(0));
    let addr = VirtAddr::new(0xb8010);
    match mapper.translate(addr) {
        TranslateResult::TableNotHeld(needed) => assert_eq!(needed.start_address().as_u64(), 0x2000),
        other => panic!("{:?}", other),
    }
    mapper.adopt_table(frame(0x2000), table_with(0, 0x6000 | PRESENT | WRITABLE)).unwrap();
    match mapper.translate(addr) {
        TranslateResult::TableNotHeld(needed) => assert_eq!(needed.start_address().as_u64(), 0x6000),
        other => panic!("{:?}", other),
    }
    mapper.adopt_table(frame(0x6000), table_with(0, 0x7000 | PRESENT | WRITABLE)).unwrap();
    match mapper.translate(addr) {
        TranslateResult::TableNotHeld(needed) => assert_eq!(needed.start_address().as_u64(), 0x7000),
        other => panic!("{:?}", other),
    }
    mapper.adopt_table(frame(0x7000), table_with(0xb8, 0xb8000 | PRESENT | WRITABLE)).unwrap();
    match mapper.translate(addr) {
        TranslateResult::Mapped { frame, offset, flags } => {
            assert_eq!(frame.start_address().as_u64(), 0xb8000);
            assert_eq!(offset, 0x10);
            assert_eq!(flags, PRESENT | WRITABLE);
        }
        other => panic!("{:?}", other),
    }
    assert_eq!(translate(&mapper, 0xb8010), Some(0xb8010));
    assert_eq!(translate(&mapper, 0xb9000), None);
    assert_eq!(mapper.table_count(), 4);
}

#[test]
fn translate_reports_a_huge_frame() {
    let mut mapper = init(frame(0x1000), boot_table(), VirtAddr::new(0));
    assert!(matches!(mapper.translate(VirtAddr::new(7u64 << 39)), TranslateResult::HugeFrame));
    mapper.adopt_table(frame(0x2000), table_with(3, 0x4000_0000 | PRESENT | HUGE_PAGE)).unwrap();
    assert!(matches!(mapper.translate(VirtAddr::new(3u64 << 30)), TranslateResult::HugeFrame));
    assert!(matches!(mapper.translate(VirtAddr::new(4u64 << 30)), TranslateResult::NotMapped));
}

#[test]
fn translate_takes_an_entry_that_is_not_present_as_unmapped() {
    let mapper = init(frame(0x1000), boot_table(), VirtAddr::new(0));
    assert!(matches!(mapper.translate(VirtAddr::new(9u64 << 39)), TranslateResult::NotMapped));
    assert!(matches!(mapper.translate(VirtAddr::new(10u64 << 39)), TranslateResult::NotMapped));
    assert_eq!(translate(&mapper, 9u64 << 39), None);
}

#[test]
fn map_to_names_the_table_that_it_needs() {
    let mut mapper = init(frame(0x1000), boot_table(), VirtAddr::new(0));
    let mut allocator = frames(0x10_0000, 8);
    let result = mapper.map_to(page(0x5000), frame(0x9000), PRESENT | WRITABLE, &mut allocator);
    match result {
        Err(MapToError::ParentTableNotHeld(needed)) => assert_eq!(needed.start_address().as_u64(), 0x2000),
        other => panic!("{:?}", other),
    }
    assert_eq!(mapper.table_count(), 1);
    assert_eq!(mapper.table_entry(0, 0), 0x2000 | PRESENT | WRITABLE);
    assert_eq!(allocator.allocate_frame().unwrap().start_address().as_u64(), 0x10_0000);
}

#[test]
fn map_to_reports_a_huge_frame_on_the_walk() {
    let mut mapper = init(frame(0x1000), boot_table(), VirtAddr::new(0));
    let mut allocator = frames(0x10_0000, 8);
    let result = mapper.map_to(page(7u64 << 39), frame(0x9000), PRESENT, &mut allocator);
    assert!(matches!(result, Err(MapToError::ParentEntryHugePage)));
    assert_eq!(allocator.allocate_frame().unwrap().start_address().as_u64(), 0x10_0000);
}

#[test]
fn map_to_walks_the_tables_that_were_handed_in() {
    let mut mapper = booted();
    let mut allocator = frames(0x10_0000, 8);
    mapper.map_to(page(0x5000), frame(0x9000), PRESENT | WRITABLE, &mut allocator).unwrap();
    assert_eq!(translate(&mapper, 0x5004), Some(0x9004));
    assert_eq!(translate(&mapper, 0xb8004), Some(0xb8004));
    assert_eq!(mapper.table_count(), 4);
    assert_eq!(mapper.table_entry(3, 5), 0x9000 | PRESENT | WRITABLE);
    assert_eq!(allocator.allocate_frame().unwrap().start_address().as_u64(), 0x10_0000);
    let again = mapper.map_to(page(0xb8000), frame(0x9000), PRESENT, &mut allocator);
    assert!(matches!(again, Err(MapToError::PageAlreadyMapped(_))));
}

#[test]
fn map_to_makes_only_the_tables_that_are_missing() {
    let mut mapper = booted();
    let mut allocator = frames(0x10_0000, 8);
    mapper.map_to(page(0x20_0000), frame(0x9000), PRESENT | WRITABLE, &mut allocator).unwrap();
    assert_eq!(mapper.table_count(), 5);
    assert_eq!(mapper.table_entry(2, 1), 0x10_0000 | PRESENT | WRITABLE);
    assert_eq!(translate(&mapper, 0x20_0fff), Some(0x9fff));
    assert_eq!(allocator.allocate_frame().unwrap().start_address().as_u64(), 0x10_1000);
}

#[test]
fn map_to_maps_below_an_entry_that_was_unused() {
    let mut mapper = init(frame(0x1000), boot_table(), VirtAddr::new(0));
    let mut allocator = frames(0x10_0000, 8);
    mapper.map_to(page(0x4444_4444_0000), frame(0x9000), PRESENT | WRITABLE, &mut allocator).unwrap();
    assert_eq!(translate(&mapper, 0x4444_4444_0123), Some(0x9123));
    assert_eq!(mapper.table_count(), 4);
    assert_eq!(mapper.table_entry(0, 136), 0x10_0000 | PRESENT | WRITABLE);
    assert_eq!(mapper.table_entry(0, 0), 0x2000 | PRESENT | WRITABLE);
    assert_eq!(mapper.table_entry(0, 511), 0x3000 | PRESENT);
}

#[test]
fn a_table_that_no_entry_leads_to_is_not_taken() {
    let mut mapper = init(frame(0x1000), boot_table(), VirtAddr::new(0));
    assert_eq!(mapper.adopt_table(frame(0x8000), vec![0; 512]).err(), Some(FrameError::FrameNotPresent));
    assert_eq!(mapper.adopt_table(frame(0x5000), vec![0; 512]).err(), Some(FrameError::FrameNotPresent));
    assert_eq!(mapper.adopt_table(frame(0x4000_0000), vec![0; 512]).err(), Some(FrameError::FrameNotPresent));
    assert_eq!(mapper.adopt_table(frame(0x1000), vec![0; 512]).err(), Some(FrameError::FrameNotPresent));
    assert!(mapper.adopt_table(frame(0x2000), vec![0; 512]).is_ok());
    assert_eq!(mapper.adopt_table(frame(0x2000), vec![0; 512]).err(), Some(FrameError::FrameNotPresent));
    assert_eq!(mapper.table_count(), 2);
}

#[test]
fn a_level_1_table_with_an_entry_that_names_no_frame_is_not_taken() {
    let mut mapper = init(frame(0x1000), boot_table(), VirtAddr::new(0));
    mapper.adopt_table(frame(0x2000), table_with(0, 0x6000 | PRESENT)).unwrap();
    mapper.adopt_table(frame(0x6000), table_with(0, 0x7000 | PRESENT)).unwrap();
    let huge = table_with(4, 0x9000 | PRESENT | HUGE_PAGE);
    assert_eq!(mapper.adopt_table(frame(0x7000), huge).err(), Some(FrameError::HugeFrame));
    let absent = table_with(4, 0x9000 | WRITABLE);
    assert_eq!(mapper.adopt_table(frame(0x7000), absent).err(), Some(FrameError::FrameNotPresent));
    assert_eq!(mapper.table_count(), 3);
    assert!(mapper.adopt_table(frame(0x7000), table_with(4, 0x9000 | PRESENT)).is_ok());
    assert_eq!(translate(&mapper, 0x4abc), Some(0x9abc));
}

#[test]
fn the_tables_handed_in_stand_as_they_were() {
    let mapper = booted();
    assert_eq!(mapper.table_frame(1).start_address().as_u64(), 0x2000);
    assert_eq!(mapper.table_frame(2).start_address().as_u64(), 0x6000);
    assert_eq!(mapper.table_frame(3).start_address().as_u64(), 0x7000);
    assert_eq!(mapper.table_entry(0, 0), 0x2000 | PRESENT | WRITABLE);
    assert_eq!(mapper.table_entry(1, 0), 0x6000 | PRESENT | WRITABLE);
    assert_eq!(mapper.table_entry(2, 0), 0x7000 | PRESENT | WRITABLE);
    assert_eq!(mapper.table_entry(3, 0xb8), 0xb8000 | PRESENT | WRITABLE);
    assert_eq!(mapper.table_entry(3, 0xb9), 0);
    assert_eq!(mapper.table_entry(0, 7), 0x4000_0000 | PRESENT | WRITABLE | HUGE_PAGE);
}

#[test]
fn example_mapping_below_a_table_that_is_not_held_names_the_table() {
    let mut mapper = init(frame(0x1000), boot_table(), VirtAddr::new(0));
    let mut none = EmptyFrameAllocator;
    let result = create_example_mapping(page(0), &mut mapper, &mut none);
    match result {
        Err(MapToError::ParentTableNotHeld(needed)) => assert_eq!(needed.start_address().as_u64(), 0x2000),
        other => panic!("{:?}", other),
    }
}

#[test]
fn example_mapping_over_the_tables_of_the_boot_loader() {
    let mut mapper = booted();
    let mut none = EmptyFrameAllocator;
    assert!(create_example_mapping(page(0), &mut mapper, &mut none).is_ok());
    assert_eq!(translate(&mapper, 0x18), Some(0xb8018));
    let again = create_example_mapping(page(0xb8000), &mut mapper, &mut none);
    assert!(matches!(again, Err(MapToError::PageAlreadyMapped(_))));
}

#[test]
fn map_to_leaves_an_entry_alone_that_is_in_use_but_not_present() {
    let mut mapper = init(frame(0x1000), boot_table(), VirtAddr::new(0));
    let mut allocator = frames(0x10_0000, 8);
    let result = mapper.map_to(page(9u64 << 39), frame(0x9000), PRESENT, &mut allocator);
    assert!(matches!(result, Err(MapToError::ParentEntryNotPresent)));
    assert_eq!(mapper.table_entry(0, 9), 0x5000 | WRITABLE);
    assert_eq!(allocator.allocate_frame().unwrap().start_address().as_u64(), 0x10_0000);
}
