use rust_os::memory::{
    create_example_mapping, init, BootFrameAllocator, EmptyFrameAllocator, FrameSource, MapError,
    MemoryRegion, PageFlags,
};

fn usable(start: u64, len: u64) -> MemoryRegion {
    MemoryRegion {
        start,
        len,
        usable: true,
    }
}

fn reserved(start: u64, len: u64) -> MemoryRegion {
    MemoryRegion {
        start,
        len,
        usable: false,
    }
}

#[test]
fn empty_allocator_returns_none() {
    let mut a = EmptyFrameAllocator;
    assert_eq!(a.allocate_frame(), None);
    assert_eq!(a.allocate_frame(), None);
}

#[test]
fn boot_allocator_issues_frames_in_order() {
    let regions = vec![usable(0x1000, 0x3000), usable(0x10000, 0x2000)];
    let mut a = BootFrameAllocator::init(regions);
    assert_eq!(a.allocate_frame(), Some(0x1000));
    assert_eq!(a.allocate_frame(), Some(0x2000));
    assert_eq!(a.allocate_frame(), Some(0x3000));
    assert_eq!(a.allocate_frame(), Some(0x10000));
    assert_eq!(a.allocate_frame(), Some(0x11000));
    assert_eq!(a.allocate_frame(), None);
    assert_eq!(a.allocate_frame(), None);
}

#[test]
fn boot_allocator_skips_reserved_regions() {
    let regions = vec![
        reserved(0, 0x10000),
        usable(0x20000, 0x1000),
        reserved(0x30000, 0x5000),
        usable(0x40000, 0x1000),
    ];
    let mut a = BootFrameAllocator::init(regions);
    assert_eq!(a.allocate_frame(), Some(0x20000));
    assert_eq!(a.allocate_frame(), Some(0x40000));
    assert_eq!(a.allocate_frame(), None);
}

#[test]
fn partial_page_region_rounds_up() {
    // A region of 4097 bytes offers two frame-sized steps.
    let regions = vec![usable(0x8000, 4097)];
    let mut a = BootFrameAllocator::init(regions);
    assert_eq!(a.allocate_frame(), Some(0x8000));
    assert_eq!(a.allocate_frame(), Some(0x9000));
    assert_eq!(a.allocate_frame(), None);
}

#[test]
fn no_frame_returned_twice_across_a_run() {
    // A synthetic firmware map with several disjoint usable regions, one of
    // them not a whole number of pages.
    let regions = vec![
        usable(0x1000, 0x4000),
        reserved(0x5000, 0x1000),
        usable(0x100000, 0x1800),
        usable(0x200000, 0x3000),
    ];
    let mut a = BootFrameAllocator::init(regions);
    let mut seen: Vec<u64> = Vec::new();
    while let Some(f) = a.allocate_frame() {
        assert!(
            !seen.contains(&f),
            "frame {:#x} issued twice across the run",
            f
        );
        seen.push(f);
    }
    assert_eq!(seen.len(), 4 + 2 + 3);
}

fn big_allocator() -> BootFrameAllocator {
    BootFrameAllocator::init(vec![usable(0x100000, 0x100000)])
}

#[test]
fn map_then_translate_fresh_page() {
    let mut mapper = init(0, 0x1000);
    let mut a = big_allocator();
    let page: u64 = 0xdead000;
    let frame: u64 = 0x7000;
    let r = mapper.map_to(page, frame, PageFlags { writable: true }, &mut a);
    assert_eq!(r, Ok(()));
    assert_eq!(mapper.translate_addr(page), Some(0x7000));
    assert_eq!(mapper.translate_addr(page + 0x123), Some(0x7123));
    assert_eq!(mapper.translate_addr(page + 0xfff), Some(0x7fff));
}

#[test]
fn identity_mapped_low_page_translates() {
    let mut mapper = init(0, 0x1000);
    let mut a = big_allocator();
    let r = mapper.map_to(0, 0, PageFlags { writable: true }, &mut a);
    assert_eq!(r, Ok(()));
    assert_eq!(mapper.translate_addr(0), Some(0));
    assert_eq!(mapper.translate_addr(0x42), Some(0x42));
}

#[test]
fn physically_offset_region_page_translates() {
    // The page that the linear physical mapping places at the offset itself
    // maps back to physical address zero.
    let phys_offset: u64 = 0x180000000;
    let mut mapper = init(phys_offset, 0x1000);
    let mut a = big_allocator();
    let r = mapper.map_to(phys_offset, 0, PageFlags { writable: true }, &mut a);
    assert_eq!(r, Ok(()));
    assert_eq!(mapper.translate_addr(phys_offset), Some(0));
    assert_eq!(mapper.translate_addr(phys_offset + 0x8), Some(0x8));
}

#[test]
fn mapping_twice_fails_and_keeps_first_translation() {
    let mut mapper = init(0, 0x1000);
    let mut a = big_allocator();
    let page: u64 = 0x42000;
    assert_eq!(
        mapper.map_to(page, 0x7000, PageFlags { writable: true }, &mut a),
        Ok(())
    );
    let second = mapper.map_to(page, 0x9000, PageFlags { writable: true }, &mut a);
    assert_eq!(second, Err(MapError::PageAlreadyMapped));
    // The existing translation is untouched.
    assert_eq!(mapper.translate_addr(page), Some(0x7000));
    assert_eq!(mapper.translate_addr(page + 0x10), Some(0x7010));
}

#[test]
fn unmapped_address_translates_to_none() {
    let mapper = init(0, 0x1000);
    assert_eq!(mapper.translate_addr(0), None);
    assert_eq!(mapper.translate_addr(0xdeadbeef), None);
}

#[test]
fn mapping_without_frames_reports_exhaustion() {
    let mut mapper = init(0, 0x1000);
    let mut a = EmptyFrameAllocator;
    let r = mapper.map_to(0x5000, 0x6000, PageFlags { writable: true }, &mut a);
    assert_eq!(r, Err(MapError::FrameAllocationFailed));
    assert_eq!(mapper.translate_addr(0x5000), None);
}

#[test]
fn example_mapping_points_at_text_buffer() {
    let mut mapper = init(0, 0x1000);
    let mut a = big_allocator();
    assert_eq!(create_example_mapping(0x5000, &mut mapper, &mut a), Ok(()));
    assert_eq!(mapper.translate_addr(0x5000), Some(0xb8000));
    assert_eq!(mapper.translate_addr(0x5190), Some(0xb8190));
}

#[test]
fn example_mapping_surfaces_already_mapped() {
    let mut mapper = init(0, 0x1000);
    let mut a = big_allocator();
    assert_eq!(
        mapper.map_to(0x5000, 0x7000, PageFlags { writable: true }, &mut a),
        Ok(())
    );
    // The page already has an owner: the error comes back as a value and the
    // existing translation is untouched.
    let r = create_example_mapping(0x5000, &mut mapper, &mut a);
    assert_eq!(r, Err(MapError::PageAlreadyMapped));
    assert_eq!(mapper.translate_addr(0x5000), Some(0x7000));
}

#[test]
fn example_mapping_surfaces_exhaustion() {
    let mut mapper = init(0, 0x1000);
    let mut a = EmptyFrameAllocator;
    let r = create_example_mapping(0x5000, &mut mapper, &mut a);
    assert_eq!(r, Err(MapError::FrameAllocationFailed));
    assert_eq!(mapper.translate_addr(0x5000), None);
}

#[test]
fn sibling_pages_do_not_interfere() {
    let mut mapper = init(0, 0x1000);
    let mut a = big_allocator();
    assert_eq!(
        mapper.map_to(0x1000, 0xa000, PageFlags { writable: true }, &mut a),
        Ok(())
    );
    assert_eq!(
        mapper.map_to(0x2000, 0xb000, PageFlags { writable: true }, &mut a),
        Ok(())
    );
    assert_eq!(mapper.translate_addr(0x1000), Some(0xa000));
    assert_eq!(mapper.translate_addr(0x2000), Some(0xb000));
    assert_eq!(mapper.translate_addr(0x3000), None);
}
