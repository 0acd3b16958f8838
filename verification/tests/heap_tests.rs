use rust_os::allocator::{init_heap, HeapArena, HEAP_SIZE, HEAP_START};
use rust_os::memory::{init, BootFrameAllocator, MapError, MemoryRegion, PageFlags};

fn allocator_with_frames(n: u64) -> BootFrameAllocator {
    BootFrameAllocator::init(vec![MemoryRegion {
        start: 0x100000,
        len: n * 4096,
        usable: true,
    }])
}

#[test]
fn heap_init_maps_every_page() {
    let mut mapper = init(0, 0x1000);
    // 25 leaf frames plus 3 intermediate tables.
    let mut frames = allocator_with_frames(28);
    let mut arena = HeapArena::new();
    let r = init_heap(&mut mapper, &mut frames, &mut arena);
    assert_eq!(r, Ok(()));
    assert!(arena.heap.is_some());
    for k in 0..25u64 {
        let page = HEAP_START + 4096 * k;
        assert!(
            mapper.translate_addr(page).is_some(),
            "heap page {} not mapped",
            k
        );
    }
    // The page after the window is not mapped.
    assert_eq!(mapper.translate_addr(HEAP_START + 25 * 4096), None);
}

#[test]
fn heap_init_propagates_exhaustion() {
    let mut mapper = init(0, 0x1000);
    let mut frames = allocator_with_frames(3);
    let mut arena = HeapArena::new();
    let r = init_heap(&mut mapper, &mut frames, &mut arena);
    assert_eq!(r, Err(MapError::FrameAllocationFailed));
    // The window was never handed to the allocator.
    assert!(arena.heap.is_none());
}

#[test]
fn heap_init_rejects_already_mapped_page() {
    let mut mapper = init(0, 0x1000);
    let mut frames = allocator_with_frames(64);
    // One page inside the window already has an owner.
    let premapped = HEAP_START + 3 * 4096;
    assert_eq!(
        mapper.map_to(premapped, 0xb000, PageFlags { writable: true }, &mut frames),
        Ok(())
    );
    let mut arena = HeapArena::new();
    let r = init_heap(&mut mapper, &mut frames, &mut arena);
    assert_eq!(r, Err(MapError::PageAlreadyMapped));
    assert!(arena.heap.is_none());
    // The earlier mapping is untouched.
    assert_eq!(mapper.translate_addr(premapped), Some(0xb000));
}

#[test]
fn sequential_allocations_are_disjoint() {
    let mut arena = HeapArena::new();
    arena.init(HEAP_SIZE);
    let sizes: [usize; 6] = [100, 64, 1, 4096, 250, 8];
    let mut blocks: Vec<(usize, usize)> = Vec::new();
    for &size in sizes.iter() {
        let a = arena.allocate(size, 8).expect("allocation should fit");
        assert_eq!(a % 8, 0);
        for &(b, s) in blocks.iter() {
            let disjoint = b + s <= a || a + size <= b;
            assert!(disjoint, "block {:#x}+{} overlaps {:#x}+{}", a, size, b, s);
        }
        blocks.push((a, size));
    }
}

#[test]
fn allocation_at_capacity_boundary() {
    let mut arena = HeapArena::new();
    arena.init(4096 + 24);
    let free = arena.free();
    assert!(free >= 4096);
    // A request of exactly the remaining capacity succeeds...
    let a = arena.allocate(free, 8);
    assert!(a.is_some(), "exact-fit allocation failed (free = {})", free);
    // ...and the next request, however small, fails cleanly.
    assert_eq!(arena.allocate(1, 1), None);
}

#[test]
fn oversized_request_fails_cleanly() {
    let mut arena = HeapArena::new();
    arena.init(8192);
    let first = arena.allocate(64, 8);
    assert!(first.is_some());
    // Far beyond the window: refused without disturbing anything.
    assert_eq!(arena.allocate(1 << 20, 8), None);
    // The arena still serves requests that fit.
    let second = arena.allocate(64, 8);
    assert!(second.is_some());
    assert_ne!(first, second);
}

#[test]
fn fresh_arena_is_uninitialized() {
    let arena = HeapArena::new();
    assert!(arena.heap.is_none());
}
