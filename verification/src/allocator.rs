//! The heap arena: a fixed virtual window, backed page by page through the
//! mapper, then handed exactly once to the general-purpose allocator that
//! owns all subsequent allocate bookkeeping.

use vstd::prelude::*;
use crate::memory::{
    FrameSource, MapError, OffsetPageTable, PageFlags, l2_index, l3_index, l4_index, leaf_entry,
};

verus! {

/// Base of the fixed virtual heap window.
pub const HEAP_START: u64 = 0x44444444000;

/// Size of the heap window in bytes; 25 whole pages.
pub const HEAP_SIZE: usize = 100 * 1024;

/// Number of pages that cover the heap window.
pub const HEAP_PAGE_COUNT: usize = 25;

/// Base address of the `k`-th page of the heap window.
pub open spec fn heap_page(k: int) -> u64 {
    (0x44444444000 + 4096 * k) as u64
}

/// The address lies inside the heap window.
pub open spec fn heap_window_page(p: u64) -> bool {
    0x44444444000 <= p < 0x44444444000 + 102400
}

/// Every page of the window shares the three upper walk indexes with the
/// window's base, lies below the walkable range, and is page-aligned.
proof fn lemma_heap_page_facts(k: int)
    requires
        0 <= k < 25,
    ensures
        heap_page(k) == 0x44444444000 + 4096 * k,
        heap_page(k) % 4096 == 0,
        heap_page(k) < 0x1000000000000,
        heap_window_page(heap_page(k)),
        l4_index(heap_page(k)) == l4_index(HEAP_START),
        l3_index(heap_page(k)) == l3_index(HEAP_START),
        l2_index(heap_page(k)) == l2_index(HEAP_START),
{
    let kk = k as u64;
    assert(heap_page(k) == 0x44444444000u64 + 4096 * kk);
    assert((0x44444444000u64 + 4096 * kk) % 4096 == 0 && 0x44444444000u64 + 4096 * kk
        < 0x1000000000000 && ((0x44444444000u64 + 4096 * kk) / 0x8000000000) % 512 == (
    0x44444444000u64 / 0x8000000000) % 512 && ((0x44444444000u64 + 4096 * kk) / 0x40000000) % 512
        == (0x44444444000u64 / 0x40000000) % 512 && ((0x44444444000u64 + 4096 * kk) / 0x200000)
        % 512 == (0x44444444000u64 / 0x200000) % 512) by (bit_vector)
        requires
            kk < 25,
    ;
}

/// The heap window is not aliased: distinct page indexes give distinct pages.
proof fn lemma_heap_pages_distinct(j: int, k: int)
    requires
        0 <= j < 25,
        0 <= k < 25,
        j != k,
    ensures
        heap_page(j) != heap_page(k),
{
    lemma_heap_page_facts(j);
    lemma_heap_page_facts(k);
}

/// The live allocations that the general-purpose allocator has handed out,
/// each as its requested base address and length.
pub uninterp spec fn heap_blocks(h: linked_list_allocator::Heap) -> Set<(usize, usize)>;

/// The usable byte window of the allocator, as its bottom and top addresses.
pub uninterp spec fn heap_window(h: linked_list_allocator::Heap) -> (usize, usize);

/// What a first-fit search on this heap value answers for a request of
/// `size` bytes at alignment `align`. The answer is a function of the heap
/// and the request alone, so a fitting request is owed exactly this result.
pub uninterp spec fn heap_fit(h: linked_list_allocator::Heap, size: usize, align: usize) -> Option<
    usize,
>;

#[verifier::external_type_specification]
#[verifier::external_body]
pub struct ExHeap(linked_list_allocator::Heap);

/// Relies on linked_list_allocator::Heap::from_slice: a heap over a freshly
/// leaked buffer of `size` bytes. Its usable window lies inside the buffer;
/// up to 7 bytes may be lost to bottom alignment and up to 8 more to top
/// truncation, so at least `size - 16` bytes remain usable.
#[verifier::external_body]
fn heap_create(size: usize) -> (h: linked_list_allocator::Heap)
    requires
        24 <= size,
    ensures
        heap_blocks(h) == Set::<(usize, usize)>::empty(),
        heap_window(h).0 <= heap_window(h).1,
        heap_window(h).1 - heap_window(h).0 <= size,
        heap_window(h).1 - heap_window(h).0 >= size - 16,
{
    let mem: std::boxed::Box<[core::mem::MaybeUninit<u8>]> = (0..size).map(
        |_| core::mem::MaybeUninit::uninit(),
    ).collect();
    linked_list_allocator::Heap::from_slice(std::boxed::Box::leak(mem))
}

/// The argument is a power of two.
pub open spec fn is_pow2(n: usize) -> bool
    decreases n,
{
    if n == 0 {
        false
    } else if n == 1 {
        true
    } else {
        n % 2 == 0 && is_pow2(n / 2)
    }
}

/// Relies on linked_list_allocator::Heap::allocate_first_fit: a first-fit
/// search of the free hole list, a deterministic function of the heap value
/// and the request, named `heap_fit`. A returned chunk meets the requested
/// alignment, lies inside the heap window, is disjoint from every live
/// allocation and joins them; a failed request leaves the heap unchanged.
#[verifier::external_body]
fn heap_allocate(h: &mut linked_list_allocator::Heap, size: usize, align: usize) -> (r: Option<
    usize,
>)
    requires
        1 <= size,
        is_pow2(align),
        size + align <= isize::MAX,
    ensures
        r == heap_fit(*old(h), size, align),
        heap_window(*final(h)) == heap_window(*old(h)),
        match r {
            Some(a) => a % align == 0 && heap_window(*old(h)).0 <= a && a + size <= heap_window(
                *old(h),
            ).1 && (forall|b: (usize, usize)|
                heap_blocks(*old(h)).contains(b) ==> b.0 + b.1 <= a || a + size <= b.0)
                && heap_blocks(*final(h)) == heap_blocks(*old(h)).insert((a, size)),
            None => heap_blocks(*final(h)) == heap_blocks(*old(h)),
        },
{
    let layout = core::alloc::Layout::from_size_align(size, align).unwrap();
    match h.allocate_first_fit(layout) {
        Ok(p) => Some(p.as_ptr() as usize),
        Err(()) => None,
    }
}

/// Relies on linked_list_allocator::Heap::free: the bytes still available
/// for allocation, never more than the window holds.
#[verifier::external_body]
fn heap_free_bytes(h: &linked_list_allocator::Heap) -> (r: usize)
    ensures
        r <= heap_window(*h).1 - heap_window(*h).0,
{
    h.free()
}

/// Two byte ranges do not overlap.
pub open spec fn blocks_disjoint(b1: (usize, usize), b2: (usize, usize)) -> bool {
    b1.0 + b1.1 <= b2.0 || b2.0 + b2.1 <= b1.0
}

/// The heap arena: at most one transfer of the window to the allocator, then
/// allocation bookkeeping owned by it. Allocations are never reclaimed.
pub struct HeapArena {
    pub heap: Option<linked_list_allocator::Heap>,
}

impl HeapArena {
    /// The window was handed to the allocator.
    pub open spec fn is_initialized(&self) -> bool {
        self.heap is Some
    }

    /// The live allocations handed out so far.
    pub open spec fn blocks(&self) -> Set<(usize, usize)> {
        heap_blocks(self.heap->0)
    }

    /// The usable byte window, bottom and top.
    pub open spec fn window(&self) -> (usize, usize) {
        heap_window(self.heap->0)
    }

    /// Every block handed out is non-empty, lies inside the window, and is
    /// disjoint from every other one.
    pub open spec fn wf(&self) -> bool {
        self.is_initialized() ==> {
            &&& self.window().0 <= self.window().1
            &&& forall|b: (usize, usize)|
                self.blocks().contains(b) ==> 1 <= b.1 && self.window().0 <= b.0 && b.0 + b.1
                    <= self.window().1
            &&& forall|b1: (usize, usize), b2: (usize, usize)|
                self.blocks().contains(b1) && self.blocks().contains(b2) && b1 != b2
                    ==> blocks_disjoint(b1, b2)
        }
    }

    /// An arena that has not yet been given its window.
    pub fn new() -> (a: HeapArena)
        ensures
            !a.is_initialized(),
            a.wf(),
    {
        HeapArena { heap: None }
    }

    /// Hands a window of `size` bytes to the general-purpose allocator,
    /// exactly once; a second transfer is a contract violation.
    pub fn init(&mut self, size: usize)
        requires
            !old(self).is_initialized(),
            24 <= size,
        ensures
            final(self).is_initialized(),
            final(self).wf(),
            final(self).blocks() == Set::<(usize, usize)>::empty(),
            final(self).window().1 - final(self).window().0 <= size,
            final(self).window().1 - final(self).window().0 >= size - 16,
    {
        let h = heap_create(size);
        self.heap = Some(h);
    }

    /// Serves one allocation from the window: exactly what the first-fit
    /// search of the current heap answers, so a request the heap can satisfy
    /// is owed its block. A request that does not fit fails cleanly: nothing
    /// is handed out and nothing already handed out changes.
    pub fn allocate(&mut self, size: usize, align: usize) -> (r: Option<usize>)
        requires
            old(self).is_initialized(),
            old(self).wf(),
            1 <= size,
            is_pow2(align),
            size + align <= isize::MAX,
        ensures
            final(self).is_initialized(),
            final(self).wf(),
            r == heap_fit(old(self).heap->0, size, align),
            final(self).window() == old(self).window(),
            match r {
                Some(a) => {
                    &&& a % align == 0
                    &&& old(self).window().0 <= a
                    &&& a + size <= old(self).window().1
                    &&& forall|b: (usize, usize)|
                        old(self).blocks().contains(b) ==> blocks_disjoint((a, size), b)
                    &&& final(self).blocks() == old(self).blocks().insert((a, size))
                },
                None => final(self).blocks() == old(self).blocks(),
            },
    {
        let r = match &mut self.heap {
            Some(h) => heap_allocate(h, size, align),
            None => {
                proof {
                    assert(false);
                }
                None
            },
        };
        proof {
            let bs0 = old(self).blocks();
            let w = old(self).window();
            if r is Some {
                let a = r->0;
                assert(self.blocks() == bs0.insert((a, size)));
                assert forall|b: (usize, usize)| self.blocks().contains(b) implies 1 <= b.1 && w.0
                    <= b.0 && b.0 + b.1 <= w.1 by {
                    if b != (a, size) {
                        assert(bs0.contains(b));
                    }
                }
                assert forall|b1: (usize, usize), b2: (usize, usize)|
                    self.blocks().contains(b1) && self.blocks().contains(b2) && b1
                        != b2 implies blocks_disjoint(b1, b2) by {
                    if b1 == (a, size) {
                        assert(bs0.contains(b2));
                    } else if b2 == (a, size) {
                        assert(bs0.contains(b1));
                    } else {
                        assert(bs0.contains(b1) && bs0.contains(b2));
                    }
                }
            }
        }
        r
    }

    /// The bytes still available for allocation.
    pub fn free(&self) -> (r: usize)
        requires
            self.is_initialized(),
        ensures
            r <= self.window().1 - self.window().0,
    {
        match &self.heap {
            Some(h) => heap_free_bytes(h),
            None => {
                proof {
                    assert(false);
                }
                0
            },
        }
    }
}

/// Any two allocations the arena has handed out in one run occupy disjoint
/// ranges inside the heap window: a successful allocation never overlaps an
/// earlier one.
pub proof fn lemma_allocations_disjoint(a: HeapArena, b1: (usize, usize), b2: (usize, usize))
    requires
        a.is_initialized(),
        a.wf(),
        a.blocks().contains(b1),
        a.blocks().contains(b2),
        b1 != b2,
    ensures
        blocks_disjoint(b1, b2),
        a.window().0 <= b1.0 && b1.0 + b1.1 <= a.window().1,
        a.window().0 <= b2.0 && b2.0 + b2.1 <= a.window().1,
{
}

/// Everything outside the heap window translates in `m1` exactly as it did
/// in `m0`.
pub open spec fn outside_window_preserved(m0: OffsetPageTable, m1: OffsetPageTable) -> bool {
    forall|p: u64|
        !heap_window_page(p) ==> (#[trigger] m1.mapping().dom().contains(p)
            == m0.mapping().dom().contains(p)) && (m0.mapping().dom().contains(p)
            ==> m1.mapping()[p] == m0.mapping()[p])
}

/// One step of the heap-backing loop: after page `k` gains its mapping, the
/// pages before it stay mapped, the pages after it stay as they were, and
/// everything outside the window is untouched.
proof fn lemma_heap_loop_step(
    m0: OffsetPageTable,
    mk: OffsetPageTable,
    mn: OffsetPageTable,
    page: u64,
    frame: u64,
    k: int,
)
    requires
        0 <= k < 25,
        page == heap_page(k),
        mn.mapping() == mk.mapping().insert(page, frame),
        !mk.mapping().dom().contains(page),
        forall|j: int|
            0 <= j < k ==> mk.mapping().dom().contains(#[trigger] heap_page(j))
                && !m0.mapping().dom().contains(heap_page(j)),
        forall|j: int|
            k <= j < 25 ==> mk.mapping().dom().contains(#[trigger] heap_page(j))
                == m0.mapping().dom().contains(heap_page(j)),
        outside_window_preserved(m0, mk),
    ensures
        forall|j: int|
            0 <= j < k + 1 ==> mn.mapping().dom().contains(#[trigger] heap_page(j))
                && !m0.mapping().dom().contains(heap_page(j)),
        forall|j: int|
            k + 1 <= j < 25 ==> mn.mapping().dom().contains(#[trigger] heap_page(j))
                == m0.mapping().dom().contains(heap_page(j)),
        outside_window_preserved(m0, mn),
{
    assert forall|j: int| 0 <= j < k + 1 implies mn.mapping().dom().contains(
        #[trigger] heap_page(j),
    ) && !m0.mapping().dom().contains(heap_page(j)) by {
        if j < k {
            assert(mk.mapping().dom().contains(heap_page(j)));
        } else {
            assert(heap_page(j) == page);
            assert(mk.mapping().dom().contains(heap_page(j)) == m0.mapping().dom().contains(
                heap_page(j),
            ));
        }
    }
    assert forall|j: int| k + 1 <= j < 25 implies mn.mapping().dom().contains(
        #[trigger] heap_page(j),
    ) == m0.mapping().dom().contains(heap_page(j)) by {
        lemma_heap_pages_distinct(j, k);
    }
    assert forall|p: u64| !heap_window_page(p) implies (#[trigger] mn.mapping().dom().contains(p)
        == m0.mapping().dom().contains(p)) && (m0.mapping().dom().contains(p) ==> mn.mapping()[p]
        == m0.mapping()[p]) by {
        lemma_heap_page_facts(k);
        assert(p != page);
        assert(mk.mapping().dom().contains(p) == m0.mapping().dom().contains(p));
    }
}

/// How many frames a heap initialization from this state still needs: one
/// per page of the window, plus the intermediate tables of the shared walk.
pub open spec fn heap_frames_needed(m: OffsetPageTable) -> int {
    25 + m.tables_needed(HEAP_START)
}

/// Computes the page range that covers the fixed heap window and maps every
/// page of it, present and writable, stopping at and propagating the first
/// failure; only once every page has succeeded is the window handed, exactly
/// once, to the general-purpose allocator.
#[verifier::loop_isolation(false)]
#[verifier::rlimit(100)]
pub fn init_heap<A: FrameSource>(
    mapper: &mut OffsetPageTable,
    frame_allocator: &mut A,
    arena: &mut HeapArena,
) -> (r: Result<(), MapError>)
    requires
        old(mapper).wf(),
        old(frame_allocator).inv(),
        old(frame_allocator).future_frames().no_duplicates(),
        old(mapper).bases_fresh(old(frame_allocator).future_frames()),
        !old(arena).is_initialized(),
    ensures
        final(mapper).wf(),
        final(frame_allocator).inv(),
        final(frame_allocator).future_frames().no_duplicates(),
        final(mapper).bases_fresh(final(frame_allocator).future_frames()),
        r is Ok <==> (forall|j: int|
            0 <= j < 25 ==> !old(mapper).mapping().dom().contains(#[trigger] heap_page(j))) && old(
            frame_allocator,
        ).future_frames().len() >= heap_frames_needed(*old(mapper)),
        r is Ok ==> final(arena).is_initialized() && final(arena).wf() && final(arena).blocks()
            == Set::<(usize, usize)>::empty() && (forall|j: int|
            0 <= j < 25 ==> final(mapper).mapping().dom().contains(#[trigger] heap_page(j)))
            && final(mapper).flushes@ == old(mapper).flushes@ + 25,
        r is Ok ==> forall|j: int|
            0 <= j < 25 ==> ((#[trigger] final(mapper).leaf_of(heap_page(j))) matches Some(e)
                && e.present && e.writable && !e.huge && old(
                frame_allocator,
            ).future_frames().contains(e.addr)),
        r is Ok ==> final(frame_allocator).future_frames() == old(
            frame_allocator,
        ).future_frames().skip(heap_frames_needed(*old(mapper))),
        r matches Err(e2) ==> e2 == MapError::PageAlreadyMapped
            || e2 == MapError::FrameAllocationFailed,
        r matches Err(MapError::PageAlreadyMapped) ==> exists|j: int|
            0 <= j < 25 && old(mapper).mapping().dom().contains(#[trigger] heap_page(j)),
        r matches Err(MapError::FrameAllocationFailed) ==> old(
            frame_allocator,
        ).future_frames().len() < heap_frames_needed(*old(mapper)),
        r is Err ==> *final(arena) == *old(arena),
        outside_window_preserved(*old(mapper), *final(mapper)),
{
    let ghost m0 = *old(mapper);
    let ghost fut0 = old(frame_allocator).future_frames();
    let ghost needed0 = m0.tables_needed(HEAP_START);
    proof {
        assert(fut0.skip(0) =~= fut0);
    }
    let mut k: usize = 0;
    while k < HEAP_PAGE_COUNT
        invariant
            k <= 25,
            mapper.wf(),
            frame_allocator.inv(),
            frame_allocator.future_frames().no_duplicates(),
            mapper.bases_fresh(frame_allocator.future_frames()),
            frame_allocator.future_frames() == fut0.skip(
                if k == 0 {
                    0int
                } else {
                    k + needed0
                },
            ),
            fut0.len() >= if k == 0 {
                0int
            } else {
                k + needed0
            },
            k >= 1 ==> forall|v: u64|
                l4_index(v) == l4_index(HEAP_START) && l3_index(v) == l3_index(HEAP_START)
                    && l2_index(v) == l2_index(HEAP_START) ==> #[trigger] mapper.tables_needed(v)
                    == 0,
            k == 0 ==> *mapper == m0,
            forall|j: int|
                0 <= j < k ==> mapper.mapping().dom().contains(#[trigger] heap_page(j))
                    && !m0.mapping().dom().contains(heap_page(j)),
            forall|j: int|
                0 <= j < k ==> ((#[trigger] mapper.leaf_of(heap_page(j))) matches Some(e)
                    && e.present && e.writable && !e.huge && fut0.contains(e.addr)),
            forall|j: int|
                k <= j < 25 ==> mapper.mapping().dom().contains(#[trigger] heap_page(j))
                    == m0.mapping().dom().contains(heap_page(j)),
            outside_window_preserved(m0, *mapper),
            mapper.flushes@ == m0.flushes@ + k,
        decreases 25 - k,
    {
        let ghost mk = *mapper;
        let ghost futk = frame_allocator.future_frames();
        let page: u64 = HEAP_START + 4096 * (k as u64);
        proof {
            lemma_heap_page_facts(k as int);
            assert(page == heap_page(k as int));
        }
        let frame = match frame_allocator.allocate_frame() {
            Some(f) => f,
            None => {
                proof {
                    assert(futk.len() == 0);
                    if k == 0 {
                        assert(fut0.len() == 0);
                    } else {
                        assert(fut0.len() == k + needed0);
                    }
                    assert(fut0.len() < 25 + needed0);
                }
                return Err(MapError::FrameAllocationFailed);
            },
        };
        let flags = PageFlags { writable: true };
        match mapper.map_to(page, frame, flags, frame_allocator) {
            Ok(_) => {},
            Err(e) => {
                proof {
                    let mcur = mk;
                    if e == MapError::PageAlreadyMapped {
                        assert(mcur.mapping().dom().contains(page));
                        assert(mcur.mapping().dom().contains(heap_page(k as int))
                            == m0.mapping().dom().contains(heap_page(k as int)));
                        assert(m0.mapping().dom().contains(heap_page(k as int)));
                        assert(exists|j: int|
                            0 <= j < 25 && m0.mapping().dom().contains(#[trigger] heap_page(j)));
                    } else {
                        // Exhaustion: the allocator could not supply the walk.
                        assert(futk.drop_first().len() < mcur.tables_needed(page));
                        if k == 0 {
                            assert(mcur.tables_needed(page) == needed0);
                            assert(fut0.len() < 1 + needed0);
                        } else {
                            assert(mcur.tables_needed(page) == 0);
                            assert(false);
                        }
                    }
                    assert(!((forall|j: int|
                        0 <= j < 25 ==> !m0.mapping().dom().contains(#[trigger] heap_page(j)))
                        && fut0.len() >= 25 + needed0));
                    assert(mapper.mapping() == mk.mapping());
                    assert forall|p: u64| !heap_window_page(p) implies (
                    #[trigger] mapper.mapping().dom().contains(p) == m0.mapping().dom().contains(
                        p,
                    )) && (m0.mapping().dom().contains(p) ==> mapper.mapping()[p]
                        == m0.mapping()[p]) by {
                        assert(mk.mapping().dom().contains(p) == m0.mapping().dom().contains(p));
                    }
                    assert(outside_window_preserved(m0, *mapper));
                }
                return Err(e);
            },
        }
        proof {
            // The mapping gained exactly this page.
            assert(mapper.mapping() == mk.mapping().insert(page, frame));
            assert(!mk.mapping().dom().contains(page));
            lemma_heap_loop_step(m0, mk, *mapper, page, frame, k as int);
            // Every page backed so far holds a present, writable leaf whose
            // frame the source offered.
            assert forall|j: int|
                0 <= j < k + 1 implies (#[trigger] mapper.leaf_of(heap_page(j))) matches Some(e)
                && e.present && e.writable && !e.huge && fut0.contains(e.addr) by {
                lemma_heap_page_facts(j);
                if j < k {
                    lemma_heap_pages_distinct(j, k as int);
                    assert(mapper.leaf_of(heap_page(j)) == mk.leaf_of(heap_page(j)));
                } else {
                    assert(mapper.leaf_of(page) == Some(leaf_entry(frame, true)));
                    assert(fut0.contains(frame)) by {
                        assert(futk.len() > 0 && futk[0] == frame);
                        if k == 0 {
                            assert(fut0[0] == frame);
                        } else {
                            assert(futk == fut0.skip(k + needed0));
                            assert(fut0[k + needed0] == frame);
                        }
                    }
                }
            }
            // Frame accounting.
            if k == 0 {
                assert(mk.tables_needed(page) == needed0);
                assert(frame_allocator.future_frames() == futk.drop_first().skip(needed0));
                assert(futk == fut0);
                assert(futk.drop_first() =~= fut0.skip(1));
                assert(fut0.skip(1).skip(needed0) =~= fut0.skip(1 + needed0));
                assert(fut0.len() >= 1 + needed0) by {
                    assert(futk.len() > 0);
                    assert(fut0.skip(1).len() >= needed0);
                }
            } else {
                assert(mk.tables_needed(page) == 0);
                assert(frame_allocator.future_frames() == futk.drop_first().skip(0));
                assert(futk.drop_first().skip(0) =~= futk.drop_first());
                assert(futk =~= fut0.skip(k + needed0));
                assert(futk.drop_first() =~= fut0.skip(k + 1 + needed0));
                assert(fut0.len() >= k + 1 + needed0) by {
                    assert(futk.len() > 0);
                }
            }
        }
        k += 1;
    }
    arena.init(HEAP_SIZE);
    proof {
        assert(fut0.len() >= 25 + needed0);
        assert(forall|j: int|
            0 <= j < 25 ==> !m0.mapping().dom().contains(#[trigger] heap_page(j)));
        assert(outside_window_preserved(m0, *mapper));
    }
    Ok(())
}

} // verus!
