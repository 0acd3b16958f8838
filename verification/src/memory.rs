//! Physical frame issuance from the firmware region map, and the model of the
//! four-level page-table structure with its mapping and translation walks.

use vstd::prelude::*;
use vstd::arithmetic::div_mod::lemma_fundamental_div_mod;

verus! {

/// Firmware-supplied description of one physical memory region.
#[derive(Debug, Clone, Copy, PartialEq, Eq, Structural)]
pub struct MemoryRegion {
    pub start: u64,
    pub len: u64,
    pub usable: bool,
}

/// The region's byte range stays inside the physical address space.
pub open spec fn region_wf(r: MemoryRegion) -> bool {
    r.start + r.len <= u64::MAX + 1
}

/// How many frame-sized steps start inside the region.
pub open spec fn region_frame_count(r: MemoryRegion) -> int {
    (r.len + 4095) / 4096
}

/// The frame base addresses issued from one region, in increasing order.
pub open spec fn region_frames(r: MemoryRegion) -> Seq<u64> {
    Seq::new(region_frame_count(r) as nat, |k: int| (r.start + 4096 * k) as u64)
}

/// All frames of the usable regions with index at least `i`, in issue order.
pub open spec fn usable_frames_from(regions: Seq<MemoryRegion>, i: int) -> Seq<u64>
    decreases regions.len() - i,
{
    if i < 0 || i >= regions.len() {
        Seq::empty()
    } else {
        (if regions[i].usable {
            region_frames(regions[i])
        } else {
            Seq::empty()
        }) + usable_frames_from(regions, i + 1)
    }
}

/// The frames that the firmware map offers for issuance, in issue order.
pub open spec fn usable_frames(regions: Seq<MemoryRegion>) -> Seq<u64> {
    usable_frames_from(regions, 0)
}

/// Usable regions do not overlap each other.
pub open spec fn regions_disjoint(rs: Seq<MemoryRegion>) -> bool {
    forall|i: int, j: int|
        0 <= i < j < rs.len() && (#[trigger] rs[i]).usable && (#[trigger] rs[j]).usable ==> (rs[
            i
        ].start + rs[i].len <= rs[j].start || rs[j].start + rs[j].len <= rs[i].start)
}

/// A supplier of physical frames. A source hands out the frames of
/// `future_frames` from the front; a frame that has left the sequence is never
/// offered again.
pub trait FrameSource: Sized {
    spec fn inv(&self) -> bool;

    spec fn future_frames(&self) -> Seq<u64>;

    fn allocate_frame(&mut self) -> (r: Option<u64>)
        requires
            old(self).inv(),
        ensures
            final(self).inv(),
            match r {
                Some(f) => f % 4096 == 0 && old(self).future_frames().len() > 0 && f == old(
                    self,
                ).future_frames()[0] && final(self).future_frames() == old(
                    self,
                ).future_frames().drop_first(),
                None => old(self).future_frames().len() == 0 && final(self).future_frames() == old(
                    self,
                ).future_frames(),
            },
    ;
}

/// A frame source that always answers `None`, for callers that must not
/// allocate.
pub struct EmptyFrameAllocator;

impl FrameSource for EmptyFrameAllocator {
    open spec fn inv(&self) -> bool {
        true
    }

    open spec fn future_frames(&self) -> Seq<u64> {
        Seq::empty()
    }

    fn allocate_frame(&mut self) -> (r: Option<u64>) {
        None
    }
}

/// Issues the usable frames of the firmware region map through a monotonic
/// cursor; issued frames are never reclaimed.
pub struct BootFrameAllocator {
    pub regions: Vec<MemoryRegion>,
    pub next: usize,
}

impl BootFrameAllocator {
    pub open spec fn wf(&self) -> bool {
        &&& forall|i: int| 0 <= i < self.regions@.len() ==> region_wf(#[trigger] self.regions@[i])
        &&& forall|i: int|
            0 <= i < self.regions@.len() && (#[trigger] self.regions@[i]).usable
                ==> self.regions@[i].start % 4096 == 0
        &&& usable_frames(self.regions@).len() <= usize::MAX
    }

    /// Every frame the map offers, in issue order.
    pub open spec fn frame_seq(&self) -> Seq<u64> {
        usable_frames(self.regions@)
    }

    /// Creates an allocator over the firmware map; the map's description of
    /// usable regions is trusted.
    pub fn init(regions: Vec<MemoryRegion>) -> (a: BootFrameAllocator)
        requires
            forall|i: int| 0 <= i < regions@.len() ==> region_wf(#[trigger] regions@[i]),
            forall|i: int|
                0 <= i < regions@.len() && (#[trigger] regions@[i]).usable ==> regions@[i].start
                    % 4096 == 0,
            usable_frames(regions@).len() <= usize::MAX,
        ensures
            a.wf(),
            a.regions@ == regions@,
            a.next == 0,
            a.future_frames() == a.frame_seq(),
    {
        let a = BootFrameAllocator { regions, next: 0 };
        proof {
            assert(a.frame_seq().skip(0) =~= a.frame_seq());
        }
        a
    }
}

impl FrameSource for BootFrameAllocator {
    open spec fn inv(&self) -> bool {
        self.wf()
    }

    /// The not-yet-issued tail of the frame sequence.
    open spec fn future_frames(&self) -> Seq<u64> {
        if self.next < self.frame_seq().len() {
            self.frame_seq().skip(self.next as int)
        } else {
            Seq::empty()
        }
    }

    #[verifier::loop_isolation(false)]
    fn allocate_frame(&mut self) -> (r: Option<u64>) {
        let n: usize = self.next;
        self.next = if self.next < usize::MAX {
            self.next + 1
        } else {
            self.next
        };
        let ghost s = self.frame_seq();
        let mut i: usize = 0;
        let mut rem: u64 = n as u64;
        proof {
            assert(s.skip(0) =~= usable_frames_from(self.regions@, 0));
        }
        while i < self.regions.len()
            invariant
                i <= self.regions@.len(),
                rem <= n,
                n - rem <= s.len(),
                s.skip(n - rem) == usable_frames_from(self.regions@, i as int),
            decreases self.regions@.len() - i,
        {
            let r = self.regions[i];
            if r.usable {
                let count: u64 = r.len / 4096 + if r.len % 4096 != 0 {
                    1u64
                } else {
                    0u64
                };
                proof {
                    lemma_fundamental_div_mod(r.len as int, 4096);
                    lemma_fundamental_div_mod(r.len + 4095, 4096);
                    assert(count == region_frame_count(r));
                }
                if rem < count {
                    proof {
                        assert(4096 * rem < r.len) by {
                            lemma_fundamental_div_mod(r.len as int, 4096);
                        }
                        assert(region_frames(r)[rem as int] == (r.start + 4096 * rem) as u64);
                        assert(s.skip(n - rem)[rem as int] == s[n as int]);
                        assert((region_frames(r) + usable_frames_from(self.regions@, i + 1))[
                            rem as int
                        ] == region_frames(r)[rem as int]);
                    }
                    let frame: u64 = r.start + 4096 * rem;
                    proof {
                        assert(frame % 4096 == 0) by {
                            vstd::arithmetic::div_mod::lemma_add_mod_noop(
                                r.start as int,
                                4096 * rem,
                                4096,
                            );
                            vstd::arithmetic::div_mod::lemma_mod_multiples_basic(rem as int, 4096);
                        }
                        assert(s.len() - (n - rem) == s.skip(n - rem).len());
                        assert(s.skip(n - rem).len() >= count);
                        assert(n < s.len());
                        assert(old(self).future_frames() == s.skip(n as int));
                        assert(s.skip(n as int)[0] == s[n as int]);
                        assert(frame == s[n as int]);
                        assert(self.next == n + 1);
                        assert(self.future_frames() =~= s.skip(n as int).drop_first());
                    }
                    return Some(frame);
                } else {
                    proof {
                        assert(usable_frames_from(self.regions@, i as int).skip(count as int)
                            =~= usable_frames_from(self.regions@, i + 1));
                        assert(s.skip(n - rem).skip(count as int) =~= s.skip(n - rem + count));
                    }
                    rem = rem - count;
                }
            } else {
                proof {
                    assert(usable_frames_from(self.regions@, i as int) == Seq::<u64>::empty()
                        + usable_frames_from(self.regions@, i + 1));
                    assert(Seq::<u64>::empty() + usable_frames_from(self.regions@, i + 1)
                        =~= usable_frames_from(self.regions@, i + 1));
                }
            }
            i = i + 1;
        }
        proof {
            assert(usable_frames_from(self.regions@, self.regions@.len() as int) == Seq::<
                u64,
            >::empty());
            assert(s.skip(n - rem).len() == 0);
            assert(n >= s.len());
            assert(old(self).future_frames() == Seq::<u64>::empty());
            assert(self.future_frames() == Seq::<u64>::empty());
        }
        None
    }
}

/// Every frame of a region lies inside the region's byte range.
proof fn lemma_region_frames_in_range(r: MemoryRegion)
    requires
        region_wf(r),
    ensures
        forall|k: int|
            0 <= k < region_frames(r).len() ==> r.start <= #[trigger] region_frames(r)[k]
                < r.start + r.len,
    decreases 0int,
{
    assert forall|k: int| 0 <= k < region_frames(r).len() implies r.start
        <= #[trigger] region_frames(r)[k] < r.start + r.len by {
        lemma_fundamental_div_mod(r.len + 4095, 4096);
        lemma_fundamental_div_mod(r.len as int, 4096);
        assert(4096 * k < r.len);
        assert(region_frames(r)[k] == (r.start + 4096 * k) as u64);
        assert(r.start + 4096 * k <= u64::MAX);
    }
}

/// No frame of a later usable region falls inside the byte range of an
/// earlier, disjoint usable region.
proof fn lemma_later_frames_outside(rs: Seq<MemoryRegion>, i: int, j: int, x: u64)
    requires
        forall|k: int| 0 <= k < rs.len() ==> region_wf(#[trigger] rs[k]),
        regions_disjoint(rs),
        0 <= i < j,
        rs[i].usable,
        rs[i].start <= x < rs[i].start + rs[i].len,
    ensures
        !usable_frames_from(rs, j).contains(x),
    decreases rs.len() - j,
{
    if j < rs.len() {
        lemma_later_frames_outside(rs, i, j + 1, x);
        if rs[j].usable {
            lemma_region_frames_in_range(rs[j]);
            let head = region_frames(rs[j]);
            let tail = usable_frames_from(rs, j + 1);
            assert forall|t: int| 0 <= t < usable_frames_from(rs, j).len() implies usable_frames_from(
                rs,
                j,
            )[t] != x by {
                if t < head.len() {
                    assert(usable_frames_from(rs, j)[t] == head[t]);
                } else {
                    assert(usable_frames_from(rs, j)[t] == tail[t - head.len()]);
                    assert(!tail.contains(x));
                }
            }
            assert(!usable_frames_from(rs, j).contains(x));
        } else {
            assert(usable_frames_from(rs, j) =~= usable_frames_from(rs, j + 1));
        }
    }
}

proof fn lemma_usable_frames_from_distinct(rs: Seq<MemoryRegion>, i: int)
    requires
        forall|k: int| 0 <= k < rs.len() ==> region_wf(#[trigger] rs[k]),
        regions_disjoint(rs),
    ensures
        usable_frames_from(rs, i).no_duplicates(),
    decreases rs.len() - i,
{
    if i < 0 || i >= rs.len() {
        assert(usable_frames_from(rs, i).no_duplicates());
    } else {
        lemma_usable_frames_from_distinct(rs, i + 1);
        let tail = usable_frames_from(rs, i + 1);
        if rs[i].usable {
            let head = region_frames(rs[i]);
            lemma_region_frames_in_range(rs[i]);
            let whole = usable_frames_from(rs, i);
            assert forall|m: int, n: int| 0 <= m < n < whole.len() implies whole[m] != whole[n] by {
                if n < head.len() {
                    assert(whole[m] == head[m] && whole[n] == head[n]);
                    assert(head[m] == (rs[i].start + 4096 * m) as u64);
                    assert(head[n] == (rs[i].start + 4096 * n) as u64);
                    lemma_region_frames_in_range(rs[i]);
                } else if m >= head.len() {
                    assert(whole[m] == tail[m - head.len()] && whole[n] == tail[n - head.len()]);
                } else {
                    assert(whole[m] == head[m] && whole[n] == tail[n - head.len()]);
                    lemma_later_frames_outside(rs, i, i + 1, head[m]);
                    assert(tail.contains(whole[n])) by {
                        assert(tail[n - head.len()] == whole[n]);
                    }
                    if whole[m] == whole[n] {
                        assert(tail.contains(head[m]));
                    }
                }
            }
        } else {
            assert(usable_frames_from(rs, i) =~= tail);
        }
    }
}

/// The frame allocator never returns the same physical frame twice across a
/// run: the frames the firmware map offers are pairwise distinct whenever its
/// usable regions do not overlap, and `allocate_frame` issues them in order
/// through a monotonic cursor.
pub proof fn lemma_frames_never_repeat(regions: Seq<MemoryRegion>)
    requires
        forall|k: int| 0 <= k < regions.len() ==> region_wf(#[trigger] regions[k]),
        regions_disjoint(regions),
    ensures
        usable_frames(regions).no_duplicates(),
{
    lemma_usable_frames_from_distinct(regions, 0);
}

/// One entry of a page table: a present flag, a writable flag, the
/// unsupported huge-page marker, and the physical address of the child table
/// or of the mapped frame.
#[derive(Debug, Clone, Copy, PartialEq, Eq, Structural)]
pub struct PageTableEntry {
    pub present: bool,
    pub writable: bool,
    pub huge: bool,
    pub addr: u64,
}

pub open spec fn absent_entry() -> PageTableEntry {
    PageTableEntry { present: false, writable: false, huge: false, addr: 0 }
}

/// One 512-entry table of the hierarchy, identified by the physical base
/// address of the frame that holds it. The level is bookkeeping of the model:
/// 4 for the top level, 1 for the level whose entries map frames.
#[verifier::ext_equal]
pub struct PageTable {
    pub base: u64,
    pub entries: Vec<PageTableEntry>,
    pub level: Ghost<int>,
}

/// Flags requested for a leaf mapping; the present flag is implied.
#[derive(Debug, Clone, Copy, PartialEq, Eq, Structural)]
pub struct PageFlags {
    pub writable: bool,
}

/// Why a mapping request failed.
#[derive(Debug, Clone, Copy, PartialEq, Eq, Structural)]
pub enum MapError {
    /// The frame source was exhausted while a missing intermediate table had
    /// to be created.
    FrameAllocationFailed,
    /// An upper-level entry marks a huge page where a table was expected.
    ParentEntryHugePage,
    /// The page already has a translation; it is left untouched.
    PageAlreadyMapped,
}

pub open spec fn l4_index(v: u64) -> int {
    ((v / 0x8000000000) % 512) as int
}

pub open spec fn l3_index(v: u64) -> int {
    ((v / 0x40000000) % 512) as int
}

pub open spec fn l2_index(v: u64) -> int {
    ((v / 0x200000) % 512) as int
}

pub open spec fn l1_index(v: u64) -> int {
    ((v / 4096) % 512) as int
}

pub open spec fn page_offset(v: u64) -> int {
    (v % 4096) as int
}

pub open spec fn page_base(v: u64) -> u64 {
    ((v / 4096) * 4096) as u64
}

/// Highest virtual address (exclusive) that the four-level walk can
/// distinguish.
pub open spec fn address_space_end() -> int {
    0x1000000000000
}

pub open spec fn table_wf(t: PageTable) -> bool {
    &&& t.entries@.len() == 512
    &&& 1 <= t.level@ <= 4
    &&& forall|e: int| 0 <= e < 512 ==> !(#[trigger] t.entries@[e]).huge
    &&& t.level@ == 1 ==> forall|e: int|
        0 <= e < 512 && (#[trigger] t.entries@[e]).present ==> t.entries@[e].addr % 4096 == 0
}

/// The model of the four-level translation structure: the top-level table's
/// address (obtained once from the privileged register), the linear-mapping
/// offset the firmware reported, the tables themselves, and a count of the
/// single-page translation-cache invalidations performed.
#[verifier::ext_equal]
pub struct OffsetPageTable {
    pub phys_offset: u64,
    pub root: u64,
    pub tables: Vec<PageTable>,
    pub flushes: Ghost<nat>,
}

impl OffsetPageTable {
    pub open spec fn has_table(&self, base: u64) -> bool {
        exists|i: int| 0 <= i < self.tables@.len() && (#[trigger] self.tables@[i]).base == base
    }

    pub open spec fn table_index_of(&self, base: u64) -> int {
        choose|i: int| 0 <= i < self.tables@.len() && (#[trigger] self.tables@[i]).base == base
    }

    pub open spec fn entries_of(&self, base: u64) -> Seq<PageTableEntry> {
        self.tables@[self.table_index_of(base)].entries@
    }

    pub open spec fn entry_of(&self, base: u64, idx: int) -> PageTableEntry {
        self.entries_of(base)[idx]
    }

    pub open spec fn level_of(&self, base: u64) -> int {
        self.tables@[self.table_index_of(base)].level@
    }

    pub open spec fn wf(&self) -> bool {
        &&& forall|i: int| 0 <= i < self.tables@.len() ==> table_wf(#[trigger] self.tables@[i])
        &&& forall|i: int, j: int|
            0 <= i < j < self.tables@.len() ==> (#[trigger] self.tables@[i]).base != (
            #[trigger] self.tables@[j]).base
        &&& self.has_table(self.root)
        &&& self.level_of(self.root) == 4
        &&& forall|i: int, e: int|
            0 <= i < self.tables@.len() && 0 <= e < 512 && self.tables@[i].level@ >= 2 && (
            #[trigger] self.tables@[i].entries@[e]).present ==> self.has_table(
                self.tables@[i].entries@[e].addr,
            ) && self.level_of(self.tables@[i].entries@[e].addr) == self.tables@[i].level@ - 1
        &&& forall|i1: int, e1: int, i2: int, e2: int|
            0 <= i1 < self.tables@.len() && 0 <= e1 < 512 && 0 <= i2 < self.tables@.len() && 0 <= e2
                < 512 && self.tables@[i1].level@ >= 2 && self.tables@[i2].level@ >= 2 && (
            #[trigger] self.tables@[i1].entries@[e1]).present && (
            #[trigger] self.tables@[i2].entries@[e2]).present
                && self.tables@[i1].entries@[e1].addr == self.tables@[i2].entries@[e2].addr ==> i1
                == i2 && e1 == e2
    }

    /// The base of the level-1 table that the walk of `v` reads, where the
    /// three upper levels of the path are present.
    pub open spec fn l1_base_of(&self, v: u64) -> Option<u64> {
        if !self.has_table(self.root) {
            None
        } else {
            let e4 = self.entry_of(self.root, l4_index(v));
            if !e4.present || e4.huge || !self.has_table(e4.addr) {
                None
            } else {
                let e3 = self.entry_of(e4.addr, l3_index(v));
                if !e3.present || e3.huge || !self.has_table(e3.addr) {
                    None
                } else {
                    let e2 = self.entry_of(e3.addr, l2_index(v));
                    if !e2.present || e2.huge || !self.has_table(e2.addr) {
                        None
                    } else {
                        Some(e2.addr)
                    }
                }
            }
        }
    }

    /// The leaf entry that the walk of `v` reads, if the path to it is
    /// complete.
    pub open spec fn leaf_of(&self, v: u64) -> Option<PageTableEntry> {
        match self.l1_base_of(v) {
            Some(b1) => Some(self.entry_of(b1, l1_index(v))),
            None => None,
        }
    }

    /// The physical address that the structure translates `v` to, if any.
    pub open spec fn translate_spec(&self, v: u64) -> Option<u64> {
        match self.leaf_of(v) {
            Some(e) => if e.present && !e.huge {
                Some((e.addr + page_offset(v)) as u64)
            } else {
                None
            },
            None => None,
        }
    }

    /// The page-to-frame binding the structure encodes, over the virtual
    /// range the walk distinguishes.
    pub open spec fn mapping(&self) -> Map<u64, u64> {
        Map::new(
            |p: u64|
                p % 4096 == 0 && p < address_space_end() && (self.leaf_of(p) matches Some(e)
                    && e.present && !e.huge),
            |p: u64| self.leaf_of(p)->Some_0.addr,
        )
    }

    /// How many intermediate tables a mapping of `v` would still have to
    /// create.
    pub open spec fn tables_needed(&self, v: u64) -> int {
        if !self.has_table(self.root) {
            3
        } else {
            let e4 = self.entry_of(self.root, l4_index(v));
            if !e4.present {
                3
            } else if !self.has_table(e4.addr) {
                3
            } else {
                let e3 = self.entry_of(e4.addr, l3_index(v));
                if !e3.present {
                    2
                } else if !self.has_table(e3.addr) {
                    2
                } else {
                    let e2 = self.entry_of(e3.addr, l2_index(v));
                    if !e2.present {
                        1
                    } else {
                        0
                    }
                }
            }
        }
    }

    /// No frame that the source may still issue is the base of an existing
    /// table.
    pub open spec fn bases_fresh(&self, fut: Seq<u64>) -> bool {
        forall|k: int| 0 <= k < fut.len() ==> !self.has_table(#[trigger] fut[k])
    }

    fn find_table(&self, base: u64) -> (r: Option<usize>)
        requires
            self.wf(),
        ensures
            match r {
                Some(i) => i < self.tables@.len() && self.tables@[i as int].base == base
                    && self.has_table(base) && self.table_index_of(base) == i as int,
                None => !self.has_table(base),
            },
    {
        let n: usize = self.tables.len();
        let mut i: usize = 0;
        while i < n
            invariant
                i <= n,
                n == self.tables@.len(),
                self.wf(),
                forall|k: int| 0 <= k < i ==> (#[trigger] self.tables@[k]).base != base,
            decreases n - i,
        {
            if self.tables[i].base == base {
                proof {
                    let j = self.table_index_of(base);
                    assert(0 <= j < self.tables@.len() && self.tables@[j].base == base);
                    assert(j == i);
                }
                return Some(i);
            }
            i += 1;
        }
        proof {
            if self.has_table(base) {
                let j = self.table_index_of(base);
                assert(self.tables@[j].base == base);
            }
        }
        None
    }
}

/// The entry that links a parent table to the child table at `b`.
pub open spec fn link_entry(b: u64) -> PageTableEntry {
    PageTableEntry { present: true, writable: true, huge: false, addr: b }
}

/// The entry that maps a page to the frame at `f`.
pub open spec fn leaf_entry(f: u64, writable: bool) -> PageTableEntry {
    PageTableEntry { present: true, writable, huge: false, addr: f }
}

pub open spec fn same_table(a: PageTable, b: PageTable) -> bool {
    a.base == b.base && a.level == b.level && a.entries@ == b.entries@
}

/// `m2` is `m1` with the single entry `e` of the table at index `ti`
/// replaced by `val`.
pub open spec fn updated_entry(
    m1: OffsetPageTable,
    m2: OffsetPageTable,
    ti: int,
    e: int,
    val: PageTableEntry,
) -> bool {
    &&& 0 <= ti < m1.tables@.len()
    &&& 0 <= e < 512
    &&& m2.root == m1.root
    &&& m2.tables@.len() == m1.tables@.len()
    &&& m2.tables@[ti].base == m1.tables@[ti].base
    &&& m2.tables@[ti].level == m1.tables@[ti].level
    &&& m2.tables@[ti].entries@ == m1.tables@[ti].entries@.update(e, val)
    &&& forall|i: int|
        0 <= i < m1.tables@.len() && i != ti ==> same_table(
            #[trigger] m2.tables@[i],
            m1.tables@[i],
        )
}

/// `m2` extends `m1` by one reachable-from-nothing table at base `tb` whose
/// entries are all absent; everything else is unchanged.
pub open spec fn extends_with_fresh_table(
    m1: OffsetPageTable,
    m2: OffsetPageTable,
    tb: u64,
) -> bool {
    &&& m2.root == m1.root
    &&& !m1.has_table(tb)
    &&& m2.has_table(tb)
    &&& forall|bb: u64| #[trigger] m2.has_table(bb) <==> m1.has_table(bb) || bb == tb
    &&& forall|bb: u64|
        m1.has_table(bb) ==> #[trigger] m2.entries_of(bb) == m1.entries_of(bb) && m2.level_of(bb)
            == m1.level_of(bb)
    &&& forall|e: int| 0 <= e < 512 ==> !(#[trigger] m2.entry_of(tb, e)).present
    &&& m2.entries_of(tb).len() == 512
}

/// Adding a table that nothing links to leaves every lookup of the old
/// tables, and every translation, unchanged.
proof fn lemma_push_table(m1: OffsetPageTable, m2: OffsetPageTable, t: PageTable)
    requires
        m1.wf(),
        table_wf(t),
        !m1.has_table(t.base),
        forall|e: int| 0 <= e < 512 ==> !(#[trigger] t.entries@[e]).present,
        m2.tables@ == m1.tables@.push(t),
        m2.root == m1.root,
    ensures
        m2.wf(),
        extends_with_fresh_table(m1, m2, t.base),
        m2.level_of(t.base) == t.level@,
        forall|v: u64| #[trigger] m2.translate_spec(v) == m1.translate_spec(v),
        forall|v: u64| #[trigger] m2.leaf_of(v) == m1.leaf_of(v),
        m2.mapping() == m1.mapping(),
{
    let n = m1.tables@.len();
    assert forall|i: int, j: int| 0 <= i < j < m2.tables@.len() implies (
    #[trigger] m2.tables@[i]).base != (#[trigger] m2.tables@[j]).base by {
        if j < n {
        } else {
            assert(m2.tables@[j] == t);
            assert(m2.tables@[i] == m1.tables@[i]);
            if m1.tables@[i].base == t.base {
                assert(m1.has_table(t.base));
            }
        }
    }
    assert(m2.tables@[n as int] == t);
    assert(m2.has_table(t.base));
    assert(m2.table_index_of(t.base) == n) by {
        let j = m2.table_index_of(t.base);
        assert(0 <= j < m2.tables@.len() && m2.tables@[j].base == t.base);
        if j < n {
            assert(m1.tables@[j].base == t.base);
            assert(m1.has_table(t.base));
        }
    }
    assert forall|bb: u64| m1.has_table(bb) implies #[trigger] m2.entries_of(bb)
        == m1.entries_of(bb) && m2.level_of(bb) == m1.level_of(bb) && m2.table_index_of(bb)
        == m1.table_index_of(bb) && m2.has_table(bb) by {
        let i = m1.table_index_of(bb);
        assert(0 <= i < n && m1.tables@[i].base == bb);
        assert(m2.tables@[i].base == bb);
        assert(m2.has_table(bb));
        let j = m2.table_index_of(bb);
        assert(0 <= j < m2.tables@.len() && m2.tables@[j].base == bb);
        assert(j == i);
    }
    assert forall|bb: u64| #[trigger] m2.has_table(bb) implies m1.has_table(bb) || bb
        == t.base by {
        let i = m2.table_index_of(bb);
        if i < n {
            assert(m1.tables@[i].base == bb);
        }
    }
    assert forall|bb: u64| m1.has_table(bb) implies #[trigger] m2.has_table(bb) by {
        let i = m1.table_index_of(bb);
        assert(0 <= i < n && m1.tables@[i].base == bb);
        assert(m2.tables@[i].base == bb);
    }
    assert(m2.entries_of(t.base) == t.entries@);
    assert(m2.entries_of(t.base).len() == 512);
    assert forall|e: int| 0 <= e < 512 implies !(#[trigger] m2.entry_of(t.base, e)).present by {
        assert(m2.entry_of(t.base, e) == t.entries@[e]);
    }
    assert(extends_with_fresh_table(m1, m2, t.base));
    // Well-formedness of the extended structure.
    assert forall|i: int| 0 <= i < m2.tables@.len() implies table_wf(#[trigger] m2.tables@[i]) by {
        if i < n {
            assert(m2.tables@[i] == m1.tables@[i]);
        } else {
            assert(m2.tables@[i] == t);
        }
    }
    assert(m2.level_of(m2.root) == 4);
    assert forall|i: int, e: int|
        0 <= i < m2.tables@.len() && 0 <= e < 512 && m2.tables@[i].level@ >= 2 && (
        #[trigger] m2.tables@[i].entries@[e]).present implies m2.has_table(
        m2.tables@[i].entries@[e].addr,
    ) && m2.level_of(m2.tables@[i].entries@[e].addr) == m2.tables@[i].level@ - 1 by {
        if i < n {
            assert(m2.tables@[i] == m1.tables@[i]);
            assert(m1.tables@[i].entries@[e] == m2.tables@[i].entries@[e]);
            let ad = m1.tables@[i].entries@[e].addr;
            assert(m1.has_table(ad) && m1.level_of(ad) == m1.tables@[i].level@ - 1);
            assert(m2.entries_of(ad) == m1.entries_of(ad));
        } else {
            assert(m2.tables@[i] == t);
            assert(!t.entries@[e].present);
        }
    }
    assert forall|i1: int, e1: int, i2: int, e2: int|
        0 <= i1 < m2.tables@.len() && 0 <= e1 < 512 && 0 <= i2 < m2.tables@.len() && 0 <= e2 < 512
            && m2.tables@[i1].level@ >= 2 && m2.tables@[i2].level@ >= 2 && (
        #[trigger] m2.tables@[i1].entries@[e1]).present && (
        #[trigger] m2.tables@[i2].entries@[e2]).present && m2.tables@[i1].entries@[e1].addr
            == m2.tables@[i2].entries@[e2].addr implies i1 == i2 && e1 == e2 by {
        if i1 < n && i2 < n {
            assert(m2.tables@[i1] == m1.tables@[i1]);
            assert(m2.tables@[i2] == m1.tables@[i2]);
        } else if i1 == n {
            assert(m2.tables@[i1] == t);
            assert(!t.entries@[e1].present);
        } else {
            assert(m2.tables@[i2] == t);
            assert(!t.entries@[e2].present);
        }
    }
    assert(m2.wf());
    assert forall|v: u64| #[trigger] m2.translate_spec(v) == m1.translate_spec(v) by {
        lemma_translate_preserved_fresh(m1, m2, t.base, v);
    }
    assert forall|p: u64| #[trigger] m2.leaf_of(p) == m1.leaf_of(p) by {
        lemma_leaf_preserved_fresh(m1, m2, t.base, p);
    }
    assert(m2.mapping() =~= m1.mapping());
}

/// One walk, compared step by step between a structure and its extension by
/// an unreachable table.
proof fn lemma_leaf_preserved_fresh(m1: OffsetPageTable, m2: OffsetPageTable, tb: u64, v: u64)
    requires
        m1.wf(),
        extends_with_fresh_table(m1, m2, tb),
    ensures
        m2.leaf_of(v) == m1.leaf_of(v),
{
    assert(m1.has_table(m1.root));
    assert(m2.entries_of(m1.root) == m1.entries_of(m1.root));
    let e4 = m1.entry_of(m1.root, l4_index(v));
    let ri = m1.table_index_of(m1.root);
    assert(m1.tables@[ri].entries@[l4_index(v)] == e4);
    if e4.present && !e4.huge {
        assert(m1.has_table(e4.addr) && m1.level_of(e4.addr) == 3);
        assert(m2.entries_of(e4.addr) == m1.entries_of(e4.addr));
        let e3 = m1.entry_of(e4.addr, l3_index(v));
        let i3t = m1.table_index_of(e4.addr);
        assert(m1.tables@[i3t].entries@[l3_index(v)] == e3);
        if e3.present && !e3.huge {
            assert(m1.has_table(e3.addr) && m1.level_of(e3.addr) == 2);
            assert(m2.entries_of(e3.addr) == m1.entries_of(e3.addr));
            let e2 = m1.entry_of(e3.addr, l2_index(v));
            let i2t = m1.table_index_of(e3.addr);
            assert(m1.tables@[i2t].entries@[l2_index(v)] == e2);
            if e2.present && !e2.huge {
                assert(m1.has_table(e2.addr) && m1.level_of(e2.addr) == 1);
                assert(m2.entries_of(e2.addr) == m1.entries_of(e2.addr));
            }
        }
    }
}

proof fn lemma_translate_preserved_fresh(m1: OffsetPageTable, m2: OffsetPageTable, tb: u64, v: u64)
    requires
        m1.wf(),
        extends_with_fresh_table(m1, m2, tb),
    ensures
        m2.translate_spec(v) == m1.translate_spec(v),
{
    lemma_leaf_preserved_fresh(m1, m2, tb, v);
}

/// Installing a link from an absent slot of a level-`L` table to an empty,
/// parentless level-`L - 1` table changes no translation: pages under the new
/// link now descend into a table whose entries are all absent.
proof fn lemma_set_link(m1: OffsetPageTable, m2: OffsetPageTable, parent: u64, idx: int, b: u64)
    requires
        m1.wf(),
        m1.has_table(parent),
        m1.level_of(parent) >= 2,
        0 <= idx < 512,
        !m1.entry_of(parent, idx).present,
        m1.has_table(b),
        m1.level_of(b) == m1.level_of(parent) - 1,
        forall|e: int| 0 <= e < 512 ==> !(#[trigger] m1.entry_of(b, e)).present,
        forall|i: int, e: int|
            0 <= i < m1.tables@.len() && 0 <= e < 512 && m1.tables@[i].level@ >= 2 && (
            #[trigger] m1.tables@[i].entries@[e]).present ==> m1.tables@[i].entries@[e].addr != b,
        updated_entry(m1, m2, m1.table_index_of(parent), idx, link_entry(b)),
    ensures
        m2.wf(),
        forall|bb: u64| #[trigger] m2.has_table(bb) <==> m1.has_table(bb),
        forall|bb: u64|
            m1.has_table(bb) && bb != parent ==> #[trigger] m2.entries_of(bb) == m1.entries_of(bb),
        forall|bb: u64| m1.has_table(bb) ==> #[trigger] m2.level_of(bb) == m1.level_of(bb),
        m2.entries_of(parent) == m1.entries_of(parent).update(idx, link_entry(b)),
        forall|v: u64| #[trigger] m2.translate_spec(v) == m1.translate_spec(v),
        forall|v: u64|
            (m1.leaf_of(v) matches Some(e) && e.present) ==> (#[trigger] m2.leaf_of(v))
                == m1.leaf_of(v),
        m2.mapping() == m1.mapping(),
{
    let ti = m1.table_index_of(parent);
    assert(0 <= ti < m1.tables@.len() && m1.tables@[ti].base == parent);
    assert forall|i: int| 0 <= i < m2.tables@.len() implies (#[trigger] m2.tables@[i]).base
        == m1.tables@[i].base && m2.tables@[i].level == m1.tables@[i].level by {
        if i != ti {
            assert(same_table(m2.tables@[i], m1.tables@[i]));
        }
    }
    assert forall|bb: u64| #[trigger] m2.has_table(bb) <==> m1.has_table(bb) by {
        if m2.has_table(bb) {
            let i = m2.table_index_of(bb);
            assert(m1.tables@[i].base == bb);
        }
        if m1.has_table(bb) {
            let i = m1.table_index_of(bb);
            assert(m2.tables@[i].base == bb);
        }
    }
    assert forall|bb: u64| m1.has_table(bb) implies #[trigger] m2.table_index_of(bb)
        == m1.table_index_of(bb) by {
        let i = m1.table_index_of(bb);
        assert(m2.tables@[i].base == bb);
        let j = m2.table_index_of(bb);
        assert(m2.tables@[j].base == bb);
        assert(m1.tables@[j].base == bb);
        assert(j == i);
    }
    assert forall|bb: u64| m1.has_table(bb) && bb != parent implies #[trigger] m2.entries_of(bb)
        == m1.entries_of(bb) by {
        let i = m1.table_index_of(bb);
        assert(i != ti);
        assert(same_table(m2.tables@[i], m1.tables@[i]));
    }
    assert forall|bb: u64| m1.has_table(bb) implies #[trigger] m2.level_of(bb) == m1.level_of(
        bb,
    ) by {
        let i = m1.table_index_of(bb);
    }
    assert(m2.table_index_of(parent) == ti);
    assert(m2.entries_of(parent) == m1.entries_of(parent).update(idx, link_entry(b)));
    assert(b != parent);
    assert(m2.entries_of(b) == m1.entries_of(b));
    // Well-formedness of the updated structure.
    assert forall|i: int| 0 <= i < m2.tables@.len() implies table_wf(#[trigger] m2.tables@[i]) by {
        if i != ti {
            assert(same_table(m2.tables@[i], m1.tables@[i]));
            assert(table_wf(m1.tables@[i]));
            assert forall|e: int| 0 <= e < 512 implies !(#[trigger] m2.tables@[i].entries@[e]).huge
                && (m2.tables@[i].level@ == 1 && m2.tables@[i].entries@[e].present
                ==> m2.tables@[i].entries@[e].addr % 4096 == 0) by {
                assert(m2.tables@[i].entries@[e] == m1.tables@[i].entries@[e]);
            }
        } else {
            assert(m2.tables@[i].level@ >= 2);
            assert forall|e: int| 0 <= e < 512 implies !(#[trigger] m2.tables@[i].entries@[e]).huge
                by {
                if e == idx {
                    assert(m2.tables@[i].entries@[e] == link_entry(b));
                } else {
                    assert(m2.tables@[i].entries@[e] == m1.tables@[i].entries@[e]);
                }
            }
        }
    }
    assert(m2.has_table(m2.root) && m2.level_of(m2.root) == 4);
    assert forall|i: int, e: int|
        0 <= i < m2.tables@.len() && 0 <= e < 512 && m2.tables@[i].level@ >= 2 && (
        #[trigger] m2.tables@[i].entries@[e]).present implies m2.has_table(
        m2.tables@[i].entries@[e].addr,
    ) && m2.level_of(m2.tables@[i].entries@[e].addr) == m2.tables@[i].level@ - 1 by {
        if i == ti && e == idx {
            assert(m2.tables@[i].entries@[e] == link_entry(b));
            assert(m2.has_table(b));
            assert(m2.level_of(b) == m1.level_of(b));
        } else {
            if i == ti {
                assert(m2.tables@[i].entries@[e] == m1.tables@[i].entries@[e]);
            } else {
                assert(same_table(m2.tables@[i], m1.tables@[i]));
                assert(m2.tables@[i].entries@[e] == m1.tables@[i].entries@[e]);
            }
            let ad = m1.tables@[i].entries@[e].addr;
            assert(m1.has_table(ad) && m1.level_of(ad) == m1.tables@[i].level@ - 1);
            assert(m2.level_of(ad) == m1.level_of(ad));
        }
    }
    assert forall|i1: int, e1: int, i2: int, e2: int|
        0 <= i1 < m2.tables@.len() && 0 <= e1 < 512 && 0 <= i2 < m2.tables@.len() && 0 <= e2 < 512
            && m2.tables@[i1].level@ >= 2 && m2.tables@[i2].level@ >= 2 && (
        #[trigger] m2.tables@[i1].entries@[e1]).present && (
        #[trigger] m2.tables@[i2].entries@[e2]).present && m2.tables@[i1].entries@[e1].addr
            == m2.tables@[i2].entries@[e2].addr implies i1 == i2 && e1 == e2 by {
        if i1 == ti && e1 == idx {
            assert(m2.tables@[i1].entries@[e1] == link_entry(b));
        } else {
            if i1 != ti {
                assert(same_table(m2.tables@[i1], m1.tables@[i1]));
            }
            assert(m2.tables@[i1].entries@[e1] == m1.tables@[i1].entries@[e1]);
        }
        if i2 == ti && e2 == idx {
            assert(m2.tables@[i2].entries@[e2] == link_entry(b));
        } else {
            if i2 != ti {
                assert(same_table(m2.tables@[i2], m1.tables@[i2]));
            }
            assert(m2.tables@[i2].entries@[e2] == m1.tables@[i2].entries@[e2]);
        }
        if (i1 == ti && e1 == idx) && !(i2 == ti && e2 == idx) {
            assert(m1.tables@[i2].entries@[e2].addr != b);
            assert(false);
        }
        if (i2 == ti && e2 == idx) && !(i1 == ti && e1 == idx) {
            assert(m1.tables@[i1].entries@[e1].addr != b);
            assert(false);
        }
    }
    assert(m2.wf());
    // Translations are unchanged, level by level.
    assert forall|v: u64| #[trigger] m2.translate_spec(v) == m1.translate_spec(v) by {
        let rt = m1.root;
        let rti = m1.table_index_of(rt);
        let e4_1 = m1.entry_of(rt, l4_index(v));
        assert(m1.tables@[rti].entries@[l4_index(v)] == e4_1);
        if rt == parent && idx == l4_index(v) {
            assert(m2.entry_of(rt, l4_index(v)) == link_entry(b));
            assert(m1.level_of(b) == 3);
            assert(!m2.entry_of(b, l3_index(v)).present) by {
                assert(m2.entries_of(b) == m1.entries_of(b));
                assert(!m1.entry_of(b, l3_index(v)).present);
            }
            assert(m2.translate_spec(v) is None && m1.translate_spec(v) is None);
        } else {
            assert(m2.entry_of(rt, l4_index(v)) == e4_1);
            if e4_1.present && !e4_1.huge {
                let b3 = e4_1.addr;
                assert(m1.has_table(b3) && m1.level_of(b3) == 3);
                let t3i = m1.table_index_of(b3);
                let e3_1 = m1.entry_of(b3, l3_index(v));
                assert(m1.tables@[t3i].entries@[l3_index(v)] == e3_1);
                if b3 == parent && idx == l3_index(v) {
                    assert(m2.entry_of(b3, l3_index(v)) == link_entry(b));
                    assert(m1.level_of(b) == 2);
                    assert(!m2.entry_of(b, l2_index(v)).present) by {
                        assert(m2.entries_of(b) == m1.entries_of(b));
                        assert(!m1.entry_of(b, l2_index(v)).present);
                    }
                    assert(m2.translate_spec(v) is None && m1.translate_spec(v) is None);
                } else {
                    assert(m2.entry_of(b3, l3_index(v)) == e3_1) by {
                        if b3 == parent {
                            assert(m2.entries_of(parent)[l3_index(v)] == m1.entries_of(
                                parent,
                            )[l3_index(v)]);
                        }
                    }
                    if e3_1.present && !e3_1.huge {
                        let b2 = e3_1.addr;
                        assert(m1.has_table(b2) && m1.level_of(b2) == 2);
                        let t2i = m1.table_index_of(b2);
                        let e2_1 = m1.entry_of(b2, l2_index(v));
                        assert(m1.tables@[t2i].entries@[l2_index(v)] == e2_1);
                        if b2 == parent && idx == l2_index(v) {
                            assert(m2.entry_of(b2, l2_index(v)) == link_entry(b));
                            assert(m1.level_of(b) == 1);
                            assert(!m2.entry_of(b, l1_index(v)).present) by {
                                assert(m2.entries_of(b) == m1.entries_of(b));
                                assert(!m1.entry_of(b, l1_index(v)).present);
                            }
                            assert(m2.translate_spec(v) is None && m1.translate_spec(v) is None);
                        } else {
                            assert(m2.entry_of(b2, l2_index(v)) == e2_1) by {
                                if b2 == parent {
                                    assert(m2.entries_of(parent)[l2_index(v)] == m1.entries_of(
                                        parent,
                                    )[l2_index(v)]);
                                }
                            }
                            if e2_1.present && !e2_1.huge {
                                let b1 = e2_1.addr;
                                assert(m1.has_table(b1) && m1.level_of(b1) == 1);
                                assert(b1 != parent);
                                assert(m2.entries_of(b1) == m1.entries_of(b1));
                                assert(m2.entry_of(b1, l1_index(v)) == m1.entry_of(
                                    b1,
                                    l1_index(v),
                                ));
                            }
                        }
                    }
                }
            }
        }
    }
    // A complete, all-present walk never reads the changed (absent) slot, so
    // a present leaf keeps its value.
    assert forall|v: u64| (m1.leaf_of(v) matches Some(e) && e.present) implies (
    #[trigger] m2.leaf_of(v)) == m1.leaf_of(v) by {
        let rt = m1.root;
        let rti = m1.table_index_of(rt);
        let e4_1 = m1.entry_of(rt, l4_index(v));
        assert(m1.tables@[rti].entries@[l4_index(v)] == e4_1);
        if rt == parent && idx == l4_index(v) {
            assert(!e4_1.present);
            assert(m1.l1_base_of(v) is None);
        } else {
            assert(m2.entry_of(rt, l4_index(v)) == e4_1);
            if e4_1.present && !e4_1.huge {
                let b3 = e4_1.addr;
                assert(m1.has_table(b3) && m1.level_of(b3) == 3);
                let t3i = m1.table_index_of(b3);
                let e3_1 = m1.entry_of(b3, l3_index(v));
                assert(m1.tables@[t3i].entries@[l3_index(v)] == e3_1);
                if b3 == parent && idx == l3_index(v) {
                    assert(!e3_1.present);
                    assert(m1.l1_base_of(v) is None);
                } else {
                    assert(m2.entry_of(b3, l3_index(v)) == e3_1) by {
                        if b3 == parent {
                            assert(m2.entries_of(parent)[l3_index(v)] == m1.entries_of(
                                parent,
                            )[l3_index(v)]);
                        }
                    }
                    if e3_1.present && !e3_1.huge {
                        let b2 = e3_1.addr;
                        assert(m1.has_table(b2) && m1.level_of(b2) == 2);
                        let t2i = m1.table_index_of(b2);
                        let e2_1 = m1.entry_of(b2, l2_index(v));
                        assert(m1.tables@[t2i].entries@[l2_index(v)] == e2_1);
                        if b2 == parent && idx == l2_index(v) {
                            assert(!e2_1.present);
                            assert(m1.l1_base_of(v) is None);
                        } else {
                            assert(m2.entry_of(b2, l2_index(v)) == e2_1) by {
                                if b2 == parent {
                                    assert(m2.entries_of(parent)[l2_index(v)] == m1.entries_of(
                                        parent,
                                    )[l2_index(v)]);
                                }
                            }
                            if e2_1.present && !e2_1.huge {
                                let b1 = e2_1.addr;
                                assert(m1.has_table(b1) && m1.level_of(b1) == 1);
                                assert(b1 != parent);
                                assert(m2.entries_of(b1) == m1.entries_of(b1));
                                assert(m2.entry_of(b1, l1_index(v)) == m1.entry_of(
                                    b1,
                                    l1_index(v),
                                ));
                            }
                        }
                    }
                }
            }
        }
    }
    assert(m2.mapping() =~= m1.mapping()) by {
        assert forall|p: u64| #[trigger] m2.mapping().dom().contains(p) <==> m1.mapping(
        ).dom().contains(p) by {
            assert(m2.translate_spec(p) == m1.translate_spec(p));
        }
        assert forall|p: u64| m1.mapping().dom().contains(p) implies #[trigger] m2.mapping()[p]
            == m1.mapping()[p] by {
            assert(m2.translate_spec(p) == m1.translate_spec(p));
            let e1 = m1.leaf_of(p)->Some_0;
            let e2 = m2.leaf_of(p)->Some_0;
            assert(m1.translate_spec(p) == Some((e1.addr + page_offset(p)) as u64));
            assert(m2.translate_spec(p) == Some((e2.addr + page_offset(p)) as u64));
            assert(page_offset(p) == 0);
        }
    }
}

/// Two aligned pages whose walks read the same level-1 table at the same
/// slot are the same page: each table has exactly one parent link, so the
/// shared leaf slot forces all four indexes to agree.
proof fn lemma_path_unique(m: OffsetPageTable, p1: u64, p2: u64)
    requires
        m.wf(),
        p1 % 4096 == 0,
        p2 % 4096 == 0,
        p1 < 0x1000000000000,
        p2 < 0x1000000000000,
        m.l1_base_of(p1) is Some,
        m.l1_base_of(p2) == m.l1_base_of(p1),
        l1_index(p1) == l1_index(p2),
    ensures
        p1 == p2,
{
    let rt = m.root;
    let rti = m.table_index_of(rt);
    let e4a = m.entry_of(rt, l4_index(p1));
    let e4b = m.entry_of(rt, l4_index(p2));
    assert(m.tables@[rti].entries@[l4_index(p1)] == e4a);
    assert(m.tables@[rti].entries@[l4_index(p2)] == e4b);
    let b3a = e4a.addr;
    let b3b = e4b.addr;
    assert(m.has_table(b3a) && m.level_of(b3a) == 3);
    assert(m.has_table(b3b) && m.level_of(b3b) == 3);
    let i3a = m.table_index_of(b3a);
    let i3b = m.table_index_of(b3b);
    let e3a = m.entry_of(b3a, l3_index(p1));
    let e3b = m.entry_of(b3b, l3_index(p2));
    assert(m.tables@[i3a].entries@[l3_index(p1)] == e3a);
    assert(m.tables@[i3b].entries@[l3_index(p2)] == e3b);
    let b2a = e3a.addr;
    let b2b = e3b.addr;
    assert(m.has_table(b2a) && m.level_of(b2a) == 2);
    assert(m.has_table(b2b) && m.level_of(b2b) == 2);
    let i2a = m.table_index_of(b2a);
    let i2b = m.table_index_of(b2b);
    let e2a = m.entry_of(b2a, l2_index(p1));
    let e2b = m.entry_of(b2b, l2_index(p2));
    assert(m.tables@[i2a].entries@[l2_index(p1)] == e2a);
    assert(m.tables@[i2b].entries@[l2_index(p2)] == e2b);
    assert(e2a.addr == e2b.addr);
    // The two level-2 entries share their target, so they are one entry.
    assert(i2a == i2b && l2_index(p1) == l2_index(p2));
    assert(b2a == b2b);
    // The two level-3 entries share their target b2.
    assert(i3a == i3b && l3_index(p1) == l3_index(p2));
    assert(b3a == b3b);
    // The two level-4 entries share their target b3.
    assert(l4_index(p1) == l4_index(p2));
    assert((p1 / 4096) % 512 == (p2 / 4096) % 512);
    assert((p1 / 0x200000) % 512 == (p2 / 0x200000) % 512);
    assert((p1 / 0x40000000) % 512 == (p2 / 0x40000000) % 512);
    assert((p1 / 0x8000000000) % 512 == (p2 / 0x8000000000) % 512);
    assert(p1 == p2) by (bit_vector)
        requires
            p1 % 4096 == 0,
            p2 % 4096 == 0,
            p1 < 0x1000000000000,
            p2 < 0x1000000000000,
            (p1 / 4096) % 512 == (p2 / 4096) % 512,
            (p1 / 0x200000) % 512 == (p2 / 0x200000) % 512,
            (p1 / 0x40000000) % 512 == (p2 / 0x40000000) % 512,
            (p1 / 0x8000000000) % 512 == (p2 / 0x8000000000) % 512,
    ;
}

/// Installing a mapping in an absent leaf slot binds exactly the one page
/// whose walk reads that slot, and leaves every other translation unchanged.
proof fn lemma_set_leaf(m1: OffsetPageTable, m2: OffsetPageTable, page: u64, frame: u64, wr: bool)
    requires
        m1.wf(),
        page % 4096 == 0,
        page < 0x1000000000000,
        frame % 4096 == 0,
        m1.l1_base_of(page) is Some,
        updated_entry(
            m1,
            m2,
            m1.table_index_of(m1.l1_base_of(page)->Some_0),
            l1_index(page),
            leaf_entry(frame, wr),
        ),
    ensures
        m2.wf(),
        forall|bb: u64| #[trigger] m2.has_table(bb) <==> m1.has_table(bb),
        forall|bb: u64| m1.has_table(bb) ==> #[trigger] m2.level_of(bb) == m1.level_of(bb),
        m2.leaf_of(page) == Some(leaf_entry(frame, wr)),
        m2.mapping() == m1.mapping().insert(page, frame),
        forall|v: u64| #[trigger] m2.tables_needed(v) == m1.tables_needed(v),
        forall|v: u64|
            v % 4096 == 0 && v < 0x1000000000000 && v != page && (m1.leaf_of(v) matches Some(e)
                && e.present) ==> (#[trigger] m2.leaf_of(v)) == m1.leaf_of(v),
{
    let b1 = m1.l1_base_of(page)->Some_0;
    let ti = m1.table_index_of(b1);
    assert(m1.has_table(b1) && m1.level_of(b1) == 1) by {
        let rt = m1.root;
        let rti = m1.table_index_of(rt);
        let e4 = m1.entry_of(rt, l4_index(page));
        assert(m1.tables@[rti].entries@[l4_index(page)] == e4);
        let i3 = m1.table_index_of(e4.addr);
        let e3 = m1.entry_of(e4.addr, l3_index(page));
        assert(m1.tables@[i3].entries@[l3_index(page)] == e3);
        let i2 = m1.table_index_of(e3.addr);
        let e2 = m1.entry_of(e3.addr, l2_index(page));
        assert(m1.tables@[i2].entries@[l2_index(page)] == e2);
    }
    assert(0 <= ti < m1.tables@.len() && m1.tables@[ti].base == b1);
    // Lookups are preserved: the bases and levels did not change.
    assert forall|i: int| 0 <= i < m2.tables@.len() implies (#[trigger] m2.tables@[i]).base
        == m1.tables@[i].base && m2.tables@[i].level == m1.tables@[i].level by {
        if i != ti {
            assert(same_table(m2.tables@[i], m1.tables@[i]));
        }
    }
    assert forall|bb: u64| #[trigger] m2.has_table(bb) <==> m1.has_table(bb) by {
        if m2.has_table(bb) {
            let i = m2.table_index_of(bb);
            assert(m1.tables@[i].base == bb);
        }
        if m1.has_table(bb) {
            let i = m1.table_index_of(bb);
            assert(m2.tables@[i].base == bb);
        }
    }
    assert forall|bb: u64| m1.has_table(bb) implies #[trigger] m2.table_index_of(bb)
        == m1.table_index_of(bb) by {
        let i = m1.table_index_of(bb);
        assert(m2.tables@[i].base == bb);
        let j = m2.table_index_of(bb);
        assert(m2.tables@[j].base == bb);
        assert(m1.tables@[j].base == bb);
        assert(j == i);
    }
    assert forall|bb: u64| m1.has_table(bb) && bb != b1 implies #[trigger] m2.entries_of(bb)
        == m1.entries_of(bb) by {
        let i = m1.table_index_of(bb);
        assert(i != ti);
        assert(same_table(m2.tables@[i], m1.tables@[i]));
    }
    assert forall|bb: u64| m1.has_table(bb) implies #[trigger] m2.level_of(bb) == m1.level_of(
        bb,
    ) by {
        let i = m1.table_index_of(bb);
    }
    assert(m2.table_index_of(b1) == ti);
    assert(m2.entries_of(b1) == m1.entries_of(b1).update(l1_index(page), leaf_entry(frame, wr)));
    // Well-formedness.
    assert forall|i: int| 0 <= i < m2.tables@.len() implies table_wf(#[trigger] m2.tables@[i]) by {
        if i != ti {
            assert(same_table(m2.tables@[i], m1.tables@[i]));
            assert(table_wf(m1.tables@[i]));
            assert forall|e: int| 0 <= e < 512 implies !(#[trigger] m2.tables@[i].entries@[e]).huge
                && (m2.tables@[i].level@ == 1 && m2.tables@[i].entries@[e].present
                ==> m2.tables@[i].entries@[e].addr % 4096 == 0) by {
                assert(m2.tables@[i].entries@[e] == m1.tables@[i].entries@[e]);
            }
        } else {
            assert(m2.tables@[i].level@ == 1);
            assert forall|e: int| 0 <= e < 512 implies !(#[trigger] m2.tables@[i].entries@[e]).huge
                && (m2.tables@[i].entries@[e].present ==> m2.tables@[i].entries@[e].addr % 4096
                == 0) by {
                if e == l1_index(page) {
                    assert(m2.tables@[i].entries@[e] == leaf_entry(frame, wr));
                } else {
                    assert(m2.tables@[i].entries@[e] == m1.tables@[i].entries@[e]);
                }
            }
        }
    }
    assert(m2.has_table(m2.root) && m2.level_of(m2.root) == 4);
    assert forall|i: int, e: int|
        0 <= i < m2.tables@.len() && 0 <= e < 512 && m2.tables@[i].level@ >= 2 && (
        #[trigger] m2.tables@[i].entries@[e]).present implies m2.has_table(
        m2.tables@[i].entries@[e].addr,
    ) && m2.level_of(m2.tables@[i].entries@[e].addr) == m2.tables@[i].level@ - 1 by {
        assert(i != ti);
        assert(same_table(m2.tables@[i], m1.tables@[i]));
        assert(m2.tables@[i].entries@[e] == m1.tables@[i].entries@[e]);
        let ad = m1.tables@[i].entries@[e].addr;
        assert(m1.has_table(ad) && m1.level_of(ad) == m1.tables@[i].level@ - 1);
        assert(m2.level_of(ad) == m1.level_of(ad));
    }
    assert forall|i1: int, e1: int, i2: int, e2: int|
        0 <= i1 < m2.tables@.len() && 0 <= e1 < 512 && 0 <= i2 < m2.tables@.len() && 0 <= e2 < 512
            && m2.tables@[i1].level@ >= 2 && m2.tables@[i2].level@ >= 2 && (
        #[trigger] m2.tables@[i1].entries@[e1]).present && (
        #[trigger] m2.tables@[i2].entries@[e2]).present && m2.tables@[i1].entries@[e1].addr
            == m2.tables@[i2].entries@[e2].addr implies i1 == i2 && e1 == e2 by {
        assert(i1 != ti && i2 != ti);
        assert(same_table(m2.tables@[i1], m1.tables@[i1]));
        assert(same_table(m2.tables@[i2], m1.tables@[i2]));
        assert(m2.tables@[i1].entries@[e1] == m1.tables@[i1].entries@[e1]);
        assert(m2.tables@[i2].entries@[e2] == m1.tables@[i2].entries@[e2]);
    }
    assert(m2.wf());
    // The walk of any address reads the same upper-level entries as before.
    assert forall|v: u64| #[trigger] m2.l1_base_of(v) == m1.l1_base_of(v) by {
        lemma_upper_walk_preserved(m1, m2, b1, v);
    }
    assert forall|v: u64| #[trigger] m2.tables_needed(v) == m1.tables_needed(v) by {
        lemma_upper_walk_preserved(m1, m2, b1, v);
    }
    assert(m2.leaf_of(page) == Some(leaf_entry(frame, wr))) by {
        assert(m2.l1_base_of(page) == Some(b1));
        assert(m2.entry_of(b1, l1_index(page)) == leaf_entry(frame, wr));
    }
    // Present leaves of other pages keep their exact value: the changed slot
    // belongs to `page` alone.
    assert forall|v: u64|
        v % 4096 == 0 && v < 0x1000000000000 && v != page && (m1.leaf_of(v) matches Some(e)
            && e.present) implies (#[trigger] m2.leaf_of(v)) == m1.leaf_of(v) by {
        assert(m2.l1_base_of(v) == m1.l1_base_of(v));
        let pb = m1.l1_base_of(v)->Some_0;
        if pb == b1 && l1_index(v) == l1_index(page) {
            lemma_path_unique(m1, v, page);
            assert(false);
        } else {
            if pb == b1 {
                assert(m2.entry_of(b1, l1_index(v)) == m1.entry_of(b1, l1_index(v)));
            } else {
                assert(m2.entries_of(pb) == m1.entries_of(pb));
            }
        }
    }
    // The mapping gains exactly the one binding.
    assert(m2.mapping() =~= m1.mapping().insert(page, frame)) by {
        assert forall|p: u64| true implies #[trigger] m2.mapping().dom().contains(p)
            == m1.mapping().insert(page, frame).dom().contains(p) && (m2.mapping(
        ).dom().contains(p) ==> m2.mapping()[p] == m1.mapping().insert(page, frame)[p]) by {
            if p == page {
                assert(m2.leaf_of(page) == Some(leaf_entry(frame, wr)));
                assert(m2.mapping().dom().contains(page));
                assert(m2.mapping()[page] == frame);
            } else {
                assert(m2.l1_base_of(p) == m1.l1_base_of(p));
                if p % 4096 == 0 && p < 0x1000000000000 && m1.l1_base_of(p) == Some(b1)
                    && l1_index(p) == l1_index(page) {
                    lemma_path_unique(m1, p, page);
                    assert(false);
                } else {
                    if m1.l1_base_of(p) is Some {
                        let pb = m1.l1_base_of(p)->Some_0;
                        if pb == b1 {
                            if p % 4096 == 0 && p < 0x1000000000000 {
                                assert(l1_index(p) != l1_index(page));
                                assert(m2.entry_of(b1, l1_index(p)) == m1.entry_of(
                                    b1,
                                    l1_index(p),
                                ));
                            }
                        } else {
                            assert(m2.entries_of(pb) == m1.entries_of(pb));
                        }
                    }
                }
            }
        }
    }
}

/// The three upper levels of any walk read only tables of levels 4, 3 and 2,
/// so a change confined to a level-1 table leaves them unchanged.
proof fn lemma_upper_walk_preserved(m1: OffsetPageTable, m2: OffsetPageTable, b1: u64, v: u64)
    requires
        m1.wf(),
        m2.root == m1.root,
        m1.has_table(b1),
        m1.level_of(b1) == 1,
        forall|bb: u64| #[trigger] m2.has_table(bb) <==> m1.has_table(bb),
        forall|bb: u64|
            m1.has_table(bb) && bb != b1 ==> #[trigger] m2.entries_of(bb) == m1.entries_of(bb),
        forall|bb: u64| m1.has_table(bb) ==> #[trigger] m2.level_of(bb) == m1.level_of(bb),
    ensures
        m2.l1_base_of(v) == m1.l1_base_of(v),
        m2.tables_needed(v) == m1.tables_needed(v),
{
    let rt = m1.root;
    let rti = m1.table_index_of(rt);
    assert(m1.has_table(rt) && m1.level_of(rt) == 4);
    assert(rt != b1);
    assert(m2.entries_of(rt) == m1.entries_of(rt));
    let e4 = m1.entry_of(rt, l4_index(v));
    assert(m1.tables@[rti].entries@[l4_index(v)] == e4);
    if e4.present && !e4.huge {
        assert(m1.has_table(e4.addr) && m1.level_of(e4.addr) == 3);
        assert(e4.addr != b1);
        assert(m2.entries_of(e4.addr) == m1.entries_of(e4.addr));
        let i3 = m1.table_index_of(e4.addr);
        let e3 = m1.entry_of(e4.addr, l3_index(v));
        assert(m1.tables@[i3].entries@[l3_index(v)] == e3);
        if e3.present && !e3.huge {
            assert(m1.has_table(e3.addr) && m1.level_of(e3.addr) == 2);
            assert(e3.addr != b1);
            assert(m2.entries_of(e3.addr) == m1.entries_of(e3.addr));
        }
    }
}

/// The translation spec functions read only the tables and the root, so two
/// structures that agree on them agree on every walk.
proof fn lemma_same_tables(a: OffsetPageTable, b: OffsetPageTable)
    requires
        a.tables@ == b.tables@,
        a.root == b.root,
    ensures
        forall|bb: u64| #[trigger] b.has_table(bb) == a.has_table(bb),
        forall|bb: u64| a.has_table(bb) ==> #[trigger] b.entries_of(bb) == a.entries_of(bb),
        forall|bb: u64| a.has_table(bb) ==> #[trigger] b.level_of(bb) == a.level_of(bb),
        forall|v: u64| #[trigger] b.l1_base_of(v) == a.l1_base_of(v),
        forall|v: u64| #[trigger] b.leaf_of(v) == a.leaf_of(v),
        forall|v: u64| #[trigger] b.translate_spec(v) == a.translate_spec(v),
        forall|v: u64| #[trigger] b.tables_needed(v) == a.tables_needed(v),
        b.mapping() == a.mapping(),
        b.wf() == a.wf(),
{
    assert(b.mapping() =~= a.mapping());
}

/// Maps the given page to the frame that holds the text-mode buffer, present
/// and writable, and performs the install's single-page invalidation. Kept
/// for demonstration; a page that already has an owner is refused with
/// `PageAlreadyMapped` and its translation is left untouched.
pub fn create_example_mapping<A: FrameSource>(
    page: u64,
    mapper: &mut OffsetPageTable,
    frame_allocator: &mut A,
) -> (r: Result<(), MapError>)
    requires
        old(mapper).wf(),
        page % 4096 == 0,
        page < address_space_end(),
        old(frame_allocator).inv(),
        old(frame_allocator).future_frames().no_duplicates(),
        old(mapper).bases_fresh(old(frame_allocator).future_frames()),
    ensures
        final(mapper).wf(),
        final(frame_allocator).inv(),
        final(frame_allocator).future_frames().no_duplicates(),
        final(mapper).bases_fresh(final(frame_allocator).future_frames()),
        r is Ok <==> !old(mapper).mapping().dom().contains(page) && old(
            frame_allocator,
        ).future_frames().len() >= old(mapper).tables_needed(page),
        r matches Err(MapError::PageAlreadyMapped) <==> old(mapper).mapping().dom().contains(page),
        r matches Err(MapError::FrameAllocationFailed) <==> !old(mapper).mapping().dom().contains(
            page,
        ) && old(frame_allocator).future_frames().len() < old(mapper).tables_needed(page),
        !(r matches Err(MapError::ParentEntryHugePage)),
        r is Ok ==> final(mapper).mapping() == old(mapper).mapping().insert(page, 0xb8000)
            && final(mapper).leaf_of(page) == Some(leaf_entry(0xb8000, true))
            && final(mapper).flushes@ == old(mapper).flushes@ + 1,
        r is Err ==> final(mapper).mapping() == old(mapper).mapping() && final(mapper).flushes
            == old(mapper).flushes,
        r matches Err(MapError::PageAlreadyMapped) ==> *final(mapper) == *old(mapper)
            && *final(frame_allocator) == *old(frame_allocator),
{
    let flags = PageFlags { writable: true };
    mapper.map_to(page, 0xb8000, flags, frame_allocator)
}

/// What the read-only walk returns is exactly the mapping of the enclosing
/// page plus the queried sub-page offset: translation distributes over the
/// page/offset split of an address.
pub proof fn lemma_translate_vs_mapping(m: OffsetPageTable, v: u64)
    requires
        m.wf(),
        v < address_space_end(),
    ensures
        m.mapping().dom().contains(page_base(v)) ==> m.translate_spec(v) == Some(
            (m.mapping()[page_base(v)] + page_offset(v)) as u64,
        ),
        !m.mapping().dom().contains(page_base(v)) ==> m.translate_spec(v) is None,
{
    let b = page_base(v);
    assert(b == (v / 4096) * 4096);
    assert(b % 4096 == 0 && b < 0x1000000000000 && (b / 4096) % 512 == (v / 4096) % 512 && (b
        / 0x200000) % 512 == (v / 0x200000) % 512 && (b / 0x40000000) % 512 == (v / 0x40000000)
        % 512 && (b / 0x8000000000) % 512 == (v / 0x8000000000) % 512 && b % 4096 == 0)
        by (bit_vector)
        requires
            b == (v / 4096) * 4096,
            v < 0x1000000000000,
    ;
    assert(l1_index(b) == l1_index(v) && l2_index(b) == l2_index(v) && l3_index(b) == l3_index(v)
        && l4_index(b) == l4_index(v));
    assert(m.l1_base_of(b) == m.l1_base_of(v));
    assert(m.leaf_of(b) == m.leaf_of(v));
}

/// Mapping virtual page `page` to frame `frame` and then translating any
/// address inside that page yields the frame's base plus the queried sub-page
/// offset.
pub proof fn lemma_map_then_translate(m: OffsetPageTable, page: u64, frame: u64, v: u64)
    requires
        m.wf(),
        v < address_space_end(),
        page_base(v) == page,
        m.mapping().dom().contains(page),
        m.mapping()[page] == frame,
    ensures
        m.translate_spec(v) == Some((frame + page_offset(v)) as u64),
{
    lemma_translate_vs_mapping(m, v);
}

/// A table whose entries are all absent.
fn empty_table(base: u64, level: Ghost<int>) -> (t: PageTable)
    ensures
        t.base == base,
        t.level == level,
        t.entries@.len() == 512,
        forall|e: int| 0 <= e < 512 ==> #[trigger] t.entries@[e] == absent_entry(),
{
    let mut entries: Vec<PageTableEntry> = Vec::new();
    while entries.len() < 512
        invariant
            entries@.len() <= 512,
            forall|e: int| 0 <= e < entries@.len() ==> #[trigger] entries@[e] == absent_entry(),
        decreases 512 - entries@.len(),
    {
        entries.push(
            PageTableEntry { present: false, writable: false, huge: false, addr: 0 },
        );
    }
    PageTable { base, entries, level }
}

/// Sets up a translation structure rooted at the given top-level frame. The
/// linear-mapping offset and the root frame come from the boot handoff and
/// the privileged register read, both trusted; this is done once per run.
pub fn init(physical_memory_offset: u64, root_frame: u64) -> (m: OffsetPageTable)
    ensures
        m.wf(),
        m.phys_offset == physical_memory_offset,
        m.root == root_frame,
        m.flushes@ == 0,
        m.mapping() == Map::<u64, u64>::empty(),
        forall|b: u64| m.has_table(b) <==> b == root_frame,
        forall|v: u64| m.tables_needed(v) == 3,
{
    let t = empty_table(root_frame, Ghost(4int));
    let mut tables: Vec<PageTable> = Vec::new();
    tables.push(t);
    let m = OffsetPageTable {
        phys_offset: physical_memory_offset,
        root: root_frame,
        tables,
        flushes: Ghost(0nat),
    };
    proof {
        assert(m.tables@[0].base == root_frame);
        assert(m.has_table(root_frame));
        assert(m.table_index_of(root_frame) == 0);
        assert forall|b: u64| m.has_table(b) implies b == root_frame by {
            let i = choose|i: int|
                0 <= i < m.tables@.len() && (#[trigger] m.tables@[i]).base == b;
            assert(i == 0);
        }
        assert(table_wf(m.tables@[0]));
        assert(m.wf());
        assert forall|v: u64| m.tables_needed(v) == 3 by {
            assert(!m.entry_of(m.root, l4_index(v)).present);
        }
        assert(m.mapping() =~= Map::<u64, u64>::empty());
    }
    m
}

impl OffsetPageTable {
    /// Returns the base of the child table behind slot `idx` of the table at
    /// `parent`, creating, zero-initializing and installing a fresh table
    /// (present and writable) when the slot is absent.
    fn ensure_child_table<A: FrameSource>(&mut self, parent: u64, idx: usize, a: &mut A) -> (r:
        Option<u64>)
        requires
            old(self).wf(),
            old(self).has_table(parent),
            old(self).level_of(parent) >= 2,
            idx < 512,
            old(a).inv(),
            old(a).future_frames().no_duplicates(),
            old(self).bases_fresh(old(a).future_frames()),
        ensures
            final(self).wf(),
            final(self).root == old(self).root,
            final(self).phys_offset == old(self).phys_offset,
            final(self).flushes == old(self).flushes,
            final(a).inv(),
            final(a).future_frames().no_duplicates(),
            final(self).bases_fresh(final(a).future_frames()),
            forall|v: u64| #[trigger] final(self).translate_spec(v) == old(self).translate_spec(v),
            forall|v: u64|
                (old(self).leaf_of(v) matches Some(e) && e.present) ==> (
                #[trigger] final(self).leaf_of(v)) == old(self).leaf_of(v),
            final(self).mapping() == old(self).mapping(),
            forall|bb: u64| old(self).has_table(bb) ==> #[trigger] final(self).has_table(bb),
            forall|bb: u64|
                old(self).has_table(bb) ==> #[trigger] final(self).level_of(bb) == old(
                    self,
                ).level_of(bb),
            match r {
                Some(b) => {
                    &&& final(self).has_table(b)
                    &&& final(self).level_of(b) == old(self).level_of(parent) - 1
                    &&& final(self).entry_of(parent, idx as int).present
                    &&& !final(self).entry_of(parent, idx as int).huge
                    &&& final(self).entry_of(parent, idx as int).addr == b
                    &&& if old(self).entry_of(parent, idx as int).present {
                        &&& b == old(self).entry_of(parent, idx as int).addr
                        &&& *final(self) == *old(self)
                        &&& *final(a) == *old(a)
                    } else {
                        &&& old(a).future_frames().len() > 0
                        &&& b == old(a).future_frames()[0]
                        &&& final(a).future_frames() == old(a).future_frames().drop_first()
                        &&& forall|e: int|
                            0 <= e < 512 ==> !(#[trigger] final(self).entry_of(b, e)).present
                        &&& forall|bb: u64|
                            old(self).has_table(bb) && bb != parent ==> (
                            #[trigger] final(self).entries_of(bb)) == old(self).entries_of(bb)
                        &&& final(self).entries_of(parent) == old(self).entries_of(
                            parent,
                        ).update(idx as int, link_entry(b))
                    }
                },
                None => {
                    &&& old(a).future_frames().len() == 0
                    &&& !old(self).entry_of(parent, idx as int).present
                    &&& *final(self) == *old(self)
                    &&& final(a).future_frames() == old(a).future_frames()
                },
            },
    {
        let pi = match self.find_table(parent) {
            Some(i) => i,
            None => {
                proof {
                    assert(false);
                }
                return None;
            },
        };
        let e = self.tables[pi].entries[idx];
        proof {
            assert(e == old(self).entry_of(parent, idx as int));
        }
        if e.present {
            proof {
                assert(!e.huge);
                assert(old(self).tables@[pi as int].entries@[idx as int] == e);
                assert(old(self).has_table(e.addr));
                assert(old(self).level_of(e.addr) == old(self).level_of(parent) - 1);
            }
            return Some(e.addr);
        }
        match a.allocate_frame() {
            None => {
                return None;
            },
            Some(f) => {
                let ghost m0 = *self;
                let ghost fut0 = old(a).future_frames();
                proof {
                    assert(f == fut0[0]);
                    assert(!m0.has_table(f));
                }
                let ghost child_level = self.level_of(parent) - 1;
                let t = empty_table(f, Ghost(child_level));
                proof {
                    assert(table_wf(t));
                }
                self.tables.push(t);
                let ghost m1 = *self;
                proof {
                    lemma_push_table(m0, m1, t);
                    assert(m1.entries_of(parent) == m0.entries_of(parent));
                    assert(m1.level_of(parent) == m0.level_of(parent));
                    assert(m0.table_index_of(parent) == pi as int);
                    assert(m1.tables@[pi as int].base == parent);
                    assert(m1.table_index_of(parent) == pi as int) by {
                        let j = m1.table_index_of(parent);
                        assert(m1.has_table(parent));
                        assert(0 <= j < m1.tables@.len() && m1.tables@[j].base == parent);
                        assert(j == pi as int);
                    }
                }
                self.tables[pi].entries[idx] = PageTableEntry {
                    present: true,
                    writable: true,
                    huge: false,
                    addr: f,
                };
                proof {
                    let m2 = *self;
                    assert(m2.tables@ == m1.tables@.update(pi as int, m2.tables@[pi as int]));
                    assert(m2.tables@[pi as int].entries@ == m1.tables@[pi as int].entries@.update(
                        idx as int,
                        link_entry(f),
                    ));
                    assert forall|i: int|
                        0 <= i < m1.tables@.len() && i != pi as int implies same_table(
                        #[trigger] m2.tables@[i],
                        m1.tables@[i],
                    ) by {}
                    assert(updated_entry(m1, m2, pi as int, idx as int, link_entry(f)));
                    // The fresh table has no parent link in m1.
                    assert(m1.entries_of(f) == t.entries@);
                    assert forall|e2: int| 0 <= e2 < 512 implies !(#[trigger] m1.entry_of(
                        f,
                        e2,
                    )).present by {
                        assert(m1.entry_of(f, e2) == t.entries@[e2]);
                    }
                    assert forall|i: int, e2: int|
                        0 <= i < m1.tables@.len() && 0 <= e2 < 512 && m1.tables@[i].level@ >= 2 && (
                        #[trigger] m1.tables@[i].entries@[e2]).present implies m1.tables@[i].entries@[e2].addr
                        != f by {
                        if i < m0.tables@.len() {
                            assert(m1.tables@[i] == m0.tables@[i]);
                            assert(m0.has_table(m0.tables@[i].entries@[e2].addr));
                        } else {
                            assert(m1.tables@[i] == t);
                        }
                    }
                    assert(!m1.entry_of(parent, idx as int).present) by {
                        assert(m1.entries_of(parent) == m0.entries_of(parent));
                    }
                    assert(m1.has_table(f));
                    assert(m1.level_of(f) == child_level);
                    lemma_set_link(m1, m2, parent, idx as int, f);
                    // Chained preservation of translations and of the mapping.
                    assert forall|v: u64| #[trigger] m2.translate_spec(v) == m0.translate_spec(
                        v,
                    ) by {
                        assert(m1.translate_spec(v) == m0.translate_spec(v));
                        assert(m2.translate_spec(v) == m1.translate_spec(v));
                    }
                    assert forall|v: u64|
                        (m0.leaf_of(v) matches Some(e) && e.present) implies (
                    #[trigger] m2.leaf_of(v)) == m0.leaf_of(v) by {
                        assert(m1.leaf_of(v) == m0.leaf_of(v));
                        assert(m2.leaf_of(v) == m1.leaf_of(v));
                    }
                    assert(m2.mapping() == m0.mapping());
                    // The child table is still empty.
                    assert(f != parent);
                    assert(m2.entries_of(f) == m1.entries_of(f));
                    assert forall|e2: int| 0 <= e2 < 512 implies !(#[trigger] m2.entry_of(
                        f,
                        e2,
                    )).present by {
                        assert(m2.entry_of(f, e2) == m1.entry_of(f, e2));
                    }
                    // Frame facts for the remaining future frames.
                    let fut1 = final(a).future_frames();
                    assert(fut1 == fut0.drop_first());
                    assert forall|k: int| 0 <= k < fut1.len() implies !m2.has_table(
                        #[trigger] fut1[k],
                    ) by {
                        assert(fut1[k] == fut0[k + 1]);
                        assert(!m0.has_table(fut0[k + 1]));
                        assert(fut0[k + 1] != fut0[0]);
                    }
                    assert(fut1.no_duplicates()) by {
                        assert forall|x: int, y: int| 0 <= x < y < fut1.len() implies fut1[x]
                            != fut1[y] by {
                            assert(fut1[x] == fut0[x + 1] && fut1[y] == fut0[y + 1]);
                        }
                    }
                    // Old tables keep their entries, except the parent.
                    assert forall|bb: u64| m0.has_table(bb) && bb != parent implies #[trigger] m2.entries_of(
                        bb,
                    ) == m0.entries_of(bb) by {
                        assert(m1.entries_of(bb) == m0.entries_of(bb));
                        assert(m1.has_table(bb));
                        if bb != parent {
                            assert(m2.entries_of(bb) == m1.entries_of(bb));
                        }
                    }
                    assert(m2.entries_of(parent) == m1.entries_of(parent).update(
                        idx as int,
                        link_entry(f),
                    ));
                    assert(m1.entries_of(parent) == m0.entries_of(parent));
                    assert forall|bb: u64| m0.has_table(bb) implies #[trigger] m2.level_of(bb)
                        == m0.level_of(bb) && m2.has_table(bb) by {
                        assert(m1.has_table(bb));
                        assert(m1.level_of(bb) == m0.level_of(bb));
                        assert(m2.level_of(bb) == m1.level_of(bb));
                        assert(m2.has_table(bb) == m1.has_table(bb));
                    }
                    assert(m2.entry_of(parent, idx as int) == link_entry(f)) by {
                        assert(m2.entries_of(parent)[idx as int] == link_entry(f));
                    }
                    assert(m2.has_table(f) && m2.level_of(f) == child_level);
                }
                Some(f)
            },
        }
    }

    /// Walks the four levels from the trusted top-level table and binds
    /// `page` to `frame`. At each of the three upper levels an absent entry
    /// triggers allocation of a fresh frame, zero-initialization and
    /// installation as a child table (present and writable); a page that
    /// already has a translation fails with `PageAlreadyMapped` and keeps its
    /// existing mapping untouched. A successful install is followed by the
    /// mandatory single-page translation-cache invalidation.
    #[verifier::rlimit(100)]
    pub fn map_to<A: FrameSource>(
        &mut self,
        page: u64,
        frame: u64,
        flags: PageFlags,
        frame_allocator: &mut A,
    ) -> (r: Result<(), MapError>)
        requires
            old(self).wf(),
            page % 4096 == 0,
            page < 0x1000000000000,
            frame % 4096 == 0,
            old(frame_allocator).inv(),
            old(frame_allocator).future_frames().no_duplicates(),
            old(self).bases_fresh(old(frame_allocator).future_frames()),
        ensures
            final(self).wf(),
            final(self).root == old(self).root,
            final(self).phys_offset == old(self).phys_offset,
            final(frame_allocator).inv(),
            final(frame_allocator).future_frames().no_duplicates(),
            final(self).bases_fresh(final(frame_allocator).future_frames()),
            r is Ok <==> !old(self).mapping().dom().contains(page) && old(
                frame_allocator,
            ).future_frames().len() >= old(self).tables_needed(page),
            r matches Err(MapError::PageAlreadyMapped) <==> old(self).mapping().dom().contains(
                page,
            ),
            r matches Err(MapError::FrameAllocationFailed) <==> !old(
                self,
            ).mapping().dom().contains(page) && old(frame_allocator).future_frames().len() < old(
                self,
            ).tables_needed(page),
            !(r matches Err(MapError::ParentEntryHugePage)),
            r is Ok ==> final(self).mapping() == old(self).mapping().insert(page, frame)
                && final(self).leaf_of(page) == Some(leaf_entry(frame, flags.writable))
                && final(self).flushes@ == old(self).flushes@ + 1
                && final(frame_allocator).future_frames() == old(
                frame_allocator,
            ).future_frames().skip(old(self).tables_needed(page)),
            r is Ok ==> forall|v: u64|
                l4_index(v) == l4_index(page) && l3_index(v) == l3_index(page) && l2_index(v)
                    == l2_index(page) ==> #[trigger] final(self).tables_needed(v) == 0,
            r is Ok ==> forall|v: u64|
                v % 4096 == 0 && v < 0x1000000000000 && v != page && (old(self).leaf_of(v) matches
                Some(e) && e.present) ==> (#[trigger] final(self).leaf_of(v)) == old(self).leaf_of(
                    v,
                ),
            r is Err ==> final(self).mapping() == old(self).mapping() && final(self).flushes
                == old(self).flushes,
            r matches Err(MapError::PageAlreadyMapped) ==> *final(self) == *old(self)
                && *final(frame_allocator) == *old(frame_allocator),
    {
        let i4 = ((page / 0x8000000000) % 512) as usize;
        let i3 = ((page / 0x40000000) % 512) as usize;
        let i2 = ((page / 0x200000) % 512) as usize;
        let i1 = ((page / 4096) % 512) as usize;
        proof {
            assert(i4 as int == l4_index(page));
            assert(i3 as int == l3_index(page));
            assert(i2 as int == l2_index(page));
            assert(i1 as int == l1_index(page));
        }
        let ghost m0 = *self;
        let ghost fut0 = old(frame_allocator).future_frames();
        let root = self.root;
        let b3 = match self.ensure_child_table(root, i4, frame_allocator) {
            Some(b) => b,
            None => {
                proof {
                    assert(!m0.entry_of(m0.root, l4_index(page)).present);
                    assert(m0.tables_needed(page) == 3);
                    assert(m0.l1_base_of(page) is None);
                    assert(!m0.mapping().dom().contains(page));
                }
                return Err(MapError::FrameAllocationFailed);
            },
        };
        let ghost m1 = *self;
        let ghost fut1 = frame_allocator.future_frames();
        let ghost p4 = m0.entry_of(m0.root, l4_index(page)).present;
        proof {
            if p4 {
                assert(m1 == m0 && fut1 == fut0 && b3 == m0.entry_of(m0.root, l4_index(page)).addr);
            }
            assert(m1.has_table(b3) && m1.level_of(b3) == 3);
            assert(m1.level_of(root) == 4);
            assert(root != b3);
        }
        let b2 = match self.ensure_child_table(b3, i3, frame_allocator) {
            Some(b) => b,
            None => {
                proof {
                    assert(!m1.entry_of(b3, l3_index(page)).present);
                    if p4 {
                        assert(m0.tables_needed(page) == 2);
                        assert(fut0.len() == 0);
                        assert(m0.l1_base_of(page) is None);
                    } else {
                        assert(m0.tables_needed(page) == 3);
                        assert(fut1 == fut0.drop_first() && fut1.len() == 0);
                        assert(fut0.len() == 1);
                        assert(m0.l1_base_of(page) is None);
                    }
                    assert(!m0.mapping().dom().contains(page));
                    assert(final(self).mapping() == m0.mapping());
                }
                return Err(MapError::FrameAllocationFailed);
            },
        };
        let ghost m2 = *self;
        let ghost fut2 = frame_allocator.future_frames();
        let ghost p3 = m1.entry_of(b3, l3_index(page)).present;
        proof {
            if p3 {
                assert(m2 == m1 && fut2 == fut1 && b2 == m1.entry_of(b3, l3_index(page)).addr);
            }
            assert(m2.has_table(b2) && m2.level_of(b2) == 2);
            assert(m2.level_of(root) == 4 && m2.level_of(b3) == 3);
            assert(root != b2 && b3 != b2);
            // The root entry of the path is preserved across the second step.
            assert(m2.entries_of(root) == m1.entries_of(root));
            assert(m2.entry_of(root, l4_index(page)) == m1.entry_of(root, l4_index(page)));
            assert(m1.entry_of(root, l4_index(page)).present && m1.entry_of(
                root,
                l4_index(page),
            ).addr == b3 && !m1.entry_of(root, l4_index(page)).huge);
        }
        let b1 = match self.ensure_child_table(b2, i2, frame_allocator) {
            Some(b) => b,
            None => {
                proof {
                    assert(!m2.entry_of(b2, l2_index(page)).present);
                    if p4 && p3 {
                        assert(m0.tables_needed(page) == 1);
                        assert(fut0.len() == 0);
                    } else if p4 {
                        assert(m0.tables_needed(page) == 2);
                        assert(fut2 == fut1.drop_first() && fut1.len() > 0);
                        assert(fut0.len() == 1);
                    } else {
                        // The first step allocated, so the fresh level-3
                        // table was empty and the second step allocated too.
                        assert(!p3) by {
                            if p3 {
                                assert(m1.entry_of(b3, l3_index(page)).present);
                                assert(forall|e: int|
                                    0 <= e < 512 ==> !(#[trigger] m1.entry_of(b3, e)).present);
                            }
                        }
                        assert(m0.tables_needed(page) == 3);
                        assert(fut1 == fut0.drop_first() && fut0.len() > 0);
                        assert(fut2 == fut1.drop_first() && fut1.len() > 0);
                        assert(fut0.len() == 2);
                    }
                    assert(m0.leaf_of(page) is None || !m0.leaf_of(page)->Some_0.present);
                    assert(!m0.mapping().dom().contains(page));
                    assert(final(self).mapping() == m0.mapping());
                }
                return Err(MapError::FrameAllocationFailed);
            },
        };
        let ghost m3 = *self;
        let ghost fut3 = frame_allocator.future_frames();
        let ghost p2 = m2.entry_of(b2, l2_index(page)).present;
        proof {
            if p2 {
                assert(m3 == m2 && fut3 == fut2 && b1 == m2.entry_of(b2, l2_index(page)).addr);
            }
            assert(m3.has_table(b1) && m3.level_of(b1) == 1);
            assert(m3.level_of(root) == 4 && m3.level_of(b3) == 3 && m3.level_of(b2) == 2);
            assert(root != b1 && b3 != b1 && b2 != b1 && root != b3 && root != b2 && b3 != b2);
            // The upper path is intact in m3.
            assert(m3.entries_of(root) == m2.entries_of(root));
            assert(m3.entry_of(root, l4_index(page)).present && m3.entry_of(
                root,
                l4_index(page),
            ).addr == b3 && !m3.entry_of(root, l4_index(page)).huge);
            assert(m3.entries_of(b3) == m2.entries_of(b3));
            assert(m2.entry_of(b3, l3_index(page)).present && m2.entry_of(
                b3,
                l3_index(page),
            ).addr == b2 && !m2.entry_of(b3, l3_index(page)).huge);
            assert(m3.entry_of(b3, l3_index(page)).present && m3.entry_of(
                b3,
                l3_index(page),
            ).addr == b2 && !m3.entry_of(b3, l3_index(page)).huge);
            assert(m3.entry_of(b2, l2_index(page)).present && m3.entry_of(
                b2,
                l2_index(page),
            ).addr == b1 && !m3.entry_of(b2, l2_index(page)).huge);
            assert(m3.has_table(b3) && m3.has_table(b2));
            assert(m3.l1_base_of(page) == Some(b1));
        }
        let ti = match self.find_table(b1) {
            Some(i) => i,
            None => {
                proof {
                    assert(false);
                }
                return Err(MapError::FrameAllocationFailed);
            },
        };
        let e1 = self.tables[ti].entries[i1];
        proof {
            assert(e1 == m3.entry_of(b1, l1_index(page)));
            assert(m3.leaf_of(page) == Some(e1));
        }
        if e1.present {
            proof {
                // A present leaf means no step allocated: a freshly created
                // table is empty, and everything below it stays empty.
                assert(p4) by {
                    if !p4 {
                        assert(!m1.entry_of(b3, l3_index(page)).present);
                        assert(!p3);
                        assert(!m2.entry_of(b2, l2_index(page)).present);
                        assert(!p2);
                        assert(!m3.entry_of(b1, l1_index(page)).present);
                    }
                }
                assert(m1 == m0);
                assert(p3) by {
                    if !p3 {
                        assert(!m2.entry_of(b2, l2_index(page)).present);
                        assert(!p2);
                        assert(!m3.entry_of(b1, l1_index(page)).present);
                    }
                }
                assert(m2 == m1);
                assert(p2) by {
                    if !p2 {
                        assert(!m3.entry_of(b1, l1_index(page)).present);
                    }
                }
                assert(m3 == m2);
                assert(*final(self) == *old(self));
                assert(m0.leaf_of(page) == Some(e1));
                assert(m0.mapping().dom().contains(page));
            }
            return Err(MapError::PageAlreadyMapped);
        }
        self.tables[ti].entries[i1] = PageTableEntry {
            present: true,
            writable: flags.writable,
            huge: false,
            addr: frame,
        };
        let ghost m4 = *self;
        proof {
            assert(m4.tables@ == m3.tables@.update(ti as int, m4.tables@[ti as int]));
            assert(m4.tables@[ti as int].entries@ == m3.tables@[ti as int].entries@.update(
                i1 as int,
                leaf_entry(frame, flags.writable),
            ));
            assert forall|i: int|
                0 <= i < m3.tables@.len() && i != ti as int implies same_table(
                #[trigger] m4.tables@[i],
                m3.tables@[i],
            ) by {}
            assert(updated_entry(m3, m4, ti as int, i1 as int, leaf_entry(frame, flags.writable)));
            lemma_set_leaf(m3, m4, page, frame, flags.writable);
        }
        self.flushes = Ghost(self.flushes@ + 1);
        proof {
            let m5 = *self;
            lemma_same_tables(m4, m5);
            // The mapping of the final state.
            assert(m3.mapping() == m0.mapping());
            assert(m5.mapping() == m0.mapping().insert(page, frame));
            assert(m5.leaf_of(page) == Some(leaf_entry(frame, flags.writable)));
            // The request was owed: the page was unmapped and enough frames
            // remained.
            assert(!m0.mapping().dom().contains(page)) by {
                if p4 && p3 && p2 {
                    assert(m3 == m0);
                    assert(m0.leaf_of(page) == Some(e1));
                } else if !p4 {
                    assert(m0.l1_base_of(page) is None);
                } else if !p3 {
                    assert(m1 == m0);
                    assert(m0.l1_base_of(page) is None);
                } else {
                    assert(m2 == m1 && m1 == m0);
                    assert(m0.l1_base_of(page) is None);
                }
            }
            // Frames consumed match the tables the walk had to create.
            assert(fut3 == fut0.skip(m0.tables_needed(page)) && fut0.len() >= m0.tables_needed(
                page,
            )) by {
                if p4 && p3 && p2 {
                    assert(m0.tables_needed(page) == 0);
                    assert(fut3 == fut0);
                    assert(fut0.skip(0) =~= fut0);
                } else if p4 && p3 {
                    assert(m2 == m0);
                    assert(m0.tables_needed(page) == 1);
                    assert(fut2.len() > 0);
                    assert(fut3 == fut2.drop_first());
                    assert(fut3 =~= fut0.skip(1));
                } else if p4 {
                    assert(m1 == m0);
                    assert(m0.tables_needed(page) == 2);
                    assert(!p2) by {
                        if p2 {
                            assert(m2.entry_of(b2, l2_index(page)).present);
                            assert(!m1.entry_of(b3, l3_index(page)).present);
                            assert(forall|e: int|
                                0 <= e < 512 ==> !(#[trigger] m2.entry_of(b2, e)).present);
                        }
                    }
                    assert(fut1.len() > 0 && fut2 == fut1.drop_first());
                    assert(fut2.len() > 0 && fut3 == fut2.drop_first());
                    assert(fut3 =~= fut0.skip(2));
                    assert(fut0.len() >= 2);
                } else {
                    assert(m0.tables_needed(page) == 3);
                    assert(!p3) by {
                        if p3 {
                            assert(m1.entry_of(b3, l3_index(page)).present);
                            assert(forall|e: int|
                                0 <= e < 512 ==> !(#[trigger] m1.entry_of(b3, e)).present);
                        }
                    }
                    assert(!p2) by {
                        if p2 {
                            assert(m2.entry_of(b2, l2_index(page)).present);
                            assert(forall|e: int|
                                0 <= e < 512 ==> !(#[trigger] m2.entry_of(b2, e)).present);
                        }
                    }
                    assert(fut0.len() > 0 && fut1 == fut0.drop_first());
                    assert(fut1.len() > 0 && fut2 == fut1.drop_first());
                    assert(fut2.len() > 0 && fut3 == fut2.drop_first());
                    assert(fut3 =~= fut0.skip(3));
                    assert(fut0.len() >= 3);
                }
            }
            // After the install, the whole upper path of the page is present.
            assert forall|v: u64|
                l4_index(v) == l4_index(page) && l3_index(v) == l3_index(page) && l2_index(v)
                    == l2_index(page) implies #[trigger] m5.tables_needed(v) == 0 by {
                assert(m4.tables_needed(v) == m3.tables_needed(v));
                assert(m5.tables_needed(v) == m4.tables_needed(v));
                assert(m3.tables_needed(v) == 0);
            }
            // Present leaves of other pages keep their exact value.
            assert forall|v: u64|
                v % 4096 == 0 && v < 0x1000000000000 && v != page && (m0.leaf_of(v) matches Some(e)
                    && e.present) implies (#[trigger] m5.leaf_of(v)) == m0.leaf_of(v) by {
                assert(m1.leaf_of(v) == m0.leaf_of(v));
                assert(m2.leaf_of(v) == m1.leaf_of(v));
                assert(m3.leaf_of(v) == m2.leaf_of(v));
                assert(m4.leaf_of(v) == m3.leaf_of(v));
                assert(m5.leaf_of(v) == m4.leaf_of(v));
            }
            // Freshness carries to the final state.
            assert(m5.bases_fresh(fut3)) by {
                assert forall|k: int| 0 <= k < fut3.len() implies !m5.has_table(
                    #[trigger] fut3[k],
                ) by {
                    assert(!m3.has_table(fut3[k]));
                    assert(m4.has_table(fut3[k]) == m3.has_table(fut3[k]));
                    assert(m5.has_table(fut3[k]) == m4.has_table(fut3[k]));
                }
            }
        }
        Ok(())
    }

    /// Read-only walk of the structure: `None` at the first absent entry, the
    /// mapped frame's base plus the queried sub-page offset at a present
    /// leaf. A huge-page marker mid-walk would be a fatal translation error;
    /// a well-formed structure holds none.
    pub fn translate_addr(&self, addr: u64) -> (r: Option<u64>)
        requires
            self.wf(),
        ensures
            r == self.translate_spec(addr),
    {
        let i4 = ((addr / 0x8000000000) % 512) as usize;
        let i3 = ((addr / 0x40000000) % 512) as usize;
        let i2 = ((addr / 0x200000) % 512) as usize;
        let i1 = ((addr / 4096) % 512) as usize;
        let t4 = match self.find_table(self.root) {
            Some(i) => i,
            None => {
                return None;
            },
        };
        let e4 = self.tables[t4].entries[i4];
        if !e4.present || e4.huge {
            return None;
        }
        let t3 = match self.find_table(e4.addr) {
            Some(i) => i,
            None => {
                return None;
            },
        };
        let e3 = self.tables[t3].entries[i3];
        if !e3.present || e3.huge {
            return None;
        }
        let t2 = match self.find_table(e3.addr) {
            Some(i) => i,
            None => {
                return None;
            },
        };
        let e2 = self.tables[t2].entries[i2];
        if !e2.present || e2.huge {
            return None;
        }
        let t1 = match self.find_table(e2.addr) {
            Some(i) => i,
            None => {
                return None;
            },
        };
        let e1 = self.tables[t1].entries[i1];
        if e1.present && !e1.huge {
            proof {
                assert(self.level_of(e2.addr) == 1);
                assert(e1.addr % 4096 == 0);
                assert(e1.addr + 4095 <= u64::MAX) by {
                    lemma_fundamental_div_mod(e1.addr as int, 4096);
                }
            }
            Some(e1.addr + (addr % 4096))
        } else {
            None
        }
    }
}

} // verus!
