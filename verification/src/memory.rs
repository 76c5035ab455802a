//! Physical memory: the firmware's memory map and the frame allocators
//! that draw on it.

use vstd::prelude::*;
use crate::addr::block_start;
use crate::addr::is_extendable;
use crate::addr::lemma_block_start;
use crate::addr::sign_extend;
use crate::addr::Page;
use crate::addr::PhysAddr;
use crate::addr::PhysFrame;
use crate::addr::VirtAddr;
use crate::addr::PAGE_SIZE;
use crate::addr::PHYS_ADDR_LIMIT;
use crate::paging::zero_table;
use crate::paging::Mapping;
use crate::paging::PRESENT;
use crate::paging::WRITABLE;
use crate::paging::mapper::MapToError;
use crate::paging::mapper::MapperFlush;
use crate::paging::mapper::OffsetPageTable;

verus! {

/// A mapper for the tree of page tables whose level 4 table lies in
/// `level_4_table_frame` and holds the 512 entries `level_4_table`, with
/// all of physical memory appearing in virtual memory from
/// `physical_memory_offset` on. The mapper keeps the entries that are in
/// use as they are; it follows one once the table that it leads to was
/// handed in (`OffsetPageTable::adopt_table`).
pub fn init(
    level_4_table_frame: PhysFrame,
    level_4_table: Vec<u64>,
    physical_memory_offset: VirtAddr,
) -> (r: OffsetPageTable)
    requires
        level_4_table@.len() == 512,
    ensures
        r.wf(),
        r.root() == level_4_table_frame.start(),
        r.offset() == physical_memory_offset.value(),
        forall|t: u64, s: int|
            0 <= s < 512 ==> #[trigger] crate::paging::pending_entry(r.pending(), t, s) == if t
                == level_4_table_frame.start() {
                level_4_table@[s]
            } else {
                0
            },
        r.tables() == Map::<u64, Seq<u64>>::empty().insert(level_4_table_frame.start(), zero_table()),
        r.table_frames() == seq![level_4_table_frame.start()],
        r.mappings() == Map::<u64, Mapping>::empty(),
{
    OffsetPageTable::with_level_4_table(level_4_table_frame, level_4_table, physical_memory_offset)
}

/// The virtual address at which the physical address `phys` appears, or
/// `None` where the sum leaves the address space or is no virtual address.
pub fn phys_to_virt(physical_memory_offset: VirtAddr, phys: PhysAddr) -> (r: Option<VirtAddr>)
    ensures
        r is Some == (physical_memory_offset.value() + phys.value() <= u64::MAX && is_extendable(
            (physical_memory_offset.value() + phys.value()) as u64,
        )),
        r matches Some(v) ==> v.value() == sign_extend((physical_memory_offset.value() + phys.value()) as u64),
{
    let offset: u64 = physical_memory_offset.as_u64();
    let addr: u64 = phys.as_u64();
    if addr > u64::MAX - offset {
        None
    } else {
        VirtAddr::try_new(offset + addr)
    }
}

/// First address of the frame that holds the text buffer of the screen.
pub const VGA_BUFFER_FRAME: u64 = 0xb8000;

/// Maps `page` to the frame of the screen's text buffer, present and
/// writable, as `OffsetPageTable::map_to` does.
pub fn create_example_mapping<A: FrameAllocator>(
    page: Page,
    mapper: &mut OffsetPageTable,
    frame_allocator: &mut A,
) -> (r: Result<MapperFlush, MapToError>)
    requires
        old(mapper).wf(),
        old(frame_allocator).wf(),
        old(mapper).unused_by(old(frame_allocator).frames()),
    ensures
        final(mapper).wf(),
        final(frame_allocator).wf(),
        final(mapper).unused_by(final(frame_allocator).frames()),
        OffsetPageTable::maps(
            *old(mapper),
            old(frame_allocator).frames(),
            page.start(),
            VGA_BUFFER_FRAME,
            PRESENT | WRITABLE,
            *final(mapper),
            final(frame_allocator).frames(),
            r,
        ),
        r is Ok ==> final(mapper).writable(page.start()),
{
    proof {
        crate::paging::lemma_present_writable();
    }
    let frame: PhysFrame = PhysFrame::containing_address(PhysAddr::new(VGA_BUFFER_FRAME));
    let flags: u64 = PRESENT | WRITABLE;
    let r = mapper.map_to(page, frame, flags, frame_allocator);
    proof {
        if r is Ok {
            assert(mapper.allows(page.start(), WRITABLE));
        }
    }
    r
}

/// What a range of physical memory is used for, as the firmware reports it.
#[derive(Clone, Copy, Debug, PartialEq, Eq, Structural)]
pub enum MemoryRegionType {
    /// Free for the kernel to use.
    Usable,
    /// In use by the kernel or the boot loader.
    InUse,
    /// Reserved by the firmware.
    Reserved,
    /// ACPI tables that may be reclaimed.
    AcpiReclaimable,
    /// ACPI non-volatile storage.
    AcpiNvs,
    /// Defective memory.
    BadMemory,
    /// Holds the kernel image.
    Kernel,
    /// Holds the kernel stack.
    KernelStack,
    /// Holds page tables.
    PageTable,
    /// Holds the boot loader.
    Bootloader,
    /// The frame at address zero.
    FrameZero,
    /// An empty region.
    Empty,
    /// Holds the boot information.
    BootInfo,
    /// Holds a package supplied with the kernel.
    Package,
    /// Memory that keeps its contents without power.
    NonVolatileMemory,
}

/// One range of physical memory from the firmware's memory map: the bytes
/// from `start` up to, not including, `end`.
#[derive(Clone, Copy, Debug)]
pub struct MemoryRegion {
    pub start: u64,
    pub end: u64,
    pub region_type: MemoryRegionType,
}

impl MemoryRegion {
    /// The region is a source of frames.
    pub open spec fn is_usable(self) -> bool {
        self.region_type == MemoryRegionType::Usable
    }

    /// Number of frames the region yields: one for every 4 KiB step from
    /// `start` that stays below `end`.
    pub open spec fn frame_count(self) -> nat {
        if self.is_usable() && self.start < self.end {
            ((self.end - self.start - 1) / (PAGE_SIZE as int) + 1) as nat
        } else {
            0
        }
    }

    /// The frames the region yields, lowest first.
    pub open spec fn frames(self) -> Seq<u64> {
        Seq::new(self.frame_count(), |i: int| block_start((self.start + i * PAGE_SIZE) as u64))
    }

    /// A usable region ends at or below the physical address limit.
    pub open spec fn valid(self) -> bool {
        self.is_usable() ==> self.end <= PHYS_ADDR_LIMIT
    }

    /// The region begins and ends on a frame boundary.
    pub open spec fn frame_aligned(self) -> bool {
        self.start % PAGE_SIZE == 0 && self.end % PAGE_SIZE == 0
    }

    /// The two regions have no byte in common.
    pub open spec fn disjoint_from(self, other: MemoryRegion) -> bool {
        self.end <= other.start || other.end <= self.start || self.start >= self.end || other.start
            >= other.end
    }

    /// Whether the region is a source of frames.
    pub fn usable(&self) -> (r: bool)
        ensures
            r == self.is_usable(),
    {
        match self.region_type {
            MemoryRegionType::Usable => true,
            _ => false,
        }
    }

    /// Whether the region holds the address `addr`.
    pub fn holds(&self, addr: u64) -> (r: bool)
        ensures
            r == (self.start <= addr < self.end),
    {
        self.start <= addr && addr < self.end
    }

    /// Number of frames the region yields.
    pub fn count_frames(&self) -> (r: u64)
        ensures
            r == self.frame_count(),
    {
        match self.region_type {
            MemoryRegionType::Usable => {
                if self.start < self.end {
                    (self.end - self.start - 1) / PAGE_SIZE + 1
                } else {
                    0
                }
            },
            _ => 0,
        }
    }
}

/// The frames of all usable regions of `map`, in the order of the map.
pub open spec fn usable_frames(map: Seq<MemoryRegion>) -> Seq<u64>
    decreases map.len(),
{
    if map.len() == 0 {
        Seq::empty()
    } else {
        usable_frames(map.drop_last()) + map.last().frames()
    }
}

/// Every usable region is valid, and the number of frames fits the cursor.
pub open spec fn valid_memory_map(map: Seq<MemoryRegion>) -> bool {
    &&& forall|i: int| 0 <= i < map.len() ==> (#[trigger] map[i]).valid()
    &&& usable_frames(map).len() <= usize::MAX
}

/// The usable regions are frame aligned and share no byte with each other.
pub open spec fn distinct_regions(map: Seq<MemoryRegion>) -> bool {
    &&& forall|i: int| 0 <= i < map.len() && (#[trigger] map[i]).is_usable() ==> map[i].frame_aligned()
    &&& forall|i: int, j: int|
        0 <= i < j < map.len() && (#[trigger] map[i]).is_usable() && (#[trigger] map[j]).is_usable()
            ==> map[i].disjoint_from(map[j])
}

/// The frames of the first `k` regions come first among the frames of the
/// whole map.
pub proof fn lemma_usable_frames_prefix(map: Seq<MemoryRegion>, k: int)
    requires
        0 <= k <= map.len(),
    ensures
        usable_frames(map.take(k)).is_prefix_of(usable_frames(map)),
        k < map.len() ==> usable_frames(map.take(k + 1)) == usable_frames(map.take(k)) + map[k].frames(),
    decreases map.len() - k,
{
    if k == map.len() {
        assert(map.take(k) =~= map);
    } else {
        assert(map.take(k + 1).drop_last() =~= map.take(k));
        assert(map.take(k + 1).last() == map[k]);
        lemma_usable_frames_prefix(map, k + 1);
    }
}

/// A frame of a region lies within the region when its start is aligned,
/// and is a frame start below the physical limit when the region is valid.
pub proof fn lemma_region_frame(region: MemoryRegion, i: int)
    requires
        0 <= i < region.frame_count(),
    ensures
        region.start + i * PAGE_SIZE < region.end,
        region.valid() ==> PhysFrame::is_frame_start(region.frames()[i]),
        region.start % PAGE_SIZE == 0 ==> region.frames()[i] == region.start + i * PAGE_SIZE,
{
    let span = region.end - region.start - 1;
    assert(i * 4096 <= span) by (nonlinear_arith)
        requires
            0 <= i,
            i <= span / 4096,
            0 <= span,
    ;
    let a = (region.start + i * PAGE_SIZE) as u64;
    lemma_block_start(a);
    if region.start % PAGE_SIZE == 0 {
        assert((region.start + i * 4096) % 4096 == 0) by (nonlinear_arith)
            requires
                region.start % 4096 == 0,
        ;
    }
}

/// Every frame of the map comes from one of its usable regions.
pub proof fn lemma_frame_origin(map: Seq<MemoryRegion>, k: int)
    requires
        0 <= k < usable_frames(map).len(),
    ensures
        exists|r: int, i: int|
            0 <= r < map.len() && 0 <= i < map[r].frame_count() && usable_frames(map)[k]
                == #[trigger] map[r].frames()[i],
    decreases map.len(),
{
    let head = usable_frames(map.drop_last());
    if k < head.len() {
        lemma_frame_origin(map.drop_last(), k);
        let (r, i) = choose|r: int, i: int|
            0 <= r < map.drop_last().len() && 0 <= i < map.drop_last()[r].frame_count() && head[k]
                == #[trigger] map.drop_last()[r].frames()[i];
        assert(map.drop_last()[r] == map[r]);
        assert(usable_frames(map)[k] == map[r].frames()[i]);
    } else {
        let r = map.len() - 1;
        let i = k - head.len();
        assert(usable_frames(map)[k] == map[r].frames()[i]);
    }
}

/// No frame is listed twice when the usable regions are aligned and do not
/// overlap.
pub proof fn lemma_usable_frames_distinct(map: Seq<MemoryRegion>)
    requires
        distinct_regions(map),
    ensures
        usable_frames(map).no_duplicates(),
    decreases map.len(),
{
    if map.len() > 0 {
        let init = map.drop_last();
        let last = map.last();
        let head = usable_frames(init);
        let all = usable_frames(map);
        assert(distinct_regions(init)) by {
            assert forall|i: int| 0 <= i < init.len() implies init[i] == map[i] by {}
        }
        lemma_usable_frames_distinct(init);
        assert forall|a: int, b: int| 0 <= a < all.len() && 0 <= b < all.len() && a != b implies all[a]
            != all[b] by {
            if a < head.len() && b < head.len() {
                assert(all[a] == head[a] && all[b] == head[b]);
            } else if a >= head.len() && b >= head.len() {
                let i = a - head.len();
                let j = b - head.len();
                lemma_region_frame(last, i);
                lemma_region_frame(last, j);
                assert(last.is_usable());
                assert(map[map.len() - 1].frame_aligned());
                assert(i * 4096 != j * 4096);
            } else {
                let (lo, hi) = if a < b {
                    (a, b)
                } else {
                    (b, a)
                };
                lemma_frame_origin(init, lo);
                let (r, i) = choose|r: int, i: int|
                    0 <= r < init.len() && 0 <= i < init[r].frame_count() && head[lo]
                        == #[trigger] init[r].frames()[i];
                let j = hi - head.len();
                assert(init[r] == map[r]);
                lemma_region_frame(map[r], i);
                lemma_region_frame(last, j);
                assert(map[r].is_usable() && last.is_usable());
                assert(map[r].frame_aligned() && map[map.len() - 1].frame_aligned());
                assert(map[r].disjoint_from(map[map.len() - 1]));
                assert(all[lo] == map[r].start + i * 4096);
                assert(all[hi] == last.start + j * 4096);
            }
        }
    }
}

/// `frame` lies in no usable region of `map`.
pub open spec fn outside_usable(map: Seq<MemoryRegion>, frame: u64) -> bool {
    forall|i: int| 0 <= i < map.len() && (#[trigger] map[i]).is_usable() ==> !(map[i].start <= frame < map[i].end)
}

/// Where the usable regions are frame aligned, every frame of the map lies
/// in a usable region.
pub proof fn lemma_frames_inside(map: Seq<MemoryRegion>, k: int)
    requires
        distinct_regions(map),
        0 <= k < usable_frames(map).len(),
    ensures
        !outside_usable(map, usable_frames(map)[k]),
{
    lemma_frame_origin(map, k);
    let (r, i) = choose|r: int, i: int|
        0 <= r < map.len() && 0 <= i < map[r].frame_count() && usable_frames(map)[k]
            == #[trigger] map[r].frames()[i];
    lemma_region_frame(map[r], i);
    assert(map[r].is_usable());
    assert(map[r].start <= usable_frames(map)[k] < map[r].end);
}

/// Tests whether the usable regions of a memory map are frame aligned and
/// share no byte with each other.
pub fn has_distinct_regions(memory_map: &Vec<MemoryRegion>) -> (r: bool)
    ensures
        r == distinct_regions(memory_map@),
{
    let n: usize = memory_map.len();
    let mut i: usize = 0;
    while i < n
        invariant
            0 <= i <= n,
            n == memory_map@.len(),
            forall|a: int| 0 <= a < i && (#[trigger] memory_map@[a]).is_usable() ==> memory_map@[a].frame_aligned(),
            forall|a: int, b: int|
                0 <= a < i && a < b < n && (#[trigger] memory_map@[a]).is_usable() && (
                #[trigger] memory_map@[b]).is_usable() ==> memory_map@[a].disjoint_from(memory_map@[b]),
        decreases n - i,
    {
        let first: MemoryRegion = memory_map[i];
        if first.usable() {
            if first.start % PAGE_SIZE != 0 || first.end % PAGE_SIZE != 0 {
                return false;
            }
            let mut j: usize = i + 1;
            while j < n
                invariant
                    i < j <= n,
                    n == memory_map@.len(),
                    first == memory_map@[i as int],
                    first.is_usable(),
                    forall|b: int|
                        i < b < j && (#[trigger] memory_map@[b]).is_usable() ==> first.disjoint_from(
                            memory_map@[b],
                        ),
                decreases n - j,
            {
                let second: MemoryRegion = memory_map[j];
                if second.usable() && !(first.end <= second.start || second.end <= first.start
                    || first.start >= first.end || second.start >= second.end) {
                    return false;
                }
                j = j + 1;
            }
        }
        i = i + 1;
    }
    true
}

/// A source of free physical frames.
pub trait FrameAllocator {
    /// The frames still to be handed out, named by their first address, the
    /// next one first.
    spec fn frames(&self) -> Seq<u64>;

    /// The allocator is in a state that its own operations produce.
    spec fn wf(&self) -> bool;

    /// Every frame still to come is the start of a frame.
    proof fn lemma_frames_are_frames(&self)
        requires
            self.wf(),
        ensures
            forall|i: int| 0 <= i < self.frames().len() ==> PhysFrame::is_frame_start(#[trigger] self.frames()[i]),
    ;

    /// Hands out the next frame, or reports that none is left.
    fn allocate_frame(&mut self) -> (r: Option<PhysFrame>)
        requires
            old(self).wf(),
        ensures
            final(self).wf(),
            r.is_some() == (old(self).frames().len() > 0),
            r matches Some(frame) ==> frame.start() == old(self).frames()[0] && final(self).frames() == old(
                self,
            ).frames().drop_first(),
            r.is_none() ==> final(self).frames() == old(self).frames(),
    ;
}

/// Hands out the frames of the usable regions of a memory map, one by one
/// in the order of the map, and never the same frame twice.
pub struct BootInfoFrameAllocator {
    memory_map: Vec<MemoryRegion>,
    next: usize,
}

impl BootInfoFrameAllocator {
    /// The memory map the allocator draws on.
    pub closed spec fn memory_map(&self) -> Seq<MemoryRegion> {
        self.memory_map@
    }

    /// Number of frames handed out so far.
    pub closed spec fn cursor(&self) -> nat {
        self.next as nat
    }

    /// An allocator over `memory_map` that has handed out nothing yet. The
    /// caller vouches that the usable regions are in fact unused.
    pub fn init(memory_map: Vec<MemoryRegion>) -> (r: BootInfoFrameAllocator)
        requires
            valid_memory_map(memory_map@),
        ensures
            r.wf(),
            r.memory_map() == memory_map@,
            r.cursor() == 0,
            r.frames() == usable_frames(memory_map@),
    {
        BootInfoFrameAllocator { memory_map, next: 0 }
    }

    /// As `init`, after testing what `init` requires of the map; `None`
    /// where the map does not meet it.
    pub fn try_init(memory_map: Vec<MemoryRegion>) -> (r: Option<BootInfoFrameAllocator>)
        ensures
            r.is_some() == valid_memory_map(memory_map@),
            r matches Some(a) ==> a.wf() && a.memory_map() == memory_map@ && a.cursor() == 0 && a.frames()
                == usable_frames(memory_map@),
    {
        if is_valid_memory_map(&memory_map) {
            Some(BootInfoFrameAllocator::init(memory_map))
        } else {
            None
        }
    }

    /// The frames still to come are the frames of the memory map from the
    /// cursor on.
    pub proof fn lemma_frames(&self)
        requires
            self.wf(),
        ensures
            valid_memory_map(self.memory_map()),
            self.cursor() <= usable_frames(self.memory_map()).len(),
            self.frames() == usable_frames(self.memory_map()).skip(self.cursor() as int),
    {
    }

    /// Where the usable regions are frame aligned and do not overlap, the
    /// frames still to come differ from each other and lie in usable
    /// regions: no frame is handed out twice.
    pub proof fn lemma_frames_distinct(&self)
        requires
            self.wf(),
            distinct_regions(self.memory_map()),
        ensures
            self.frames().no_duplicates(),
            forall|i: int| 0 <= i < self.frames().len() ==> !outside_usable(self.memory_map(), #[trigger] self.frames()[i]),
    {
        let all = usable_frames(self.memory_map@);
        lemma_usable_frames_distinct(self.memory_map@);
        assert forall|i: int| 0 <= i < self.frames().len() implies !outside_usable(
            self.memory_map(),
            #[trigger] self.frames()[i],
        ) by {
            lemma_frames_inside(self.memory_map@, self.next + i);
        }
    }

    /// Tests whether the allocator can serve `mapper`: the usable regions
    /// are frame aligned and do not overlap, and no table of the mapper
    /// lies in one of them. Then no frame still to come holds a table.
    pub fn keeps_clear_of(&self, mapper: &OffsetPageTable) -> (r: bool)
        requires
            self.wf(),
            mapper.wf(),
        ensures
            r == (distinct_regions(self.memory_map()) && forall|f: u64| #[trigger]
                mapper.tables().dom().contains(f) ==> outside_usable(self.memory_map(), f)),
            r ==> mapper.unused_by(self.frames()),
    {
        if !has_distinct_regions(&self.memory_map) {
            return false;
        }
        proof {
            mapper.lemma_table_frames();
        }
        let tables: usize = mapper.table_count();
        let n: usize = self.memory_map.len();
        let mut t: usize = 0;
        while t < tables
            invariant
                0 <= t <= tables,
                tables == mapper.table_frames().len(),
                n == self.memory_map@.len(),
                mapper.wf(),
                forall|k: int| 0 <= k < t ==> outside_usable(self.memory_map@, #[trigger] mapper.table_frames()[k]),
            decreases tables - t,
        {
            let frame: u64 = mapper.table_frame(t).start_address().as_u64();
            let mut i: usize = 0;
            while i < n
                invariant
                    0 <= i <= n,
                    n == self.memory_map@.len(),
                    mapper.tables().dom().contains(frame),
                    forall|a: int|
                        0 <= a < i && (#[trigger] self.memory_map@[a]).is_usable() ==> !(self.memory_map@[a].start
                            <= frame < self.memory_map@[a].end),
                decreases n - i,
            {
                let region: MemoryRegion = self.memory_map[i];
                if region.usable() && region.holds(frame) {
                    return false;
                }
                i = i + 1;
            }
            t = t + 1;
        }
        proof {
            assert forall|f: u64| #[trigger] mapper.tables().dom().contains(f) implies outside_usable(
                self.memory_map(),
                f,
            ) by {
                assert(mapper.table_frames().contains(f));
                let k = mapper.table_frames().index_of(f);
                assert(mapper.table_frames()[k] == f);
            }
            self.lemma_frames_distinct();
        }
        true
    }

    /// All frames of the usable regions, in the order in which a fresh
    /// allocator hands them out.
    pub fn usable_frames(&self) -> (r: Vec<PhysFrame>)
        requires
            self.wf(),
        ensures
            r@.len() == usable_frames(self.memory_map()).len(),
            forall|k: int| 0 <= k < r@.len() ==> (#[trigger] r@[k]).start() == usable_frames(self.memory_map())[k],
    {
        let mut out: Vec<PhysFrame> = Vec::new();
        let n: usize = self.memory_map.len();
        let mut r: usize = 0;
        while r < n
            invariant
                0 <= r <= n,
                n == self.memory_map@.len(),
                self.wf(),
                out@.len() == usable_frames(self.memory_map@.take(r as int)).len(),
                forall|k: int| 0 <= k < out@.len() ==> (#[trigger] out@[k]).start() == usable_frames(self.memory_map@)[k],
            decreases n - r,
        {
            let region: MemoryRegion = self.memory_map[r];
            let count: u64 = region.count_frames();
            proof {
                lemma_usable_frames_prefix(self.memory_map@, r as int);
                lemma_usable_frames_prefix(self.memory_map@, r + 1);
            }
            let ghost base = out@.len();
            let mut i: u64 = 0;
            while i < count
                invariant
                    0 <= i <= count,
                    count == region.frame_count(),
                    region == self.memory_map@[r as int],
                    region.valid(),
                    0 <= r < self.memory_map@.len(),
                    base == usable_frames(self.memory_map@.take(r as int)).len(),
                    usable_frames(self.memory_map@.take(r + 1)) == usable_frames(self.memory_map@.take(r as int))
                        + region.frames(),
                    usable_frames(self.memory_map@.take(r + 1)).is_prefix_of(usable_frames(self.memory_map@)),
                    out@.len() == base + i,
                    forall|k: int| 0 <= k < out@.len() ==> (#[trigger] out@[k]).start() == usable_frames(self.memory_map@)[k],
                decreases count - i,
            {
                proof {
                    lemma_region_frame(region, i as int);
                    assert(i * 4096 == i as int * PAGE_SIZE as int);
                }
                let addr: u64 = region.start + i * PAGE_SIZE;
                let frame: PhysFrame = PhysFrame::containing_address(PhysAddr::new(addr));
                proof {
                    let all = usable_frames(self.memory_map@);
                    let upto = usable_frames(self.memory_map@.take(r + 1));
                    assert(upto[base + i] == region.frames()[i as int]);
                    assert(all[base + i] == upto[base + i]);
                }
                out.push(frame);
                i = i + 1;
            }
            r = r + 1;
        }
        proof {
            assert(self.memory_map@.take(n as int) =~= self.memory_map@);
        }
        out
    }
}

impl FrameAllocator for BootInfoFrameAllocator {
    closed spec fn frames(&self) -> Seq<u64> {
        usable_frames(self.memory_map@).skip(self.next as int)
    }

    closed spec fn wf(&self) -> bool {
        &&& valid_memory_map(self.memory_map@)
        &&& self.next <= usable_frames(self.memory_map@).len()
    }

    proof fn lemma_frames_are_frames(&self) {
        let all = usable_frames(self.memory_map@);
        assert forall|i: int| 0 <= i < self.frames().len() implies PhysFrame::is_frame_start(
            #[trigger] self.frames()[i],
        ) by {
            let k = self.next + i;
            lemma_frame_origin(self.memory_map@, k);
            let (r, j) = choose|r: int, j: int|
                0 <= r < self.memory_map@.len() && 0 <= j < self.memory_map@[r].frame_count() && all[k]
                    == #[trigger] self.memory_map@[r].frames()[j];
            lemma_region_frame(self.memory_map@[r], j);
        }
    }

    /// Hands out the frame at the cursor and moves the cursor on.
    fn allocate_frame(&mut self) -> (r: Option<PhysFrame>)
        ensures
            final(self).memory_map() == old(self).memory_map(),
            final(self).cursor() == if r is Some {
                old(self).cursor() + 1
            } else {
                old(self).cursor()
            },
    {
        let n: usize = self.memory_map.len();
        let mut remaining: u64 = self.next as u64;
        let mut r: usize = 0;
        while r < n
            invariant
                0 <= r <= n,
                n == self.memory_map@.len(),
                self.wf(),
                *self == *old(self),
                usable_frames(self.memory_map@.take(r as int)).len() + remaining == self.next,
            decreases n - r,
        {
            let region: MemoryRegion = self.memory_map[r];
            let count: u64 = region.count_frames();
            proof {
                lemma_usable_frames_prefix(self.memory_map@, r as int);
                lemma_usable_frames_prefix(self.memory_map@, r + 1);
            }
            if remaining < count {
                proof {
                    lemma_region_frame(region, remaining as int);
                    assert(remaining * 4096 == remaining as int * PAGE_SIZE as int);
                }
                let addr: u64 = region.start + remaining * PAGE_SIZE;
                let frame: PhysFrame = PhysFrame::containing_address(PhysAddr::new(addr));
                proof {
                    let all = usable_frames(self.memory_map@);
                    let upto = usable_frames(self.memory_map@.take(r + 1));
                    let base = usable_frames(self.memory_map@.take(r as int)).len();
                    assert(upto[base + remaining] == region.frames()[remaining as int]);
                    assert(all[self.next as int] == upto[base + remaining]);
                    assert(all.skip(self.next as int)[0] == all[self.next as int]);
                    assert(all.skip(self.next as int).drop_first() =~= all.skip(self.next + 1));
                }
                self.next = self.next + 1;
                return Some(frame);
            }
            remaining = remaining - count;
            r = r + 1;
        }
        proof {
            assert(self.memory_map@.take(n as int) =~= self.memory_map@);
        }
        None
    }
}

/// Tests what `BootInfoFrameAllocator::init` requires of a memory map.
pub fn is_valid_memory_map(memory_map: &Vec<MemoryRegion>) -> (r: bool)
    ensures
        r == valid_memory_map(memory_map@),
{
    let n: usize = memory_map.len();
    let mut total: usize = 0;
    let mut r: usize = 0;
    while r < n
        invariant
            0 <= r <= n,
            n == memory_map@.len(),
            total == usable_frames(memory_map@.take(r as int)).len(),
            forall|i: int| 0 <= i < r ==> (#[trigger] memory_map@[i]).valid(),
        decreases n - r,
    {
        let region: MemoryRegion = memory_map[r];
        proof {
            lemma_usable_frames_prefix(memory_map@, r as int);
            lemma_usable_frames_prefix(memory_map@, r + 1);
        }
        let usable: bool = match region.region_type {
            MemoryRegionType::Usable => true,
            _ => false,
        };
        if usable && region.end > PHYS_ADDR_LIMIT {
            return false;
        }
        let count: u64 = region.count_frames();
        if count > (usize::MAX - total) as u64 {
            return false;
        }
        total = total + count as usize;
        r = r + 1;
    }
    proof {
        assert(memory_map@.take(n as int) =~= memory_map@);
    }
    true
}

/// An allocator with no frames: every request fails.
#[derive(Clone, Copy, Debug)]
pub struct EmptyFrameAllocator;

impl FrameAllocator for EmptyFrameAllocator {
    open spec fn frames(&self) -> Seq<u64> {
        Seq::empty()
    }

    open spec fn wf(&self) -> bool {
        true
    }

    proof fn lemma_frames_are_frames(&self) {
    }

    fn allocate_frame(&mut self) -> (r: Option<PhysFrame>) {
        None
    }
}

} // verus!
