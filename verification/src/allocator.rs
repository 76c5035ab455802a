//! The kernel heap: where it lies, how it is mapped, and the allocators
//! that hand out its bytes.

use vstd::prelude::*;
use crate::addr::block_start;
use crate::addr::table_index;
use crate::addr::Page;
use crate::addr::PhysFrame;
use crate::addr::VirtAddr;
use crate::addr::PAGE_SIZE;
use crate::allocator::bump::Block;
use crate::allocator::bump::BumpAllocator;
use crate::memory::FrameAllocator;
use crate::paging::mapper::MapToError;
use crate::paging::mapper::MapperFlush;
use crate::paging::mapper::OffsetPageTable;
use crate::paging::lemma_missing_tables_same_path;
use crate::paging::entry_addr;
use crate::paging::entry_is_huge;
use crate::paging::entry_is_present;
use crate::paging::missing_tables;
use crate::paging::Mapping;
use crate::paging::PRESENT;
use crate::paging::WRITABLE;

pub mod bump;

verus! {

/// First virtual address of the kernel heap.
pub const HEAP_START: u64 = 0x_4444_4444_0000;

/// Size of the kernel heap in bytes (100 KiB).
pub const HEAP_SIZE: u64 = 100 * 1024;

/// The smallest multiple of `align` that is not below `addr`.
pub open spec fn spec_align_up(addr: int, align: int) -> int {
    if addr % align == 0 {
        addr
    } else {
        addr - addr % align + align
    }
}

/// `spec_align_up` is the least multiple of `align` from `addr` upwards.
pub proof fn lemma_align_up_is_least(addr: int, align: int)
    requires
        0 <= addr,
        0 < align,
    ensures
        spec_align_up(addr, align) % align == 0,
        addr <= spec_align_up(addr, align) < addr + align,
        forall|m: int| addr <= m && #[trigger] (m % align) == 0 ==> spec_align_up(addr, align) <= m,
{
    let up = spec_align_up(addr, align);
    let down = addr - addr % align;
    assert(down == align * (addr / align)) by (nonlinear_arith)
        requires
            0 < align,
            down == addr - addr % align,
    ;
    assert(down % align == 0 && (down + align) % align == 0) by (nonlinear_arith)
        requires
            0 < align,
            down == align * (addr / align),
    ;
    assert forall|m: int| addr <= m && #[trigger] (m % align) == 0 implies up <= m by {
        if addr % align != 0 {
            assert(m >= down + align) by (nonlinear_arith)
                requires
                    0 < align,
                    down == align * (addr / align),
                    m % align == 0,
                    m > down,
            ;
        }
    }
}

/// Rounds `addr` up to the next multiple of `align`.
pub fn align_up(addr: u64, align: u64) -> (r: u64)
    requires
        align > 0,
        spec_align_up(addr as int, align as int) <= u64::MAX,
    ensures
        r == spec_align_up(addr as int, align as int),
        r % align == 0,
        addr <= r < addr + align,
{
    proof {
        lemma_align_up_is_least(addr as int, align as int);
    }
    let remainder: u64 = addr % align;
    if remainder == 0 {
        addr
    } else {
        assert(remainder <= addr) by (nonlinear_arith)
            requires
                remainder == addr % align,
                align > 0,
        ;
        addr - remainder + align
    }
}

/// An allocator that owns no memory: every request fails.
#[derive(Clone, Copy, Debug)]
pub struct Dummy;

impl Dummy {
    /// Refuses the request.
    pub fn allocate(&self, size: u64, align: u64) -> (r: Option<u64>)
        ensures
            r.is_none(),
    {
        None
    }
}

/// Number of pages that the kernel heap covers.
pub const HEAP_PAGES: u64 = 25;

/// Flags of the pages of the heap: present and writable.
pub const HEAP_FLAGS: u64 = 0x3;

/// First address of the page of the heap with number `i`.
pub open spec fn heap_page(i: int) -> u64 {
    (HEAP_START + i * PAGE_SIZE) as u64
}

/// Position, among the frames that the frame allocator hands out during
/// `init_heap`, of the frame that backs the page of the heap with number
/// `i`: the first page is served first, then the tables that were missing,
/// then the other pages.
pub open spec fn heap_frame_index(missing: nat, i: int) -> int {
    if i == 0 {
        0
    } else {
        missing + i
    }
}

/// The mappings after the first `count` pages of the heap were mapped to
/// frames of `avail`.
pub open spec fn with_heap_pages(
    mappings: Map<u64, Mapping>,
    avail: Seq<u64>,
    missing: nat,
    count: nat,
) -> Map<u64, Mapping>
    decreases count,
{
    if count == 0 {
        mappings
    } else {
        with_heap_pages(mappings, avail, missing, (count - 1) as nat).insert(
            heap_page(count - 1),
            Mapping { frame: avail[heap_frame_index(missing, count - 1)], flags: HEAP_FLAGS },
        )
    }
}

/// Number of the first page of the heap, from number `from` on, that
/// `mappings` maps; `HEAP_PAGES` where it maps none of them.
pub open spec fn first_mapped_heap_page(mappings: Map<u64, Mapping>, from: nat) -> nat
    decreases HEAP_PAGES - from,
{
    if from >= HEAP_PAGES {
        HEAP_PAGES as nat
    } else if mappings.dom().contains(heap_page(from as int)) {
        from
    } else {
        first_mapped_heap_page(mappings, from + 1)
    }
}

/// Number of frames that `init_heap` asks of the frame allocator before it
/// returns, given the number of the first page that is mapped already and
/// the number of tables that are missing.
pub open spec fn heap_frames_needed(first_mapped: nat, missing: nat) -> nat {
    if first_mapped < HEAP_PAGES {
        first_mapped + 1
    } else {
        HEAP_PAGES as nat + missing
    }
}

/// Number of pages of the heap that `init_heap` maps, given the number of
/// frames that the frame allocator holds.
pub open spec fn heap_pages_mapped(first_mapped: nat, missing: nat, frames: nat) -> nat {
    if first_mapped < HEAP_PAGES {
        if frames < first_mapped {
            frames
        } else {
            first_mapped
        }
    } else if frames >= HEAP_PAGES + missing {
        HEAP_PAGES as nat
    } else if frames < 1 + missing {
        0
    } else {
        (frames - missing) as nat
    }
}

/// Number of tables that `init_heap` makes: those that are missing, as far
/// as the frames reach once the first page of the heap has its frame.
pub open spec fn heap_tables_made(missing: nat, frames: nat) -> nat {
    if frames == 0 {
        0
    } else if frames - 1 < missing {
        (frames - 1) as nat
    } else {
        missing
    }
}

/// The pages of the heap are pages, lie on one walk down to level 1, and
/// differ from each other.
pub proof fn lemma_heap_page(i: int)
    requires
        0 <= i < HEAP_PAGES,
    ensures
        heap_page(i) == HEAP_START + i * PAGE_SIZE,
        Page::is_page_start(heap_page(i)),
        block_start(heap_page(i)) == heap_page(i),
        table_index(heap_page(i), 4) == table_index(HEAP_START, 4),
        table_index(heap_page(i), 3) == table_index(HEAP_START, 3),
        table_index(heap_page(i), 2) == table_index(HEAP_START, 2),
        forall|k: int| 0 <= k < HEAP_PAGES && k != i ==> heap_page(k) != heap_page(i),
{
    assert forall|k: int| 0 <= k < HEAP_PAGES && k != i implies heap_page(k) != heap_page(i) by {}
}

/// The flags of the pages of the heap are `PRESENT` and `WRITABLE`.
pub proof fn lemma_heap_flags()
    ensures
        HEAP_FLAGS == PRESENT | WRITABLE,
        (HEAP_FLAGS & crate::paging::PARENT_FLAGS) & WRITABLE != 0,
        crate::paging::valid_leaf_flags(HEAP_FLAGS),
{
    crate::paging::lemma_present_writable();
}

/// Every address of the heap lies in one of its pages.
pub proof fn lemma_heap_address(addr: u64)
    requires
        HEAP_START <= addr < HEAP_START + HEAP_SIZE,
    ensures
        0 <= (addr - HEAP_START) / (PAGE_SIZE as int) < HEAP_PAGES,
        block_start(addr) == heap_page((addr - HEAP_START) / (PAGE_SIZE as int)),
{
}

/// Where no page of the heap from `from` up to `upto` is mapped, the first
/// mapped page is searched for from `upto` on.
pub proof fn lemma_first_mapped(mappings: Map<u64, Mapping>, from: nat, upto: nat)
    requires
        from <= upto <= HEAP_PAGES,
        forall|k: int| from <= k < upto ==> !mappings.dom().contains(heap_page(k)),
    ensures
        first_mapped_heap_page(mappings, from) == first_mapped_heap_page(mappings, upto),
        upto <= first_mapped_heap_page(mappings, upto) <= HEAP_PAGES,
        upto < HEAP_PAGES && mappings.dom().contains(heap_page(upto as int)) ==> first_mapped_heap_page(
            mappings,
            upto,
        ) == upto,
    decreases HEAP_PAGES - from,
{
    if from < upto {
        lemma_first_mapped(mappings, from + 1, upto);
    } else {
        lemma_first_mapped_bound(mappings, upto);
    }
}

/// The first mapped page from `from` on has a number from `from` to
/// `HEAP_PAGES`.
pub proof fn lemma_first_mapped_bound(mappings: Map<u64, Mapping>, from: nat)
    requires
        from <= HEAP_PAGES,
    ensures
        from <= first_mapped_heap_page(mappings, from) <= HEAP_PAGES,
        first_mapped_heap_page(mappings, from) < HEAP_PAGES ==> mappings.dom().contains(
            heap_page(first_mapped_heap_page(mappings, from) as int),
        ),
    decreases HEAP_PAGES - from,
{
    if from < HEAP_PAGES && !mappings.dom().contains(heap_page(from as int)) {
        lemma_first_mapped_bound(mappings, from + 1);
    }
}

/// `page` is one of the first `count` pages of the heap.
pub open spec fn among_heap_pages(page: u64, count: nat) -> bool {
    exists|k: int| 0 <= k < count && page == #[trigger] heap_page(k)
}

/// The pages that are mapped after the first `count` pages of the heap
/// were mapped: those that were mapped before, and these pages.
pub proof fn lemma_with_heap_pages(
    mappings: Map<u64, Mapping>,
    avail: Seq<u64>,
    missing: nat,
    count: nat,
)
    requires
        count <= HEAP_PAGES,
    ensures
        forall|page: u64| #[trigger]
            with_heap_pages(mappings, avail, missing, count).dom().contains(page) <==> (
            mappings.dom().contains(page) || among_heap_pages(page, count)),
        forall|k: int|
            0 <= k < count ==> (#[trigger] with_heap_pages(mappings, avail, missing, count)[heap_page(
                k,
            )]).flags == HEAP_FLAGS,
    decreases count,
{
    if count > 0 {
        let before = with_heap_pages(mappings, avail, missing, (count - 1) as nat);
        let after = with_heap_pages(mappings, avail, missing, count);
        lemma_with_heap_pages(mappings, avail, missing, (count - 1) as nat);
        lemma_heap_page(count - 1);
        assert forall|page: u64| #[trigger] after.dom().contains(page) <==> (mappings.dom().contains(page)
            || among_heap_pages(page, count)) by {
            let last = heap_page(count - 1);
            assert(after.dom().contains(page) <==> (before.dom().contains(page) || page == last));
            assert(before.dom().contains(page) <==> (mappings.dom().contains(page) || among_heap_pages(
                page,
                (count - 1) as nat,
            )));
            if among_heap_pages(page, (count - 1) as nat) {
                let k = choose|k: int| 0 <= k < count - 1 && page == #[trigger] heap_page(k);
                assert(0 <= k < count && page == heap_page(k));
            }
            if among_heap_pages(page, count) {
                let k = choose|k: int| 0 <= k < count && page == #[trigger] heap_page(k);
                if k < count - 1 {
                    assert(0 <= k < count - 1 && page == heap_page(k));
                    assert(among_heap_pages(page, (count - 1) as nat));
                }
            }
            if page == last {
                assert(0 <= count - 1 < count && page == heap_page(count - 1));
            }
        }
        assert forall|k: int| 0 <= k < count implies (#[trigger] after[heap_page(k)]).flags
            == HEAP_FLAGS by {
            if k < count - 1 {
                assert(heap_page(k) != heap_page(count - 1));
                assert(before[heap_page(k)].flags == HEAP_FLAGS);
                assert(after[heap_page(k)] == before[heap_page(k)]);
            }
        }
    }
}

/// What `init_heap` does where the walk for the heap meets no entry that
/// the mapper does not follow: which pages it maps, which frames it takes
/// and which tables it makes, and when it fails.
pub open spec fn heap_mapped(
    pre: OffsetPageTable,
    avail: Seq<u64>,
    post: OffsetPageTable,
    left: Seq<u64>,
    r: Result<Vec<MapperFlush>, MapToError>,
) -> bool {
    let missing = missing_tables(pre.tables(), pre.root(), HEAP_START);
    let first = first_mapped_heap_page(pre.mappings(), 0);
    let needed = heap_frames_needed(first, missing);
    let mapped = heap_pages_mapped(first, missing, avail.len());
    &&& r is Ok <==> first == HEAP_PAGES && avail.len() >= needed
    &&& (r is Err && r->Err_0 is FrameAllocationFailed) <==> avail.len() < needed
    &&& (r is Err && r->Err_0 is PageAlreadyMapped) <==> first < HEAP_PAGES && avail.len() >= needed
    &&& r matches Err(MapToError::PageAlreadyMapped(frame)) ==> frame.start() == avail[first as int]
    &&& post.mappings() == with_heap_pages(pre.mappings(), avail, missing, mapped)
    &&& left == avail.skip(
        if avail.len() < needed {
            avail.len() as int
        } else {
            needed as int
        },
    )
    &&& post.table_frames() == pre.table_frames() + avail.subrange(
        if avail.len() == 0 {
            0
        } else {
            1
        },
        if avail.len() == 0 {
            0
        } else {
            1 + heap_tables_made(missing, avail.len()) as int
        },
    )
}

/// Maps every page of the heap to a frame of its own from
/// `frame_allocator`, present and writable, in ascending order, and then
/// gives the heap to `allocator`. For each page the frame is taken first.
/// Stops at the first page that cannot be mapped; the pages mapped until
/// then stay mapped. On success every address of the heap translates, and
/// the caller has to discard the cached translations of the pages
/// returned.
pub fn init_heap<A: FrameAllocator>(
    mapper: &mut OffsetPageTable,
    frame_allocator: &mut A,
    allocator: &mut BumpAllocator,
) -> (r: Result<Vec<MapperFlush>, MapToError>)
    requires
        old(mapper).wf(),
        old(frame_allocator).wf(),
        old(mapper).unused_by(old(frame_allocator).frames()),
        old(allocator).wf(),
        old(allocator).live().len() == 0,
    ensures
        final(mapper).wf(),
        final(frame_allocator).wf(),
        final(allocator).wf(),
        final(mapper).root() == old(mapper).root(),
        final(mapper).offset() == old(mapper).offset(),
        final(mapper).pending() == old(mapper).pending(),
        final(mapper).unused_by(final(frame_allocator).frames()),
        old(frame_allocator).frames().len() == 0 ==> r is Err && r->Err_0 is FrameAllocationFailed,
        match old(mapper).obstacle(HEAP_START) {
            Some((_, entry)) => {
                let avail = old(frame_allocator).frames();
                &&& r is Err
                &&& avail.len() > 0 ==> {
                    &&& r->Err_0 is ParentEntryHugePage <==> entry_is_huge(entry)
                    &&& r->Err_0 is ParentEntryNotPresent <==> !entry_is_huge(entry) && !entry_is_present(
                        entry,
                    )
                    &&& r->Err_0 is ParentTableNotHeld <==> !entry_is_huge(entry) && entry_is_present(entry)
                    &&& r->Err_0 matches MapToError::ParentTableNotHeld(f) ==> f.start() == entry_addr(entry)
                }
                &&& final(frame_allocator).frames() == avail.skip(
                    if avail.len() == 0 {
                        0
                    } else {
                        1
                    },
                )
                &&& final(mapper).mappings() == old(mapper).mappings()
                &&& final(mapper).table_frames() == old(mapper).table_frames()
            },
            None => {
                &&& heap_mapped(
                    *old(mapper),
                    old(frame_allocator).frames(),
                    *final(mapper),
                    final(frame_allocator).frames(),
                    r,
                )
                &&& !(r is Err && r->Err_0 is ParentEntryHugePage)
                &&& !(r is Err && r->Err_0 is ParentEntryNotPresent)
                &&& !(r is Err && r->Err_0 is ParentTableNotHeld)
            },
        },
        r matches Ok(flushes) ==> {
            &&& flushes@.len() == HEAP_PAGES
            &&& forall|i: int| 0 <= i < HEAP_PAGES ==> (#[trigger] flushes@[i]).page().start() == heap_page(i)
            &&& final(allocator).heap_start() == HEAP_START
            &&& final(allocator).heap_end() == HEAP_START + HEAP_SIZE
            &&& final(allocator).next() == HEAP_START
            &&& final(allocator).live() == Seq::<Block>::empty()
            &&& forall|addr: u64|
                HEAP_START <= addr < HEAP_START + HEAP_SIZE ==> (#[trigger] final(mapper).translation(
                    addr,
                )) is Some && final(mapper).mappings()[block_start(addr)].flags == HEAP_FLAGS
                    && final(mapper).writable(block_start(addr)) && final(mapper).walk_known(addr)
        },
        r is Err ==> *final(allocator) == *old(allocator),
        forall|addr: u64, flag: u64| #[trigger]
            old(mapper).allows(addr, flag) ==> final(mapper).allows(addr, flag),
{
    let ghost mappings0 = mapper.mappings();
    let ghost missing = missing_tables(mapper.tables(), mapper.root(), HEAP_START);
    let ghost avail = frame_allocator.frames();
    let ghost first = first_mapped_heap_page(mappings0, 0);
    let mut flushes: Vec<MapperFlush> = Vec::new();
    let mut i: u64 = 0;
    proof {
        assert(avail.skip(0) =~= avail);
        lemma_first_mapped_bound(mappings0, 0);
        if first < HEAP_PAGES {
            lemma_heap_page(first as int);
            mapper.lemma_mapped_has_tables(heap_page(first as int));
            lemma_missing_tables_same_path(mapper.tables(), mapper.root(), heap_page(first as int), HEAP_START);
        }
    }
    while i < HEAP_PAGES
        invariant
            0 <= i <= HEAP_PAGES,
            first <= HEAP_PAGES,
            first < HEAP_PAGES ==> missing == 0,
            mapper.wf(),
            old(mapper).wf(),
            frame_allocator.wf(),
            allocator.wf(),
            allocator.live().len() == 0,
            mapper.unused_by(frame_allocator.frames()),
            mapper.root() == old(mapper).root(),
            mapper.offset() == old(mapper).offset(),
            mapper.pending() == old(mapper).pending(),
            mapper.obstacle(HEAP_START) == old(mapper).obstacle(HEAP_START),
            i > 0 ==> mapper.obstacle(HEAP_START) is None,
            i == 0 ==> mapper.mappings() == mappings0,
            *allocator == *old(allocator),
            mappings0 == old(mapper).mappings(),
            missing == missing_tables(old(mapper).tables(), old(mapper).root(), HEAP_START),
            avail == old(frame_allocator).frames(),
            first == first_mapped_heap_page(mappings0, 0),
            forall|k: int| 0 <= k < i ==> !mappings0.dom().contains(heap_page(k)),
            mapper.mappings() == with_heap_pages(mappings0, avail, missing, i as nat),
            heap_frame_index(missing, i as int) <= avail.len(),
            frame_allocator.frames() == avail.skip(heap_frame_index(missing, i as int)),
            missing_tables(mapper.tables(), mapper.root(), HEAP_START) == if i == 0 {
                missing
            } else {
                0
            },
            flushes@.len() == i,
            forall|k: int| 0 <= k < i ==> (#[trigger] flushes@[k]).page().start() == heap_page(k),
            forall|k: int| 0 <= k < i ==> mapper.writable(#[trigger] heap_page(k)),
            i == 0 ==> mapper.table_frames() == old(mapper).table_frames(),
            i > 0 ==> mapper.table_frames() == old(mapper).table_frames() + avail.subrange(1, 1 + missing as int),
            forall|addr: u64, flag: u64| #[trigger] old(mapper).allows(addr, flag) ==> mapper.allows(addr, flag),
        decreases HEAP_PAGES - i,
    {
        let ghost consumed = heap_frame_index(missing, i as int);
        proof {
            lemma_heap_flags();
            lemma_heap_page(i as int);
            lemma_first_mapped(mappings0, 0, i as nat);
            lemma_with_heap_pages(mappings0, avail, missing, i as nat);
            lemma_missing_tables_same_path(mapper.tables(), mapper.root(), heap_page(i as int), HEAP_START);
            crate::paging::lemma_obstacle_same_path(
                mapper.tables(),
                mapper.pending(),
                mapper.root(),
                heap_page(i as int),
                HEAP_START,
            );
            if mappings0.dom().contains(heap_page(i as int)) {
                old(mapper).lemma_mapped_has_tables(heap_page(i as int));
                lemma_missing_tables_same_path(
                    old(mapper).tables(),
                    old(mapper).root(),
                    heap_page(i as int),
                    HEAP_START,
                );
            }
        }
        let page: Page = Page::containing_address(VirtAddr::new(HEAP_START + i * PAGE_SIZE));
        let frame: PhysFrame = match frame_allocator.allocate_frame() {
            Some(frame) => frame,
            None => {
                proof {
                    assert(avail.skip(consumed) =~= avail.skip(avail.len() as int));
                    assert(old(mapper).table_frames() + avail.subrange(0, 0) =~= old(mapper).table_frames());
                }
                return Err(MapToError::FrameAllocationFailed);
            },
        };
        proof {
            assert(frame.start() == avail[consumed]);
            assert(frame_allocator.frames() =~= avail.skip(consumed + 1));
            assert forall|k: int| 0 <= k < frame_allocator.frames().len() implies !mapper.tables().dom().contains(
                #[trigger] frame_allocator.frames()[k],
            ) by {
                assert(frame_allocator.frames()[k] == avail.skip(consumed)[k + 1]);
            }
        }
        let ghost rest = frame_allocator.frames();
        let ghost gap = missing_tables(mapper.tables(), mapper.root(), page.start());
        let ghost before = *mapper;
        match mapper.map_to(page, frame, HEAP_FLAGS, frame_allocator) {
            Ok(flush) => {
                flushes.push(flush);
                proof {
                    if i == 0 {
                        assert(rest.take(missing as int) =~= avail.subrange(1, 1 + missing as int));
                    } else {
                        assert(before.table_frames() + rest.take(0) =~= before.table_frames());
                    }
                    assert(mapper.allows(heap_page(i as int), WRITABLE));
                    assert forall|k: int| 0 <= k < i implies mapper.writable(#[trigger] heap_page(k)) by {
                        assert(before.writable(heap_page(k)));
                    }
                    assert(frame_allocator.frames() =~= avail.skip(heap_frame_index(missing, i + 1)));
                    assert(mapper.mappings().dom().contains(heap_page(i as int)));
                    mapper.lemma_mapped_has_tables(heap_page(i as int));
                    lemma_missing_tables_same_path(
                        mapper.tables(),
                        mapper.root(),
                        heap_page(i as int),
                        HEAP_START,
                    );
                    crate::paging::lemma_obstacle_same_path(
                        mapper.tables(),
                        mapper.pending(),
                        mapper.root(),
                        heap_page(i as int),
                        HEAP_START,
                    );
                }
            },
            Err(e) => {
                proof {
                    if before.obstacle(page.start()) is Some {
                        assert(i == 0);
                        assert(frame_allocator.frames() =~= avail.skip(1));
                    } else if gap > rest.len() {
                        assert(frame_allocator.frames() =~= avail.skip(avail.len() as int));
                        assert(rest.take(rest.len() as int) =~= avail.subrange(1, avail.len() as int));
                    } else {
                        assert(frame_allocator.frames() =~= avail.skip(consumed + 1));
                        assert(before.table_frames() + rest.take(0) =~= before.table_frames());
                        assert(old(mapper).table_frames() + avail.subrange(1, 1) =~= old(mapper).table_frames());
                    }
                }
                return Err(e);
            },
        }
        i = i + 1;
    }
    proof {
        lemma_first_mapped(mappings0, 0, HEAP_PAGES as nat);
        lemma_with_heap_pages(mappings0, avail, missing, HEAP_PAGES as nat);
        assert forall|addr: u64| HEAP_START <= addr < HEAP_START + HEAP_SIZE implies (
        #[trigger] mapper.translation(addr)) is Some && mapper.mappings()[block_start(addr)].flags
            == HEAP_FLAGS && mapper.writable(block_start(addr)) by {
            lemma_heap_address(addr);
            let k = (addr - HEAP_START) / (PAGE_SIZE as int);
            assert(mapper.mappings().dom().contains(heap_page(k)));
            assert(mapper.writable(heap_page(k)));
            lemma_heap_page(k);
            crate::addr::lemma_block_indices(addr);
            crate::paging::lemma_obstacle_same_path(
                mapper.tables(),
                mapper.pending(),
                mapper.root(),
                addr,
                HEAP_START,
            );
        }
    }
    allocator.init(HEAP_START, HEAP_SIZE);
    Ok(flushes)
}

} // verus!
