//! The page mapper: a tree of page tables that takes the tables that exist,
//! grows as pages are mapped, and translates virtual addresses.

use vstd::prelude::*;
use crate::addr::block_start;
use crate::addr::offset_in_page;
use crate::addr::table_index;
use crate::addr::Page;
use crate::addr::PhysAddr;
use crate::addr::PhysFrame;
use crate::addr::VirtAddr;
use crate::memory::FrameAllocator;
use crate::paging::entry_addr;
use crate::paging::entry_frame;
use crate::paging::entry_is_present;
use crate::paging::entry_has;
use crate::paging::entry_is_huge;
use crate::paging::leaf_entries_valid;
use crate::paging::lemma_entry_parts;
use crate::paging::lemma_pending_entry;
use crate::paging::lemma_with_leaf_table;
use crate::paging::obstacle_of;
use crate::paging::pending_distinct;
use crate::paging::pending_entry;
use crate::paging::FrameError;
use crate::paging::Pending;
use crate::paging::HUGE_PAGE;
use crate::paging::entry_ok;
use crate::paging::first_leading;
use crate::paging::has_huge_entry;
use crate::paging::lemma_first_leading;
use crate::paging::lemma_first_leading_prefix;
use crate::paging::entry_target;
use crate::paging::leaf_entry;
use crate::paging::lemma_entry_addr_is_frame;
use crate::paging::lemma_entry_compose;
use crate::paging::lemma_parent_flags;
use crate::paging::lemma_path_levels;
use crate::paging::lemma_present_nonzero;
use crate::paging::lemma_with_flags;
use crate::paging::lemma_with_leaf;
use crate::paging::lemma_with_table;
use crate::paging::lemma_zero_entry;
use crate::paging::mappings_of;
use crate::paging::missing_tables;
use crate::paging::next_table;
use crate::paging::p1_table;
use crate::paging::p2_table;
use crate::paging::p3_table;
use crate::paging::tree_wf;
use crate::paging::valid_leaf_flags;
use crate::paging::with_child;
use crate::paging::with_entry;
use crate::paging::with_table;
use crate::paging::walk_has;
use crate::paging::zero_table;
use crate::paging::Mapping;
use crate::paging::Shape;
use crate::paging::ADDR_MASK;
use crate::paging::PARENT_FLAGS;
use crate::paging::PRESENT;
use crate::paging::WRITABLE;

verus! {

/// Why a page could not be mapped.
#[derive(Clone, Copy, Debug)]
pub enum MapToError {
    /// A table was missing and the frame allocator had no frame for it.
    FrameAllocationFailed,
    /// The page is mapped already; the frame is the one that was offered.
    PageAlreadyMapped(PhysFrame),
    /// An entry on the walk for the page names a huge frame.
    ParentEntryHugePage,
    /// An entry on the walk for the page is in use but not present: the
    /// mapper leaves it as it is, and the page cannot be mapped.
    ParentEntryNotPresent,
    /// An entry on the walk for the page leads to a table that the mapper
    /// does not hold: the table in this frame has to be handed in first.
    ParentTableNotHeld(PhysFrame),
}

/// What the tables of a mapper say of a virtual address.
#[derive(Clone, Copy, Debug)]
pub enum TranslateResult {
    /// The page of the address is mapped to `frame` with `flags`; the
    /// address lies `offset` bytes into the page.
    Mapped { frame: PhysFrame, offset: u16, flags: u64 },
    /// The page of the address is not mapped.
    NotMapped,
    /// An entry on the walk for the address leads to a table that the
    /// mapper does not hold: the table in this frame has to be handed in
    /// first.
    TableNotHeld(PhysFrame),
    /// An entry on the walk for the address names a huge frame.
    HugeFrame,
}

/// A page whose mapping changed: the processor may still hold the old
/// translation, which the caller has to discard.
#[must_use]
#[derive(Clone, Copy, Debug)]
pub struct MapperFlush {
    page: Page,
}

impl MapperFlush {
    /// The page whose cached translation is stale.
    pub closed spec fn spec_page(&self) -> Page {
        self.page
    }

    /// The page whose cached translation is stale.
    #[verifier::when_used_as_spec(spec_page)]
    pub fn page(&self) -> (r: Page)
        ensures
            r == self.spec_page(),
    {
        self.page
    }
}

/// A table with 512 unused entries.
fn new_table() -> (r: Vec<u64>)
    ensures
        r@ == zero_table(),
{
    let mut table: Vec<u64> = Vec::new();
    let mut i: usize = 0;
    while i < 512
        invariant
            0 <= i <= 512,
            table@.len() == i,
            forall|k: int| 0 <= k < i ==> table@[k] == 0,
        decreases 512 - i,
    {
        table.push(0);
        i = i + 1;
    }
    proof {
        assert(table@ =~= zero_table());
    }
    table
}

/// The entries of `entries` that are in use, to be kept for the table in
/// `table` at `level`.
fn pending_of(table: u64, level: u8, entries: &Vec<u64>) -> (r: Vec<Pending>)
    requires
        entries@.len() == 512,
    ensures
        pending_distinct(r@),
        forall|k: int|
            0 <= k < r@.len() ==> (#[trigger] r@[k]).table == table && r@[k].level == level && r@[k].slot
                < 512,
        forall|t: u64, s: int|
            0 <= s < 512 ==> #[trigger] pending_entry(r@, t, s) == if t == table {
                entries@[s]
            } else {
                0
            },
{
    let mut items: Vec<Pending> = Vec::new();
    let mut i: u16 = 0;
    while i < 512
        invariant
            0 <= i <= 512,
            entries@.len() == 512,
            pending_distinct(items@),
            forall|k: int|
                0 <= k < items@.len() ==> (#[trigger] items@[k]).table == table && items@[k].level == level
                    && items@[k].slot < i,
            forall|t: u64, s: int|
                0 <= s < 512 ==> #[trigger] pending_entry(items@, t, s) == if t == table && s < i {
                    entries@[s]
                } else {
                    0
                },
        decreases 512 - i,
    {
        let entry: u64 = entries[i as usize];
        if entry != 0 {
            let ghost before = items@;
            items.push(Pending { table, slot: i, level, entry });
            proof {
                assert(items@.drop_last() =~= before);
                assert forall|t: u64, s: int| 0 <= s < 512 implies #[trigger] pending_entry(items@, t, s) == if t
                    == table && s < i + 1 {
                    entries@[s]
                } else {
                    0
                } by {
                    assert(pending_entry(before, t, s) == if t == table && s < i {
                        entries@[s]
                    } else {
                        0
                    });
                }
            }
        }
        i = i + 1;
    }
    items
}

/// A tree of page tables together with the offset at which physical memory
/// appears in virtual memory.
///
/// The mapper holds the tables as values and decides what stands in them.
/// It starts from the level 4 table as it stands in memory, and is handed
/// the tables below it as they are needed (`adopt_table`): an entry whose
/// table it does not hold, or that names a huge frame, it keeps as it is
/// and does not follow. Tables that are missing it makes from frames of a
/// frame allocator, and it never makes an entry for a huge frame.
/// `table_frame` and `table_entry` hand the tables out, so that the caller
/// can write them to the frames that the processor reads.
pub struct OffsetPageTable {
    physical_memory_offset: VirtAddr,
    pending: Vec<Pending>,
    frames: Vec<u64>,
    tables: Vec<Vec<u64>>,
    mem: Ghost<Map<u64, Seq<u64>>>,
    shape: Ghost<Shape>,
}

impl OffsetPageTable {
    /// First address of the frame that holds the level 4 table.
    pub closed spec fn root(&self) -> u64 {
        self.frames@[0]
    }

    /// The tables of the tree, each under the first address of its frame.
    pub closed spec fn tables(&self) -> Map<u64, Seq<u64>> {
        self.mem@
    }

    /// The frames of the tables in the order in which they joined the tree;
    /// the level 4 table comes first.
    pub closed spec fn table_frames(&self) -> Seq<u64> {
        self.frames@
    }

    /// Where physical address zero appears in virtual memory.
    pub closed spec fn offset(&self) -> u64 {
        self.physical_memory_offset.value()
    }

    /// The stored tables are the tables of the tree.
    spec fn repr(&self) -> bool {
        &&& self.frames@.len() == self.tables@.len()
        &&& self.frames@.len() >= 1
        &&& self.frames@.no_duplicates()
        &&& forall|i: int|
            0 <= i < self.frames@.len() ==> self.mem@.dom().contains(#[trigger] self.frames@[i])
                && self.mem@[self.frames@[i]] == self.tables@[i]@
        &&& forall|f: u64| #[trigger] self.mem@.dom().contains(f) ==> self.frames@.contains(f)
    }

    /// The entries that the mapper keeps as it found them and does not
    /// follow.
    pub closed spec fn pending(&self) -> Seq<Pending> {
        self.pending@
    }

    /// The first entry on the walk for `addr` that the mapper keeps and
    /// does not follow, with the level of its table; `None` where the walk
    /// meets none.
    pub open spec fn obstacle(&self, addr: u64) -> Option<(int, u64)> {
        obstacle_of(self.tables(), self.pending(), self.root(), addr)
    }

    /// What stands in memory at `slot` of the table in `table`: the entry
    /// that the mapper follows or has made, or else the one that it keeps.
    pub open spec fn entry_at(&self, table: u64, slot: int) -> u64 {
        if self.tables()[table][slot] != 0 {
            self.tables()[table][slot]
        } else {
            pending_entry(self.pending(), table, slot)
        }
    }

    /// The walk for `addr` meets no entry that is present and that the
    /// mapper does not follow: the tables that the mapper holds tell what
    /// the address translates to.
    pub open spec fn walk_known(&self, addr: u64) -> bool {
        match self.obstacle(addr) {
            Some((_, entry)) => !entry_is_present(entry),
            None => true,
        }
    }

    /// The tables that the mapper holds form a tree.
    spec fn held_wf(&self) -> bool {
        &&& self.repr()
        &&& tree_wf(self.mem@, self.frames@[0], self.shape@)
    }

    /// The entries that are kept stand in tables above level 1 that the
    /// mapper holds, where the mapper itself has no entry.
    spec fn pend_wf(&self) -> bool {
        &&& pending_distinct(self.pending@)
        &&& forall|k: int|
            0 <= k < self.pending@.len() ==> {
                let p = #[trigger] self.pending@[k];
                &&& self.mem@.dom().contains(p.table)
                &&& p.slot < 512
                &&& p.level == self.shape@.level[p.table]
                &&& p.level > 1
                &&& self.mem@[p.table][p.slot as int] == 0
            }
    }

    /// The tables that the mapper holds form a tree: every page has at
    /// most one walk, and no entry that the mapper follows names a huge
    /// frame.
    pub closed spec fn wf(&self) -> bool {
        &&& self.held_wf()
        &&& self.pend_wf()
    }

    /// The pages that the tables of the mapper map, each under its first
    /// address.
    pub open spec fn mappings(&self) -> Map<u64, Mapping> {
        mappings_of(self.tables(), self.root())
    }

    /// The physical address that `addr` translates to by the tables of the
    /// mapper.
    pub open spec fn translation(&self, addr: u64) -> Option<u64> {
        if self.mappings().dom().contains(block_start(addr)) {
            Some((self.mappings()[block_start(addr)].frame + offset_in_page(addr)) as u64)
        } else {
            None
        }
    }

    /// The page at `addr` is mapped, and every entry on its walk has the
    /// flag `flag`.
    pub open spec fn allows(&self, addr: u64, flag: u64) -> bool {
        walk_has(self.tables(), self.root(), addr, flag)
    }

    /// Writes to the page at `addr` are allowed: the page is mapped, and
    /// every entry on its walk is writable.
    pub open spec fn writable(&self, addr: u64) -> bool {
        self.allows(addr, WRITABLE)
    }

    /// None of `frames` holds a table of the tree, and none is listed
    /// twice: each can become a new table.
    pub open spec fn unused_by(&self, frames: Seq<u64>) -> bool {
        &&& frames.no_duplicates()
        &&& forall|i: int| 0 <= i < frames.len() ==> !self.tables().dom().contains(#[trigger] frames[i])
    }

    /// In a well-formed mapper the frames of the tables are the domain of
    /// its tables, and the root is among them.
    pub proof fn lemma_table_frames(&self)
        requires
            self.wf(),
        ensures
            self.table_frames().len() >= 1,
            self.table_frames()[0] == self.root(),
            self.table_frames().no_duplicates(),
            forall|f: u64| self.tables().dom().contains(f) <==> self.table_frames().contains(f),
            forall|f: u64| #[trigger] self.tables().dom().contains(f) ==> self.tables()[f].len() == 512,
    {
        assert forall|f: u64| self.table_frames().contains(f) implies self.tables().dom().contains(f) by {
            let i = choose|i: int| 0 <= i < self.frames@.len() && self.frames@[i] == f;
            assert(self.mem@.dom().contains(self.frames@[i]));
        }
    }

    /// A mapper whose level 4 table lies in `level_4_table_frame` and is
    /// empty.
    pub fn new(level_4_table_frame: PhysFrame, physical_memory_offset: VirtAddr) -> (r: OffsetPageTable)
        ensures
            r.wf(),
            r.root() == level_4_table_frame.start(),
            r.offset() == physical_memory_offset.value(),
            r.pending() == Seq::<Pending>::empty(),
            r.tables() == Map::<u64, Seq<u64>>::empty().insert(level_4_table_frame.start(), zero_table()),
            r.table_frames() == seq![level_4_table_frame.start()],
            r.mappings() == Map::<u64, Mapping>::empty(),
    {
        let r = OffsetPageTable::with_level_4_table(level_4_table_frame, new_table(), physical_memory_offset);
        proof {
            if r.pending@.len() > 0 {
                let p = r.pending@[0];
                assert(p.slot < 512 && p.entry != 0);
                lemma_pending_entry(r.pending@, p.table, p.slot as int);
                assert(r.pending@[0].table == p.table && r.pending@[0].slot == p.slot);
                assert(pending_entry(r.pending(), p.table, p.slot as int) != 0);
                assert(zero_table()[p.slot as int] == 0);
            }
            assert(r.pending@ =~= Seq::<Pending>::empty());
        }
        r
    }

    /// A mapper whose level 4 table lies in `level_4_table_frame` and holds
    /// `level_4_table`, the 512 entries as they stand in memory. The mapper
    /// keeps the entries that are in use and follows none of them yet; it
    /// holds no other table and has mapped nothing.
    pub fn with_level_4_table(
        level_4_table_frame: PhysFrame,
        level_4_table: Vec<u64>,
        physical_memory_offset: VirtAddr,
    ) -> (r: OffsetPageTable)
        requires
            level_4_table@.len() == 512,
        ensures
            r.wf(),
            r.root() == level_4_table_frame.start(),
            r.offset() == physical_memory_offset.value(),
            forall|t: u64, s: int|
                0 <= s < 512 ==> #[trigger] pending_entry(r.pending(), t, s) == if t
                    == level_4_table_frame.start() {
                    level_4_table@[s]
                } else {
                    0
                },
            r.tables() == Map::<u64, Seq<u64>>::empty().insert(level_4_table_frame.start(), zero_table()),
            r.table_frames() == seq![level_4_table_frame.start()],
            r.mappings() == Map::<u64, Mapping>::empty(),
    {
        let root: u64 = level_4_table_frame.start_address().as_u64();
        let mut frames: Vec<u64> = Vec::new();
        frames.push(root);
        let mut tables: Vec<Vec<u64>> = Vec::new();
        tables.push(new_table());
        let pending: Vec<Pending> = pending_of(root, 4, &level_4_table);
        let ghost mem = Map::<u64, Seq<u64>>::empty().insert(root, zero_table());
        let ghost shape = Shape { level: Map::<u64, int>::empty().insert(root, 4), parent: Map::empty() };
        let r = OffsetPageTable {
            physical_memory_offset,
            pending,
            frames,
            tables,
            mem: Ghost(mem),
            shape: Ghost(shape),
        };
        proof {
            lemma_zero_entry();
            assert(r.frames@ =~= seq![root]);
            assert(r.frames@[0] == root);
            assert forall|f: u64| #[trigger] r.mem@.dom().contains(f) implies r.frames@.contains(f) by {
                assert(r.frames@[0] == f);
            }
            assert forall|t: u64, s: int| mem.dom().contains(t) && 0 <= s < 512 implies #[trigger] entry_ok(
                mem,
                shape,
                t,
                s,
            ) by {}
            assert forall|page: u64| leaf_entry(mem, root, page) == 0 by {
            }
            assert(r.mappings() =~= Map::<u64, Mapping>::empty());
        }
        r
    }

    /// Position of the table that lies in the frame at `frame`.
    fn find(&self, frame: u64) -> (r: Option<usize>)
        requires
            self.repr(),
        ensures
            r is Some == self.mem@.dom().contains(frame),
            r matches Some(i) ==> i < self.frames@.len() && self.frames@[i as int] == frame,
    {
        let n: usize = self.frames.len();
        let mut i: usize = 0;
        while i < n
            invariant
                0 <= i <= n,
                n == self.frames@.len(),
                self.repr(),
                forall|k: int| 0 <= k < i ==> self.frames@[k] != frame,
            decreases n - i,
        {
            if self.frames[i] == frame {
                return Some(i);
            }
            i = i + 1;
        }
        proof {
            if self.mem@.dom().contains(frame) {
                assert(self.frames@.contains(frame));
            }
        }
        None
    }

    /// Position of the table that the entry at `index` of the table at
    /// position `table`, a table above level 1, leads to.
    fn next(&self, table: usize, index: u16) -> (r: Option<usize>)
        requires
            self.held_wf(),
            table < self.frames@.len(),
            index < 512,
            self.shape@.level[self.frames@[table as int]] > 1,
        ensures
            r is Some == next_table(self.mem@, Some(self.frames@[table as int]), index as int) is Some,
            r matches Some(i) ==> i < self.frames@.len() && Some(self.frames@[i as int]) == next_table(
                self.mem@,
                Some(self.frames@[table as int]),
                index as int,
            ),
    {
        let entry: u64 = self.tables[table][index as usize];
        proof {
            assert(self.mem@.dom().contains(self.frames@[table as int]));
        }
        match entry_frame(entry) {
            Ok(frame) => {
                let r = self.find(frame.start_address().as_u64());
                proof {
                    lemma_present_nonzero(entry);
                    lemma_entry_addr_is_frame(entry);
                    let t = self.frames@[table as int];
                    assert(entry_ok(self.mem@, self.shape@, t, index as int));
                }
                r
            },
            Err(_) => None,
        }
    }
    /// The entry that is kept for `slot` of the table at position `table`.
    fn kept(&self, table: usize, slot: u16) -> (r: u64)
        requires
            table < self.frames@.len(),
        ensures
            r == pending_entry(self.pending@, self.frames@[table as int], slot as int),
    {
        let frame: u64 = self.frames[table];
        let n: usize = self.pending.len();
        let mut found: u64 = 0;
        let mut i: usize = 0;
        while i < n
            invariant
                0 <= i <= n,
                n == self.pending@.len(),
                found == pending_entry(self.pending@.take(i as int), frame, slot as int),
            decreases n - i,
        {
            let item: Pending = self.pending[i];
            proof {
                assert(self.pending@.take(i + 1).drop_last() =~= self.pending@.take(i as int));
                assert(self.pending@.take(i + 1).last() == item);
            }
            if item.table == frame && item.slot == slot {
                found = item.entry;
            }
            i = i + 1;
        }
        proof {
            assert(self.pending@.take(n as int) =~= self.pending@);
        }
        found
    }

    /// The first entry on the walk for `addr` that the mapper keeps and
    /// does not follow, with the level of its table.
    fn find_obstacle(&self, addr: VirtAddr) -> (r: Option<(u8, u64)>)
        requires
            self.wf(),
        ensures
            r is Some == self.obstacle(addr.value()) is Some,
            r matches Some((level, entry)) ==> self.obstacle(addr.value()) == Some((level as int, entry)),
    {
        let i4: u16 = addr.p4_index();
        let i3: u16 = addr.p3_index();
        let i2: u16 = addr.p2_index();
        proof {
            lemma_path_levels(self.mem@, self.frames@[0], self.shape@, addr.value());
            assert(self.mem@.dom().contains(self.frames@[0]));
        }
        let e4: u64 = self.kept(0, i4);
        if e4 != 0 {
            return Some((4, e4));
        }
        let t3: usize = match self.next(0, i4) {
            Some(t) => t,
            None => {
                return None;
            },
        };
        let e3: u64 = self.kept(t3, i3);
        if e3 != 0 {
            return Some((3, e3));
        }
        let t2: usize = match self.next(t3, i3) {
            Some(t) => t,
            None => {
                return None;
            },
        };
        let e2: u64 = self.kept(t2, i2);
        if e2 != 0 {
            return Some((2, e2));
        }
        None
    }

    /// What the tables say of `addr`: the frame that its page is mapped to,
    /// with the offset in the page and the flags of the mapping; that its
    /// page is not mapped; that the walk leads to a table that the mapper
    /// does not hold, which has to be handed in before the question can be
    /// answered; or that the walk meets an entry for a huge frame.
    pub fn translate(&self, addr: VirtAddr) -> (r: TranslateResult)
        requires
            self.wf(),
        ensures
            match self.obstacle(addr.value()) {
                Some((_, entry)) => {
                    &&& r is NotMapped <==> !entry_is_present(entry)
                    &&& r is HugeFrame <==> entry_is_present(entry) && entry_is_huge(entry)
                    &&& r is TableNotHeld <==> entry_is_present(entry) && !entry_is_huge(entry)
                    &&& r matches TranslateResult::TableNotHeld(frame) ==> frame.start() == entry_addr(entry)
                },
                None => {
                    &&& r is Mapped <==> self.mappings().dom().contains(block_start(addr.value()))
                    &&& r is NotMapped <==> !self.mappings().dom().contains(block_start(addr.value()))
                },
            },
            r matches TranslateResult::Mapped { frame, offset, flags } ==> {
                &&& self.mappings().dom().contains(block_start(addr.value()))
                &&& frame.start() == self.mappings()[block_start(addr.value())].frame
                &&& flags == self.mappings()[block_start(addr.value())].flags
                &&& offset == offset_in_page(addr.value())
            },
    {
        match self.find_obstacle(addr) {
            Some((_, entry)) => {
                return match entry_frame(entry) {
                    Ok(frame) => TranslateResult::TableNotHeld(frame),
                    Err(FrameError::FrameNotPresent) => TranslateResult::NotMapped,
                    Err(FrameError::HugeFrame) => TranslateResult::HugeFrame,
                };
            },
            None => {},
        }
        let i4: u16 = addr.p4_index();
        let i3: u16 = addr.p3_index();
        let i2: u16 = addr.p2_index();
        let i1: u16 = addr.p1_index();
        let offset: u16 = addr.page_offset();
        let a: u64 = addr.as_u64();
        proof {
            crate::addr::lemma_block_indices(a);
            lemma_path_levels(self.mem@, self.frames@[0], self.shape@, a);
            lemma_zero_entry();
            assert(leaf_entry(self.mem@, self.frames@[0], block_start(a)) == leaf_entry(
                self.mem@,
                self.frames@[0],
                a,
            ));
        }
        let t3: usize = match self.next(0, i4) {
            Some(t) => t,
            None => {
                return TranslateResult::NotMapped;
            },
        };
        let t2: usize = match self.next(t3, i3) {
            Some(t) => t,
            None => {
                return TranslateResult::NotMapped;
            },
        };
        let t1: usize = match self.next(t2, i2) {
            Some(t) => t,
            None => {
                return TranslateResult::NotMapped;
            },
        };
        let entry: u64 = self.tables[t1][i1 as usize];
        proof {
            assert(self.mem@.dom().contains(self.frames@[t1 as int]));
            assert(entry == leaf_entry(self.mem@, self.frames@[0], addr.value()));
            lemma_entry_addr_is_frame(entry);
        }
        match entry_frame(entry) {
            Ok(frame) => {
                proof {
                    lemma_present_nonzero(entry);
                }
                TranslateResult::Mapped { frame, offset, flags: entry & !ADDR_MASK }
            },
            Err(_) => TranslateResult::NotMapped,
        }
    }

    /// The physical address that `addr` translates to, or `None` where its
    /// page is not mapped. The walk must not meet a table that the mapper
    /// does not hold, nor an entry for a huge frame; `translate` tells
    /// whether it does.
    pub fn translate_addr(&self, addr: VirtAddr) -> (r: Option<PhysAddr>)
        requires
            self.wf(),
            self.walk_known(addr.value()),
        ensures
            r is Some == self.translation(addr.value()) is Some,
            r matches Some(p) ==> Some(p.value()) == self.translation(addr.value()),
    {
        proof {
            if self.mappings().dom().contains(block_start(addr.value())) {
                self.lemma_mapped_has_tables(block_start(addr.value()));
                crate::addr::lemma_block_indices(addr.value());
            }
        }
        match self.translate(addr) {
            TranslateResult::Mapped { frame, offset, flags: _ } => Some(
                PhysAddr::new(frame.start_address().as_u64() + offset as u64),
            ),
            _ => None,
        }
    }

    /// The table below the entry at `index` of the table at position
    /// `table`. Where the entry is unused, a frame from `allocator` becomes
    /// that table, empty; where it is in use, it receives `insert_flags`.
    fn create_next_table<A: FrameAllocator>(
        &mut self,
        table: usize,
        index: u16,
        insert_flags: u64,
        allocator: &mut A,
    ) -> (r: Result<usize, MapToError>)
        requires
            old(self).held_wf(),
            old(allocator).wf(),
            table < old(self).frames@.len(),
            index < 512,
            old(self).shape@.level[old(self).frames@[table as int]] > 1,
            insert_flags & !PARENT_FLAGS == 0,
            insert_flags & PRESENT != 0,
            old(self).unused_by(old(allocator).frames()),
        ensures
            final(self).held_wf(),
            final(allocator).wf(),
            final(self).physical_memory_offset == old(self).physical_memory_offset,
            final(self).pending == old(self).pending,
            final(self).unused_by(final(allocator).frames()),
            forall|f: u64, s: int|
                old(self).mem@.dom().contains(f) && 0 <= s < 512 && !(f == old(self).frames@[table as int] && s
                    == index) ==> (#[trigger] final(self).mem@[f][s]) == old(self).mem@[f][s],
            forall|f: u64| #[trigger]
                old(self).mem@.dom().contains(f) ==> final(self).mem@.dom().contains(f) && final(self).shape@.level[f] == old(self).shape@.level[f],
            old(self).frames@.is_prefix_of(final(self).frames@),
            forall|addr: u64|
                leaf_entry(final(self).mem@, final(self).frames@[0], addr) == #[trigger] leaf_entry(
                    old(self).mem@,
                    old(self).frames@[0],
                    addr,
                ),
            forall|addr: u64, flag: u64| #[trigger]
                walk_has(old(self).mem@, old(self).frames@[0], addr, flag) ==> walk_has(
                    final(self).mem@,
                    final(self).frames@[0],
                    addr,
                    flag,
                ),
            r matches Ok(c) ==> {
                &&& c < final(self).frames@.len()
                &&& forall|flag: u64|
                    insert_flags & flag != 0 ==> #[trigger] entry_has(
                        final(self).mem@[old(self).frames@[table as int]][index as int],
                        flag,
                    )
                &&& final(self).shape@.level[final(self).frames@[c as int]] == old(self).shape@.level[old(
                    self,
                ).frames@[table as int]] - 1
                &&& next_table(final(self).mem@, Some(old(self).frames@[table as int]), index as int)
                    == Some(final(self).frames@[c as int])
            },
            ({
                let t = old(self).frames@[table as int];
                let e = old(self).mem@[t][index as int];
                let avail = old(allocator).frames();
                &&& e == 0 && avail.len() == 0 ==> {
                    &&& r is Err
                    &&& r->Err_0 is FrameAllocationFailed
                    &&& final(self).mem@ == old(self).mem@
                    &&& final(self).shape@ == old(self).shape@
                    &&& final(self).frames@ == old(self).frames@
                    &&& final(allocator).frames() == avail
                }
                &&& e == 0 && avail.len() > 0 ==> {
                    &&& r matches Ok(c)
                    &&& c < final(self).frames@.len()
                    &&& final(self).frames@[c as int] == avail[0]
                    &&& final(self).frames@ == old(self).frames@.push(avail[0])
                    &&& final(self).mem@ == with_table(old(self).mem@, t, index as int, avail[0], insert_flags)
                    &&& final(self).shape@ == with_child(old(self).shape@, t, index as int, avail[0])
                    &&& final(allocator).frames() == avail.drop_first()
                }
                &&& e != 0 ==> {
                    &&& r matches Ok(c)
                    &&& c < final(self).frames@.len()
                    &&& final(self).frames@[c as int] == entry_addr(e)
                    &&& final(self).frames@ == old(self).frames@
                    &&& final(self).mem@ == with_entry(old(self).mem@, t, index as int, e | insert_flags)
                    &&& final(self).shape@ == old(self).shape@
                    &&& final(allocator).frames() == avail
                }
            }),
    {
        let ghost t = self.frames@[table as int];
        let ghost root = self.frames@[0];
        let ghost mem0 = self.mem@;
        let ghost shape0 = self.shape@;
        let ghost frames0 = self.frames@;
        let ghost tables0 = self.tables@;
        let ghost avail = allocator.frames();
        proof {
            assert(mem0.dom().contains(self.frames@[table as int]));
            assert(mem0.dom().contains(self.frames@[0]));
            assert(entry_ok(mem0, shape0, t, index as int));
            allocator.lemma_frames_are_frames();
            crate::paging::lemma_parent_flag_bits(insert_flags);
        }
        let entry: u64 = self.tables[table][index as usize];
        if entry == 0 {
            match allocator.allocate_frame() {
                None => Err(MapToError::FrameAllocationFailed),
                Some(frame) => {
                    let nf: u64 = frame.start_address().as_u64();
                    proof {
                        assert(nf == avail[0]);
                        assert(!mem0.dom().contains(avail[0]));
                        lemma_with_table(mem0, root, shape0, t, index as int, nf, insert_flags);
                        lemma_entry_compose(nf, insert_flags);
                    }
                    self.tables[table].set(index as usize, nf | insert_flags);
                    self.frames.push(nf);
                    self.tables.push(new_table());
                    proof {
                        let mem2 = with_table(mem0, t, index as int, nf, insert_flags);
                        self.mem@ = mem2;
                        self.shape@ = with_child(shape0, t, index as int, nf);
                        let n = frames0.len() as int;
                        assert forall|i: int| 0 <= i < n implies frames0[i] != nf by {
                            assert(mem0.dom().contains(frames0[i]));
                        }
                        assert forall|i: int| 0 <= i < self.frames@.len() implies mem2.dom().contains(
                            #[trigger] self.frames@[i],
                        ) && mem2[self.frames@[i]] == self.tables@[i]@ by {
                            if i < n {
                                assert(self.frames@[i] == frames0[i]);
                                assert(mem0.dom().contains(frames0[i]));
                                if i != table {
                                    assert(frames0[i] != frames0[table as int]);
                                    assert(self.tables@[i] == tables0[i]);
                                }
                            }
                        }
                        assert forall|f: u64| #[trigger] mem2.dom().contains(f) implies self.frames@.contains(
                            f,
                        ) by {
                            if f == nf {
                                assert(self.frames@[n] == f);
                            } else {
                                assert(frames0.contains(f));
                                let i = choose|i: int| 0 <= i < n && frames0[i] == f;
                                assert(self.frames@[i] == f);
                            }
                        }
                        assert(self.frames@[0] == root);
                        assert forall|i: int| 0 <= i < allocator.frames().len() implies !mem2.dom().contains(
                            #[trigger] allocator.frames()[i],
                        ) by {
                            assert(allocator.frames()[i] == avail[i + 1]);
                        }
                    }
                    Ok(self.frames.len() - 1)
                },
            }
        } else {
            if entry & insert_flags != insert_flags {
                self.tables[table].set(index as usize, entry | insert_flags);
            }
            proof {
                let mem2 = with_entry(mem0, t, index as int, entry | insert_flags);
                self.mem@ = mem2;
                lemma_with_flags(mem0, root, shape0, t, index as int, insert_flags);
                crate::paging::lemma_flags_contained(entry, insert_flags);
                let n = frames0.len() as int;
                assert(self.tables@[table as int]@ =~= mem0[t].update(index as int, entry | insert_flags));
                assert forall|i: int| 0 <= i < self.frames@.len() implies mem2.dom().contains(
                    #[trigger] self.frames@[i],
                ) && mem2[self.frames@[i]] == self.tables@[i]@ by {
                    assert(mem0.dom().contains(frames0[i]));
                    if i != table {
                        assert(frames0[i] != frames0[table as int]);
                        assert(self.tables@[i] == tables0[i]);
                    }
                }
                assert forall|f: u64| #[trigger] mem2.dom().contains(f) implies self.frames@.contains(f) by {
                    assert(mem0.dom().contains(f));
                    assert(frames0.contains(f));
                }
                assert(mem2.dom() =~= mem0.dom());
                assert(mem2.dom().contains(entry_addr(entry)));
            }
            match self.find(entry & ADDR_MASK) {
                Some(c) => Ok(c),
                None => Err(MapToError::FrameAllocationFailed),
            }
        }
    }
    /// Sets the entry at `index` of the table at position `table`.
    fn write_entry(&mut self, table: usize, index: u16, entry: u64)
        requires
            old(self).repr(),
            table < old(self).frames@.len(),
            index < 512,
            old(self).mem@[old(self).frames@[table as int]].len() == 512,
        ensures
            final(self).repr(),
            final(self).physical_memory_offset == old(self).physical_memory_offset,
            final(self).pending == old(self).pending,
            final(self).frames@ == old(self).frames@,
            final(self).shape@ == old(self).shape@,
            final(self).mem@ == with_entry(
                old(self).mem@,
                old(self).frames@[table as int],
                index as int,
                entry,
            ),
    {
        let ghost t = self.frames@[table as int];
        let ghost mem0 = self.mem@;
        let ghost frames0 = self.frames@;
        let ghost tables0 = self.tables@;
        proof {
            assert(mem0.dom().contains(self.frames@[table as int]));
        }
        self.tables[table].set(index as usize, entry);
        proof {
            let mem2 = with_entry(mem0, t, index as int, entry);
            self.mem@ = mem2;
            assert forall|i: int| 0 <= i < self.frames@.len() implies mem2.dom().contains(
                #[trigger] self.frames@[i],
            ) && mem2[self.frames@[i]] == self.tables@[i]@ by {
                assert(mem0.dom().contains(frames0[i]));
                if i != table {
                    assert(frames0[i] != frames0[table as int]);
                    assert(self.tables@[i] == tables0[i]);
                }
            }
            assert forall|f: u64| #[trigger] mem2.dom().contains(f) implies self.frames@.contains(f) by {
                assert(mem0.dom().contains(f));
                assert(frames0.contains(f));
            }
        }
    }

    /// The entry at `s` of the table in `f` is one that the walk for
    /// `page` reads.
    spec fn on_path(mem: Map<u64, Seq<u64>>, root: u64, page: u64, f: u64, s: int) -> bool {
        ||| f == root && s == table_index(page, 4)
        ||| p3_table(mem, root, page) == Some(f) && s == table_index(page, 3)
        ||| p2_table(mem, root, page) == Some(f) && s == table_index(page, 2)
        ||| p1_table(mem, root, page) == Some(f) && s == table_index(page, 1)
    }

    /// What `map_to` does where the walk for the page meets no entry that
    /// the mapper does not follow. The tables that are missing are made
    /// from the first frames of `avail`; `left` are the frames that stay.
    pub open spec fn maps_held(
        pre: OffsetPageTable,
        avail: Seq<u64>,
        page: u64,
        frame: u64,
        flags: u64,
        post: OffsetPageTable,
        left: Seq<u64>,
        r: Result<MapperFlush, MapToError>,
    ) -> bool {
        let missing = missing_tables(pre.tables(), pre.root(), page);
        let used = if missing <= avail.len() {
            missing as int
        } else {
            avail.len() as int
        };
        &&& left == avail.skip(used)
        &&& post.table_frames() == pre.table_frames() + avail.take(used)
        &&& (r is Err && r->Err_0 is FrameAllocationFailed) <==> missing > avail.len()
        &&& (r is Err && r->Err_0 is PageAlreadyMapped) <==> pre.mappings().dom().contains(page)
        &&& !(r is Err && r->Err_0 is ParentEntryHugePage)
        &&& !(r is Err && r->Err_0 is ParentEntryNotPresent)
        &&& !(r is Err && r->Err_0 is ParentTableNotHeld)
        &&& r matches Err(MapToError::PageAlreadyMapped(f)) ==> f.start() == frame
        &&& r matches Ok(flush) ==> flush.page().start() == page && post.mappings() == pre.mappings().insert(
            page,
            Mapping { frame, flags },
        )
        &&& r is Err ==> post.mappings() == pre.mappings()
    }

    /// What `map_to` does: where the walk for the page meets an entry that
    /// the mapper does not follow, it fails and changes nothing; else it
    /// maps the page or fails as `maps_held` says.
    pub open spec fn maps(
        pre: OffsetPageTable,
        avail: Seq<u64>,
        page: u64,
        frame: u64,
        flags: u64,
        post: OffsetPageTable,
        left: Seq<u64>,
        r: Result<MapperFlush, MapToError>,
    ) -> bool {
        &&& post.root() == pre.root()
        &&& post.offset() == pre.offset()
        &&& post.pending() == pre.pending()
        &&& match pre.obstacle(page) {
            Some((_, entry)) => {
                &&& r is Err
                &&& r->Err_0 is ParentEntryHugePage <==> entry_is_huge(entry)
                &&& r->Err_0 is ParentEntryNotPresent <==> !entry_is_huge(entry) && !entry_is_present(entry)
                &&& r->Err_0 is ParentTableNotHeld <==> !entry_is_huge(entry) && entry_is_present(entry)
                &&& r->Err_0 matches MapToError::ParentTableNotHeld(f) ==> f.start() == entry_addr(entry)
                &&& left == avail
                &&& post.table_frames() == pre.table_frames()
                &&& post.tables() == pre.tables()
            },
            None => Self::maps_held(pre, avail, page, frame, flags, post, left, r),
        }
        &&& r is Ok ==> post.obstacle(page) is None
        &&& forall|flag: u64|
            r is Ok && (flags & PARENT_FLAGS) & flag != 0 ==> #[trigger] post.allows(page, flag)
        &&& forall|addr: u64, flag: u64| #[trigger] pre.allows(addr, flag) ==> post.allows(addr, flag)
    }

    /// The kept entries stay where the mapper changes only entries on the
    /// walk for a page whose walk meets none of them.
    proof fn lemma_pend_kept(pre: OffsetPageTable, post: OffsetPageTable, page: u64)
        requires
            pre.held_wf(),
            pre.pend_wf(),
            post.pending@ == pre.pending@,
            pre.obstacle(page) is None,
            forall|f: u64| #[trigger]
                pre.mem@.dom().contains(f) ==> post.mem@.dom().contains(f) && post.shape@.level[f]
                    == pre.shape@.level[f],
            forall|f: u64, s: int|
                pre.mem@.dom().contains(f) && 0 <= s < 512 && (#[trigger] post.mem@[f][s]) != pre.mem@[f][s]
                    ==> Self::on_path(pre.mem@, pre.frames@[0], page, f, s),
        ensures
            post.pend_wf(),
    {
        let root = pre.frames@[0];
        lemma_path_levels(pre.mem@, root, pre.shape@, page);
        assert forall|k: int| 0 <= k < post.pending@.len() implies ({
            let p = #[trigger] post.pending@[k];
            &&& post.mem@.dom().contains(p.table)
            &&& p.slot < 512
            &&& p.level == post.shape@.level[p.table]
            &&& p.level > 1
            &&& post.mem@[p.table][p.slot as int] == 0
        }) by {
            let p = pre.pending@[k];
            assert(pre.mem@.dom().contains(p.table));
            lemma_pending_entry(pre.pending@, p.table, p.slot as int);
            assert(pending_entry(pre.pending@, p.table, p.slot as int) != 0);
            if post.mem@[p.table][p.slot as int] != pre.mem@[p.table][p.slot as int] {
                assert(Self::on_path(pre.mem@, root, page, p.table, p.slot as int));
            }
        }
    }

    /// Maps `page` to `frame` with `flags`. Tables that the walk for the
    /// page does not find are made from frames of `frame_allocator`, and
    /// the tables on the walk receive those of `flags` that a table entry
    /// takes over. Fails, with no page mapped or unmapped, where the
    /// allocator has fewer frames than tables are missing, or where the
    /// page is mapped already. Fails, with nothing changed, where the walk
    /// meets an entry for a huge frame or an entry that is in use but not
    /// present, or leads to a table that the mapper does not hold: the
    /// error names its frame, and after the table was handed in the page
    /// can be mapped.
    pub fn map_to<A: FrameAllocator>(
        &mut self,
        page: Page,
        frame: PhysFrame,
        flags: u64,
        frame_allocator: &mut A,
    ) -> (r: Result<MapperFlush, MapToError>)
        requires
            old(self).wf(),
            old(frame_allocator).wf(),
            valid_leaf_flags(flags),
            old(self).unused_by(old(frame_allocator).frames()),
        ensures
            final(self).wf(),
            final(frame_allocator).wf(),
            final(self).unused_by(final(frame_allocator).frames()),
            Self::maps(
                *old(self),
                old(frame_allocator).frames(),
                page.start(),
                frame.start(),
                flags,
                *final(self),
                final(frame_allocator).frames(),
                r,
            ),
    {
        match self.find_obstacle(page.start_address()) {
            Some((_, entry)) => {
                if entry & HUGE_PAGE != 0 {
                    return Err(MapToError::ParentEntryHugePage);
                }
                if entry & PRESENT == 0 {
                    return Err(MapToError::ParentEntryNotPresent);
                }
                return Err(MapToError::ParentTableNotHeld(entry_target(entry)));
            },
            None => {},
        }
        let r = self.map_held(page, frame, flags, frame_allocator);
        proof {
            let p = page.start();
            Self::lemma_pend_kept(*old(self), *self, p);
            if r is Ok {
                let root = self.frames@[0];
                lemma_path_levels(self.mem@, root, self.shape@, p);
                let f3 = p3_table(self.mem@, root, p).unwrap();
                let f2 = p2_table(self.mem@, root, p).unwrap();
                lemma_pending_entry(self.pending@, root, table_index(p, 4) as int);
                lemma_pending_entry(self.pending@, f3, table_index(p, 3) as int);
                lemma_pending_entry(self.pending@, f2, table_index(p, 2) as int);
                assert(pending_entry(self.pending@, f3, table_index(p, 3) as int) == 0);
                assert(pending_entry(self.pending@, f2, table_index(p, 2) as int) == 0);
            }
        }
        r
    }

    /// Maps a page whose walk meets no entry that the mapper does not
    /// follow. Only entries on that walk change.
    fn map_held<A: FrameAllocator>(
        &mut self,
        page: Page,
        frame: PhysFrame,
        flags: u64,
        frame_allocator: &mut A,
    ) -> (r: Result<MapperFlush, MapToError>)
        requires
            old(self).held_wf(),
            old(frame_allocator).wf(),
            valid_leaf_flags(flags),
            old(self).unused_by(old(frame_allocator).frames()),
        ensures
            final(self).held_wf(),
            final(frame_allocator).wf(),
            final(self).root() == old(self).root(),
            final(self).offset() == old(self).offset(),
            final(self).pending == old(self).pending,
            final(self).unused_by(final(frame_allocator).frames()),
            forall|f: u64| #[trigger]
                old(self).mem@.dom().contains(f) ==> final(self).mem@.dom().contains(f) && final(self).shape@.level[f] == old(self).shape@.level[f],
            forall|f: u64, s: int|
                old(self).mem@.dom().contains(f) && 0 <= s < 512 && (#[trigger] final(self).mem@[f][s]) != old(
                    self,
                ).mem@[f][s] ==> Self::on_path(old(self).mem@, old(self).frames@[0], page.start(), f, s),
            r is Ok ==> {
                &&& p3_table(final(self).mem@, final(self).frames@[0], page.start()) matches Some(f) && (old(
                    self,
                ).mem@.dom().contains(f) ==> p3_table(old(self).mem@, old(self).frames@[0], page.start())
                    == Some(f))
                &&& p2_table(final(self).mem@, final(self).frames@[0], page.start()) matches Some(f) && (old(
                    self,
                ).mem@.dom().contains(f) ==> p2_table(old(self).mem@, old(self).frames@[0], page.start())
                    == Some(f))
            },
            Self::maps_held(
                *old(self),
                old(frame_allocator).frames(),
                page.start(),
                frame.start(),
                flags,
                *final(self),
                final(frame_allocator).frames(),
                r,
            ),
            forall|flag: u64|
                r is Ok && (flags & PARENT_FLAGS) & flag != 0 ==> #[trigger] final(self).allows(
                    page.start(),
                    flag,
                ),
            forall|addr: u64, flag: u64| #[trigger]
                old(self).allows(addr, flag) ==> final(self).allows(addr, flag),
    {
        let start: VirtAddr = page.start_address();
        let i4: u16 = start.p4_index();
        let i3: u16 = start.p3_index();
        let i2: u16 = start.p2_index();
        let i1: u16 = start.p1_index();
        let parent_flags: u64 = flags & PARENT_FLAGS;
        let target: u64 = frame.start_address().as_u64();
        let ghost p = page.start();
        let ghost root = self.frames@[0];
        let ghost mem0 = self.mem@;
        let ghost shape0 = self.shape@;
        let ghost frames0 = self.frames@;
        let ghost avail = frame_allocator.frames();
        proof {
            lemma_parent_flags(flags);
            lemma_zero_entry();
            lemma_path_levels(mem0, root, shape0, p);
            assert(mem0.dom().contains(self.frames@[0]));
            assert(entry_ok(mem0, shape0, root, i4 as int));
            assert(avail.skip(0) =~= avail);
            assert(frames0 + avail.take(0) =~= frames0);
        }
        let c3: usize = match self.create_next_table(0, i4, parent_flags, frame_allocator) {
            Ok(c) => c,
            Err(e) => {
                proof {
                    assert(self.mappings() =~= mappings_of(mem0, root));
                }
                return Err(e);
            },
        };
        let ghost mem1 = self.mem@;
        let ghost shape1 = self.shape@;
        let ghost frames1 = self.frames@;
        let ghost avail1 = frame_allocator.frames();
        let ghost f3 = self.frames@[c3 as int];
        let ghost used1: int = if mem0[root][i4 as int] == 0 { 1 } else { 0 };
        proof {
            assert(self.frames@[0] == root);
            assert(mem1.dom().contains(self.frames@[c3 as int]));
            assert(entry_ok(mem1, shape1, f3, i3 as int));
            assert(p3_table(mem1, root, p) == Some(f3));
            lemma_path_levels(mem1, root, shape1, p);
            assert(avail1 =~= avail.skip(used1));
            assert(frames1 =~= frames0 + avail.take(used1));
            if used1 == 0 {
                lemma_present_nonzero(mem0[root][i4 as int]);
                assert(p3_table(mem0, root, p) == Some(f3));
                assert(mem1[f3][i3 as int] == mem0[f3][i3 as int]);
                assert(entry_ok(mem0, shape0, f3, i3 as int));
            } else {
                assert(mem1[f3][i3 as int] == 0);
            }
        }
        proof {
            assert forall|f: u64, s: int|
                mem0.dom().contains(f) && 0 <= s < 512 && (#[trigger] mem1[f][s]) != mem0[f][s] implies Self::on_path(
                mem0,
                root,
                p,
                f,
                s,
            ) by {}
        }
        let c2: usize = match self.create_next_table(c3, i3, parent_flags, frame_allocator) {
            Ok(c) => c,
            Err(e) => {
                proof {
                    assert(self.mappings() =~= mappings_of(mem0, root));
                    assert(frame_allocator.frames() =~= avail.skip(avail.len() as int));
                    assert(self.frames@ =~= frames0 + avail.take(avail.len() as int));
                }
                return Err(e);
            },
        };
        let ghost mem2 = self.mem@;
        let ghost shape2 = self.shape@;
        let ghost frames2 = self.frames@;
        let ghost avail2 = frame_allocator.frames();
        let ghost f2 = self.frames@[c2 as int];
        let ghost used2: int = if mem1[f3][i3 as int] == 0 { used1 + 1 } else { used1 };
        proof {
            assert(self.frames@[0] == root);
            assert(frames2[c3 as int] == f3);
            assert(mem2.dom().contains(self.frames@[c2 as int]));
            assert(entry_ok(mem2, shape2, f2, i2 as int));
            assert(mem2[root][i4 as int] == mem1[root][i4 as int]);
            assert(p3_table(mem2, root, p) == Some(f3));
            assert(p2_table(mem2, root, p) == Some(f2));
            lemma_path_levels(mem2, root, shape2, p);
            assert(avail2 =~= avail.skip(used2));
            assert(frames2 =~= frames0 + avail.take(used2));
            if used2 == 0 {
                lemma_present_nonzero(mem0[f3][i3 as int]);
                assert(p2_table(mem0, root, p) == Some(f2));
                assert(mem2[f2][i2 as int] == mem0[f2][i2 as int]);
                assert(entry_ok(mem0, shape0, f2, i2 as int));
            } else if mem1[f3][i3 as int] == 0 {
                assert(mem2[f2][i2 as int] == 0);
            }
        }
        proof {
            assert forall|f: u64, s: int|
                mem0.dom().contains(f) && 0 <= s < 512 && (#[trigger] mem2[f][s]) != mem0[f][s] implies Self::on_path(
                mem0,
                root,
                p,
                f,
                s,
            ) by {
                if mem1[f][s] == mem0[f][s] {
                    assert(f == f3 && s == i3);
                    assert(used1 == 0);
                }
            }
        }
        let c1: usize = match self.create_next_table(c2, i2, parent_flags, frame_allocator) {
            Ok(c) => c,
            Err(e) => {
                proof {
                    assert(self.mappings() =~= mappings_of(mem0, root));
                    assert(frame_allocator.frames() =~= avail.skip(avail.len() as int));
                    assert(self.frames@ =~= frames0 + avail.take(avail.len() as int));
                }
                return Err(e);
            },
        };
        let ghost mem3 = self.mem@;
        let ghost shape3 = self.shape@;
        let ghost frames3 = self.frames@;
        let ghost avail3 = frame_allocator.frames();
        let ghost f1 = self.frames@[c1 as int];
        let ghost used3: int = if mem2[f2][i2 as int] == 0 { used2 + 1 } else { used2 };
        proof {
            assert(self.frames@[0] == root);
            assert(frames3[c2 as int] == f2);
            assert(mem3.dom().contains(self.frames@[c1 as int]));
            assert(mem3[root][i4 as int] == mem2[root][i4 as int]);
            assert(mem3[f3][i3 as int] == mem2[f3][i3 as int]);
            assert(p3_table(mem3, root, p) == Some(f3));
            assert(p2_table(mem3, root, p) == Some(f2));
            assert(p1_table(mem3, root, p) == Some(f1));
            lemma_path_levels(mem3, root, shape3, p);
            assert(avail3 =~= avail.skip(used3));
            assert(frames3 =~= frames0 + avail.take(used3));
            if used3 == 0 {
                lemma_present_nonzero(mem0[f2][i2 as int]);
                assert(p1_table(mem0, root, p) == Some(f1));
            }
            assert(used3 == missing_tables(mem0, root, p));
            assert(mappings_of(mem3, root) =~= mappings_of(mem0, root));
            assert(leaf_entry(mem3, root, p) == mem3[f1][i1 as int]);
            assert forall|flag: u64| parent_flags & flag != 0 implies entry_has(
                mem3[root][i4 as int],
                flag,
            ) && entry_has(mem3[f3][i3 as int], flag) && entry_has(mem3[f2][i2 as int], flag) by {
                assert(entry_has(mem1[root][i4 as int], flag));
                assert(entry_has(mem2[f3][i3 as int], flag));
                assert(entry_has(mem3[f2][i2 as int], flag));
            }
        }
        proof {
            assert forall|f: u64, s: int|
                mem0.dom().contains(f) && 0 <= s < 512 && (#[trigger] mem3[f][s]) != mem0[f][s] implies Self::on_path(
                mem0,
                root,
                p,
                f,
                s,
            ) by {
                if mem2[f][s] == mem0[f][s] {
                    assert(f == f2 && s == i2);
                    assert(used2 == 0);
                }
            }
        }
        let entry: u64 = self.tables[c1][i1 as usize];
        if entry != 0 {
            return Err(MapToError::PageAlreadyMapped(frame));
        }
        proof {
            lemma_with_leaf(mem3, root, shape3, p, target, flags);
            lemma_entry_compose(target, flags);
        }
        self.write_entry(c1, i1, target | flags);
        proof {
            let mem4 = self.mem@;
            assert forall|f: u64, s: int|
                mem0.dom().contains(f) && 0 <= s < 512 && (#[trigger] mem4[f][s]) != mem0[f][s] implies Self::on_path(
                mem0,
                root,
                p,
                f,
                s,
            ) by {
                if mem3[f][s] == mem0[f][s] {
                    assert(f == f1 && s == i1);
                    assert(used3 == 0);
                }
            }
            assert(mem4[root] == mem3[root]);
            assert(mem4[f3] == mem3[f3]);
            assert(mem4[f2] == mem3[f2]);
            assert(p3_table(mem4, root, p) == Some(f3));
            assert(p2_table(mem4, root, p) == Some(f2));
            assert(p1_table(mem4, root, p) == Some(f1));
            assert forall|flag: u64| parent_flags & flag != 0 implies #[trigger] walk_has(
                mem4,
                root,
                p,
                flag,
            ) by {
                assert(flags & flag != 0) by (bit_vector)
                    requires
                        parent_flags == flags & 0x7,
                        parent_flags & flag != 0,
                ;
                assert(entry_has(target | flags, flag));
            }
        }
        Ok(MapperFlush { page })
    }
    /// Position of the first kept entry that leads to the table in `frame`.
    fn find_leading(&self, frame: u64) -> (r: Option<usize>)
        ensures
            r is Some == (first_leading(self.pending@, frame) >= 0),
            r matches Some(k) ==> k == first_leading(self.pending@, frame),
    {
        let n: usize = self.pending.len();
        let mut i: usize = 0;
        while i < n
            invariant
                0 <= i <= n,
                n == self.pending@.len(),
                first_leading(self.pending@.take(i as int), frame) == -1,
            decreases n - i,
        {
            let item: Pending = self.pending[i];
            proof {
                assert(self.pending@.take(i + 1).drop_last() =~= self.pending@.take(i as int));
                assert(self.pending@.take(i + 1).last() == item);
                lemma_first_leading_prefix(self.pending@, frame, i + 1);
            }
            if item.entry & PRESENT != 0 && item.entry & HUGE_PAGE == 0 && item.entry & ADDR_MASK == frame {
                return Some(i);
            }
            i = i + 1;
        }
        proof {
            assert(self.pending@.take(n as int) =~= self.pending@);
        }
        None
    }

    /// Adds the table in `frame`, which no entry leads to yet.
    fn push_table(&mut self, frame: u64, table: Vec<u64>)
        requires
            old(self).repr(),
            !old(self).mem@.dom().contains(frame),
            table@.len() == 512,
        ensures
            final(self).repr(),
            final(self).physical_memory_offset == old(self).physical_memory_offset,
            final(self).pending == old(self).pending,
            final(self).shape@ == old(self).shape@,
            final(self).frames@ == old(self).frames@.push(frame),
            final(self).mem@ == old(self).mem@.insert(frame, table@),
    {
        let ghost mem0 = self.mem@;
        let ghost frames0 = self.frames@;
        let ghost tables0 = self.tables@;
        let ghost content = table@;
        self.frames.push(frame);
        self.tables.push(table);
        proof {
            let mem2 = mem0.insert(frame, content);
            self.mem@ = mem2;
            let n = frames0.len() as int;
            assert forall|i: int| 0 <= i < n implies frames0[i] != frame by {
                assert(mem0.dom().contains(frames0[i]));
            }
            assert forall|i: int| 0 <= i < self.frames@.len() implies mem2.dom().contains(
                #[trigger] self.frames@[i],
            ) && mem2[self.frames@[i]] == self.tables@[i]@ by {
                if i < n {
                    assert(self.frames@[i] == frames0[i]);
                    assert(mem0.dom().contains(frames0[i]));
                    assert(self.tables@[i] == tables0[i]);
                }
            }
            assert forall|f: u64| #[trigger] mem2.dom().contains(f) implies self.frames@.contains(f) by {
                if f == frame {
                    assert(self.frames@[n] == f);
                } else {
                    assert(frames0.contains(f));
                    let i = choose|i: int| 0 <= i < n && frames0[i] == f;
                    assert(self.frames@[i] == f);
                }
            }
            assert(self.frames@[0] == frames0[0]);
        }
    }

    /// Whether every entry is unused or names a frame, and whether some
    /// entry is present with the huge flag.
    fn check_leaf_entries(entries: &Vec<u64>) -> (r: (bool, bool))
        requires
            entries@.len() == 512,
        ensures
            r.0 == leaf_entries_valid(entries@),
            r.1 == has_huge_entry(entries@),
    {
        let mut valid: bool = true;
        let mut huge: bool = false;
        let mut i: usize = 0;
        while i < 512
            invariant
                0 <= i <= 512,
                entries@.len() == 512,
                valid == leaf_entries_valid(entries@.take(i as int)),
                huge == has_huge_entry(entries@.take(i as int)),
            decreases 512 - i,
        {
            let entry: u64 = entries[i];
            proof {
                let before = entries@.take(i as int);
                let after = entries@.take(i + 1);
                assert forall|s: int| 0 <= s < i implies after[s] == before[s] by {}
                assert(after[i as int] == entry);
                if has_huge_entry(before) {
                    let s = choose|s: int|
                        0 <= s < before.len() && entry_is_present(#[trigger] before[s]) && entry_is_huge(before[s]);
                    assert(entry_is_present(after[s]) && entry_is_huge(after[s]));
                }
                if has_huge_entry(after) && !(entry & PRESENT != 0 && entry & HUGE_PAGE != 0) {
                    let s = choose|s: int|
                        0 <= s < after.len() && entry_is_present(#[trigger] after[s]) && entry_is_huge(after[s]);
                    assert(entry_is_present(before[s]) && entry_is_huge(before[s]));
                }
                if leaf_entries_valid(after) {
                    assert forall|s: int| 0 <= s < before.len() implies (#[trigger] before[s]) == 0 || (
                    entry_is_present(before[s]) && !entry_is_huge(before[s])) by {
                        assert(after[s] == before[s]);
                    }
                }
            }
            if entry != 0 && !(entry & PRESENT != 0 && entry & HUGE_PAGE == 0) {
                valid = false;
            }
            if entry & PRESENT != 0 && entry & HUGE_PAGE != 0 {
                huge = true;
            }
            i = i + 1;
        }
        proof {
            assert(entries@.take(512) =~= entries@);
        }
        (valid, huge)
    }

    /// Takes the table in `frame`, which holds `entries`, the 512 entries as
    /// they stand in memory. The table is taken where a kept entry leads
    /// to it and the mapper does not hold it yet: the first such entry is
    /// followed from now on. Of a table above level 1 the mapper keeps the
    /// entries that are in use and follows none yet. A level 1 table is
    /// taken only where each of its entries is unused or names a frame;
    /// the pages that it maps are mapped from now on.
    pub fn adopt_table(&mut self, frame: PhysFrame, entries: Vec<u64>) -> (r: Result<(), FrameError>)
        requires
            old(self).wf(),
            entries@.len() == 512,
        ensures
            final(self).wf(),
            final(self).root() == old(self).root(),
            final(self).offset() == old(self).offset(),
            ({
                let k = first_leading(old(self).pending(), frame.start());
                let fresh = !old(self).tables().dom().contains(frame.start());
                let leaf = k >= 0 && old(self).pending()[k].level == 2;
                &&& r is Ok <==> k >= 0 && fresh && (leaf ==> leaf_entries_valid(entries@))
                &&& r matches Err(e) ==> ((e == FrameError::HugeFrame) <==> k >= 0 && fresh && leaf && has_huge_entry(
                    entries@,
                ))
                &&& r is Err ==> final(self).tables() == old(self).tables() && final(self).pending() == old(
                    self,
                ).pending() && final(self).table_frames() == old(self).table_frames()
                &&& r is Ok ==> {
                    let p = old(self).pending()[k];
                    &&& final(self).table_frames() == old(self).table_frames().push(frame.start())
                    &&& final(self).tables() == with_entry(
                        old(self).tables().insert(
                            frame.start(),
                            if leaf {
                                entries@
                            } else {
                                zero_table()
                            },
                        ),
                        p.table,
                        p.slot as int,
                        p.entry,
                    )
                    &&& forall|t: u64, s: int|
                        0 <= s < 512 ==> #[trigger] pending_entry(final(self).pending(), t, s) == if t
                            == frame.start() {
                            if leaf {
                                0
                            } else {
                                entries@[s]
                            }
                        } else if t == p.table && s == p.slot {
                            0
                        } else {
                            pending_entry(old(self).pending(), t, s)
                        }
                }
            }),
    {
        let target: u64 = frame.start_address().as_u64();
        let k: usize = match self.find_leading(target) {
            Some(k) => k,
            None => {
                return Err(FrameError::FrameNotPresent);
            },
        };
        if self.find(target).is_some() {
            return Err(FrameError::FrameNotPresent);
        }
        proof {
            lemma_first_leading(self.pending@, target);
        }
        let item: Pending = self.pending[k];
        let leaf: bool = item.level == 2;
        if leaf {
            let (valid, huge) = Self::check_leaf_entries(&entries);
            if !valid {
                if huge {
                    return Err(FrameError::HugeFrame);
                }
                return Err(FrameError::FrameNotPresent);
            }
        }
        let ghost mem0 = self.mem@;
        let ghost shape0 = self.shape@;
        let ghost items0 = self.pending@;
        let ghost root = self.frames@[0];
        let ghost content = if leaf {
            entries@
        } else {
            zero_table()
        };
        let ghost flags = crate::paging::entry_flags(item.entry);
        proof {
            assert(mem0.dom().contains(item.table));
            lemma_entry_parts(item.entry);
            lemma_with_table(mem0, root, shape0, item.table, item.slot as int, target, flags);
            if leaf {
                lemma_with_leaf_table(
                    with_table(mem0, item.table, item.slot as int, target, flags),
                    root,
                    with_child(shape0, item.table, item.slot as int, target),
                    target,
                    entries@,
                );
            }
        }
        let parent: usize = match self.find(item.table) {
            Some(i) => i,
            None => 0,
        };
        let mut kept: Vec<Pending> = if leaf {
            Vec::new()
        } else {
            pending_of(target, item.level - 1, &entries)
        };
        let ghost added = kept@;
        if leaf {
            self.push_table(target, entries);
        } else {
            self.push_table(target, new_table());
        }
        self.write_entry(parent, item.slot, item.entry);
        self.pending.remove(k);
        self.pending.append(&mut kept);
        proof {
            self.shape@ = with_child(shape0, item.table, item.slot as int, target);
            let mem2 = self.mem@;
            assert(mem2 =~= with_table(mem0, item.table, item.slot as int, target, flags).insert(target, content));
            assert(self.frames@[0] == root);
            let items2 = self.pending@;
            let rest = items0.remove(k as int);
            assert(items2 =~= rest + added);
            assert forall|j: int| 0 <= j < items2.len() implies ({
                let p = #[trigger] items2[j];
                &&& p.entry != 0
                &&& mem2.dom().contains(p.table)
                &&& p.slot < 512
                &&& p.level == self.shape@.level[p.table]
                &&& p.level > 1
                &&& mem2[p.table][p.slot as int] == 0
            }) by {
                if j < rest.len() {
                    let i = if j < k {
                        j
                    } else {
                        j + 1
                    };
                    assert(items2[j] == items0[i]);
                    assert(mem0.dom().contains(items0[i].table));
                    assert(!(items0[i].table == items0[k as int].table && items0[i].slot == items0[k as int].slot));
                } else {
                    assert(items2[j] == added[j - rest.len()]);
                }
            }
            assert forall|i: int, j: int| 0 <= i < j < items2.len() implies !((#[trigger] items2[i]).table == (
            #[trigger] items2[j]).table && items2[i].slot == items2[j].slot) by {
                if j < rest.len() {
                    let a = if i < k {
                        i
                    } else {
                        i + 1
                    };
                    let b = if j < k {
                        j
                    } else {
                        j + 1
                    };
                    assert(items2[i] == items0[a] && items2[j] == items0[b]);
                } else if i < rest.len() {
                    let a = if i < k {
                        i
                    } else {
                        i + 1
                    };
                    assert(items2[i] == items0[a]);
                    assert(mem0.dom().contains(items0[a].table));
                    assert(items2[j] == added[j - rest.len()]);
                } else {
                    assert(items2[i] == added[i - rest.len()] && items2[j] == added[j - rest.len()]);
                }
            }
            assert(pending_distinct(items2));
            assert forall|t: u64, s: int| 0 <= s < 512 implies #[trigger] pending_entry(items2, t, s) == if t
                == target {
                if leaf {
                    0
                } else {
                    entries@[s]
                }
            } else if t == item.table && s == item.slot {
                0
            } else {
                pending_entry(items0, t, s)
            } by {
                lemma_pending_entry(items2, t, s);
                lemma_pending_entry(items0, t, s);
                lemma_pending_entry(added, t, s);
                if pending_entry(items2, t, s) != 0 {
                    let j = choose|j: int|
                        0 <= j < items2.len() && (#[trigger] items2[j]).table == t && items2[j].slot == s;
                    if j < rest.len() {
                        let i = if j < k {
                            j
                        } else {
                            j + 1
                        };
                        assert(items2[j] == items0[i]);
                        assert(items0[i].table == t && items0[i].slot == s);
                        assert(mem0.dom().contains(items0[i].table));
                        assert(!(items0[i].table == items0[k as int].table && items0[i].slot == items0[k as int].slot));
                    } else {
                        assert(items2[j] == added[j - rest.len()]);
                        assert(added[j - rest.len()].table == t && added[j - rest.len()].slot == s);
                    }
                }
                if t == target {
                    if !leaf && entries@[s] != 0 {
                        let a = choose|a: int|
                            0 <= a < added.len() && (#[trigger] added[a]).table == t && added[a].slot == s;
                        assert(items2[rest.len() + a] == added[a]);
                        assert(items2[rest.len() + a].table == t && items2[rest.len() + a].slot == s);
                    }
                } else if !(t == item.table && s == item.slot) {
                    if pending_entry(items0, t, s) != 0 {
                        let i = choose|i: int|
                            0 <= i < items0.len() && (#[trigger] items0[i]).table == t && items0[i].slot == s;
                        let j = if i < k {
                            i
                        } else {
                            i - 1
                        };
                        assert(i != k);
                        assert(items2[j] == items0[i]);
                        assert(items2[j].table == t && items2[j].slot == s);
                    }
                }
            }
        }
        Ok(())
    }

    /// Where the mapper has an entry of its own, it keeps none.
    proof fn lemma_followed_not_kept(&self, table: u64, slot: int)
        requires
            self.wf(),
            self.mem@[table][slot] != 0,
        ensures
            pending_entry(self.pending@, table, slot) == 0,
    {
        lemma_pending_entry(self.pending@, table, slot);
        if pending_entry(self.pending@, table, slot) != 0 {
            let k = choose|k: int|
                0 <= k < self.pending@.len() && (#[trigger] self.pending@[k]).table == table
                    && self.pending@[k].slot == slot;
            assert(self.mem@[self.pending@[k].table][self.pending@[k].slot as int] == 0);
        }
    }

    /// A mapped page has all the tables of its walk, and its walk meets no
    /// entry that the mapper does not follow.
    pub proof fn lemma_mapped_has_tables(&self, page: u64)
        requires
            self.wf(),
            self.mappings().dom().contains(page),
        ensures
            self.obstacle(page) is None,
            missing_tables(self.tables(), self.root(), page) == 0,
            entry_is_present(leaf_entry(self.tables(), self.root(), page)),
            self.mappings()[page].flags & PRESENT != 0,
            PhysFrame::is_frame_start(self.mappings()[page].frame),
    {
        lemma_path_levels(self.mem@, self.frames@[0], self.shape@, page);
        lemma_zero_entry();
        let entry = leaf_entry(self.mem@, self.frames@[0], page);
        lemma_entry_addr_is_frame(entry);
        self.lemma_followed_not_kept(self.frames@[0], table_index(page, 4) as int);
        self.lemma_followed_not_kept(p3_table(self.mem@, self.frames@[0], page).unwrap(), table_index(page, 3) as int);
        self.lemma_followed_not_kept(p2_table(self.mem@, self.frames@[0], page).unwrap(), table_index(page, 2) as int);
        assert((entry & !0x000f_ffff_ffff_f000u64) & 1 != 0) by (bit_vector)
            requires
                entry & 1 != 0,
        ;
    }

    /// Number of tables in the tree.
    pub fn table_count(&self) -> (r: usize)
        requires
            self.wf(),
        ensures
            r == self.table_frames().len(),
            r >= 1,
    {
        self.frames.len()
    }

    /// The frame that holds the table at position `i`; position 0 is the
    /// level 4 table.
    pub fn table_frame(&self, i: usize) -> (r: PhysFrame)
        requires
            self.wf(),
            i < self.table_frames().len(),
        ensures
            r.start() == self.table_frames()[i as int],
            self.tables().dom().contains(r.start()),
    {
        proof {
            assert(self.mem@.dom().contains(self.frames@[i as int]));
            crate::addr::lemma_block_start(self.frames@[i as int]);
        }
        PhysFrame::containing_address(PhysAddr::new(self.frames[i]))
    }

    /// The entry at `index` of the table at position `i`, as it is to
    /// stand in memory: the entry that the mapper follows or has made, or
    /// else the one that it keeps as it found it.
    pub fn table_entry(&self, i: usize, index: u16) -> (r: u64)
        requires
            self.wf(),
            i < self.table_frames().len(),
            index < 512,
        ensures
            r == self.entry_at(self.table_frames()[i as int], index as int),
    {
        proof {
            assert(self.mem@.dom().contains(self.frames@[i as int]));
        }
        let entry: u64 = self.tables[i][index as usize];
        if entry != 0 {
            entry
        } else {
            self.kept(i, index)
        }
    }

    /// Where physical address zero appears in virtual memory.
    pub fn phys_offset(&self) -> (r: VirtAddr)
        ensures
            r.value() == self.offset(),
    {
        self.physical_memory_offset
    }
}

} // verus!
