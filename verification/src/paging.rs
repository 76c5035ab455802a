//! The four-level page table: how its entries are laid out, how a virtual
//! address is walked through it, and what a tree of tables must satisfy so
//! that every page has at most one translation.

use vstd::prelude::*;
use crate::addr::table_index;
use crate::addr::Page;
use crate::addr::PhysFrame;

pub mod mapper;

verus! {

/// Flag of an entry: the frame or table it names is in memory.
pub const PRESENT: u64 = 0x1;

/// Flag of an entry: writes through it are allowed.
pub const WRITABLE: u64 = 0x2;

/// Flag of an entry: code in user mode may use it.
pub const USER_ACCESSIBLE: u64 = 0x4;

/// Flag of an entry: it names a huge frame, not a table.
pub const HUGE_PAGE: u64 = 0x80;

/// The bits of an entry that hold the address of a frame.
pub const ADDR_MASK: u64 = 0x000f_ffff_ffff_f000;

/// The flags a table entry takes over from the flags of a leaf below it.
pub const PARENT_FLAGS: u64 = 0x7;

/// The entry has the flag `PRESENT`.
pub open spec fn entry_is_present(entry: u64) -> bool {
    entry & PRESENT != 0
}

/// The entry has the flag `HUGE_PAGE`.
pub open spec fn entry_is_huge(entry: u64) -> bool {
    entry & HUGE_PAGE != 0
}

/// The entry has the flag `flag`, or one of them where `flag` is several.
pub open spec fn entry_has(entry: u64, flag: u64) -> bool {
    entry & flag != 0
}

/// Address of the frame that the entry names.
pub open spec fn entry_addr(entry: u64) -> u64 {
    entry & ADDR_MASK
}

/// The flags of the entry: all its bits outside the address.
pub open spec fn entry_flags(entry: u64) -> u64 {
    entry & !ADDR_MASK
}

/// Flags that a leaf entry may carry: no address bits, `PRESENT`, and not
/// `HUGE_PAGE`.
pub open spec fn valid_leaf_flags(flags: u64) -> bool {
    flags & ADDR_MASK == 0 && flags & PRESENT != 0 && flags & HUGE_PAGE == 0
}

/// Tests whether `flags` are flags that a leaf entry may carry.
pub fn leaf_flags_are_valid(flags: u64) -> (r: bool)
    ensures
        r == valid_leaf_flags(flags),
{
    flags & ADDR_MASK == 0 && flags & PRESENT != 0 && flags & HUGE_PAGE == 0
}

/// Why an entry names no 4 KiB frame.
#[derive(Clone, Copy, Debug, PartialEq, Eq, Structural)]
pub enum FrameError {
    /// The entry is not present.
    FrameNotPresent,
    /// The entry names a huge frame.
    HugeFrame,
}

/// The frame at the address that stands in an entry.
pub fn entry_target(entry: u64) -> (r: PhysFrame)
    ensures
        r.start() == entry_addr(entry),
{
    let addr: u64 = entry & ADDR_MASK;
    proof {
        lemma_entry_addr_is_frame(entry);
        crate::addr::lemma_block_start(addr);
    }
    PhysFrame::containing_address(crate::addr::PhysAddr::new(addr))
}

/// The frame that a present entry names.
pub fn entry_frame(entry: u64) -> (r: Result<PhysFrame, FrameError>)
    ensures
        r is Ok == (entry_is_present(entry) && !entry_is_huge(entry)),
        r matches Ok(frame) ==> frame.start() == entry_addr(entry),
        r matches Err(e) ==> (e == FrameError::FrameNotPresent) == !entry_is_present(entry),
{
    if entry & PRESENT == 0 {
        Err(FrameError::FrameNotPresent)
    } else if entry & HUGE_PAGE != 0 {
        Err(FrameError::HugeFrame)
    } else {
        let addr: u64 = entry & ADDR_MASK;
        proof {
            lemma_entry_addr_is_frame(entry);
            crate::addr::lemma_block_start(addr);
        }
        Ok(PhysFrame::containing_address(crate::addr::PhysAddr::new(addr)))
    }
}

/// A present entry is not the unused entry.
pub proof fn lemma_present_nonzero(entry: u64)
    ensures
        entry_is_present(entry) ==> entry != 0,
{
    assert(entry & 1 != 0 ==> entry != 0) by (bit_vector);
}

/// The address in an entry is the start of a frame.
pub proof fn lemma_entry_addr_is_frame(entry: u64)
    ensures
        PhysFrame::is_frame_start(entry_addr(entry)),
{
    assert((entry & 0x000f_ffff_ffff_f000) % 4096 == 0) by (bit_vector);
    assert((entry & 0x000f_ffff_ffff_f000) < 0x0010_0000_0000_0000) by (bit_vector);
}

/// An entry made of a frame and flags gives both back.
pub proof fn lemma_entry_compose(frame: u64, flags: u64)
    requires
        PhysFrame::is_frame_start(frame),
        flags & ADDR_MASK == 0,
    ensures
        entry_addr(frame | flags) == frame,
        entry_flags(frame | flags) == flags,
        entry_is_present(frame | flags) == (flags & PRESENT != 0),
        entry_is_huge(frame | flags) == (flags & HUGE_PAGE != 0),
        flags & PRESENT != 0 ==> frame | flags != 0,
{
    assert(frame & 0x000f_ffff_ffff_f000 == frame) by (bit_vector)
        requires
            frame % 4096 == 0,
            frame < 0x0010_0000_0000_0000,
    ;
    assert((frame | flags) & 0x000f_ffff_ffff_f000 == frame && (frame | flags)
        & !0x000f_ffff_ffff_f000u64 == flags && ((frame | flags) & 1 != 0) == (flags & 1 != 0) && ((frame
        | flags) & 0x80 != 0) == (flags & 0x80 != 0) && (flags & 1 != 0 ==> frame | flags != 0)) by (bit_vector)
        requires
            frame & 0x000f_ffff_ffff_f000 == frame,
            flags & 0x000f_ffff_ffff_f000 == 0,
    ;
}

/// Adding parent flags to an entry keeps its address and its huge flag,
/// and keeps it present.
pub proof fn lemma_entry_add_flags(entry: u64, flags: u64)
    requires
        flags & !PARENT_FLAGS == 0,
    ensures
        entry_addr(entry | flags) == entry_addr(entry),
        entry_is_huge(entry | flags) == entry_is_huge(entry),
        entry_is_present(entry) ==> entry_is_present(entry | flags),
        entry != 0 ==> entry | flags != 0,
{
    assert((entry | flags) & 0x000f_ffff_ffff_f000 == entry & 0x000f_ffff_ffff_f000 && ((entry | flags)
        & 0x80 != 0) == (entry & 0x80 != 0) && (entry & 1 != 0 ==> (entry | flags) & 1 != 0) && (entry
        != 0 ==> entry | flags != 0)) by (bit_vector)
        requires
            flags & !0x7u64 == 0,
    ;
}

/// An entry has a flag after flags were added to it where it had the flag
/// before, or where the flag is among those added.
pub proof fn lemma_entry_has(entry: u64, added: u64, flag: u64)
    ensures
        entry_has(entry | added, flag) == (entry_has(entry, flag) || added & flag != 0),
{
    assert(((entry | added) & flag != 0) == (entry & flag != 0 || added & flag != 0)) by (bit_vector);
}

/// `PRESENT` and `WRITABLE` together are flags that a leaf entry may carry,
/// and a table entry takes `WRITABLE` over from them.
pub proof fn lemma_present_writable()
    ensures
        PRESENT | WRITABLE == 0x3,
        valid_leaf_flags(0x3),
        (0x3u64 & PARENT_FLAGS) & WRITABLE != 0,
{
    assert(0x1u64 | 0x2u64 == 0x3u64) by (bit_vector);
    assert((0x3u64 & 0x7u64) & 0x2u64 != 0) by (bit_vector);
    assert(0x3u64 & 0x000f_ffff_ffff_f000 == 0 && 0x3u64 & 0x1 != 0 && 0x3u64 & 0x80 == 0) by (bit_vector);
}

/// Parent flags hold no address bits and not the huge flag.
pub proof fn lemma_parent_flag_bits(flags: u64)
    requires
        flags & !PARENT_FLAGS == 0,
    ensures
        flags & ADDR_MASK == 0,
        flags & HUGE_PAGE == 0,
{
    assert(flags & 0x000f_ffff_ffff_f000 == 0 && flags & 0x80 == 0) by (bit_vector)
        requires
            flags & !0x7u64 == 0,
    ;
}

/// An entry that holds all of `flags` is unchanged by adding them.
pub proof fn lemma_flags_contained(entry: u64, flags: u64)
    ensures
        entry & flags == flags ==> entry | flags == entry,
{
    assert(entry & flags == flags ==> entry | flags == entry) by (bit_vector);
}

/// The parent flags of valid leaf flags are present and are parent flags.
pub proof fn lemma_parent_flags(flags: u64)
    requires
        valid_leaf_flags(flags),
    ensures
        (flags & PARENT_FLAGS) & !PARENT_FLAGS == 0,
        (flags & PARENT_FLAGS) & ADDR_MASK == 0,
        (flags & PARENT_FLAGS) & PRESENT != 0,
        (flags & PARENT_FLAGS) & HUGE_PAGE == 0,
{
    assert((flags & 0x7) & !0x7u64 == 0 && (flags & 0x7) & 0x000f_ffff_ffff_f000 == 0 && (flags & 0x7)
        & 0x80 == 0) by (bit_vector);
    assert((flags & 0x7) & 0x1 != 0) by (bit_vector)
        requires
            flags & 0x1 != 0,
    ;
}

/// Two pages with the same four table indices are the same page.
pub proof fn lemma_page_from_indices(a: u64, b: u64)
    requires
        Page::is_page_start(a),
        Page::is_page_start(b),
        table_index(a, 4) == table_index(b, 4),
        table_index(a, 3) == table_index(b, 3),
        table_index(a, 2) == table_index(b, 2),
        table_index(a, 1) == table_index(b, 1),
    ensures
        a == b,
{
    crate::addr::lemma_addr_bits(a);
    crate::addr::lemma_addr_bits(b);
    let a4 = (a >> 39) & 0x1ff;
    let a3 = (a >> 30) & 0x1ff;
    let a2 = (a >> 21) & 0x1ff;
    let a1 = (a >> 12) & 0x1ff;
    let b4 = (b >> 39) & 0x1ff;
    let b3 = (b >> 30) & 0x1ff;
    let b2 = (b >> 21) & 0x1ff;
    let b1 = (b >> 12) & 0x1ff;
    assert(a4 < 512 && a3 < 512 && a2 < 512 && a1 < 512 && b4 < 512 && b3 < 512 && b2 < 512 && b1 < 512)
        by (bit_vector)
        requires
            a4 == (a >> 39) & 0x1ff,
            a3 == (a >> 30) & 0x1ff,
            a2 == (a >> 21) & 0x1ff,
            a1 == (a >> 12) & 0x1ff,
            b4 == (b >> 39) & 0x1ff,
            b3 == (b >> 30) & 0x1ff,
            b2 == (b >> 21) & 0x1ff,
            b1 == (b >> 12) & 0x1ff,
    ;
    assert(a4 == b4 && a3 == b3 && a2 == b2 && a1 == b1);
    assert(a == b) by (bit_vector)
        requires
            a >> 47 == 0 || a >> 47 == 0x1ffff,
            b >> 47 == 0 || b >> 47 == 0x1ffff,
            a % 4096 == 0,
            b % 4096 == 0,
            (a >> 39) & 0x1ff == (b >> 39) & 0x1ff,
            (a >> 30) & 0x1ff == (b >> 30) & 0x1ff,
            (a >> 21) & 0x1ff == (b >> 21) & 0x1ff,
            (a >> 12) & 0x1ff == (b >> 12) & 0x1ff,
    ;
}

/// The table that the entry at `index` of `table` leads to, where that
/// entry is present and names a table.
pub open spec fn next_table(mem: Map<u64, Seq<u64>>, table: Option<u64>, index: int) -> Option<u64> {
    match table {
        Some(t) => if mem.dom().contains(t) && entry_is_present(mem[t][index]) && !entry_is_huge(
            mem[t][index],
        ) {
            Some(entry_addr(mem[t][index]))
        } else {
            None
        },
        None => None,
    }
}

/// The level 3 table on the walk for `addr`.
pub open spec fn p3_table(mem: Map<u64, Seq<u64>>, root: u64, addr: u64) -> Option<u64> {
    next_table(mem, Some(root), table_index(addr, 4) as int)
}

/// The level 2 table on the walk for `addr`.
pub open spec fn p2_table(mem: Map<u64, Seq<u64>>, root: u64, addr: u64) -> Option<u64> {
    next_table(mem, p3_table(mem, root, addr), table_index(addr, 3) as int)
}

/// The level 1 table on the walk for `addr`.
pub open spec fn p1_table(mem: Map<u64, Seq<u64>>, root: u64, addr: u64) -> Option<u64> {
    next_table(mem, p2_table(mem, root, addr), table_index(addr, 2) as int)
}

/// The level 1 entry that the walk for `addr` ends at, or zero where a
/// table on the way is missing.
pub open spec fn leaf_entry(mem: Map<u64, Seq<u64>>, root: u64, addr: u64) -> u64 {
    match p1_table(mem, root, addr) {
        Some(t) => if mem.dom().contains(t) {
            mem[t][table_index(addr, 1) as int]
        } else {
            0
        },
        None => 0,
    }
}

/// Number of tables below the root that the walk for `addr` does not find.
pub open spec fn missing_tables(mem: Map<u64, Seq<u64>>, root: u64, addr: u64) -> nat {
    if p3_table(mem, root, addr) is None {
        3
    } else if p2_table(mem, root, addr) is None {
        2
    } else if p1_table(mem, root, addr) is None {
        1
    } else {
        0
    }
}

/// The page at `addr` is mapped, and the last entry of its walk and the
/// entries of the tables on the walk all have the flag `flag`: what the
/// flag allows, such as writing, is allowed for the page.
pub open spec fn walk_has(mem: Map<u64, Seq<u64>>, root: u64, addr: u64, flag: u64) -> bool {
    &&& p1_table(mem, root, addr) is Some
    &&& entry_has(mem[root][table_index(addr, 4) as int], flag)
    &&& entry_has(mem[p3_table(mem, root, addr).unwrap()][table_index(addr, 3) as int], flag)
    &&& entry_has(mem[p2_table(mem, root, addr).unwrap()][table_index(addr, 2) as int], flag)
    &&& entry_is_present(leaf_entry(mem, root, addr))
    &&& entry_has(leaf_entry(mem, root, addr), flag)
}

/// The number of missing tables depends on the indices into the tables
/// above level 1 alone.
pub proof fn lemma_missing_tables_same_path(mem: Map<u64, Seq<u64>>, root: u64, a: u64, b: u64)
    requires
        table_index(a, 4) == table_index(b, 4),
        table_index(a, 3) == table_index(b, 3),
        table_index(a, 2) == table_index(b, 2),
    ensures
        missing_tables(mem, root, a) == missing_tables(mem, root, b),
        p1_table(mem, root, a) == p1_table(mem, root, b),
{
}

/// What a page is mapped to.
pub struct Mapping {
    /// First address of the frame.
    pub frame: u64,
    /// Flags of the level 1 entry.
    pub flags: u64,
}

/// The pages that the tree rooted at `root` maps, each under its first
/// address.
pub open spec fn mappings_of(mem: Map<u64, Seq<u64>>, root: u64) -> Map<u64, Mapping> {
    Map::new(
        |page: u64| Page::is_page_start(page) && leaf_entry(mem, root, page) != 0,
        |page: u64|
            Mapping {
                frame: entry_addr(leaf_entry(mem, root, page)),
                flags: entry_flags(leaf_entry(mem, root, page)),
            },
    )
}

/// The shape of a tree of page tables, beside the tables themselves: the
/// level of each table, and the one entry that leads to it.
pub struct Shape {
    pub level: Map<u64, int>,
    pub parent: Map<u64, (u64, int)>,
}

/// The entry at `slot` of `table` is unused, or it is present, names no
/// huge frame and, above level 1, leads to a table one level down that no
/// other entry leads to.
pub open spec fn entry_ok(mem: Map<u64, Seq<u64>>, shape: Shape, table: u64, slot: int) -> bool {
    let entry = mem[table][slot];
    entry != 0 ==> {
        &&& entry_is_present(entry)
        &&& !entry_is_huge(entry)
        &&& shape.level[table] > 1 ==> {
            &&& mem.dom().contains(entry_addr(entry))
            &&& shape.level[entry_addr(entry)] == shape.level[table] - 1
            &&& shape.parent[entry_addr(entry)] == (table, slot)
        }
    }
}

/// The tables form a tree below `root`: the root is at level 4, every table
/// has 512 entries and a level from 1 to 4, and every entry is in order.
pub open spec fn tree_wf(mem: Map<u64, Seq<u64>>, root: u64, shape: Shape) -> bool {
    &&& mem.dom().contains(root)
    &&& shape.level[root] == 4
    &&& forall|t: u64| #[trigger]
        mem.dom().contains(t) ==> mem[t].len() == 512 && 1 <= shape.level[t] <= 4
            && PhysFrame::is_frame_start(t)
    &&& forall|t: u64, s: int|
        mem.dom().contains(t) && 0 <= s < 512 ==> #[trigger] entry_ok(mem, shape, t, s)
}

/// In a tree, the tables on a walk are tables of the tree at levels 3, 2
/// and 1.
pub proof fn lemma_path_levels(mem: Map<u64, Seq<u64>>, root: u64, shape: Shape, addr: u64)
    requires
        tree_wf(mem, root, shape),
    ensures
        p3_table(mem, root, addr) matches Some(t) ==> mem.dom().contains(t) && shape.level[t] == 3
            && shape.parent[t] == (root, table_index(addr, 4) as int),
        p2_table(mem, root, addr) matches Some(t) ==> mem.dom().contains(t) && shape.level[t] == 2
            && shape.parent[t] == (p3_table(mem, root, addr).unwrap(), table_index(addr, 3) as int),
        p1_table(mem, root, addr) matches Some(t) ==> mem.dom().contains(t) && shape.level[t] == 1
            && shape.parent[t] == (p2_table(mem, root, addr).unwrap(), table_index(addr, 2) as int),
        p2_table(mem, root, addr) is Some ==> p3_table(mem, root, addr) is Some,
        p1_table(mem, root, addr) is Some ==> p2_table(mem, root, addr) is Some,
        leaf_entry(mem, root, addr) != 0 ==> p1_table(mem, root, addr) is Some && entry_is_present(
            leaf_entry(mem, root, addr),
        ) && !entry_is_huge(leaf_entry(mem, root, addr)),
{
    let i4 = table_index(addr, 4) as int;
    let i3 = table_index(addr, 3) as int;
    let i2 = table_index(addr, 2) as int;
    let i1 = table_index(addr, 1) as int;
    assert(entry_ok(mem, shape, root, i4));
    lemma_present_nonzero(mem[root][i4]);
    if let Some(t3) = p3_table(mem, root, addr) {
        assert(entry_ok(mem, shape, t3, i3));
        lemma_present_nonzero(mem[t3][i3]);
        if let Some(t2) = p2_table(mem, root, addr) {
            assert(entry_ok(mem, shape, t2, i2));
            lemma_present_nonzero(mem[t2][i2]);
            if let Some(t1) = p1_table(mem, root, addr) {
                assert(entry_ok(mem, shape, t1, i1));
            }
        }
    }
}

/// In a tree, two pages whose walks end at the same entry are the same
/// page.
pub proof fn lemma_leaf_slot_unique(mem: Map<u64, Seq<u64>>, root: u64, shape: Shape, a: u64, b: u64)
    requires
        tree_wf(mem, root, shape),
        Page::is_page_start(a),
        Page::is_page_start(b),
        p1_table(mem, root, a) is Some,
        p1_table(mem, root, a) == p1_table(mem, root, b),
        table_index(a, 1) == table_index(b, 1),
    ensures
        a == b,
{
    lemma_path_levels(mem, root, shape, a);
    lemma_path_levels(mem, root, shape, b);
    lemma_page_from_indices(a, b);
}

/// A table whose entries are all unused.
pub open spec fn zero_table() -> Seq<u64> {
    Seq::new(512, |i: int| 0u64)
}

/// The tables after the entry at `slot` of `table` was set to `entry`.
pub open spec fn with_entry(mem: Map<u64, Seq<u64>>, table: u64, slot: int, entry: u64) -> Map<
    u64,
    Seq<u64>,
> {
    mem.insert(table, mem[table].update(slot, entry))
}

/// The tables after a fresh, empty table at `frame` was hung below the
/// unused entry at `slot` of `table`.
pub open spec fn with_table(
    mem: Map<u64, Seq<u64>>,
    table: u64,
    slot: int,
    frame: u64,
    flags: u64,
) -> Map<u64, Seq<u64>> {
    with_entry(mem.insert(frame, zero_table()), table, slot, frame | flags)
}

/// The shape after a fresh table at `frame` was hung below the entry at
/// `slot` of `table`.
pub open spec fn with_child(shape: Shape, table: u64, slot: int, frame: u64) -> Shape {
    Shape {
        level: shape.level.insert(frame, shape.level[table] - 1),
        parent: shape.parent.insert(frame, (table, slot)),
    }
}

/// The unused entry is not present.
pub proof fn lemma_zero_entry()
    ensures
        !entry_is_present(0),
        !entry_is_huge(0),
{
    assert(0u64 & 1 == 0) by (bit_vector);
    assert(0u64 & 0x80 == 0) by (bit_vector);
}

/// Hanging a fresh, empty table below an unused entry of a table above
/// level 1 keeps the tree a tree, and changes the last entry of no walk.
pub proof fn lemma_with_table(
    mem: Map<u64, Seq<u64>>,
    root: u64,
    shape: Shape,
    table: u64,
    slot: int,
    frame: u64,
    flags: u64,
)
    requires
        tree_wf(mem, root, shape),
        mem.dom().contains(table),
        0 <= slot < 512,
        shape.level[table] > 1,
        mem[table][slot] == 0,
        !mem.dom().contains(frame),
        PhysFrame::is_frame_start(frame),
        flags & ADDR_MASK == 0,
        flags & PRESENT != 0,
        flags & HUGE_PAGE == 0,
    ensures
        tree_wf(with_table(mem, table, slot, frame, flags), root, with_child(shape, table, slot, frame)),
        forall|addr: u64|
            leaf_entry(with_table(mem, table, slot, frame, flags), root, addr) == #[trigger] leaf_entry(
                mem,
                root,
                addr,
            ),
        next_table(with_table(mem, table, slot, frame, flags), Some(table), slot) == Some(frame),
        forall|addr: u64, flag: u64| #[trigger]
            walk_has(mem, root, addr, flag) ==> walk_has(
                with_table(mem, table, slot, frame, flags),
                root,
                addr,
                flag,
            ),
        forall|flag: u64|
            flags & flag != 0 ==> #[trigger] entry_has(
                with_table(mem, table, slot, frame, flags)[table][slot],
                flag,
            ),
{
    let mem2 = with_table(mem, table, slot, frame, flags);
    assert forall|flag: u64| flags & flag != 0 implies #[trigger] entry_has(mem2[table][slot], flag) by {
        lemma_entry_has(frame, flags, flag);
    }
    assert forall|addr: u64, flag: u64| #[trigger] walk_has(mem, root, addr, flag) implies walk_has(
        mem2,
        root,
        addr,
        flag,
    ) by {
        lemma_path_levels(mem, root, shape, addr);
        lemma_zero_entry();
        let t3 = p3_table(mem, root, addr).unwrap();
        let t2 = p2_table(mem, root, addr).unwrap();
        let t1 = p1_table(mem, root, addr).unwrap();
        assert(mem2[root][table_index(addr, 4) as int] == mem[root][table_index(addr, 4) as int]);
        assert(mem2[t3][table_index(addr, 3) as int] == mem[t3][table_index(addr, 3) as int]);
        assert(mem2[t2][table_index(addr, 2) as int] == mem[t2][table_index(addr, 2) as int]);
        assert(mem2[t1] == mem[t1]);
    }
    let shape2 = with_child(shape, table, slot, frame);
    lemma_entry_compose(frame, flags);
    lemma_zero_entry();
    assert forall|t: u64, s: int| mem2.dom().contains(t) && 0 <= s < 512 implies #[trigger] entry_ok(
        mem2,
        shape2,
        t,
        s,
    ) by {
        if t == frame {
        } else if t == table && s == slot {
        } else {
            assert(entry_ok(mem, shape, t, s));
        }
    }
    assert forall|addr: u64|
        leaf_entry(mem2, root, addr) == #[trigger] leaf_entry(mem, root, addr) by {
        lemma_path_levels(mem, root, shape, addr);
        let i4 = table_index(addr, 4) as int;
        let i3 = table_index(addr, 3) as int;
        let i2 = table_index(addr, 2) as int;
        let i1 = table_index(addr, 1) as int;
        if root == table && i4 == slot {
            assert(p3_table(mem2, root, addr) == Some(frame));
            assert(mem2[frame][i3] == 0);
        } else {
            assert(mem2[root][i4] == mem[root][i4]);
            if let Some(t3) = p3_table(mem, root, addr) {
                if t3 == table && i3 == slot {
                    assert(p2_table(mem2, root, addr) == Some(frame));
                    assert(mem2[frame][i2] == 0);
                } else {
                    assert(mem2[t3][i3] == mem[t3][i3]);
                    if let Some(t2) = p2_table(mem, root, addr) {
                        if t2 == table && i2 == slot {
                            assert(p1_table(mem2, root, addr) == Some(frame));
                            assert(mem2[frame][i1] == 0);
                        } else {
                            assert(mem2[t2][i2] == mem[t2][i2]);
                            if let Some(t1) = p1_table(mem, root, addr) {
                                assert(mem2[t1] == mem[t1]);
                            }
                        }
                    }
                }
            }
        }
    }
}

/// Adding parent flags to an entry that leads to a table keeps the tree a
/// tree, and changes neither a table on a walk nor the last entry of one.
pub proof fn lemma_with_flags(
    mem: Map<u64, Seq<u64>>,
    root: u64,
    shape: Shape,
    table: u64,
    slot: int,
    flags: u64,
)
    requires
        tree_wf(mem, root, shape),
        mem.dom().contains(table),
        0 <= slot < 512,
        shape.level[table] > 1,
        mem[table][slot] != 0,
        flags & !PARENT_FLAGS == 0,
    ensures
        tree_wf(with_entry(mem, table, slot, mem[table][slot] | flags), root, shape),
        forall|addr: u64|
            leaf_entry(with_entry(mem, table, slot, mem[table][slot] | flags), root, addr)
                == #[trigger] leaf_entry(mem, root, addr),
        forall|t: Option<u64>, s: int|
            0 <= s < 512 ==> #[trigger] next_table(
                with_entry(mem, table, slot, mem[table][slot] | flags),
                t,
                s,
            ) == next_table(mem, t, s),
        forall|addr: u64, flag: u64| #[trigger]
            walk_has(mem, root, addr, flag) ==> walk_has(
                with_entry(mem, table, slot, mem[table][slot] | flags),
                root,
                addr,
                flag,
            ),
        forall|flag: u64|
            flags & flag != 0 ==> #[trigger] entry_has(
                with_entry(mem, table, slot, mem[table][slot] | flags)[table][slot],
                flag,
            ),
{
    let entry = mem[table][slot];
    let mem2 = with_entry(mem, table, slot, entry | flags);
    lemma_entry_add_flags(entry, flags);
    assert(entry_ok(mem, shape, table, slot));
    assert forall|t: u64, s: int| mem2.dom().contains(t) && 0 <= s < 512 implies #[trigger] entry_ok(
        mem2,
        shape,
        t,
        s,
    ) by {
        assert(entry_ok(mem, shape, t, s));
    }
    assert forall|t: Option<u64>, s: int| 0 <= s < 512 implies #[trigger] next_table(mem2, t, s)
        == next_table(mem, t, s) by {
        if let Some(tt) = t {
            if tt == table && s == slot {
            } else if mem.dom().contains(tt) {
                assert(mem2[tt][s] == mem[tt][s]);
            }
        }
    }
    assert forall|addr: u64|
        leaf_entry(mem2, root, addr) == #[trigger] leaf_entry(mem, root, addr) by {
        lemma_path_levels(mem, root, shape, addr);
        assert(p3_table(mem2, root, addr) == p3_table(mem, root, addr));
        assert(p2_table(mem2, root, addr) == p2_table(mem, root, addr));
        assert(p1_table(mem2, root, addr) == p1_table(mem, root, addr));
        if let Some(t1) = p1_table(mem, root, addr) {
            assert(mem2[t1] == mem[t1]);
        }
    }
    assert forall|flag: u64| flags & flag != 0 implies #[trigger] entry_has(mem2[table][slot], flag) by {
        lemma_entry_has(entry, flags, flag);
    }
    assert forall|addr: u64, flag: u64| #[trigger] walk_has(mem, root, addr, flag) implies walk_has(
        mem2,
        root,
        addr,
        flag,
    ) by {
        lemma_path_levels(mem, root, shape, addr);
        lemma_entry_has(entry, flags, flag);
        let i4 = table_index(addr, 4) as int;
        let i3 = table_index(addr, 3) as int;
        let i2 = table_index(addr, 2) as int;
        let t3 = p3_table(mem, root, addr).unwrap();
        let t2 = p2_table(mem, root, addr).unwrap();
        let t1 = p1_table(mem, root, addr).unwrap();
        assert(p3_table(mem2, root, addr) == p3_table(mem, root, addr));
        assert(p2_table(mem2, root, addr) == p2_table(mem, root, addr));
        assert(p1_table(mem2, root, addr) == p1_table(mem, root, addr));
        assert(mem2[t1] == mem[t1]);
        assert(entry_has(mem2[root][i4], flag)) by {
            if !(root == table && i4 == slot) {
                assert(mem2[root][i4] == mem[root][i4]);
            }
        }
        assert(entry_has(mem2[t3][i3], flag)) by {
            if !(t3 == table && i3 == slot) {
                assert(mem2[t3][i3] == mem[t3][i3]);
            }
        }
        assert(entry_has(mem2[t2][i2], flag)) by {
            if !(t2 == table && i2 == slot) {
                assert(mem2[t2][i2] == mem[t2][i2]);
            }
        }
    }
}

/// Filling the unused last entry of the walk for `page` keeps the tree a
/// tree, and changes the last entry of the walk for that page alone.
pub proof fn lemma_with_leaf(
    mem: Map<u64, Seq<u64>>,
    root: u64,
    shape: Shape,
    page: u64,
    frame: u64,
    flags: u64,
)
    requires
        tree_wf(mem, root, shape),
        Page::is_page_start(page),
        p1_table(mem, root, page) is Some,
        leaf_entry(mem, root, page) == 0,
        PhysFrame::is_frame_start(frame),
        valid_leaf_flags(flags),
    ensures
        ({
            let table = p1_table(mem, root, page).unwrap();
            let mem2 = with_entry(mem, table, table_index(page, 1) as int, frame | flags);
            &&& tree_wf(mem2, root, shape)
            &&& leaf_entry(mem2, root, page) == frame | flags
            &&& forall|addr: u64|
                Page::is_page_start(addr) && addr != page ==> leaf_entry(mem2, root, addr)
                    == #[trigger] leaf_entry(mem, root, addr)
            &&& mappings_of(mem2, root) == mappings_of(mem, root).insert(
                page,
                Mapping { frame, flags },
            )
            &&& forall|addr: u64, flag: u64| #[trigger]
                walk_has(mem, root, addr, flag) ==> walk_has(mem2, root, addr, flag)
            &&& forall|flag: u64| flags & flag != 0 ==> #[trigger] entry_has(frame | flags, flag)
            &&& forall|t: Option<u64>, s: int|
                0 <= s < 512 && t != Some(table) ==> #[trigger] next_table(mem2, t, s) == next_table(mem, t, s)
        }),
{
    let table = p1_table(mem, root, page).unwrap();
    let slot = table_index(page, 1) as int;
    let entry = frame | flags;
    let mem2 = with_entry(mem, table, slot, entry);
    lemma_entry_compose(frame, flags);
    lemma_path_levels(mem, root, shape, page);
    assert forall|t: u64, s: int| mem2.dom().contains(t) && 0 <= s < 512 implies #[trigger] entry_ok(
        mem2,
        shape,
        t,
        s,
    ) by {
        assert(entry_ok(mem, shape, t, s));
    }
    assert forall|addr: u64|
        p1_table(mem2, root, addr) == p1_table(mem, root, addr) && (leaf_entry(mem2, root, addr) == if p1_table(
            mem,
            root,
            addr,
        ) == Some(table) && table_index(addr, 1) as int == slot {
            entry
        } else {
            #[trigger] leaf_entry(mem, root, addr)
        }) by {
        lemma_path_levels(mem, root, shape, addr);
        assert(p3_table(mem2, root, addr) == p3_table(mem, root, addr));
        assert(p2_table(mem2, root, addr) == p2_table(mem, root, addr));
        assert(p1_table(mem2, root, addr) == p1_table(mem, root, addr));
    }
    assert forall|addr: u64| Page::is_page_start(addr) && addr != page implies leaf_entry(
        mem2,
        root,
        addr,
    ) == #[trigger] leaf_entry(mem, root, addr) by {
        if p1_table(mem, root, addr) == Some(table) && table_index(addr, 1) as int == slot {
            lemma_leaf_slot_unique(mem, root, shape, page, addr);
        }
    }
    assert(leaf_entry(mem2, root, page) == entry);
    assert(mappings_of(mem2, root) =~= mappings_of(mem, root).insert(page, Mapping { frame, flags }));
    lemma_zero_entry();
    assert forall|flag: u64| flags & flag != 0 implies #[trigger] entry_has(frame | flags, flag) by {
        lemma_entry_has(frame, flags, flag);
    }
    assert forall|addr: u64, flag: u64| #[trigger] walk_has(mem, root, addr, flag) implies walk_has(
        mem2,
        root,
        addr,
        flag,
    ) by {
        lemma_path_levels(mem, root, shape, addr);
        let t3 = p3_table(mem, root, addr).unwrap();
        let t2 = p2_table(mem, root, addr).unwrap();
        assert(mem2[root] == mem[root]);
        assert(mem2[t3] == mem[t3]);
        assert(mem2[t2] == mem[t2]);
        assert(leaf_entry(mem2, root, addr) == leaf_entry(mem, root, addr));
    }
    assert forall|t: Option<u64>, s: int| 0 <= s < 512 && t != Some(table) implies #[trigger] next_table(
        mem2,
        t,
        s,
    ) == next_table(mem, t, s) by {
        if let Some(tt) = t {
            if mem.dom().contains(tt) {
                assert(mem2[tt] == mem[tt]);
            }
        }
    }
}

/// An entry of a table above level 1 that the mapper keeps as it found it
/// and does not follow: it is in use, but the mapper does not hold the
/// table below it, or it names a huge frame.
#[derive(Clone, Copy, Debug)]
pub struct Pending {
    /// First address of the frame of the table that holds the entry.
    pub table: u64,
    /// Index of the entry in that table.
    pub slot: u16,
    /// Level of that table, from 2 to 4.
    pub level: u8,
    /// The entry.
    pub entry: u64,
}

/// The entry that is kept for `slot` of `table`; zero where none is.
pub open spec fn pending_entry(items: Seq<Pending>, table: u64, slot: int) -> u64
    decreases items.len(),
{
    if items.len() == 0 {
        0
    } else if items.last().table == table && items.last().slot == slot {
        items.last().entry
    } else {
        pending_entry(items.drop_last(), table, slot)
    }
}

/// The kept entries are in use, and no two are kept for one place.
pub open spec fn pending_distinct(items: Seq<Pending>) -> bool {
    &&& forall|k: int| 0 <= k < items.len() ==> (#[trigger] items[k]).entry != 0
    &&& forall|j: int, k: int|
        0 <= j < k < items.len() ==> !((#[trigger] items[j]).table == (#[trigger] items[k]).table
            && items[j].slot == items[k].slot)
}

/// The entry kept for a place is that of the item for the place.
pub proof fn lemma_pending_entry(items: Seq<Pending>, table: u64, slot: int)
    requires
        pending_distinct(items),
    ensures
        pending_entry(items, table, slot) != 0 <==> exists|k: int|
            0 <= k < items.len() && (#[trigger] items[k]).table == table && items[k].slot == slot,
        forall|k: int|
            0 <= k < items.len() && (#[trigger] items[k]).table == table && items[k].slot == slot
                ==> pending_entry(items, table, slot) == items[k].entry,
    decreases items.len(),
{
    if items.len() > 0 {
        let init = items.drop_last();
        let n = items.len() - 1;
        assert(pending_distinct(init)) by {
            assert forall|j: int| 0 <= j < init.len() implies init[j] == items[j] by {}
        }
        lemma_pending_entry(init, table, slot);
        if items.last().table == table && items.last().slot == slot {
            assert(items[n].table == table && items[n].slot == slot);
            assert forall|k: int|
                0 <= k < items.len() && (#[trigger] items[k]).table == table && items[k].slot == slot implies k
                == n by {
                if k < n {
                    assert(!(items[k].table == items[n].table && items[k].slot == items[n].slot));
                }
            }
        } else {
            if pending_entry(items, table, slot) != 0 {
                let k = choose|k: int|
                    0 <= k < init.len() && (#[trigger] init[k]).table == table && init[k].slot == slot;
                assert(items[k].table == table && items[k].slot == slot);
            }
            assert forall|k: int|
                0 <= k < items.len() && (#[trigger] items[k]).table == table && items[k].slot == slot implies pending_entry(
                items,
                table,
                slot,
            ) == items[k].entry by {
                assert(k < n);
                assert(init[k] == items[k]);
            }
            if exists|k: int|
                0 <= k < items.len() && (#[trigger] items[k]).table == table && items[k].slot == slot {
                let k = choose|k: int|
                    0 <= k < items.len() && (#[trigger] items[k]).table == table && items[k].slot == slot;
                assert(init[k].table == table && init[k].slot == slot);
            }
        }
    }
}

/// The first entry on the walk for `addr` that the mapper keeps and does
/// not follow, with the level of its table; `None` where the walk meets
/// none. Below such an entry the mapper cannot tell what is mapped.
pub open spec fn obstacle_of(mem: Map<u64, Seq<u64>>, items: Seq<Pending>, root: u64, addr: u64) -> Option<
    (int, u64),
> {
    let e4 = pending_entry(items, root, table_index(addr, 4) as int);
    if e4 != 0 {
        Some((4int, e4))
    } else {
        match p3_table(mem, root, addr) {
            None => None,
            Some(t3) => {
                let e3 = pending_entry(items, t3, table_index(addr, 3) as int);
                if e3 != 0 {
                    Some((3int, e3))
                } else {
                    match p2_table(mem, root, addr) {
                        None => None,
                        Some(t2) => {
                            let e2 = pending_entry(items, t2, table_index(addr, 2) as int);
                            if e2 != 0 {
                                Some((2int, e2))
                            } else {
                                None
                            }
                        },
                    }
                }
            },
        }
    }
}

impl Pending {
    /// The entry is present, names no huge frame, and leads to the table in
    /// `frame`.
    pub open spec fn leads_to(self, frame: u64) -> bool {
        entry_is_present(self.entry) && !entry_is_huge(self.entry) && entry_addr(self.entry) == frame
    }
}

/// Position of the first kept entry that leads to the table in `frame`;
/// -1 where none does.
pub open spec fn first_leading(items: Seq<Pending>, frame: u64) -> int
    decreases items.len(),
{
    if items.len() == 0 {
        -1
    } else {
        let before = first_leading(items.drop_last(), frame);
        if before >= 0 {
            before
        } else if items.last().leads_to(frame) {
            items.len() - 1
        } else {
            -1
        }
    }
}

/// The first kept entry that leads to a table does lead to it.
pub proof fn lemma_first_leading(items: Seq<Pending>, frame: u64)
    ensures
        -1 <= first_leading(items, frame) < items.len(),
        first_leading(items, frame) >= 0 ==> items[first_leading(items, frame)].leads_to(frame),
    decreases items.len(),
{
    if items.len() > 0 {
        lemma_first_leading(items.drop_last(), frame);
    }
}

/// While none of the first `n` kept entries leads to a table, the search
/// goes on behind them.
pub proof fn lemma_first_leading_prefix(items: Seq<Pending>, frame: u64, n: int)
    requires
        0 <= n <= items.len(),
    ensures
        first_leading(items.take(n), frame) >= 0 ==> first_leading(items, frame) == first_leading(
            items.take(n),
            frame,
        ),
    decreases items.len() - n,
{
    if n < items.len() {
        assert(items.take(n + 1).drop_last() =~= items.take(n));
        lemma_first_leading_prefix(items, frame, n + 1);
    } else {
        assert(items.take(n) =~= items);
    }
}

/// Some entry is present and has the huge flag.
pub open spec fn has_huge_entry(entries: Seq<u64>) -> bool {
    exists|s: int| 0 <= s < entries.len() && entry_is_present(#[trigger] entries[s]) && entry_is_huge(entries[s])
}

/// Which entry a walk meets first that the mapper does not follow depends
/// on the indices into the tables above level 1 alone.
pub proof fn lemma_obstacle_same_path(mem: Map<u64, Seq<u64>>, items: Seq<Pending>, root: u64, a: u64, b: u64)
    requires
        table_index(a, 4) == table_index(b, 4),
        table_index(a, 3) == table_index(b, 3),
        table_index(a, 2) == table_index(b, 2),
    ensures
        obstacle_of(mem, items, root, a) == obstacle_of(mem, items, root, b),
{
}

/// Every entry of a level 1 table is unused or names a frame: it is
/// present and has no huge flag.
pub open spec fn leaf_entries_valid(entries: Seq<u64>) -> bool {
    forall|s: int|
        0 <= s < entries.len() ==> (#[trigger] entries[s]) == 0 || (entry_is_present(entries[s])
            && !entry_is_huge(entries[s]))
}

/// Filling an empty level 1 table with entries that each are unused or
/// name a frame keeps the tree a tree.
pub proof fn lemma_with_leaf_table(
    mem: Map<u64, Seq<u64>>,
    root: u64,
    shape: Shape,
    table: u64,
    entries: Seq<u64>,
)
    requires
        tree_wf(mem, root, shape),
        mem.dom().contains(table),
        shape.level[table] == 1,
        entries.len() == 512,
        leaf_entries_valid(entries),
    ensures
        tree_wf(mem.insert(table, entries), root, shape),
        forall|t: Option<u64>, s: int|
            0 <= s < 512 && t != Some(table) ==> #[trigger] next_table(mem.insert(table, entries), t, s)
                == next_table(mem, t, s),
{
    let mem2 = mem.insert(table, entries);
    assert forall|t: u64, s: int| mem2.dom().contains(t) && 0 <= s < 512 implies #[trigger] entry_ok(
        mem2,
        shape,
        t,
        s,
    ) by {
        if t != table {
            assert(entry_ok(mem, shape, t, s));
        }
    }
    assert forall|t: Option<u64>, s: int| 0 <= s < 512 && t != Some(table) implies #[trigger] next_table(
        mem2,
        t,
        s,
    ) == next_table(mem, t, s) by {
        if let Some(tt) = t {
            if mem.dom().contains(tt) {
                assert(mem2[tt] == mem[tt]);
            }
        }
    }
}

/// An entry is its address together with its flags.
pub proof fn lemma_entry_parts(entry: u64)
    ensures
        entry_addr(entry) | entry_flags(entry) == entry,
        entry_flags(entry) & ADDR_MASK == 0,
        entry_is_present(entry) ==> entry_flags(entry) & PRESENT != 0,
        !entry_is_huge(entry) ==> entry_flags(entry) & HUGE_PAGE == 0,
{
    assert((entry & 0x000f_ffff_ffff_f000) | (entry & !0x000f_ffff_ffff_f000u64) == entry && (entry
        & !0x000f_ffff_ffff_f000u64) & 0x000f_ffff_ffff_f000 == 0 && (entry & 1 != 0 ==> (entry
        & !0x000f_ffff_ffff_f000u64) & 1 != 0) && (entry & 0x80 == 0 ==> (entry
        & !0x000f_ffff_ffff_f000u64) & 0x80 == 0)) by (bit_vector);
}

} // verus!
