//! Typed virtual and physical addresses, pages and frames.

use vstd::prelude::*;

verus! {

/// Size of a page and of a frame in bytes.
pub const PAGE_SIZE: u64 = 4096;

/// Number of entries in a page table of any level.
pub const ENTRY_COUNT: usize = 512;

/// First physical address that the architecture cannot express (2^52).
pub const PHYS_ADDR_LIMIT: u64 = 0x0010_0000_0000_0000;

/// Bits 47 to 63 all equal: the address is in canonical form, in the low
/// half of the address space or in the high half.
pub open spec fn is_canonical(addr: u64) -> bool {
    addr < 0x0000_8000_0000_0000 || addr >= 0xffff_8000_0000_0000
}

/// Bits 48 to 63 hold no data: they are zero, or they repeat bit 47.
pub open spec fn is_extendable(addr: u64) -> bool {
    addr < 0x0001_0000_0000_0000 || addr >= 0xffff_8000_0000_0000
}

/// The canonical address with the same low 48 bits as an extendable
/// `addr`: where bit 47 is set and the bits above are zero, they are set.
pub open spec fn sign_extend(addr: u64) -> u64 {
    if 0x0000_8000_0000_0000 <= addr < 0x0001_0000_0000_0000 {
        (addr + 0xffff_0000_0000_0000) as u64
    } else {
        addr
    }
}

/// Index into the table of `level` (4 is the root, 1 the leaf table) that a
/// walk for `addr` reads: nine bits of the address, from bit 39, 30, 21 or
/// 12 on.
pub open spec fn table_index(addr: u64, level: int) -> u16 {
    if level == 4 {
        ((addr / 0x80_0000_0000) % 512) as u16
    } else if level == 3 {
        ((addr / 0x4000_0000) % 512) as u16
    } else if level == 2 {
        ((addr / 0x20_0000) % 512) as u16
    } else {
        ((addr / 0x1000) % 512) as u16
    }
}

/// Offset of `addr` within its page: its low twelve bits.
pub open spec fn offset_in_page(addr: u64) -> u16 {
    (addr % 4096) as u16
}

/// Start of the 4 KiB block that holds `addr`: the address with its low
/// twelve bits cleared.
pub open spec fn block_start(addr: u64) -> u64 {
    (addr - addr % 4096) as u64
}

/// `x86_64::VirtAddr::try_new`: accepts an address whose bits 48 to 63 are
/// zero or copies of bit 47, and returns it in canonical form.
#[verifier::external_body]
fn x86_try_canonical(addr: u64) -> (r: Option<u64>)
    ensures
        r == if is_extendable(addr) {
            Some(sign_extend(addr))
        } else {
            None
        },
{
    x86_64::VirtAddr::try_new(addr).ok().map(|a| a.as_u64())
}

/// `x86_64::VirtAddr::p4_index`, on a canonical address: bits 39 to 47 of
/// the address.
#[verifier::external_body]
fn x86_p4_index(addr: u64) -> (r: u16)
    requires
        is_canonical(addr),
    ensures
        r == table_index(addr, 4),
{
    u16::from(x86_64::VirtAddr::new(addr).p4_index())
}

/// `x86_64::VirtAddr::p3_index`, on a canonical address: bits 30 to 38 of
/// the address.
#[verifier::external_body]
fn x86_p3_index(addr: u64) -> (r: u16)
    requires
        is_canonical(addr),
    ensures
        r == table_index(addr, 3),
{
    u16::from(x86_64::VirtAddr::new(addr).p3_index())
}

/// `x86_64::VirtAddr::p2_index`, on a canonical address: bits 21 to 29 of
/// the address.
#[verifier::external_body]
fn x86_p2_index(addr: u64) -> (r: u16)
    requires
        is_canonical(addr),
    ensures
        r == table_index(addr, 2),
{
    u16::from(x86_64::VirtAddr::new(addr).p2_index())
}

/// `x86_64::VirtAddr::p1_index`, on a canonical address: bits 12 to 20 of
/// the address.
#[verifier::external_body]
fn x86_p1_index(addr: u64) -> (r: u16)
    requires
        is_canonical(addr),
    ensures
        r == table_index(addr, 1),
{
    u16::from(x86_64::VirtAddr::new(addr).p1_index())
}

/// `x86_64::VirtAddr::page_offset`, on a canonical address: the low twelve
/// bits of the address.
#[verifier::external_body]
fn x86_page_offset(addr: u64) -> (r: u16)
    requires
        is_canonical(addr),
    ensures
        r == offset_in_page(addr),
{
    u16::from(x86_64::VirtAddr::new(addr).page_offset())
}

/// `x86_64::structures::paging::Page::containing_address`, on a canonical
/// address: the address with its low twelve bits cleared.
#[verifier::external_body]
fn x86_page_containing(addr: u64) -> (r: u64)
    requires
        is_canonical(addr),
    ensures
        r == block_start(addr),
{
    let page: x86_64::structures::paging::Page = x86_64::structures::paging::Page::containing_address(
        x86_64::VirtAddr::new(addr),
    );
    page.start_address().as_u64()
}

/// `x86_64::structures::paging::PhysFrame::containing_address`, on an address
/// below 2^52: the address with its low twelve bits cleared.
#[verifier::external_body]
fn x86_frame_containing(addr: u64) -> (r: u64)
    requires
        addr < PHYS_ADDR_LIMIT,
    ensures
        r == block_start(addr),
{
    let frame: x86_64::structures::paging::PhysFrame =
        x86_64::structures::paging::PhysFrame::containing_address(x86_64::PhysAddr::new(addr));
    frame.start_address().as_u64()
}

/// A canonical 64-bit virtual address.
#[derive(Clone, Copy, Debug, PartialEq, Eq, Structural)]
pub struct VirtAddr {
    addr: u64,
}

impl VirtAddr {
    /// The address as a number.
    pub closed spec fn value(self) -> u64 {
        self.addr
    }

    #[verifier::type_invariant]
    spec fn inv(self) -> bool {
        is_canonical(self.addr)
    }

    /// The address `addr` in canonical form, or `None` where bits 48 to 63
    /// hold data of their own.
    pub fn try_new(addr: u64) -> (r: Option<VirtAddr>)
        ensures
            r.is_some() == is_extendable(addr),
            r matches Some(a) ==> a.value() == sign_extend(addr) && is_canonical(a.value()),
    {
        match x86_try_canonical(addr) {
            Some(a) => Some(VirtAddr { addr: a }),
            None => None,
        }
    }

    /// The address `addr` in canonical form.
    pub fn new(addr: u64) -> (r: VirtAddr)
        requires
            is_extendable(addr),
        ensures
            r.value() == sign_extend(addr),
            is_canonical(r.value()),
    {
        match VirtAddr::try_new(addr) {
            Some(a) => a,
            None => VirtAddr { addr: 0 },
        }
    }

    /// The address as a number.
    #[verifier::when_used_as_spec(value)]
    pub fn as_u64(self) -> (r: u64)
        ensures
            r == self.value(),
            is_canonical(r),
    {
        proof {
            use_type_invariant(&self);
        }
        self.addr
    }

    /// Index into the level 4 table.
    pub fn p4_index(self) -> (r: u16)
        ensures
            r == table_index(self.value(), 4),
            r < 512,
    {
        proof {
            use_type_invariant(&self);
        }
        x86_p4_index(self.addr)
    }

    /// Index into the level 3 table.
    pub fn p3_index(self) -> (r: u16)
        ensures
            r == table_index(self.value(), 3),
            r < 512,
    {
        proof {
            use_type_invariant(&self);
        }
        x86_p3_index(self.addr)
    }

    /// Index into the level 2 table.
    pub fn p2_index(self) -> (r: u16)
        ensures
            r == table_index(self.value(), 2),
            r < 512,
    {
        proof {
            use_type_invariant(&self);
        }
        x86_p2_index(self.addr)
    }

    /// Index into the level 1 table.
    pub fn p1_index(self) -> (r: u16)
        ensures
            r == table_index(self.value(), 1),
            r < 512,
    {
        proof {
            use_type_invariant(&self);
        }
        x86_p1_index(self.addr)
    }

    /// Offset within the page.
    pub fn page_offset(self) -> (r: u16)
        ensures
            r == offset_in_page(self.value()),
            r < 4096,
    {
        proof {
            use_type_invariant(&self);
        }
        x86_page_offset(self.addr)
    }
}

/// A physical address: a number below 2^52.
#[derive(Clone, Copy, Debug, PartialEq, Eq, Structural)]
pub struct PhysAddr {
    addr: u64,
}

impl PhysAddr {
    /// The address as a number.
    pub closed spec fn value(self) -> u64 {
        self.addr
    }

    #[verifier::type_invariant]
    spec fn inv(self) -> bool {
        self.addr < PHYS_ADDR_LIMIT
    }

    /// The address `addr`, or `None` where a bit from 52 up is set.
    pub fn try_new(addr: u64) -> (r: Option<PhysAddr>)
        ensures
            r.is_some() == (addr < PHYS_ADDR_LIMIT),
            r matches Some(a) ==> a.value() == addr,
    {
        if addr < PHYS_ADDR_LIMIT {
            Some(PhysAddr { addr })
        } else {
            None
        }
    }

    /// The address `addr`.
    pub fn new(addr: u64) -> (r: PhysAddr)
        requires
            addr < PHYS_ADDR_LIMIT,
        ensures
            r.value() == addr,
    {
        PhysAddr { addr }
    }

    /// The address as a number.
    #[verifier::when_used_as_spec(value)]
    pub fn as_u64(self) -> (r: u64)
        ensures
            r == self.value(),
            r < PHYS_ADDR_LIMIT,
    {
        proof {
            use_type_invariant(&self);
        }
        self.addr
    }
}

/// A 4 KiB page of virtual memory, named by its first address.
#[derive(Clone, Copy, Debug, PartialEq, Eq, Structural)]
pub struct Page {
    start: u64,
}

impl Page {
    /// First address of the page.
    pub closed spec fn start(self) -> u64 {
        self.start
    }

    /// What holds of the first address of every page.
    pub open spec fn is_page_start(addr: u64) -> bool {
        is_canonical(addr) && addr % PAGE_SIZE == 0
    }

    #[verifier::type_invariant]
    spec fn inv(self) -> bool {
        Self::is_page_start(self.start)
    }

    /// The page that holds `address`.
    pub fn containing_address(address: VirtAddr) -> (r: Page)
        ensures
            r.start() == block_start(address.value()),
            Self::is_page_start(r.start()),
    {
        let addr: u64 = address.as_u64();
        proof {
            lemma_block_start(addr);
        }
        Page { start: x86_page_containing(addr) }
    }

    /// First address of the page.
    pub fn start_address(self) -> (r: VirtAddr)
        ensures
            r.value() == self.start(),
            Self::is_page_start(r.value()),
    {
        proof {
            use_type_invariant(&self);
        }
        VirtAddr::new(self.start)
    }
}

/// A 4 KiB frame of physical memory, named by its first address.
#[derive(Clone, Copy, Debug, PartialEq, Eq, Structural)]
pub struct PhysFrame {
    start: u64,
}

impl PhysFrame {
    /// First address of the frame.
    pub closed spec fn start(self) -> u64 {
        self.start
    }

    /// What holds of the first address of every frame.
    pub open spec fn is_frame_start(addr: u64) -> bool {
        addr < PHYS_ADDR_LIMIT && addr % PAGE_SIZE == 0
    }

    #[verifier::type_invariant]
    spec fn inv(self) -> bool {
        Self::is_frame_start(self.start)
    }

    /// The frame that holds `address`.
    pub fn containing_address(address: PhysAddr) -> (r: PhysFrame)
        ensures
            r.start() == block_start(address.value()),
            Self::is_frame_start(r.start()),
    {
        let addr: u64 = address.as_u64();
        proof {
            lemma_block_start(addr);
        }
        PhysFrame { start: x86_frame_containing(addr) }
    }

    /// First address of the frame.
    pub fn start_address(self) -> (r: PhysAddr)
        ensures
            r.value() == self.start(),
            Self::is_frame_start(r.value()),
    {
        proof {
            use_type_invariant(&self);
        }
        PhysAddr::new(self.start)
    }
}

/// The start of a block is a multiple of the page size, and is canonical
/// and below the physical limit where the address is.
pub proof fn lemma_block_start(addr: u64)
    ensures
        block_start(addr) % PAGE_SIZE == 0,
        block_start(addr) == addr - addr % PAGE_SIZE,
        block_start(addr) <= addr,
        is_canonical(addr) ==> is_canonical(block_start(addr)),
        addr < PHYS_ADDR_LIMIT ==> block_start(addr) < PHYS_ADDR_LIMIT,
        addr % PAGE_SIZE == 0 ==> block_start(addr) == addr,
{
    let b = (addr - addr % 4096) as u64;
    assert(b % 4096 == 0 && (addr >= 0xffff_8000_0000_0000 ==> b >= 0xffff_8000_0000_0000)) by (bit_vector)
        requires
            b == addr - addr % 4096,
    ;
}

/// The table indices, the offset and the block start in terms of the bits
/// of the address.
pub proof fn lemma_addr_bits(addr: u64)
    ensures
        table_index(addr, 4) == (addr >> 39) & 0x1ff,
        table_index(addr, 3) == (addr >> 30) & 0x1ff,
        table_index(addr, 2) == (addr >> 21) & 0x1ff,
        table_index(addr, 1) == (addr >> 12) & 0x1ff,
        offset_in_page(addr) == addr & 0xfff,
        block_start(addr) == addr & !0xfffu64,
        is_canonical(addr) == (addr >> 47 == 0 || addr >> 47 == 0x1ffff),
        is_extendable(addr) == (addr >> 47 == 0 || addr >> 47 == 1 || addr >> 47 == 0x1ffff),
        sign_extend(addr) == if addr >> 47 == 1 {
            addr | 0xffff_0000_0000_0000
        } else {
            addr
        },
{
    assert((addr / 0x80_0000_0000) % 512 == (addr >> 39) & 0x1ff) by (bit_vector);
    assert((addr / 0x4000_0000) % 512 == (addr >> 30) & 0x1ff) by (bit_vector);
    assert((addr / 0x20_0000) % 512 == (addr >> 21) & 0x1ff) by (bit_vector);
    assert((addr / 0x1000) % 512 == (addr >> 12) & 0x1ff) by (bit_vector);
    assert(addr % 4096 == addr & 0xfff) by (bit_vector);
    assert(addr - addr % 4096 == addr & !0xfffu64) by (bit_vector);
    assert((addr < 0x0000_8000_0000_0000) == (addr >> 47 == 0)) by (bit_vector);
    assert((addr >= 0xffff_8000_0000_0000) == (addr >> 47 == 0x1ffff)) by (bit_vector);
    assert((0x0000_8000_0000_0000 <= addr && addr < 0x0001_0000_0000_0000) == (addr >> 47 == 1))
        by (bit_vector);
    assert(addr >> 47 == 1 ==> addr + 0xffff_0000_0000_0000 == addr | 0xffff_0000_0000_0000)
        by (bit_vector);
}

/// An address and the start of its block have the same table indices, and
/// the start of the block plus the offset in the page is the address.
pub proof fn lemma_block_indices(addr: u64)
    ensures
        table_index(block_start(addr), 4) == table_index(addr, 4),
        table_index(block_start(addr), 3) == table_index(addr, 3),
        table_index(block_start(addr), 2) == table_index(addr, 2),
        table_index(block_start(addr), 1) == table_index(addr, 1),
        block_start(addr) + offset_in_page(addr) == addr,
        block_start(block_start(addr)) == block_start(addr),
        is_canonical(addr) ==> Page::is_page_start(block_start(addr)),
{
    let b = block_start(addr);
    lemma_addr_bits(addr);
    lemma_addr_bits(b);
    assert(((b >> 39) & 0x1ff) == ((addr >> 39) & 0x1ff) && ((b >> 30) & 0x1ff) == ((addr >> 30) & 0x1ff)
        && ((b >> 21) & 0x1ff) == ((addr >> 21) & 0x1ff) && ((b >> 12) & 0x1ff) == ((addr >> 12)
        & 0x1ff)) by (bit_vector)
        requires
            b == addr & !0xfffu64,
    ;
    lemma_block_start(addr);
    lemma_block_start(b);
}

} // verus!
