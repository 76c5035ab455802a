//! A bump allocator: requests are served by moving a cursor through the
//! heap, and the heap becomes free again as a whole once the last block has
//! been given back.

use vstd::prelude::*;
use crate::allocator::align_up;
use crate::allocator::lemma_align_up_is_least;
use crate::allocator::spec_align_up;

verus! {

/// A block of memory handed out by an allocator.
pub struct Block {
    pub addr: u64,
    pub size: u64,
}

impl Block {
    /// First address past the block.
    pub open spec fn end(self) -> int {
        self.addr + self.size
    }
}

pub struct BumpAllocator {
    heap_start: u64,
    heap_end: u64,
    next: u64,
    allocations: u64,
    live: Ghost<Seq<Block>>,
}

impl BumpAllocator {
    /// First address of the region the allocator serves.
    pub closed spec fn heap_start(&self) -> u64 {
        self.heap_start
    }

    /// First address past the region.
    pub closed spec fn heap_end(&self) -> u64 {
        self.heap_end
    }

    /// The cursor: every address from here to the end of the region is free.
    pub closed spec fn next(&self) -> u64 {
        self.next
    }

    /// The blocks handed out and not yet given back, oldest first.
    pub closed spec fn live(&self) -> Seq<Block> {
        self.live@
    }

    /// The cursor lies in the region, and the live blocks lie between the
    /// start of the region and the cursor, one after the other.
    pub open spec fn wf(&self) -> bool {
        &&& self.heap_start() <= self.next() <= self.heap_end()
        &&& self.counted()
        &&& Self::ascending(self.live(), self.heap_start() as int, self.next() as int)
    }

    /// The allocation counter equals the number of live blocks.
    pub closed spec fn counted(&self) -> bool {
        self.allocations == self.live@.len()
    }

    /// The blocks lie within `lo..hi`, each ending before the next begins.
    pub open spec fn ascending(blocks: Seq<Block>, lo: int, hi: int) -> bool {
        &&& forall|i: int| 0 <= i < blocks.len() ==> lo <= (#[trigger] blocks[i]).addr && blocks[i].end() <= hi
        &&& forall|i: int, j: int|
            0 <= i < j < blocks.len() ==> (#[trigger] blocks[i]).end() <= (#[trigger] blocks[j]).addr
    }

    /// Where a request of `size` bytes aligned to `align` would be placed.
    pub open spec fn placement(&self, align: u64) -> int {
        spec_align_up(self.next() as int, align as int)
    }

    /// The request can be served: it fits before the end of the region and
    /// the allocation counter has room.
    pub open spec fn fits(&self, size: u64, align: u64) -> bool {
        self.placement(align) + size <= self.heap_end() && self.live().len() < u64::MAX
    }

    /// An allocator over the empty region at address zero.
    pub fn new() -> (r: BumpAllocator)
        ensures
            r.wf(),
            r.heap_start() == 0,
            r.heap_end() == 0,
            r.next() == 0,
            r.live() == Seq::<Block>::empty(),
    {
        BumpAllocator { heap_start: 0, heap_end: 0, next: 0, allocations: 0, live: Ghost(Seq::empty()) }
    }

    /// Whether a block is live, so that one can be given back.
    pub fn has_live_blocks(&self) -> (r: bool)
        requires
            self.wf(),
        ensures
            r == (self.live().len() > 0),
    {
        self.allocations > 0
    }

    /// Gives the allocator the region of `heap_size` bytes at `heap_start`.
    /// The caller vouches that nothing else uses the region.
    pub fn init(&mut self, heap_start: u64, heap_size: u64)
        requires
            old(self).wf(),
            old(self).live().len() == 0,
            heap_start + heap_size <= u64::MAX,
        ensures
            final(self).wf(),
            final(self).heap_start() == heap_start,
            final(self).heap_end() == heap_start + heap_size,
            final(self).next() == heap_start,
            final(self).live() == Seq::<Block>::empty(),
    {
        self.heap_start = heap_start;
        self.heap_end = heap_start + heap_size;
        self.next = heap_start;
        proof {
            assert(self.live@ =~= Seq::<Block>::empty());
        }
    }

    /// Serves a request of `size` bytes aligned to `align`: the block starts
    /// at the cursor rounded up to `align`, and the cursor moves to its end.
    /// The block is aligned, lies in the region, and begins where every live
    /// block has ended.
    pub fn allocate(&mut self, size: u64, align: u64) -> (r: Option<u64>)
        requires
            old(self).wf(),
            align > 0,
        ensures
            final(self).wf(),
            final(self).heap_start() == old(self).heap_start(),
            final(self).heap_end() == old(self).heap_end(),
            r.is_some() == old(self).fits(size, align),
            r matches Some(addr) ==> {
                &&& addr == old(self).placement(align)
                &&& addr % align == 0
                &&& old(self).heap_start() <= addr
                &&& addr + size <= old(self).heap_end()
                &&& forall|i: int| 0 <= i < old(self).live().len() ==> (#[trigger] old(self).live()[i]).end() <= addr
                &&& final(self).next() == addr + size
                &&& final(self).live() == old(self).live().push(Block { addr, size })
            },
            r.is_none() ==> final(self).next() == old(self).next() && final(self).live() == old(
                self,
            ).live(),
    {
        proof {
            lemma_align_up_is_least(self.next as int, align as int);
        }
        let remainder: u64 = self.next % align;
        if remainder != 0 && align - remainder > u64::MAX - self.next {
            return None;
        }
        let alloc_start: u64 = align_up(self.next, align);
        if size > u64::MAX - alloc_start {
            return None;
        }
        let alloc_end: u64 = alloc_start + size;
        if alloc_end > self.heap_end || self.allocations == u64::MAX {
            return None;
        }
        self.next = alloc_end;
        self.allocations = self.allocations + 1;
        proof {
            self.live@ = self.live@.push(Block { addr: alloc_start, size });
        }
        Some(alloc_start)
    }

    /// Takes back the block of `size` bytes at `ptr`, which must be live.
    /// When the last live block has come back, the whole region is free
    /// again and the cursor returns to its start.
    pub fn deallocate(&mut self, ptr: u64, size: u64, align: u64)
        requires
            old(self).wf(),
            old(self).live().contains(Block { addr: ptr, size }),
        ensures
            final(self).wf(),
            final(self).heap_start() == old(self).heap_start(),
            final(self).heap_end() == old(self).heap_end(),
            final(self).live() == old(self).live().remove_value(Block { addr: ptr, size }),
            final(self).live().len() == old(self).live().len() - 1,
            final(self).next() == if old(self).live().len() == 1 {
                old(self).heap_start()
            } else {
                old(self).next()
            },
    {
        let ghost block = Block { addr: ptr, size };
        let ghost before = self.live@;
        let ghost at = before.index_of_first(block);
        proof {
            before.index_of_first_ensures(block);
            assert(at matches Some(k) && 0 <= k < before.len() && before[k] == block);
            let k = at.unwrap();
            self.live@ = before.remove_value(block);
            assert(self.live@ == before.remove(k));
            assert forall|i: int| 0 <= i < self.live@.len() implies self.live@[i] == before[if i < k {
                i
            } else {
                i + 1
            }] by {}
        }
        self.allocations = self.allocations - 1;
        if self.allocations == 0 {
            self.next = self.heap_start;
        }
    }
}

} // verus!
