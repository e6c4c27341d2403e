//! An arena allocator: it hands out same size blocks, each holding one `Content`, from a
//! continuous slice of them.

use vstd::prelude::*;
use vstd::arithmetic::power2::is_pow2;
use vstd::arithmetic::mul::{lemma_mul_inequality, lemma_mul_strict_inequality};
use vstd::arithmetic::div_mod::{lemma_div_multiples_vanish, lemma_fundamental_div_mod};
use vstd::layout::{size_of, align_of, valid_layout, layout_for_type_is_valid};
use crate::address::elements_address;
use crate::allocators::free_list::{find_run, lemma_scan, without_run, FreeList};
use crate::allocators::layout::Layout;
use crate::allocators::traits::MutGlobalAlloc;

verus! {

/// Whether address `addr` is a multiple of `align`, which must be a power of two.
pub fn is_aligned_to(addr: usize, align: usize) -> (r: bool)
    requires
        is_pow2(align as int),
    ensures
        r == (addr as int % align as int == 0),
{
    proof {
        reveal(is_pow2);
    }
    addr % align == 0
}

/// Block `j` of the run that starts at block `first`.
pub open spec fn nth_block(first: int, j: int) -> usize {
    (first + j) as usize
}

/// None of the `count` blocks from block `first` on is free.
pub open spec fn none_free(free: Seq<usize>, first: int, count: int) -> bool {
    forall|j: int| 0 <= j < count ==> !free.contains(#[trigger] nth_block(first, j))
}

/// The free list after the blocks `first .. first + count` were put back one after the other:
/// the last of them is then at the front.
pub open spec fn pushed_run(free: Seq<usize>, first: int, count: int) -> Seq<usize> {
    Seq::new(count as nat, |k: int| (first + count - 1 - k) as usize) + free
}

/// A block that is put back on the free list is the next block that a one-block allocation
/// hands out, and the list after that allocation is the list before the block was put back.
pub proof fn lemma_freed_block_is_reused(free: Seq<usize>, block: usize)
    ensures
        (seq![block] + free)[0] == block,
        (seq![block] + free).drop_first() == free,
{
    assert((seq![block] + free).drop_first() =~= free);
}

/// An arena allocator.
///
/// It reserves (and thus allocates) same size blocks from a continuous slice of memory; each
/// block holds one `Content`. Free blocks form a list; an allocation of several blocks takes
/// blocks that follow each other both in that list and in memory.
pub struct Arena<Content> {
    slots: Vec<Content>,
    start: usize,
    list: FreeList,
}

impl<Content> Arena<Content> {
    /// The blocks of the arena.
    pub closed spec fn slots(&self) -> Seq<Content> {
        self.slots@
    }

    /// The address of the first block.
    pub closed spec fn start(&self) -> int {
        self.start as int
    }

    /// The free blocks by index, in the order in which they are handed out.
    pub closed spec fn free(&self) -> Seq<usize> {
        self.list.free()
    }

    /// The address of block `i`.
    pub open spec fn block_addr(&self, i: int) -> int {
        self.start() + i * size_of::<Content>()
    }

    /// The index of the block at address `addr`.
    pub open spec fn block_index(&self, addr: int) -> int {
        (addr - self.start()) / size_of::<Content>() as int
    }

    /// The free list covers exactly the blocks, and their addresses fit in a `usize` and are
    /// aligned for `Content`.
    pub closed spec fn is_wf(&self) -> bool {
        &&& self.list.wf()
        &&& self.list.items() == self.slots@.len()
        &&& self.start + self.slots@.len() * size_of::<Content>() <= usize::MAX
        &&& self.start as int % align_of::<Content>() as int == 0
    }

    /// No block is listed as free twice and every free block is one of the arena's blocks.
    pub proof fn lemma_wf(&self)
        requires
            self.is_wf(),
        ensures
            self.free().no_duplicates(),
            forall|k: int| 0 <= k < self.free().len() ==> (#[trigger] self.free()[k]) < self.slots().len(),
    {
        self.list.lemma_wf();
    }

    /// Create an arena over the given blocks, which start at address `start`, with all blocks
    /// free in address order.
    pub fn from_contigious_blocks(slots: Vec<Content>, start: usize) -> (r: Self)
        requires
            start + slots@.len() * size_of::<Content>() <= usize::MAX,
            start as int % align_of::<Content>() as int == 0,
        ensures
            r.is_wf(),
            r.slots() == slots@,
            r.start() == start,
            r.free() == Seq::new(slots@.len(), |k: int| k as usize),
    {
        layout_for_type_is_valid::<Content>();
        let items = slots.len();
        Arena { slots, start, list: FreeList::new(items) }
    }

    /// Create an arena over the given blocks, with all blocks free in address order.
    pub fn new(slots: Vec<Content>) -> (r: Self)
        ensures
            r.is_wf(),
            r.slots() == slots@,
            r.free() == Seq::new(slots@.len(), |k: int| k as usize),
    {
        let start = elements_address(slots.as_slice());
        Self::from_contigious_blocks(slots, start)
    }

    /// Mark the whole arena as unused again.
    pub fn init_freelist(&mut self)
        requires
            old(self).is_wf(),
        ensures
            final(self).is_wf(),
            final(self).slots() == old(self).slots(),
            final(self).start() == old(self).start(),
            final(self).free() == Seq::new(old(self).slots().len(), |k: int| k as usize),
    {
        let items = self.slots.len();
        self.list = FreeList::new(items);
    }

    /// The address of block `i`.
    fn addr_of(&self, i: usize) -> (r: usize)
        requires
            self.is_wf(),
            i < self.slots().len(),
        ensures
            r == self.block_addr(i as int),
    {
        layout_for_type_is_valid::<Content>();
        let sz = core::mem::size_of::<Content>();
        proof {
            lemma_mul_inequality(i as int, self.slots().len() as int, sz as int);
        }
        self.start + i * sz
    }

    /// The content of the block at address `addr`.
    pub fn get(&self, addr: usize) -> (r: &Content)
        requires
            self.is_wf(),
            size_of::<Content>() > 0,
            self.start() <= addr,
            (addr - self.start()) % (size_of::<Content>() as int) == 0,
            self.block_index(addr as int) < self.slots().len(),
        ensures
            *r == self.slots()[self.block_index(addr as int)],
    {
        layout_for_type_is_valid::<Content>();
        let sz = core::mem::size_of::<Content>();
        &self.slots[(addr - self.start) / sz]
    }

    /// Store `value` in the block at address `addr`.
    pub fn set(&mut self, addr: usize, value: Content)
        requires
            old(self).is_wf(),
            size_of::<Content>() > 0,
            old(self).start() <= addr,
            (addr - old(self).start()) % (size_of::<Content>() as int) == 0,
            old(self).block_index(addr as int) < old(self).slots().len(),
        ensures
            final(self).is_wf(),
            final(self).slots() == old(self).slots().update(
                old(self).block_index(addr as int),
                value,
            ),
            final(self).start() == old(self).start(),
            final(self).free() == old(self).free(),
    {
        layout_for_type_is_valid::<Content>();
        let sz = core::mem::size_of::<Content>();
        let i = (addr - self.start) / sz;
        self.slots.set(i, value);
    }

    /// Allocate one block and return its address, or `None` if no block is free.
    pub(crate) fn alloc_one_impl(&mut self) -> (r: Option<usize>)
        requires
            old(self).is_wf(),
        ensures
            final(self).is_wf(),
            final(self).slots() == old(self).slots(),
            final(self).start() == old(self).start(),
            old(self).free().len() == 0 ==> r is None && final(self).free() == old(self).free(),
            old(self).free().len() > 0 ==> r == Some(
                old(self).block_addr(old(self).free()[0] as int) as usize,
            ) && final(self).free() == old(self).free().drop_first(),
    {
        match self.list.pop() {
            None => None,
            Some(i) => Some(self.addr_of(i)),
        }
    }

    /// Allocate `n` blocks that follow each other in memory and in the free list, and return
    /// the address of the first; every other free block stays on the list.
    pub(crate) fn alloc_many_impl(&mut self, n: usize) -> (r: Option<usize>)
        requires
            old(self).is_wf(),
        ensures
            final(self).is_wf(),
            final(self).slots() == old(self).slots(),
            final(self).start() == old(self).start(),
            match find_run(old(self).free(), n as int) {
                None => r is None && final(self).free() == old(self).free(),
                Some((s, e)) => r == Some(old(self).block_addr(old(self).free()[s] as int) as usize)
                    && final(self).free() == without_run(old(self).free(), s, e),
            },
    {
        match self.list.pop_run(n) {
            None => None,
            Some(i) => Some(self.addr_of(i)),
        }
    }

    /// Put the block at address `addr` back on the free list.
    pub(crate) fn free_one_impl(&mut self, addr: usize)
        requires
            old(self).is_wf(),
            size_of::<Content>() > 0,
            old(self).start() <= addr,
            (addr - old(self).start()) % (size_of::<Content>() as int) == 0,
            old(self).block_index(addr as int) < old(self).slots().len(),
            !old(self).free().contains(old(self).block_index(addr as int) as usize),
        ensures
            final(self).is_wf(),
            final(self).slots() == old(self).slots(),
            final(self).start() == old(self).start(),
            final(self).free() == seq![old(self).block_index(addr as int) as usize] + old(
                self,
            ).free(),
    {
        layout_for_type_is_valid::<Content>();
        let sz = core::mem::size_of::<Content>();
        let i = (addr - self.start) / sz;
        self.list.push(i);
    }

    /// Put the `count` blocks from address `addr` on back on the free list, one after the other.
    pub(crate) fn free_many_impl(&mut self, addr: usize, count: usize)
        requires
            old(self).is_wf(),
            size_of::<Content>() > 0,
            old(self).start() <= addr,
            (addr - old(self).start()) % (size_of::<Content>() as int) == 0,
            old(self).block_index(addr as int) + count <= old(self).slots().len(),
            none_free(old(self).free(), old(self).block_index(addr as int), count as int),
        ensures
            final(self).is_wf(),
            final(self).slots() == old(self).slots(),
            final(self).start() == old(self).start(),
            final(self).free() == pushed_run(
                old(self).free(),
                old(self).block_index(addr as int),
                count as int,
            ),
    {
        layout_for_type_is_valid::<Content>();
        let sz = core::mem::size_of::<Content>();
        let first = (addr - self.start) / sz;
        let ghost free0 = self.free();
        let n = self.slots.len();
        let mut j: usize = 0;
        while j < count
            invariant
                n == self.slots().len(),
                self.is_wf(),
                self.slots() == old(self).slots(),
                self.start() == old(self).start(),
                first == old(self).block_index(addr as int),
                first + count <= self.slots().len(),
                j <= count,
                free0 == old(self).free(),
                self.free() == pushed_run(free0, first as int, j as int),
                none_free(free0, first as int, count as int),
            decreases count - j,
        {
            proof {
                let f = self.free();
                assert(!free0.contains(nth_block(first as int, j as int)));
                if f.contains((first + j) as usize) {
                    let k = choose|k: int| 0 <= k < f.len() && f[k] == (first + j) as usize;
                    if k >= j {
                        assert(f[k] == free0[k - j]);
                        assert(free0.contains(free0[k - j]));
                    }
                }
            }
            self.list.push(first + j);
            proof {
                assert(self.free() =~= pushed_run(free0, first as int, (j + 1) as int));
            }
            j = j + 1;
        }
    }
}

impl<Content> MutGlobalAlloc for Arena<Content> {
    open spec fn wf(&self) -> bool {
        self.is_wf()
    }

    open spec fn alloc_accepts(&self, layout: Layout) -> bool {
        &&& size_of::<Content>() > 0
        &&& layout.spec_align() <= align_of::<Content>()
        &&& layout.spec_size() as int % size_of::<Content>() as int == 0
    }

    open spec fn dealloc_accepts(&self, addr: usize, layout: Layout) -> bool {
        let count = layout.spec_size() as int / size_of::<Content>() as int;
        let first = self.block_index(addr as int);
        &&& self.alloc_accepts(layout)
        &&& self.start() <= addr
        &&& (addr - self.start()) % (size_of::<Content>() as int) == 0
        &&& first + if count == 1 {
            1
        } else {
            count
        } <= self.slots().len()
        &&& none_free(self.free(), first, count)
        &&& count <= 1 ==> !self.free().contains(first as usize)
    }

    /// Allocate as many blocks as the layout's size covers: one block from the front of the
    /// free list, or a run of blocks found as [`find_run`] describes.
    fn alloc_block(&mut self, layout: Layout) -> (r: Option<usize>)
        ensures
            final(self).slots() == old(self).slots(),
            final(self).start() == old(self).start(),
            ({
                let count = layout.spec_size() as int / size_of::<Content>() as int;
                match find_run(old(self).free(), count) {
                    None => r is None && final(self).free() == old(self).free(),
                    Some((s, e)) => {
                        &&& r == Some(old(self).block_addr(old(self).free()[s] as int) as usize)
                        &&& final(self).free() == without_run(old(self).free(), s, e)
                        &&& forall|k: int| s <= k <= e ==> old(self).free()[k] == old(self).free()[s] + (k - s)
                    }
                }
            }),
    {
        layout_for_type_is_valid::<Content>();
        let sz = core::mem::size_of::<Content>();
        let blocks = layout.size() / sz;
        let ghost free = self.free();
        proof {
            if free.len() > 0 {
                lemma_scan(free, 0, 0, 1, blocks as int);
            }
        }
        if blocks == 1 {
            self.alloc_one_impl()
        } else {
            self.alloc_many_impl(blocks)
        }
    }

    /// Put the blocks that the layout's size covers back on the free list.
    fn dealloc_block(&mut self, addr: usize, layout: Layout)
        ensures
            final(self).slots() == old(self).slots(),
            final(self).start() == old(self).start(),
            ({
                let count = layout.spec_size() as int / size_of::<Content>() as int;
                let first = old(self).block_index(addr as int);
                final(self).free() == if count == 1 {
                    seq![first as usize] + old(self).free()
                } else {
                    pushed_run(old(self).free(), first, count)
                }
            }),
    {
        layout_for_type_is_valid::<Content>();
        let sz = core::mem::size_of::<Content>();
        let blocks = layout.size() / sz;
        if blocks == 1 {
            self.free_one_impl(addr)
        } else {
            self.free_many_impl(addr, blocks)
        }
    }
}

/// An allocator of blocks that each hold one `Content`.
pub trait ArenaAlloc {
    /// What one block holds.
    type Content;

    /// The allocator's bookkeeping is consistent.
    spec fn arena_wf(&self) -> bool;

    /// Allocate one block and return its address.
    fn alloc_one(&mut self) -> (r: Option<usize>)
        requires
            old(self).arena_wf(),
        ensures
            final(self).arena_wf(),
    ;

    /// Allocate `count` blocks that follow each other and return the address of the first.
    fn alloc_many(&mut self, count: usize) -> (r: Option<usize>)
        requires
            old(self).arena_wf(),
            size_of::<Self::Content>() * count <= usize::MAX,
            valid_layout(
                (size_of::<Self::Content>() * count) as usize,
                align_of::<Self::Content>() as usize,
            ),
        ensures
            final(self).arena_wf(),
    ;
}

impl<Content> ArenaAlloc for Arena<Content> {
    type Content = Content;

    open spec fn arena_wf(&self) -> bool {
        self.is_wf() && size_of::<Content>() > 0
    }

    /// Allocate one block from the front of the free list.
    fn alloc_one(&mut self) -> (r: Option<usize>)
        ensures
            final(self).slots() == old(self).slots(),
            old(self).free().len() == 0 ==> r is None && final(self).free() == old(self).free(),
            old(self).free().len() > 0 ==> r == Some(
                old(self).block_addr(old(self).free()[0] as int) as usize,
            ) && final(self).free() == old(self).free().drop_first(),
    {
        layout_for_type_is_valid::<Content>();
        let size = core::mem::size_of::<Content>();
        let align = core::mem::align_of::<Content>();
        let layout = match Layout::from_size_align(size, align) {
            Ok(l) => l,
            Err(_) => {
                return None;
            },
        };
        proof {
            lemma_div_multiples_vanish(1, size as int);
            vstd::arithmetic::div_mod::lemma_mod_self_0(size as int);
            if self.free().len() > 0 {
                assert(find_run(self.free(), 1) == Some((0int, 0int)));
            }
        }
        self.alloc_block(layout)
    }

    /// Allocate `count` blocks as [`find_run`] describes.
    fn alloc_many(&mut self, count: usize) -> (r: Option<usize>)
        ensures
            final(self).slots() == old(self).slots(),
            match find_run(old(self).free(), count as int) {
                None => r is None && final(self).free() == old(self).free(),
                Some((s, e)) => r == Some(old(self).block_addr(old(self).free()[s] as int) as usize)
                    && final(self).free() == without_run(old(self).free(), s, e),
            },
    {
        layout_for_type_is_valid::<Content>();
        let size = core::mem::size_of::<Content>() * count;
        let align = core::mem::align_of::<Content>();
        let layout = match Layout::from_size_align(size, align) {
            Ok(l) => l,
            Err(_) => {
                return None;
            },
        };
        proof {
            let sz = size_of::<Content>() as int;
            lemma_div_multiples_vanish(count as int, sz);
            assert(sz * count == count * sz) by (nonlinear_arith);
            vstd::arithmetic::div_mod::lemma_mod_multiples_basic(count as int, sz);
        }
        self.alloc_block(layout)
    }
}

} // verus!
