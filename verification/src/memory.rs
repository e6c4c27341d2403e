//! A memory of same size blocks, each holding one `Content`, handed out from a free list.

use vstd::prelude::*;
use vstd::layout::{size_of, align_of};
use crate::allocators::arena_allocator::{none_free, pushed_run, Arena};
use crate::allocators::free_list::{find_run, without_run};

verus! {

/// Blocks of memory that hold one `Content` each, allocated one at a time or in runs of
/// consecutive blocks.
pub struct Memory<Content> {
    arena: Arena<Content>,
}

impl<Content> Memory<Content> {
    /// The underlying arena.
    pub closed spec fn arena(&self) -> Arena<Content> {
        self.arena
    }

    /// The arena's bookkeeping is consistent.
    pub open spec fn wf(&self) -> bool {
        self.arena().is_wf()
    }

    /// Create a memory over the given blocks, which start at address `start`, with all blocks
    /// free in address order.
    pub fn from_contigious_blocks(slots: Vec<Content>, start: usize) -> (r: Self)
        requires
            start + slots@.len() * size_of::<Content>() <= usize::MAX,
            start as int % align_of::<Content>() as int == 0,
        ensures
            r.wf(),
            r.arena().slots() == slots@,
            r.arena().start() == start,
            r.arena().free() == Seq::new(slots@.len(), |k: int| k as usize),
    {
        Memory { arena: Arena::from_contigious_blocks(slots, start) }
    }

    /// Create a memory over the given blocks with all blocks free in address order.
    pub fn from_slice(slots: Vec<Content>) -> (r: Self)
        ensures
            r.wf(),
            r.arena().slots() == slots@,
            r.arena().free() == Seq::new(slots@.len(), |k: int| k as usize),
    {
        Memory { arena: Arena::new(slots) }
    }

    /// Create a memory over the given blocks with all blocks free in address order.
    pub fn new(slots: Vec<Content>) -> (r: Self)
        ensures
            r.wf(),
            r.arena().slots() == slots@,
            r.arena().free() == Seq::new(slots@.len(), |k: int| k as usize),
    {
        Self::from_slice(slots)
    }

    /// Mark all blocks free again.
    pub fn init_freelist(&mut self)
        requires
            old(self).wf(),
        ensures
            final(self).wf(),
            final(self).arena().slots() == old(self).arena().slots(),
            final(self).arena().free() == Seq::new(old(self).arena().slots().len(), |k: int| k as usize),
    {
        self.arena.init_freelist()
    }

    /// Allocate one block and return its address.
    pub fn alloc_one_raw(&mut self) -> (r: Option<usize>)
        requires
            old(self).wf(),
        ensures
            final(self).wf(),
            final(self).arena().slots() == old(self).arena().slots(),
            old(self).arena().free().len() == 0 ==> r is None && final(self).arena().free() == old(self).arena().free(),
            old(self).arena().free().len() > 0 ==> r == Some(
                old(self).arena().block_addr(old(self).arena().free()[0] as int) as usize,
            ) && final(self).arena().free() == old(self).arena().free().drop_first(),
    {
        self.arena.alloc_one_impl()
    }

    /// Allocate one block and return its address.
    pub fn alloc_one(&mut self) -> (r: Option<usize>)
        requires
            old(self).wf(),
        ensures
            final(self).wf(),
            final(self).arena().slots() == old(self).arena().slots(),
            old(self).arena().free().len() == 0 ==> r is None && final(self).arena().free() == old(self).arena().free(),
            old(self).arena().free().len() > 0 ==> r == Some(
                old(self).arena().block_addr(old(self).arena().free()[0] as int) as usize,
            ) && final(self).arena().free() == old(self).arena().free().drop_first(),
    {
        self.alloc_one_raw()
    }

    /// Allocate `items` blocks that follow each other and return the address of the first; see
    /// [`find_run`]. Only the blocks of the run leave the free list: free blocks that the
    /// search passed over stay free.
    pub fn alloc_many_raw(&mut self, items: usize) -> (r: Option<usize>)
        requires
            old(self).wf(),
        ensures
            final(self).wf(),
            final(self).arena().slots() == old(self).arena().slots(),
            match find_run(old(self).arena().free(), items as int) {
                None => r is None && final(self).arena().free() == old(self).arena().free(),
                Some((s, e)) => r == Some(old(self).arena().block_addr(old(self).arena().free()[s] as int) as usize)
                    && final(self).arena().free() == without_run(old(self).arena().free(), s, e),
            },
    {
        self.arena.alloc_many_impl(items)
    }

    /// Allocate `items` blocks that follow each other and return the address of the first; see
    /// [`find_run`].
    pub fn alloc_many(&mut self, items: usize) -> (r: Option<usize>)
        requires
            old(self).wf(),
        ensures
            final(self).wf(),
            final(self).arena().slots() == old(self).arena().slots(),
            match find_run(old(self).arena().free(), items as int) {
                None => r is None && final(self).arena().free() == old(self).arena().free(),
                Some((s, e)) => r == Some(old(self).arena().block_addr(old(self).arena().free()[s] as int) as usize)
                    && final(self).arena().free() == without_run(old(self).arena().free(), s, e),
            },
    {
        self.alloc_many_raw(items)
    }

    /// Put the block at `addr`, which is allocated, back on the free list.
    pub fn free_one(&mut self, addr: usize)
        requires
            old(self).wf(),
            size_of::<Content>() > 0,
            old(self).arena().start() <= addr,
            (addr - old(self).arena().start()) % (size_of::<Content>() as int) == 0,
            old(self).arena().block_index(addr as int) < old(self).arena().slots().len(),
            !old(self).arena().free().contains(old(self).arena().block_index(addr as int) as usize),
        ensures
            final(self).wf(),
            final(self).arena().slots() == old(self).arena().slots(),
            final(self).arena().free() == seq![old(self).arena().block_index(addr as int) as usize] + old(self).arena().free(),
    {
        self.arena.free_one_impl(addr)
    }

    /// Put the `items` blocks from `addr` on, which are allocated, back on the free list.
    pub fn free_many(&mut self, addr: usize, items: usize)
        requires
            old(self).wf(),
            size_of::<Content>() > 0,
            old(self).arena().start() <= addr,
            (addr - old(self).arena().start()) % (size_of::<Content>() as int) == 0,
            old(self).arena().block_index(addr as int) + items <= old(self).arena().slots().len(),
            none_free(old(self).arena().free(), old(self).arena().block_index(addr as int), items as int),
        ensures
            final(self).wf(),
            final(self).arena().slots() == old(self).arena().slots(),
            final(self).arena().free() == pushed_run(
                old(self).arena().free(),
                old(self).arena().block_index(addr as int),
                items as int,
            ),
    {
        self.arena.free_many_impl(addr, items)
    }
    /// The content of the block at address `addr`.
    pub fn get(&self, addr: usize) -> (r: &Content)
        requires
            self.wf(),
            size_of::<Content>() > 0,
            self.arena().start() <= addr,
            (addr - self.arena().start()) % (size_of::<Content>() as int) == 0,
            self.arena().block_index(addr as int) < self.arena().slots().len(),
        ensures
            *r == self.arena().slots()[self.arena().block_index(addr as int)],
    {
        self.arena.get(addr)
    }

    /// Store `value` in the block at address `addr`.
    pub fn set(&mut self, addr: usize, value: Content)
        requires
            old(self).wf(),
            size_of::<Content>() > 0,
            old(self).arena().start() <= addr,
            (addr - old(self).arena().start()) % (size_of::<Content>() as int) == 0,
            old(self).arena().block_index(addr as int) < old(self).arena().slots().len(),
        ensures
            final(self).wf(),
            final(self).arena().slots() == old(self).arena().slots().update(
                old(self).arena().block_index(addr as int),
                value,
            ),
            final(self).arena().start() == old(self).arena().start(),
            final(self).arena().free() == old(self).arena().free(),
    {
        self.arena.set(addr, value)
    }
}

} // verus!
