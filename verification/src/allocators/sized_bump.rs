//! A bump allocator that is asked for sizes and alignments directly.

use vstd::prelude::*;
use vstd::arithmetic::power2::is_pow2;
use crate::address::slice_address;
use crate::allocators::bump_allocator::AllocatorState;
use crate::allocators::layout::padding;
use crate::allocators::traits::{init_byte, AllocError, AllocInit};

verus! {

/// A simple allocator which bumps a marker in the backing memory to denote what has already
/// been allocated.
///
/// Allocations of any size and alignment are supported, but a deallocation does not make the
/// memory available again. Only when *all* allocations have been deallocated is the backing
/// memory available again.
pub struct BumpAllocator {
    state: AllocatorState,
}

impl BumpAllocator {
    /// The allocator's state.
    pub closed spec fn view_state(&self) -> AllocatorState {
        self.state
    }

    /// Create an allocator over the given backing memory, which lies at address `base`.
    pub fn new_at_address(backing_mem: Vec<u8>, base: usize) -> (r: Self)
        requires
            base + backing_mem@.len() <= usize::MAX,
        ensures
            r.view_state().wf(),
            r.view_state().mem() == backing_mem@,
            r.view_state().base() == base,
            r.view_state().bytes_allocated() == 0,
            r.view_state().num_allocations() == 0,
    {
        BumpAllocator { state: AllocatorState::new(backing_mem, base) }
    }

    /// Create an allocator over the given backing memory.
    pub fn new(backing_mem: Vec<u8>) -> (r: Self)
        ensures
            r.view_state().wf(),
            r.view_state().mem() == backing_mem@,
            r.view_state().bytes_allocated() == 0,
            r.view_state().num_allocations() == 0,
    {
        let base = slice_address(backing_mem.as_slice());
        BumpAllocator::new_at_address(backing_mem, base)
    }

    /// How much free space (in bytes) remains in the backing memory.
    pub fn capacity(&self) -> (r: usize)
        requires
            self.view_state().wf(),
        ensures
            r == self.view_state().mem().len() - self.view_state().bytes_allocated(),
    {
        self.state.capacity()
    }

    /// Take the remaining free memory out of the allocator, so that nothing is allocated from
    /// it any more. Return the address at which the taken memory lies and its bytes.
    pub fn steal_remaining_mem(&mut self) -> (r: (usize, Vec<u8>))
        requires
            old(self).view_state().wf(),
        ensures
            final(self).view_state().wf(),
            r.0 == old(self).view_state().base() + old(self).view_state().bytes_allocated(),
            r.1@ == old(self).view_state().mem().subrange(
                old(self).view_state().bytes_allocated(),
                old(self).view_state().mem().len() as int,
            ),
            final(self).view_state().mem() == old(self).view_state().mem().subrange(
                0,
                old(self).view_state().bytes_allocated(),
            ),
            final(self).view_state().base() == old(self).view_state().base(),
            final(self).view_state().bytes_allocated() == old(self).view_state().bytes_allocated(),
            final(self).view_state().num_allocations() == old(self).view_state().num_allocations(),
    {
        self.state.steal_remaining_mem()
    }

    /// Allocate `size` bytes aligned to `alignment`, filled as `init` says, and return the
    /// address of the first byte.
    pub fn allocate(&mut self, size: usize, alignment: usize, init: AllocInit) -> (r: Result<
        usize,
        AllocError,
    >)
        requires
            old(self).view_state().wf(),
            is_pow2(alignment as int),
            size > 0,
        ensures
            final(self).view_state().wf(),
            final(self).view_state().base() == old(self).view_state().base(),
            final(self).view_state().mem().len() == old(self).view_state().mem().len(),
            ({
                let s = old(self).view_state();
                let start = s.base() + s.bytes_allocated();
                let pad = padding(start, alignment as int);
                &&& r is Err <==> s.mem().len() - s.bytes_allocated() < pad + size
                &&& r matches Err(e) ==> e == AllocError::InsufficientMemory
                    && final(self).view_state() == s
                &&& r matches Ok(addr) ==> {
                    &&& addr == start + pad
                    &&& addr as int % (alignment as int) == 0
                    &&& final(self).view_state().bytes_allocated() == s.bytes_allocated() + pad
                        + size
                    &&& final(self).view_state().num_allocations() == s.num_allocations() + 1
                    &&& forall|k: int|
                        0 <= k < s.mem().len() && !(addr - s.base() <= k < addr - s.base()
                            + size) ==> final(self).view_state().mem()[k] == s.mem()[k]
                    &&& forall|k: int|
                        addr - s.base() <= k < addr - s.base() + size && init_byte(init) is Some
                            ==> final(self).view_state().mem()[k] == init_byte(init)->0
                }
            }),
    {
        proof {
            reveal(is_pow2);
        }
        self.state.allocate(size, alignment, init)
    }

    /// Give back the allocation at `data_addr`, which lies in the backing memory. Once no
    /// allocation is left, the whole backing memory is available again.
    pub fn deallocate(&mut self, data_addr: usize)
        requires
            old(self).view_state().wf(),
            old(self).view_state().base() <= data_addr < old(self).view_state().base()
                + old(self).view_state().mem().len(),
            old(self).view_state().num_allocations() > 0,
        ensures
            final(self).view_state().wf(),
            final(self).view_state().mem() == old(self).view_state().mem(),
            final(self).view_state().base() == old(self).view_state().base(),
            final(self).view_state().num_allocations() == old(self).view_state().num_allocations()
                - 1,
            final(self).view_state().bytes_allocated() == if final(self).view_state().num_allocations() == 0 {
                0
            } else {
                old(self).view_state().bytes_allocated()
            },
    {
        self.state.deallocate(data_addr)
    }
}

} // verus!
