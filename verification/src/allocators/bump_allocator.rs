//! Bump allocators.
//!
//! A bump allocator hands out memory from a backing buffer by moving a marker forward over the
//! bytes that are already allocated:
//!
//! ```text
//!   ┌────────────────── backing memory ────────────────────┐
//!   │                                                      │
//! [0xA, 0xA, 0xA, 0xA, 0x0, 0x0, 0x0, 0x0, 0x0, 0x0, 0x0, 0x0]
//!                  ^
//!       marker ────┘
//! ```
//!
//! Deallocations do not make the freed memory available again, because the allocator does not
//! track holes. Only when **all** allocations have been returned is the marker reset to `0`,
//! which makes the whole memory available again.

use vstd::prelude::*;
use crate::allocators::layout::{padding, lemma_padding};
use crate::allocators::traits::{init_byte, AllocError, AllocInit};

pub mod bump_alloc_trait;
pub mod bump_box;
pub mod forward_alloc;

pub use bump_alloc_trait::BumpAllocator;
pub use bump_box::BumpBox;
pub use forward_alloc::ForwardBumpingAllocator;

verus! {

/// The backing memory of a bump allocator, where it lies in the address space, how many of its
/// bytes are allocated and how many allocations are live.
pub struct AllocatorState {
    backing_mem: Vec<u8>,
    base: usize,
    bytes_allocated: usize,
    num_allocations: usize,
}

impl AllocatorState {
    /// The bytes of the backing memory.
    pub closed spec fn mem(&self) -> Seq<u8> {
        self.backing_mem@
    }

    /// The address of the first byte of the backing memory.
    pub closed spec fn base(&self) -> int {
        self.base as int
    }

    /// How many bytes from the start of the backing memory are allocated (the marker).
    pub closed spec fn bytes_allocated(&self) -> int {
        self.bytes_allocated as int
    }

    /// How many allocations have not been given back.
    pub closed spec fn num_allocations(&self) -> int {
        self.num_allocations as int
    }

    /// The marker lies in the backing memory, every live allocation takes at least one byte,
    /// and addresses fit in a `usize`.
    pub open spec fn wf(&self) -> bool {
        &&& 0 <= self.num_allocations() <= self.bytes_allocated() <= self.mem().len()
        &&& self.base() + self.mem().len() <= usize::MAX
    }

    /// A state with nothing allocated, whose memory lies at `base`.
    pub fn new(backing_mem: Vec<u8>, base: usize) -> (r: Self)
        requires
            base + backing_mem@.len() <= usize::MAX,
        ensures
            r.wf(),
            r.mem() == backing_mem@,
            r.base() == base,
            r.bytes_allocated() == 0,
            r.num_allocations() == 0,
    {
        AllocatorState { backing_mem, base, bytes_allocated: 0, num_allocations: 0 }
    }

    /// The bytes of the backing memory.
    pub fn backing_mem(&self) -> (r: &[u8])
        ensures
            r@ == self.mem(),
    {
        self.backing_mem.as_slice()
    }

    /// The address of the first byte of the backing memory.
    pub fn base_address(&self) -> (r: usize)
        ensures
            r == self.base(),
    {
        self.base
    }

    /// How many bytes remain free after the marker.
    pub fn capacity(&self) -> (r: usize)
        requires
            self.wf(),
        ensures
            r == self.mem().len() - self.bytes_allocated(),
    {
        self.backing_mem.len() - self.bytes_allocated
    }

    /// Take the free bytes after the marker out of the backing memory, so that nothing is
    /// allocated from them any more. Return the address at which they lie, right after the
    /// marker, and the bytes.
    pub fn steal_remaining_mem(&mut self) -> (r: (usize, Vec<u8>))
        requires
            old(self).wf(),
        ensures
            final(self).wf(),
            r.0 == old(self).base() + old(self).bytes_allocated(),
            r.1@ == old(self).mem().subrange(old(self).bytes_allocated(), old(self).mem().len() as int),
            final(self).mem() == old(self).mem().subrange(0, old(self).bytes_allocated()),
            final(self).base() == old(self).base(),
            final(self).bytes_allocated() == old(self).bytes_allocated(),
            final(self).num_allocations() == old(self).num_allocations(),
    {
        let addr = self.base + self.bytes_allocated;
        (addr, self.backing_mem.split_off(self.bytes_allocated))
    }

    /// Allocate `size` bytes aligned to `align` right after the marker, filled as `init` says,
    /// and return the address of the first byte.
    pub fn allocate(&mut self, size: usize, align: usize, init: AllocInit) -> (r: Result<
        usize,
        AllocError,
    >)
        requires
            old(self).wf(),
            size >= 1,
            align >= 1,
        ensures
            final(self).wf(),
            final(self).base() == old(self).base(),
            final(self).mem().len() == old(self).mem().len(),
            ({
                let start = old(self).base() + old(self).bytes_allocated();
                let pad = padding(start, align as int);
                &&& r is Err <==> old(self).mem().len() - old(self).bytes_allocated() < pad + size
                &&& r matches Err(e) ==> e == AllocError::InsufficientMemory && *final(self)
                    == *old(self)
                &&& r matches Ok(addr) ==> {
                    &&& addr == start + pad
                    &&& addr as int % (align as int) == 0
                    &&& final(self).bytes_allocated() == old(self).bytes_allocated() + pad + size
                    &&& final(self).num_allocations() == old(self).num_allocations() + 1
                    &&& forall|k: int|
                        0 <= k < old(self).mem().len() && !(addr - old(self).base() <= k < addr
                            - old(self).base() + size) ==> final(self).mem()[k] == old(self).mem()[k]
                    &&& forall|k: int|
                        addr - old(self).base() <= k < addr - old(self).base() + size && init_byte(init) is Some ==> final(self).mem()[k] == init_byte(init)->0
                }
            }),
    {
        let start = self.base + self.bytes_allocated;
        let pad = (align - start % align) % align;
        proof {
            lemma_padding(start as int, align as int);
        }
        let remaining = self.backing_mem.len() - self.bytes_allocated;
        if remaining < size || remaining - size < pad {
            return Err(AllocError::InsufficientMemory);
        }
        let off = self.bytes_allocated + pad;
        self.num_allocations = self.num_allocations + 1;
        self.bytes_allocated = off + size;
        match init {
            AllocInit::Uninitialized => {},
            AllocInit::Zeroed => {
                self.fill(off, size, 0);
            },
            AllocInit::Data(b) => {
                self.fill(off, size, b);
            },
        }
        Ok(start + pad)
    }

    /// Fill `n` bytes of the backing memory from position `off` on with `byte`.
    fn fill(&mut self, off: usize, n: usize, byte: u8)
        requires
            off + n <= old(self).mem().len(),
        ensures
            final(self).base() == old(self).base(),
            final(self).bytes_allocated() == old(self).bytes_allocated(),
            final(self).num_allocations() == old(self).num_allocations(),
            final(self).mem().len() == old(self).mem().len(),
            forall|k: int| off <= k < off + n ==> final(self).mem()[k] == byte,
            forall|k: int|
                0 <= k < old(self).mem().len() && !(off <= k < off + n) ==> final(self).mem()[k]
                    == old(self).mem()[k],
    {
        let _len = self.backing_mem.len();
        let end = off + n;
        let mut x: usize = off;
        while x < end
            invariant
                end == off + n,
                off <= x <= end,
                end <= old(self).mem().len(),
                self.backing_mem@.len() == old(self).mem().len(),
                self.base == old(self).base,
                self.bytes_allocated == old(self).bytes_allocated,
                self.num_allocations == old(self).num_allocations,
                forall|k: int| off <= k < x ==> self.backing_mem@[k] == byte,
                forall|k: int|
                    0 <= k < old(self).mem().len() && !(off <= k < x) ==> self.backing_mem@[k]
                        == old(self).mem()[k],
            decreases end - x,
        {
            self.backing_mem.set(x, byte);
            x = x + 1;
        }
    }

    /// Give back one allocation. When none is left, the marker is reset so that the whole
    /// backing memory is free again.
    pub fn deallocate(&mut self, addr: usize)
        requires
            old(self).wf(),
            old(self).base() <= addr < old(self).base() + old(self).mem().len(),
            old(self).num_allocations() > 0,
        ensures
            final(self).wf(),
            final(self).mem() == old(self).mem(),
            final(self).base() == old(self).base(),
            final(self).num_allocations() == old(self).num_allocations() - 1,
            final(self).bytes_allocated() == if final(self).num_allocations() == 0 {
                0
            } else {
                old(self).bytes_allocated()
            },
    {
        self.num_allocations = self.num_allocations - 1;
        if self.num_allocations == 0 {
            self.bytes_allocated = 0;
        }
    }
}

} // verus!
