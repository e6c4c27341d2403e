//! A bump allocator that starts at the beginning of the backing memory and bumps its marker
//! forwards.

use vstd::prelude::*;
use vstd::multiset::Multiset;
use crate::address::slice_address;
use crate::allocators::bump_allocator::bump_alloc_trait::BumpAllocator;
use crate::allocators::bump_allocator::AllocatorState;
use crate::allocators::layout::{lemma_padding, padding, Layout};
use crate::allocators::traits::{init_byte, AllocError, AllocInit, Allocator};

verus! {

/// A [`BumpAllocator`] which starts allocations from the beginning of the backing memory and
/// bumps an allocation marker forwards to track the already allocated memory.
pub struct ForwardBumpingAllocator {
    state: AllocatorState,
    live: Ghost<Multiset<(usize, usize)>>,
}

impl ForwardBumpingAllocator {
    /// The allocator's state.
    pub closed spec fn view_state(&self) -> AllocatorState {
        self.state
    }

    /// The blocks handed out and not given back yet: the address of each and its length.
    pub closed spec fn live(&self) -> Multiset<(usize, usize)> {
        self.live@
    }

    /// Create an allocator over the given backing memory, which lies at address `base`.
    pub fn new_at_address(backing_mem: Vec<u8>, base: usize) -> (r: Self)
        requires
            base + backing_mem@.len() <= usize::MAX,
        ensures
            r.view_state().wf(),
            r.view_state().mem() == backing_mem@,
            r.view_state().base() == base,
            r.view_state().bytes_allocated() == 0,
            r.view_state().num_allocations() == 0,
            r.live() == Multiset::<(usize, usize)>::empty(),
    {
        proof {
            broadcast use vstd::multiset::group_multiset_axioms;
        }
        ForwardBumpingAllocator {
            state: AllocatorState::new(backing_mem, base),
            live: Ghost(Multiset::empty()),
        }
    }

    /// The bytes of the backing memory.
    pub fn backing_mem(&self) -> (r: &[u8])
        ensures
            r@ == self.view_state().mem(),
    {
        self.state.backing_mem()
    }

    /// The byte at address `addr`.
    pub fn read(&self, addr: usize) -> (r: u8)
        requires
            self.view_state().base() <= addr < self.view_state().base()
                + self.view_state().mem().len(),
        ensures
            r == self.view_state().mem()[addr - self.view_state().base()],
    {
        let base = self.state.base_address();
        self.state.backing_mem()[addr - base]
    }
}

impl Allocator for ForwardBumpingAllocator {
    /// The state is consistent, there is one live block per allocation counted, and every
    /// live block lies before the marker.
    open spec fn wf(&self) -> bool {
        let s = self.view_state();
        &&& s.wf()
        &&& self.live().len() == s.num_allocations()
        &&& forall|p: (usize, usize)|
            #[trigger] self.live().count(p) > 0 ==> p.1 >= 1 && s.base() <= p.0 && p.0 + p.1
                <= s.base() + s.bytes_allocated()
    }

    open spec fn accepts(&self, layout: Layout) -> bool {
        true
    }

    open spec fn fits(&self, layout: Layout) -> bool {
        let s = self.view_state();
        s.mem().len() - s.bytes_allocated() >= padding(
            s.base() + s.bytes_allocated(),
            layout.spec_align() as int,
        ) + layout.spec_size()
    }

    open spec fn holds(&self, addr: usize, layout: Layout) -> bool {
        self.live().count((addr, layout.spec_size())) > 0
    }

    open spec fn released(&self, addr: usize, layout: Layout, after: Self) -> bool {
        let s = self.view_state();
        let t = after.view_state();
        &&& after.live() == self.live().remove((addr, layout.spec_size()))
        &&& t.mem() == s.mem()
        &&& t.base() == s.base()
        &&& t.num_allocations() == s.num_allocations() - 1
        &&& t.bytes_allocated() == if t.num_allocations() == 0 {
            0
        } else {
            s.bytes_allocated()
        }
    }

    /// Allocate right after the marker, with the padding that the alignment needs.
    fn allocate(&mut self, layout: Layout, init: AllocInit) -> (r: Result<(usize, usize), AllocError>)
        ensures
            final(self).view_state().base() == old(self).view_state().base(),
            final(self).view_state().mem().len() == old(self).view_state().mem().len(),
            ({
                let s = old(self).view_state();
                let start = s.base() + s.bytes_allocated();
                let pad = padding(start, layout.spec_align() as int);
                let size = layout.spec_size() as int;
                &&& r is Err <==> s.mem().len() - s.bytes_allocated() < pad + size
                &&& r matches Err(e) ==> e == AllocError::InsufficientMemory
                    && final(self).view_state() == s
                &&& r matches Ok((addr, _)) ==> {
                    &&& addr == start + pad
                    &&& final(self).view_state().bytes_allocated() == s.bytes_allocated() + pad
                        + size
                    &&& final(self).view_state().num_allocations() == s.num_allocations() + 1
                    &&& forall|k: int|
                        0 <= k < s.mem().len() && !(addr - s.base() <= k < addr - s.base()
                            + size) ==> final(self).view_state().mem()[k] == s.mem()[k]
                    &&& forall|k: int|
                        addr - s.base() <= k < addr - s.base() + size && init_byte(init) is Some
                            ==> final(self).view_state().mem()[k] == init_byte(init)->0
                }
            }),
    {
        let size = layout.size();
        let align = layout.align();
        proof {
            broadcast use vstd::multiset::group_multiset_axioms, vstd::multiset::group_multiset_properties;
        }
        match self.state.allocate(size, align, init) {
            Ok(addr) => {
                proof {
                    self.live@ = self.live@.insert((addr, size));
                }
                Ok((addr, size))
            },
            Err(e) => Err(e),
        }
    }

    /// Give back one allocation; once none is left, the whole memory is free again.
    fn deallocate(&mut self, addr: usize, layout: Layout)
        ensures
            final(self).view_state().mem() == old(self).view_state().mem(),
            final(self).view_state().base() == old(self).view_state().base(),
            final(self).view_state().num_allocations() == old(self).view_state().num_allocations()
                - 1,
            final(self).view_state().bytes_allocated() == if final(self).view_state().num_allocations() == 0 {
                0
            } else {
                old(self).view_state().bytes_allocated()
            },
    {
        proof {
            broadcast use vstd::multiset::group_multiset_axioms, vstd::multiset::group_multiset_properties;
            assert(self.live().count((addr, layout.spec_size())) > 0);
        }
        self.state.deallocate(addr);
        proof {
            self.live@ = self.live@.remove((addr, layout.spec_size()));
        }
    }
}

impl BumpAllocator for ForwardBumpingAllocator {
    fn new(backing_mem: Vec<u8>) -> (r: Self)
        ensures
            r.view_state().mem() == backing_mem@,
            r.view_state().bytes_allocated() == 0,
            r.view_state().num_allocations() == 0,
    {
        let base = slice_address(backing_mem.as_slice());
        ForwardBumpingAllocator::new_at_address(backing_mem, base)
    }

    fn steal_remaining_mem(&mut self) -> (r: (usize, Vec<u8>))
        ensures
            r.0 == old(self).view_state().base() + old(self).view_state().bytes_allocated(),
            r.1@ == old(self).view_state().mem().subrange(
                old(self).view_state().bytes_allocated(),
                old(self).view_state().mem().len() as int,
            ),
            final(self).view_state().mem() == old(self).view_state().mem().subrange(
                0,
                old(self).view_state().bytes_allocated(),
            ),
            final(self).view_state().bytes_allocated() == old(self).view_state().bytes_allocated(),
            final(self).view_state().num_allocations() == old(self).view_state().num_allocations(),
            final(self).live() == old(self).live(),
    {
        let r = self.state.steal_remaining_mem();
        proof {
            let s = self.view_state();
            assert forall|l: Layout| l.spec_size() > 0 && l.spec_align() > 0 implies !#[trigger] self.fits(l) by {
                lemma_padding(s.base() + s.bytes_allocated(), l.spec_align() as int);
            }
        }
        r
    }

    fn get_free_bytes(&self) -> (r: usize)
        ensures
            r == self.view_state().mem().len() - self.view_state().bytes_allocated(),
    {
        self.state.capacity()
    }
}

} // verus!
