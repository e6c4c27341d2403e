//! The behaviour that bump allocators share.

use vstd::prelude::*;
use crate::allocators::layout::Layout;
use crate::allocators::traits::Allocator;

verus! {

/// A bump allocator: an allocator whose backing memory can be taken over once allocation from
/// it is done.
pub trait BumpAllocator: Sized + Allocator {
    /// Create a new bump allocator that allocates from the given backing memory.
    fn new(backing_mem: Vec<u8>) -> (r: Self)
        ensures
            r.wf(),
    ;

    /// Take the free memory after the allocated part out of the allocator, so that nothing is
    /// allocated from it any more. Return the address at which the taken memory lies and its
    /// bytes.
    fn steal_remaining_mem(&mut self) -> (r: (usize, Vec<u8>))
        requires
            old(self).wf(),
        ensures
            final(self).wf(),
            forall|l: Layout| l.spec_size() > 0 && l.spec_align() > 0 ==> !#[trigger] final(self).fits(l),
            forall|a: usize, l: Layout| #[trigger] old(self).holds(a, l) ==> final(self).holds(a, l),
    ;

    /// How many bytes remain free.
    fn get_free_bytes(&self) -> (r: usize)
        requires
            self.wf(),
    ;
}

} // verus!
