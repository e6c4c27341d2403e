//! What all allocators of this crate have in common: their errors, how they initialise handed out
//! memory, and the allocator interface.

use vstd::prelude::*;
use crate::allocators::layout::{Layout, LayoutError};

verus! {

/// The error returned when an allocation fails.
#[derive(Clone, Copy, Debug, PartialEq, Eq, Structural)]
pub enum AllocError {
    /// The allocator has insufficient free memory to allocate the requested amount.
    InsufficientMemory,
    /// The requested layout could not be fulfilled.
    LayoutError(LayoutError),
}

impl AllocError {
    /// The message that describes the error.
    pub fn message(&self) -> (r: &'static str)
        ensures
            r@ == match self {
                AllocError::InsufficientMemory => "the allocator has insufficient free memory to allocate the requested amount"@,
                AllocError::LayoutError(_) => "the requested layout could not be fulfilled"@,
            },
    {
        match self {
            AllocError::InsufficientMemory => {
                "the allocator has insufficient free memory to allocate the requested amount"
            },
            AllocError::LayoutError(_) => "the requested layout could not be fulfilled",
        }
    }
}

/// A desired initial state for allocated memory.
#[derive(Clone, Copy, Debug, PartialEq, Eq, Structural)]
pub enum AllocInit {
    /// The memory is returned as it is in the allocator.
    Uninitialized,
    /// Memory is filled with zeros before being returned to the caller.
    Zeroed,
    /// Memory is filled with a repetition of the given byte before being returned to the caller.
    Data(u8),
}

impl Default for AllocInit {
    fn default() -> (r: Self)
        ensures
            r == AllocInit::Zeroed,
    {
        AllocInit::Zeroed
    }
}

/// The byte that fresh memory is filled with, if any.
pub open spec fn init_byte(init: AllocInit) -> Option<u8> {
    match init {
        AllocInit::Uninitialized => None,
        AllocInit::Zeroed => Some(0u8),
        AllocInit::Data(b) => Some(b),
    }
}

/// An allocator that hands out blocks of its backing memory, identified by the address of their
/// first byte.
pub trait Allocator: Sized {
    /// The allocator's bookkeeping is consistent.
    spec fn wf(&self) -> bool;

    /// The allocator can serve a request for `layout` without panicking.
    spec fn accepts(&self, layout: Layout) -> bool;

    /// The allocator has room for a block of `layout`.
    spec fn fits(&self, layout: Layout) -> bool;

    /// The block at `addr` can be given back with `layout`.
    spec fn holds(&self, addr: usize, layout: Layout) -> bool;

    /// `after` is this allocator once the block at `addr`, allocated with `layout`, was given
    /// back.
    spec fn released(&self, addr: usize, layout: Layout, after: Self) -> bool;

    /// Attempt to allocate a block of memory meeting the size and alignment of `layout`, filled
    /// as `init` says, and return the block: the address of its first byte and its length.
    fn allocate(&mut self, layout: Layout, init: AllocInit) -> (r: Result<(usize, usize), AllocError>)
        requires
            old(self).wf(),
            layout.spec_size() > 0,
            old(self).accepts(layout),
        ensures
            final(self).wf(),
            r is Ok <==> old(self).fits(layout),
            r matches Err(e) ==> e == AllocError::InsufficientMemory,
            r matches Ok((addr, len)) ==> len == layout.spec_size(),
            r matches Ok((addr, _)) ==> addr as int % layout.spec_align() as int == 0,
            r matches Ok((addr, _)) ==> final(self).holds(addr, layout),
            r matches Ok((addr, _)) ==> forall|l: Layout| !#[trigger] old(self).holds(addr, l),
            r matches Ok((addr, len)) ==> forall|a: usize, l: Layout|
                #[trigger] old(self).holds(a, l) ==> addr + len <= a || a + l.spec_size() <= addr,
            forall|a: usize, l: Layout|
                #[trigger] old(self).holds(a, l) ==> final(self).holds(a, l),
    ;

    /// Give back the block at `addr` that was allocated with `layout`.
    fn deallocate(&mut self, addr: usize, layout: Layout)
        requires
            old(self).wf(),
            old(self).holds(addr, layout),
        ensures
            final(self).wf(),
            old(self).released(addr, layout, *final(self)),
            forall|a: usize, l: Layout|
                #[trigger] old(self).holds(a, l) && a != addr ==> final(self).holds(a, l),
    ;
}

/// An allocator in the manner of a global allocator, which reports a failed allocation as
/// `None`.
pub trait MutGlobalAlloc: Sized {
    /// The allocator's bookkeeping is consistent.
    spec fn wf(&self) -> bool;

    /// The allocator can serve a request for `layout` without panicking.
    spec fn alloc_accepts(&self, layout: Layout) -> bool;

    /// The block at `addr` can be given back with `layout`.
    spec fn dealloc_accepts(&self, addr: usize, layout: Layout) -> bool;

    /// Allocate a block for `layout` and return the address of its first byte.
    fn alloc_block(&mut self, layout: Layout) -> (r: Option<usize>)
        requires
            old(self).wf(),
            old(self).alloc_accepts(layout),
        ensures
            final(self).wf(),
    ;

    /// Give back the block at `addr` that was allocated with `layout`.
    fn dealloc_block(&mut self, addr: usize, layout: Layout)
        requires
            old(self).wf(),
            old(self).dealloc_accepts(addr, layout),
        ensures
            final(self).wf(),
    ;
}

} // verus!
