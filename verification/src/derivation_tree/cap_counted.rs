//! A capability's payload in a box that copies of the capability share.

use vstd::prelude::*;
use crate::allocators::custom_box::Box;
use crate::allocators::layout::Layout;
use crate::allocators::traits::Allocator;

verus! {

/// A boxed value that is destroyed explicitly, when the last copy of its capability goes.
/// Copies of a capability record the same block; as the value is held in the box itself, each
/// copy holds its own clone of it.
pub struct CapCounted<T> {
    inner: Box<T>,
}

impl<T: Clone> Clone for CapCounted<T> {
    /// A copy that shares the block: it records the same address and layout.
    fn clone(&self) -> (r: Self)
        ensures
            r.boxed().addr() == self.boxed().addr(),
            r.boxed().layout() == self.boxed().layout(),
            cloned::<T>(self.boxed().value(), r.boxed().value()),
    {
        CapCounted { inner: self.inner.clone() }
    }
}

impl<T> CapCounted<T> {
    /// The box held.
    pub closed spec fn boxed(&self) -> Box<T> {
        self.inner
    }

    /// Take over `value`.
    pub fn from_box(value: Box<T>) -> (r: Self)
        ensures
            r.boxed() == value,
    {
        CapCounted { inner: value }
    }

    /// Whether both refer to the same block.
    pub fn is_same_pointer_as(&self, other: &Self) -> (r: bool)
        ensures
            r == (self.boxed().addr() == other.boxed().addr()),
    {
        self.inner.address() == other.inner.address()
    }

    /// The value held.
    pub fn get(&self) -> (r: &T)
        ensures
            *r == self.boxed().value(),
    {
        self.inner.get()
    }

    /// Give the block back to its allocator and return the value.
    pub fn destroy<A: Allocator>(self, allocator: &mut A) -> (r: T)
        requires
            old(allocator).wf(),
            old(allocator).holds(self.boxed().addr(), self.boxed().layout()),
        ensures
            final(allocator).wf(),
            r == self.boxed().value(),
            old(allocator).released(self.boxed().addr(), self.boxed().layout(), *final(allocator)),
            forall|a: usize, l: Layout|
                #[trigger] old(allocator).holds(a, l) && a != self.boxed().addr() ==> final(allocator).holds(a, l),
    {
        self.inner.free(allocator)
    }
}

} // verus!
