//! Capabilities that are essential for using the derivation tree.

use vstd::prelude::*;
use vstd::arithmetic::power2::is_pow2;
use vstd::layout::{size_of, align_of, valid_layout};
use crate::allocators::custom_box::Box;
use crate::allocators::layout::Layout;
use crate::allocators::traits::{AllocError, Allocator};
use crate::derivation_tree::cap_counted::CapCounted;
use crate::derivation_tree::tree::Correspondence;

verus! {

/// The address of a slot in a [`CSpace`].
pub type CAddr = usize;

/// The interface that every kind of capability offers. `U` bundles the capabilities that an
/// implementation handles, and each slot holds one `U`.
pub trait CapabilityIface<U> {
    /// What initialising a capability of this kind needs.
    type InitArgs;

    /// Initialise a capability of this kind in `target`, which may be overwritten.
    fn init(&self, target: &mut U, args: Self::InitArgs);

    /// Copy the capability in `src`, which is of this kind, into `dst`, which may be
    /// overwritten.
    fn copy(&self, src: &U, dst: &mut U);

    /// Destroy the capability in `target`.
    fn destroy(&self, target: &mut U);
}

/// Capabilities that know the interface that handles their kind.
pub trait GetCapIface: Sized {
    /// The interface that handles this capability's kind.
    type IfaceImpl: CapabilityIface<Self>;

    /// The interface that handles this capability's kind.
    fn get_capability_iface(&self) -> Self::IfaceImpl;
}

/// A capability space: a power-of-two number of slots that each hold a capability.
pub struct CSpace<T> {
    slots: CapCounted<Vec<T>>,
}

impl<T: Default> CSpace<T> {
    /// The slots.
    pub closed spec fn slots(&self) -> Seq<T> {
        self.slots.boxed().value()@
    }

    /// The address of the block that holds the slots.
    pub closed spec fn block(&self) -> usize {
        self.slots.boxed().addr()
    }

    /// The layout the block was allocated with.
    pub closed spec fn layout(&self) -> Layout {
        self.slots.boxed().layout()
    }

    /// Allocate a space of `num_slots` slots from `allocator`, each holding the default value.
    pub fn alloc_new<A: Allocator>(allocator: &mut A, num_slots: usize) -> (r: Result<Self, AllocError>)
        requires
            old(allocator).wf(),
            is_pow2(num_slots as int),
            size_of::<T>() * num_slots > 0,
            forall|l: Layout|
                l.spec_size() == size_of::<T>() * num_slots && l.spec_align() == align_of::<T>()
                    ==> #[trigger] old(allocator).accepts(l),
        ensures
            final(allocator).wf(),
            !(size_of::<T>() * num_slots <= usize::MAX && valid_layout(
                (size_of::<T>() * num_slots) as usize,
                align_of::<T>() as usize,
            )) ==> r == Err::<Self, AllocError>(AllocError::InsufficientMemory),
            size_of::<T>() * num_slots <= usize::MAX && valid_layout(
                (size_of::<T>() * num_slots) as usize,
                align_of::<T>() as usize,
            ) ==> forall|l: Layout|
                l.spec_size() == size_of::<T>() * num_slots && l.spec_align() == align_of::<T>()
                    ==> (r is Ok <==> #[trigger] old(allocator).fits(l)),
            r matches Err(e) ==> e == AllocError::InsufficientMemory,
            r matches Ok(c) ==> c.slots().len() == num_slots && final(allocator).holds(c.block(), c.layout())
                && c.layout().spec_size() == size_of::<T>() * num_slots,
            r matches Ok(c) ==> forall|l: Layout| !#[trigger] old(allocator).holds(c.block(), l),
            forall|a: usize, l: Layout| #[trigger] old(allocator).holds(a, l) ==> final(allocator).holds(a, l),
    {
        let uninit = Box::<Vec<Option<T>>>::new_uninit_slice::<A>(num_slots, allocator)?;
        let (_, addr, layout) = uninit.into_raw();
        let mut slots: Vec<T> = Vec::new();
        let mut i: usize = 0;
        while i < num_slots
            invariant
                i <= num_slots,
                slots@.len() == i,
            decreases num_slots - i,
        {
            slots.push(T::default());
            i = i + 1;
        }
        Ok(CSpace { slots: CapCounted::from_box(Box::from_raw(slots, addr, layout)) })
    }

    /// Give the block of slots back to `allocator`, which it came from, and return the slots.
    pub fn deallocate<A: Allocator>(self, allocator: &mut A) -> (r: Vec<T>)
        requires
            old(allocator).wf(),
            old(allocator).holds(self.block(), self.layout()),
        ensures
            final(allocator).wf(),
            r@ == self.slots(),
            old(allocator).released(self.block(), self.layout(), *final(allocator)),
            forall|a: usize, l: Layout|
                #[trigger] old(allocator).holds(a, l) && a != self.block() ==> final(allocator).holds(a, l),
    {
        self.slots.destroy(allocator)
    }

    /// The slot at `addr`, if the space has one there.
    pub fn lookup_raw(&self, addr: CAddr) -> (r: Option<&T>)
        ensures
            addr < self.slots().len() ==> r == Some(&self.slots()[addr as int]),
            addr >= self.slots().len() ==> r is None,
    {
        let slots = self.slots.get();
        if addr < slots.len() {
            Some(&slots[addr])
        } else {
            None
        }
    }
}

impl<T: Default> Correspondence for CSpace<T> {
    open spec fn corresponds(&self, other: &Self) -> bool {
        self.block() == other.block()
    }

    /// Two spaces correspond when they share their block of slots.
    fn corresponds_to(&self, other: &Self) -> (r: bool) {
        self.slots.is_same_pointer_as(&other.slots)
    }
}

/// A capability that does nothing but mark memory that is safe to overwrite with other
/// capabilities.
#[derive(Clone, Copy, Debug, PartialEq, Eq, Structural)]
pub struct Uninit;

impl Correspondence for Uninit {
    open spec fn corresponds(&self, other: &Self) -> bool {
        false
    }

    /// No two uninitialised capabilities correspond.
    fn corresponds_to(&self, other: &Self) -> (r: bool) {
        false
    }
}

} // verus!
