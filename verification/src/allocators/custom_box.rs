//! A box whose block is allocated from one of this crate's allocators.
//!
//! The box records the block it reserved (its address and layout) and holds the value; giving
//! the box up returns the block to its allocator.

use vstd::prelude::*;
use vstd::layout::{size_of, align_of, valid_layout};
use crate::allocators::layout::{Layout, LayoutError};
use crate::allocators::traits::{AllocError, AllocInit, Allocator};

verus! {

/// A value together with the block reserved for it in an allocator.
pub struct Box<T> {
    inner: T,
    addr: usize,
    layout: Layout,
}

impl<T: Clone> Clone for Box<T> {
    /// A box that records the same block, holding a clone of the value.
    fn clone(&self) -> (r: Self)
        ensures
            r.addr() == self.addr(),
            r.layout() == self.layout(),
            cloned::<T>(self.value(), r.value()),
    {
        Box { inner: self.inner.clone(), addr: self.addr, layout: self.layout }
    }
}

impl<T> Box<T> {
    /// The value held.
    pub closed spec fn value(&self) -> T {
        self.inner
    }

    /// The address of the reserved block.
    pub closed spec fn addr(&self) -> usize {
        self.addr
    }

    /// The layout the block was reserved with.
    pub closed spec fn layout(&self) -> Layout {
        self.layout
    }

    /// A box for `data`, whose block at `addr` was reserved with `layout`.
    pub fn from_raw(data: T, addr: usize, layout: Layout) -> (r: Self)
        ensures
            r.value() == data,
            r.addr() == addr,
            r.layout() == layout,
    {
        Box { inner: data, addr, layout }
    }

    /// The value, the block's address and its layout, without giving the block back.
    pub fn into_raw(self) -> (r: (T, usize, Layout))
        ensures
            r == (self.value(), self.addr(), self.layout()),
    {
        (self.inner, self.addr, self.layout)
    }

    /// The value, without giving the block back.
    pub fn leak(self) -> (r: T)
        ensures
            r == self.value(),
    {
        self.inner
    }

    /// The value held.
    pub fn get(&self) -> (r: &T)
        ensures
            *r == self.value(),
    {
        &self.inner
    }

    /// The address of the reserved block.
    pub fn address(&self) -> (r: usize)
        ensures
            r == self.addr(),
    {
        self.addr
    }

    /// Reserve a block for `layout` from `allocator`, filled as `init` says, for a box that
    /// holds `value`.
    fn new_raw<A: Allocator>(value: T, allocator: &mut A, layout: Layout, init: AllocInit) -> (r: Result<Self, AllocError>)
        requires
            old(allocator).wf(),
            layout.spec_size() > 0,
            old(allocator).accepts(layout),
        ensures
            final(allocator).wf(),
            r is Ok <==> old(allocator).fits(layout),
            r matches Err(e) ==> e == AllocError::InsufficientMemory,
            r matches Ok(b) ==> final(allocator).holds(b.addr(), b.layout()),
            r matches Ok(b) ==> b.value() == value && b.layout() == layout && b.addr() as int
                % layout.spec_align() as int == 0,
            forall|a: usize, l: Layout| #[trigger] old(allocator).holds(a, l) ==> final(allocator).holds(a, l),
            r matches Ok(b) ==> forall|l: Layout| !#[trigger] old(allocator).holds(b.addr(), l),
            r matches Ok(b) ==> forall|a: usize, l: Layout|
                #[trigger] old(allocator).holds(a, l) ==> b.addr() + b.layout().spec_size() <= a || a
                    + l.spec_size() <= b.addr(),
    {
        let (addr, _) = allocator.allocate(layout, init)?;
        Ok(Box { inner: value, addr, layout })
    }

    /// Put `value` into a block allocated for a `T` from `allocator`.
    pub fn new<A: Allocator>(value: T, allocator: &mut A) -> (r: Result<Self, AllocError>)
        requires
            old(allocator).wf(),
            size_of::<T>() > 0,
            old(allocator).accepts(Layout::spec_new::<T>()),
        ensures
            final(allocator).wf(),
            r is Ok <==> old(allocator).fits(Layout::spec_new::<T>()),
            r matches Err(e) ==> e == AllocError::InsufficientMemory,
            r matches Ok(b) ==> final(allocator).holds(b.addr(), b.layout()),
            r matches Ok(b) ==> b.value() == value && b.layout() == Layout::spec_new::<T>()
                && b.addr() as int % align_of::<T>() as int == 0,
            forall|a: usize, l: Layout| #[trigger] old(allocator).holds(a, l) ==> final(allocator).holds(a, l),
            r matches Ok(b) ==> forall|l: Layout| !#[trigger] old(allocator).holds(b.addr(), l),
            r matches Ok(b) ==> forall|a: usize, l: Layout|
                #[trigger] old(allocator).holds(a, l) ==> b.addr() + b.layout().spec_size() <= a || a
                    + l.spec_size() <= b.addr(),
    {
        let layout = Layout::new::<T>();
        Self::new_raw(value, allocator, layout, AllocInit::Uninitialized)
    }

    /// Put `value` into a block allocated for a `T` from `allocator`; the value does not move
    /// while in the box.
    pub fn new_pinned<A: Allocator>(value: T, allocator: &mut A) -> (r: Result<Self, AllocError>)
        requires
            old(allocator).wf(),
            size_of::<T>() > 0,
            old(allocator).accepts(Layout::spec_new::<T>()),
        ensures
            final(allocator).wf(),
            r is Ok <==> old(allocator).fits(Layout::spec_new::<T>()),
            r matches Err(e) ==> e == AllocError::InsufficientMemory,
            r matches Ok(b) ==> final(allocator).holds(b.addr(), b.layout()),
            r matches Ok(b) ==> b.value() == value && b.layout() == Layout::spec_new::<T>()
                && b.addr() as int % align_of::<T>() as int == 0,
            forall|a: usize, l: Layout| #[trigger] old(allocator).holds(a, l) ==> final(allocator).holds(a, l),
            r matches Ok(b) ==> forall|l: Layout| !#[trigger] old(allocator).holds(b.addr(), l),
            r matches Ok(b) ==> forall|a: usize, l: Layout|
                #[trigger] old(allocator).holds(a, l) ==> b.addr() + b.layout().spec_size() <= a || a
                    + l.spec_size() <= b.addr(),
    {
        Self::new(value, allocator)
    }

    /// Give the block back to `allocator` and return the value.
    pub fn free<A: Allocator>(self, allocator: &mut A) -> (r: T)
        requires
            old(allocator).wf(),
            old(allocator).holds(self.addr(), self.layout()),
        ensures
            final(allocator).wf(),
            r == self.value(),
            old(allocator).released(self.addr(), self.layout(), *final(allocator)),
            forall|a: usize, l: Layout|
                #[trigger] old(allocator).holds(a, l) && a != self.addr() ==> final(allocator).holds(a, l),
    {
        allocator.deallocate(self.addr, self.layout);
        self.inner
    }
}

impl<T> Box<Option<T>> {
    /// A box with a block for a `T` that holds no value yet.
    pub fn new_uninit<A: Allocator>(allocator: &mut A) -> (r: Result<Self, AllocError>)
        requires
            old(allocator).wf(),
            size_of::<T>() > 0,
            old(allocator).accepts(Layout::spec_new::<T>()),
        ensures
            final(allocator).wf(),
            r is Ok <==> old(allocator).fits(Layout::spec_new::<T>()),
            r matches Err(e) ==> e == AllocError::InsufficientMemory,
            r matches Ok(b) ==> final(allocator).holds(b.addr(), b.layout()),
            r matches Ok(b) ==> b.value() is None && b.layout() == Layout::spec_new::<T>(),
            forall|a: usize, l: Layout| #[trigger] old(allocator).holds(a, l) ==> final(allocator).holds(a, l),
            r matches Ok(b) ==> forall|l: Layout| !#[trigger] old(allocator).holds(b.addr(), l),
            r matches Ok(b) ==> forall|a: usize, l: Layout|
                #[trigger] old(allocator).holds(a, l) ==> b.addr() + b.layout().spec_size() <= a || a
                    + l.spec_size() <= b.addr(),
    {
        Self::new_raw(None, allocator, Layout::new::<T>(), AllocInit::Uninitialized)
    }

    /// A box with a zero-filled block for a `T` that holds no value yet.
    pub fn new_zeroed<A: Allocator>(allocator: &mut A) -> (r: Result<Self, AllocError>)
        requires
            old(allocator).wf(),
            size_of::<T>() > 0,
            old(allocator).accepts(Layout::spec_new::<T>()),
        ensures
            final(allocator).wf(),
            r is Ok <==> old(allocator).fits(Layout::spec_new::<T>()),
            r matches Err(e) ==> e == AllocError::InsufficientMemory,
            r matches Ok(b) ==> final(allocator).holds(b.addr(), b.layout()),
            r matches Ok(b) ==> b.value() is None && b.layout() == Layout::spec_new::<T>(),
            forall|a: usize, l: Layout| #[trigger] old(allocator).holds(a, l) ==> final(allocator).holds(a, l),
            r matches Ok(b) ==> forall|l: Layout| !#[trigger] old(allocator).holds(b.addr(), l),
            r matches Ok(b) ==> forall|a: usize, l: Layout|
                #[trigger] old(allocator).holds(a, l) ==> b.addr() + b.layout().spec_size() <= a || a
                    + l.spec_size() <= b.addr(),
    {
        Self::new_raw(None, allocator, Layout::new::<T>(), AllocInit::Zeroed)
    }

    /// Store `value` in the box.
    pub fn assume_init(self, value: T) -> (r: Box<T>)
        ensures
            r.value() == value,
            r.addr() == self.addr(),
            r.layout() == self.layout(),
    {
        Box { inner: value, addr: self.addr, layout: self.layout }
    }
}

/// The value that fills a slice box of `len` elements that hold nothing yet.
fn empty_slots<T>(len: usize) -> (r: Vec<Option<T>>)
    ensures
        r@.len() == len,
        forall|i: int| 0 <= i < len ==> r@[i] is None,
{
    let mut v: Vec<Option<T>> = Vec::new();
    let mut i: usize = 0;
    while i < len
        invariant
            i <= len,
            v@.len() == i,
            forall|k: int| 0 <= k < i ==> v@[k] is None,
        decreases len - i,
    {
        v.push(None);
        i = i + 1;
    }
    v
}

/// The layout of `len` values of type `T`, or `InsufficientMemory` if it is not valid.
fn array_layout<T>(len: usize) -> (r: Result<Layout, AllocError>)
    ensures
        r is Ok <==> size_of::<T>() * len <= usize::MAX && valid_layout(
            (size_of::<T>() * len) as usize,
            align_of::<T>() as usize,
        ),
        r matches Ok(l) ==> l.spec_size() == size_of::<T>() * len && l.spec_align() == align_of::<T>(),
        r matches Err(e) ==> e == AllocError::InsufficientMemory,
{
    match Layout::array::<T>(len) {
        Ok(l) => Ok(l),
        Err(_) => Err(AllocError::InsufficientMemory),
    }
}

impl<T> Box<Vec<Option<T>>> {
    /// A box with a block for `len` values of type `T` that hold nothing yet. An invalid
    /// layout is reported as insufficient memory.
    pub fn new_uninit_slice<A: Allocator>(len: usize, allocator: &mut A) -> (r: Result<Self, AllocError>)
        requires
            old(allocator).wf(),
            size_of::<T>() * len > 0,
            forall|l: Layout|
                l.spec_size() == size_of::<T>() * len && l.spec_align() == align_of::<T>()
                    ==> #[trigger] old(allocator).accepts(l),
        ensures
            final(allocator).wf(),
            r matches Ok(b) ==> final(allocator).holds(b.addr(), b.layout()),
            !(size_of::<T>() * len <= usize::MAX && valid_layout(
                (size_of::<T>() * len) as usize,
                align_of::<T>() as usize,
            )) ==> r == Err::<Self, AllocError>(AllocError::InsufficientMemory) && *final(allocator)
                == *old(allocator),
            size_of::<T>() * len <= usize::MAX && valid_layout(
                (size_of::<T>() * len) as usize,
                align_of::<T>() as usize,
            ) ==> forall|l: Layout|
                l.spec_size() == size_of::<T>() * len && l.spec_align() == align_of::<T>()
                    ==> (r is Ok <==> #[trigger] old(allocator).fits(l)),
            r matches Err(e) ==> e == AllocError::InsufficientMemory,
            r matches Ok(b) ==> b.value()@.len() == len && b.layout().spec_size() == size_of::<T>() * len
                && b.layout().spec_align() == align_of::<T>() && b.addr() as int % align_of::<T>() as int
                == 0,
            forall|a: usize, l: Layout| #[trigger] old(allocator).holds(a, l) ==> final(allocator).holds(a, l),
            r matches Ok(b) ==> forall|l: Layout| !#[trigger] old(allocator).holds(b.addr(), l),
            r matches Ok(b) ==> forall|a: usize, l: Layout|
                #[trigger] old(allocator).holds(a, l) ==> b.addr() + b.layout().spec_size() <= a || a
                    + l.spec_size() <= b.addr(),
    {
        let layout = array_layout::<T>(len)?;
        proof {
            assert forall|l: Layout|
                l.spec_size() == size_of::<T>() * len && l.spec_align() == align_of::<T>()
                implies old(allocator).fits(l) == old(allocator).fits(layout) by {
                Layout::lemma_equal_parts(l, layout);
            }
        }
        Self::new_raw(empty_slots(len), allocator, layout, AllocInit::Uninitialized)
    }

    /// A box with a zero-filled block for `len` values of type `T` that hold nothing yet. An
    /// invalid layout is reported as insufficient memory.
    pub fn new_zeroed_slice<A: Allocator>(len: usize, allocator: &mut A) -> (r: Result<Self, AllocError>)
        requires
            old(allocator).wf(),
            size_of::<T>() * len > 0,
            forall|l: Layout|
                l.spec_size() == size_of::<T>() * len && l.spec_align() == align_of::<T>()
                    ==> #[trigger] old(allocator).accepts(l),
        ensures
            final(allocator).wf(),
            r matches Ok(b) ==> final(allocator).holds(b.addr(), b.layout()),
            !(size_of::<T>() * len <= usize::MAX && valid_layout(
                (size_of::<T>() * len) as usize,
                align_of::<T>() as usize,
            )) ==> r == Err::<Self, AllocError>(AllocError::InsufficientMemory) && *final(allocator)
                == *old(allocator),
            size_of::<T>() * len <= usize::MAX && valid_layout(
                (size_of::<T>() * len) as usize,
                align_of::<T>() as usize,
            ) ==> forall|l: Layout|
                l.spec_size() == size_of::<T>() * len && l.spec_align() == align_of::<T>()
                    ==> (r is Ok <==> #[trigger] old(allocator).fits(l)),
            r matches Err(e) ==> e == AllocError::InsufficientMemory,
            r matches Ok(b) ==> b.value()@.len() == len && b.layout().spec_size() == size_of::<T>() * len
                && b.layout().spec_align() == align_of::<T>() && b.addr() as int % align_of::<T>() as int
                == 0,
            forall|a: usize, l: Layout| #[trigger] old(allocator).holds(a, l) ==> final(allocator).holds(a, l),
            r matches Ok(b) ==> forall|l: Layout| !#[trigger] old(allocator).holds(b.addr(), l),
            r matches Ok(b) ==> forall|a: usize, l: Layout|
                #[trigger] old(allocator).holds(a, l) ==> b.addr() + b.layout().spec_size() <= a || a
                    + l.spec_size() <= b.addr(),
    {
        let layout = array_layout::<T>(len)?;
        proof {
            assert forall|l: Layout|
                l.spec_size() == size_of::<T>() * len && l.spec_align() == align_of::<T>()
                implies old(allocator).fits(l) == old(allocator).fits(layout) by {
                Layout::lemma_equal_parts(l, layout);
            }
        }
        Self::new_raw(empty_slots(len), allocator, layout, AllocInit::Zeroed)
    }

    /// A box with a zero-filled block for `len` values of type `T`, aligned to at least
    /// `alignment`, that hold nothing yet.
    pub fn new_uninit_slice_with_alignment<A: Allocator>(len: usize, alignment: usize, allocator: &mut A) -> (r: Result<Self, AllocError>)
        requires
            old(allocator).wf(),
            size_of::<T>() * len > 0,
            forall|l: Layout|
                l.spec_size() == size_of::<T>() * len && l.spec_align() as int == (if alignment
                    > align_of::<T>() {
                    alignment as int
                } else {
                    align_of::<T>() as int
                }) ==> #[trigger] old(allocator).accepts(l),
        ensures
            final(allocator).wf(),
            ({
                let size = size_of::<T>() * len;
                let a = if alignment > align_of::<T>() {
                    alignment as int
                } else {
                    align_of::<T>() as int
                };
                &&& !(size <= usize::MAX && valid_layout(size as usize, align_of::<T>() as usize))
                    ==> r == Err::<Self, AllocError>(AllocError::LayoutError(LayoutError))
                    && *final(allocator) == *old(allocator)
                &&& size <= usize::MAX && valid_layout(size as usize, align_of::<T>() as usize)
                    && !valid_layout(size as usize, a as usize) ==> r == Err::<Self, AllocError>(
                    AllocError::LayoutError(LayoutError),
                ) && *final(allocator) == *old(allocator)
                &&& size <= usize::MAX && valid_layout(size as usize, align_of::<T>() as usize)
                    && valid_layout(size as usize, a as usize) ==> forall|l: Layout|
                    l.spec_size() == size && l.spec_align() == a ==> (r is Ok <==> #[trigger] old(
                        allocator,
                    ).fits(l))
                &&& r matches Ok(b) ==> b.layout().spec_align() == a
            }),
            r matches Ok(b) ==> final(allocator).holds(b.addr(), b.layout()),
            r matches Ok(b) ==> b.value()@.len() == len && b.layout().spec_size() == size_of::<T>() * len
                && b.layout().spec_align() >= alignment && b.addr() as int % b.layout().spec_align() as int == 0,
            forall|a: usize, l: Layout| #[trigger] old(allocator).holds(a, l) ==> final(allocator).holds(a, l),
            r matches Ok(b) ==> forall|l: Layout| !#[trigger] old(allocator).holds(b.addr(), l),
            r matches Ok(b) ==> forall|a: usize, l: Layout|
                #[trigger] old(allocator).holds(a, l) ==> b.addr() + b.layout().spec_size() <= a || a
                    + l.spec_size() <= b.addr(),
    {
        let layout = match Layout::array::<T>(len) {
            Ok(l) => l,
            Err(e) => {
                return Err(AllocError::LayoutError(e));
            },
        };
        let layout = match layout.align_to(alignment) {
            Ok(l) => l,
            Err(e) => {
                return Err(AllocError::LayoutError(e));
            },
        };
        proof {
            assert forall|l: Layout|
                l.spec_size() == layout.spec_size() && l.spec_align() == layout.spec_align()
                implies old(allocator).fits(l) == old(allocator).fits(layout) by {
                Layout::lemma_equal_parts(l, layout);
            }
        }
        Self::new_raw(empty_slots(len), allocator, layout, AllocInit::Zeroed)
    }
}

/// Every box constructor ensures, of the allocator before the call, that it did not hold the
/// new block and that the new block does not overlap any block it held. So a box made while the
/// block of another box is held gets a different block that does not overlap it: two live
/// boxes never share memory.
pub proof fn lemma_live_boxes_do_not_overlap<A: Allocator, T, U>(
    before: A,
    held: Box<T>,
    made: Box<U>,
)
    requires
        before.holds(held.addr(), held.layout()),
        forall|l: Layout| !#[trigger] before.holds(made.addr(), l),
        forall|a: usize, l: Layout|
            #[trigger] before.holds(a, l) ==> made.addr() + made.layout().spec_size() <= a || a
                + l.spec_size() <= made.addr(),
    ensures
        held.addr() != made.addr(),
        made.addr() + made.layout().spec_size() <= held.addr() || held.addr()
            + held.layout().spec_size() <= made.addr(),
{
}

} // verus!
