//! A box whose block is allocated from a [`BumpAllocator`](crate::allocators::sized_bump::BumpAllocator).

use vstd::prelude::*;
use vstd::arithmetic::power2::is_pow2;
use vstd::layout::{size_of, align_of, layout_for_type_is_valid, valid_layout};
use crate::allocators::sized_bump::BumpAllocator;
use crate::allocators::layout::padding;
use crate::allocators::traits::{AllocError, AllocInit};

verus! {

/// The allocator has room after its marker for `size` bytes aligned to `align`.
pub open spec fn has_room(allocator: BumpAllocator, size: int, align: int) -> bool {
    let s = allocator.view_state();
    s.mem().len() - s.bytes_allocated() >= padding(s.base() + s.bytes_allocated(), align) + size
}

/// The address that the allocator hands out next for a block aligned to `align`: its marker,
/// moved up to the alignment.
pub open spec fn next_block(allocator: BumpAllocator, align: int) -> int {
    let s = allocator.view_state();
    s.base() + s.bytes_allocated() + padding(s.base() + s.bytes_allocated(), align)
}

/// A value together with the address of the block reserved for it in a bump allocator.
pub struct BumpBox<T> {
    inner: T,
    addr: usize,
}

impl<T> BumpBox<T> {
    /// The value held.
    pub closed spec fn value(&self) -> T {
        self.inner
    }

    /// The address of the reserved block.
    pub closed spec fn addr(&self) -> usize {
        self.addr
    }

    /// Reserve `size` bytes aligned to `align` for a box holding `value`.
    fn new_raw(value: T, allocator: &mut BumpAllocator, size: usize, align: usize, init: AllocInit) -> (r: Result<Self, AllocError>)
        requires
            old(allocator).view_state().wf(),
            is_pow2(align as int),
            size > 0,
        ensures
            final(allocator).view_state().wf(),
            r is Err <==> !has_room(*old(allocator), size as int, align as int),
            r matches Ok(b) ==> b.value() == value && b.addr() == next_block(*old(allocator), align as int)
                && b.addr() as int % align as int == 0,
            r is Err ==> final(allocator).view_state() == old(allocator).view_state(),
            r is Ok ==> final(allocator).view_state().bytes_allocated() == next_block(
                *old(allocator),
                align as int,
            ) - old(allocator).view_state().base() + size,
    {
        let addr = allocator.allocate(size, align, init)?;
        Ok(BumpBox { inner: value, addr })
    }

    /// Put `data` into a block allocated for a `T`.
    pub fn new(data: T, allocator: &mut BumpAllocator) -> (r: Result<Self, AllocError>)
        requires
            old(allocator).view_state().wf(),
            size_of::<T>() > 0,
        ensures
            final(allocator).view_state().wf(),
            r is Err <==> !has_room(*old(allocator), size_of::<T>() as int, align_of::<T>() as int),
            r matches Ok(b) ==> b.value() == data && b.addr() == next_block(*old(allocator), align_of::<T>() as int)
                && b.addr() as int % align_of::<T>() as int == 0,
    {
        layout_for_type_is_valid::<T>();
        Self::new_raw(data, allocator, core::mem::size_of::<T>(), core::mem::align_of::<T>(), AllocInit::Uninitialized)
    }

    /// The address of the block, which the box no longer gives back.
    pub fn into_raw(self) -> (r: usize)
        ensures
            r == self.addr(),
    {
        self.addr
    }

    /// The value, whose block the box no longer gives back.
    pub fn leak(self) -> (r: T)
        ensures
            r == self.value(),
    {
        self.inner
    }

    /// The value held.
    pub fn get(&self) -> (r: &T)
        ensures
            *r == self.value(),
    {
        &self.inner
    }
}

impl<T> BumpBox<Option<T>> {
    /// A box with a block for a `T` that holds no value yet.
    pub fn new_uninit(allocator: &mut BumpAllocator) -> (r: Result<Self, AllocError>)
        requires
            old(allocator).view_state().wf(),
            size_of::<T>() > 0,
        ensures
            final(allocator).view_state().wf(),
            r is Err <==> !has_room(*old(allocator), size_of::<T>() as int, align_of::<T>() as int),
            r matches Ok(b) ==> b.value() is None && b.addr() == next_block(*old(allocator), align_of::<T>() as int)
                && b.addr() as int % align_of::<T>() as int == 0,
    {
        layout_for_type_is_valid::<T>();
        Self::new_raw(None, allocator, core::mem::size_of::<T>(), core::mem::align_of::<T>(), AllocInit::Uninitialized)
    }

    /// A box with a zero-filled block for a `T` that holds no value yet.
    pub fn new_zeroed(allocator: &mut BumpAllocator) -> (r: Result<Self, AllocError>)
        requires
            old(allocator).view_state().wf(),
            size_of::<T>() > 0,
        ensures
            final(allocator).view_state().wf(),
            r is Err <==> !has_room(*old(allocator), size_of::<T>() as int, align_of::<T>() as int),
            r matches Ok(b) ==> b.value() is None && b.addr() == next_block(*old(allocator), align_of::<T>() as int)
                && b.addr() as int % align_of::<T>() as int == 0,
    {
        layout_for_type_is_valid::<T>();
        Self::new_raw(None, allocator, core::mem::size_of::<T>(), core::mem::align_of::<T>(), AllocInit::Zeroed)
    }

    /// Store `value` in the box.
    pub fn assume_init(self, value: T) -> (r: BumpBox<T>)
        ensures
            r.value() == value,
            r.addr() == self.addr(),
    {
        BumpBox { inner: value, addr: self.addr }
    }
}

impl<T> BumpBox<Vec<Option<T>>> {
    /// A box with a block for `len` values of type `T` aligned to `alignment`, which hold
    /// nothing yet.
    pub fn new_uninit_slice_with_alignment(len: usize, alignment: usize, allocator: &mut BumpAllocator) -> (r: Result<Self, AllocError>)
        requires
            old(allocator).view_state().wf(),
            is_pow2(alignment as int),
            0 < size_of::<T>() * len <= usize::MAX,
        ensures
            final(allocator).view_state().wf(),
            r is Err <==> !has_room(*old(allocator), size_of::<T>() * len, alignment as int),
            r matches Ok(b) ==> b.value()@.len() == len && b.addr() == next_block(*old(allocator), alignment as int)
                && b.addr() as int % alignment as int == 0,
    {
        layout_for_type_is_valid::<T>();
        let size = core::mem::size_of::<T>() * len;
        let mut slots: Vec<Option<T>> = Vec::new();
        let mut i: usize = 0;
        while i < len
            invariant
                i <= len,
                slots@.len() == i,
            decreases len - i,
        {
            slots.push(None);
            i = i + 1;
        }
        Self::new_raw(slots, allocator, size, alignment, AllocInit::Uninitialized)
    }

    /// A box with a block for `len` values of type `T`, which hold nothing yet.
    pub fn new_uninit_slice(len: usize, allocator: &mut BumpAllocator) -> (r: Result<Self, AllocError>)
        requires
            old(allocator).view_state().wf(),
            0 < size_of::<T>() * len <= usize::MAX,
        ensures
            final(allocator).view_state().wf(),
            r is Err <==> !has_room(*old(allocator), size_of::<T>() * len, align_of::<T>() as int),
            r matches Ok(b) ==> b.value()@.len() == len && b.addr() == next_block(*old(allocator), align_of::<T>() as int)
                && b.addr() as int % align_of::<T>() as int == 0,
    {
        layout_for_type_is_valid::<T>();
        proof {
            vstd::arithmetic::power2::is_pow2_equiv(align_of::<T>() as int);
        }
        Self::new_uninit_slice_with_alignment(len, core::mem::align_of::<T>(), allocator)
    }
}

} // verus!
