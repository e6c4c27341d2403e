//! Where buffers lie in the address space.

use vstd::prelude::*;
use vstd::layout::{size_of, align_of};

verus! {

/// The machine address at which the first byte of `buf` lies, read from `<[u8]>::as_ptr`.
///
/// Where a buffer is placed depends on the machine and the allocator, so the value itself is
/// left open. What is stated is what every slice satisfies by the documented requirements of
/// `core::slice::from_raw_parts`: adding the slice's length to its address does not wrap around
/// the address space.
#[verifier::external_body]
pub(crate) fn slice_address(buf: &[u8]) -> (r: usize)
    ensures
        r as int + buf@.len() <= usize::MAX,
{
    buf.as_ptr() as usize
}

/// The machine address at which the first element of `buf` lies, read from `<[T]>::as_ptr`.
///
/// As for byte slices, the value is left open; what is stated is that the slice's size in bytes
/// added to its address does not wrap around the address space, as the documented requirements
/// of `core::slice::from_raw_parts` demand of every slice, and that the address is aligned
/// for `T`, which the same requirements demand.
#[verifier::external_body]
pub(crate) fn elements_address<T>(buf: &[T]) -> (r: usize)
    ensures
        r as int + buf@.len() * size_of::<T>() <= usize::MAX,
        r as int % align_of::<T>() as int == 0,
{
    buf.as_ptr() as usize
}

} // verus!
