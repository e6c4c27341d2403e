//! Constructors that build a value into a slot that was set aside for it.

use vstd::prelude::*;
use core::marker::PhantomData;

verus! {

/// A constructor of values of type `T`.
pub trait Ctor<T>: Sized {
    /// The constructor can run.
    spec fn can_construct(&self) -> bool;

    /// `value` is a value that the constructor may build.
    spec fn constructs(&self, value: T) -> bool;

    /// Build the value.
    fn construct(self) -> (r: T)
        requires
            self.can_construct(),
        ensures
            self.constructs(r),
    ;
}

/// A constructor made from a closure that builds the value.
pub struct New<F, R> {
    f: F,
    _result: PhantomData<R>,
}

impl<F: FnOnce() -> R, R> New<F, R> {
    /// The closure that builds the value.
    pub closed spec fn closure(&self) -> F {
        self.f
    }

    /// A constructor that builds its value by calling `f`.
    pub fn ctor(f: F) -> (r: Self)
        ensures
            r.closure() == f,
    {
        New { f, _result: PhantomData }
    }
}

impl<F: FnOnce() -> R, R> Ctor<R> for New<F, R> {
    closed spec fn can_construct(&self) -> bool {
        self.f.requires(())
    }

    closed spec fn constructs(&self, value: R) -> bool {
        self.f.ensures((), value)
    }

    fn construct(self) -> (r: R) {
        (self.f)()
    }
}

/// A memory location which is large enough to hold a `T`, initially holding nothing.
pub struct OwnedSlot<T> {
    inner: Option<T>,
}

impl<T> OwnedSlot<T> {
    /// Whether the location holds a value.
    pub closed spec fn is_init(&self) -> bool {
        self.inner is Some
    }

    /// An empty location.
    pub fn new() -> (r: Self)
        ensures
            !r.is_init(),
    {
        OwnedSlot { inner: None }
    }

    /// The location as a slot that a constructor can fill.
    pub fn get_slot(self) -> (r: Slot<T>)
        requires
            !self.is_init(),
        ensures
            r.is_empty(),
    {
        Slot { inner: self.inner }
    }
}

/// Memory which can be initialized using a constructor.
pub struct Slot<T> {
    inner: Option<T>,
}

impl<T> Slot<T> {
    /// Whether the slot still holds nothing.
    pub closed spec fn is_empty(&self) -> bool {
        self.inner is None
    }

    /// Initialize the slot using the given constructor.
    pub fn emplace<C: Ctor<T>>(self, ctor: C) -> (r: SlotBox<T>)
        requires
            ctor.can_construct(),
        ensures
            ctor.constructs(r.value()),
    {
        let value = ctor.construct();
        SlotBox { inner: value }
    }
}

/// A smart pointer to the value built into a slot.
pub struct SlotBox<T> {
    inner: T,
}

impl<T> SlotBox<T> {
    /// The value held.
    pub closed spec fn value(&self) -> T {
        self.inner
    }

    /// The value held.
    pub fn get(&self) -> (r: &T)
        ensures
            *r == self.value(),
    {
        &self.inner
    }

    /// Replace the value held.
    pub fn set(&mut self, value: T)
        ensures
            final(self).value() == value,
    {
        self.inner = value;
    }
}

} // verus!
