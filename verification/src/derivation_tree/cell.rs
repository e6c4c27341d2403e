//! A value with a count of the references handed out to it.

use vstd::prelude::*;

verus! {

/// A value that counts the references to it that are in use.
pub struct InlineRc<T> {
    refs: usize,
    value: T,
}

/// A reference to the value of an [`InlineRc`], counted by it while in use.
pub struct InlineRef {
    _counted: (),
}

impl<T> InlineRc<T> {
    /// How many references are in use.
    pub closed spec fn refs(&self) -> nat {
        self.refs as nat
    }

    /// The value held.
    pub closed spec fn value(&self) -> T {
        self.value
    }

    /// A value with no references in use.
    pub fn new(value: T) -> (r: InlineRc<T>)
        ensures
            r.refs() == 0,
            r.value() == value,
    {
        InlineRc { refs: 0, value }
    }

    /// Hand out a reference to the value and count it.
    pub fn get_ref(&mut self) -> (r: InlineRef)
        requires
            old(self).refs() < usize::MAX,
        ensures
            final(self).refs() == old(self).refs() + 1,
            final(self).value() == old(self).value(),
    {
        self.refs = self.refs + 1;
        InlineRef { _counted: () }
    }

    /// The value, read through a reference in use.
    pub fn get<'a>(&'a self, reference: &InlineRef) -> (r: &'a T)
        ensures
            *r == self.value(),
    {
        &self.value
    }

    /// Stop using a reference; the count goes down by one.
    pub fn drop_ref(&mut self, reference: InlineRef)
        requires
            old(self).refs() > 0,
        ensures
            final(self).refs() == old(self).refs() - 1,
            final(self).value() == old(self).value(),
    {
        self.refs = self.refs - 1;
    }

    /// Whether the value can be dropped: no reference to it is in use.
    pub fn can_drop(&self) -> (r: bool)
        ensures
            r == (self.refs() == 0),
    {
        self.refs == 0
    }
}

} // verus!
