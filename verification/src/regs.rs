//! Registers with access permissions that are fixed by their type.
//!
//! A register is modelled by the value it holds: a read gives the value that was last written.
//! Whether a register can be read or written is decided by its type parameters.

use vstd::prelude::*;
use core::marker::PhantomData;

verus! {

/// A cell whose value is read and written as a whole.
pub struct VolatileCell<T> {
    value: T,
}

impl<T: Copy> VolatileCell<T> {
    /// The value held.
    pub closed spec fn value(&self) -> T {
        self.value
    }

    /// A cell holding `value`.
    pub fn new(value: T) -> (r: Self)
        ensures
            r.value() == value,
    {
        VolatileCell { value }
    }

    /// The value held.
    pub fn get(&self) -> (r: T)
        ensures
            r == self.value(),
    {
        self.value
    }

    /// Replace the value held.
    pub fn set(&mut self, value: T)
        ensures
            final(self).value() == value,
    {
        self.value = value;
    }
}

/// Marks a register as readable.
pub struct ReadAllowed;

/// Marks a register as not readable.
pub struct ReadDenied;

/// Marks a register as writable.
pub struct WriteAllowed;

/// Marks a register as not writable.
pub struct WriteDenied;

/// A register of type `T` whose read and write permissions are `ReadOp` and `WriteOp`.
pub struct Reg<ReadOp, WriteOp, T: Copy> {
    register: VolatileCell<T>,
    read: PhantomData<ReadOp>,
    write: PhantomData<WriteOp>,
}

/// A readable and writable register.
pub type RW<T> = Reg<ReadAllowed, WriteAllowed, T>;

/// A write-only register.
pub type WO<T> = Reg<ReadDenied, WriteAllowed, T>;

/// A read-only register.
pub type RO<T> = Reg<ReadAllowed, WriteDenied, T>;

impl<ReadOp, WriteOp, T: Copy> Reg<ReadOp, WriteOp, T> {
    /// The value the register holds.
    pub closed spec fn value(&self) -> T {
        self.register.value()
    }
}

impl<ReadOp, T: Copy> Reg<ReadOp, WriteAllowed, T> {
    /// Write `value` to the register.
    pub fn write(&mut self, value: T)
        ensures
            final(self).value() == value,
    {
        self.register.set(value)
    }
}

impl<WriteOp, T: Copy> Reg<ReadAllowed, WriteOp, T> {
    /// Read the register.
    pub fn read(&self) -> (r: T)
        ensures
            r == self.value(),
    {
        self.register.get()
    }
}

impl<T: Copy> Reg<ReadAllowed, WriteAllowed, T> {
    /// Replace the register's value by `f` applied to it.
    pub fn modify<F: FnOnce(T) -> T>(&mut self, f: F)
        requires
            f.requires((old(self).value(),)),
        ensures
            f.ensures((old(self).value(),), final(self).value()),
    {
        let v = self.register.get();
        let n = f(v);
        self.register.set(n);
    }

    /// A readable and writable register holding `value`.
    pub fn new(value: T) -> (r: Self)
        ensures
            r.value() == value,
    {
        Reg { register: VolatileCell::new(value), read: PhantomData, write: PhantomData }
    }
}

impl<T: Copy> Reg<ReadDenied, WriteAllowed, T> {
    /// A write-only register holding `value`.
    pub fn new(value: T) -> (r: Self)
        ensures
            r.value() == value,
    {
        Reg { register: VolatileCell::new(value), read: PhantomData, write: PhantomData }
    }
}

impl<T: Copy> Reg<ReadAllowed, WriteDenied, T> {
    /// A read-only register holding `value`.
    pub fn new(value: T) -> (r: Self)
        ensures
            r.value() == value,
    {
        Reg { register: VolatileCell::new(value), read: PhantomData, write: PhantomData }
    }
}

} // verus!
