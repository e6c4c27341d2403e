//! A spin lock that guards a value.
//!
//! The lock is modelled by its state: whether it is held. Taking it when it is free succeeds
//! and marks it held; releasing the guard marks it free again.

use vstd::prelude::*;

verus! {

/// A spin lock protecting a value of type `T`.
pub struct SpinLock<T> {
    is_locked: bool,
    value: T,
}

/// Proof of holding a [`SpinLock`]; the protected value is reached through the lock while a
/// guard exists, and giving the guard back releases the lock.
pub struct Guard {
    _held: (),
}

impl<T> SpinLock<T> {
    /// Whether the lock is held.
    pub closed spec fn locked(&self) -> bool {
        self.is_locked
    }

    /// The protected value.
    pub closed spec fn value(&self) -> T {
        self.value
    }

    /// A free lock around `value`.
    pub fn new(value: T) -> (r: Self)
        ensures
            !r.locked(),
            r.value() == value,
    {
        SpinLock { is_locked: false, value }
    }

    /// Take the lock if it is free; fail if it is held.
    pub fn try_lock(&mut self) -> (r: Result<Guard, ()>)
        ensures
            r is Err <==> old(self).locked(),
            final(self).locked(),
            final(self).value() == old(self).value(),
    {
        if self.is_locked {
            Err(())
        } else {
            self.is_locked = true;
            Ok(Guard { _held: () })
        }
    }

    /// Take the lock, which must be free: waiting on a held lock only ends when another thread
    /// releases it.
    pub fn spin_lock(&mut self) -> (r: Guard)
        requires
            !old(self).locked(),
        ensures
            final(self).locked(),
            final(self).value() == old(self).value(),
    {
        self.is_locked = true;
        Guard { _held: () }
    }

    /// The protected value, reached while the lock is held.
    pub fn get(&self, guard: &Guard) -> (r: &T)
        requires
            self.locked(),
        ensures
            *r == self.value(),
    {
        &self.value
    }

    /// Replace the protected value while the lock is held.
    pub fn set(&mut self, guard: &Guard, value: T)
        requires
            old(self).locked(),
        ensures
            final(self).locked(),
            final(self).value() == value,
    {
        self.value = value;
    }

    /// Release the lock by giving back its guard.
    pub fn unlock(&mut self, guard: Guard)
        requires
            old(self).locked(),
        ensures
            !final(self).locked(),
            final(self).value() == old(self).value(),
    {
        self.is_locked = false;
    }
}

} // verus!
