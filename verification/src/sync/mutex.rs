//! A lock that never waits: on one core, whoever can reach the lock for
//! writing is alone with it.

use vstd::prelude::*;

verus! {

/// A value that is written through `lock` only.
pub struct Mutex<T> {
    inner: T,
}

impl<T> View for Mutex<T> {
    type V = T;

    /// The value that the lock holds.
    closed spec fn view(&self) -> T {
        self.inner
    }
}

impl<T> Mutex<T> {
    /// A lock that holds `data`.
    pub fn new(data: T) -> (r: Self)
        ensures
            r@ == data,
    {
        Mutex { inner: data }
    }

    /// Whether the lock is held: it never is when one can ask.
    pub fn is_locked(&self) -> (r: bool)
        ensures
            !r,
    {
        false
    }

    /// Releases the lock whoever holds it: there is nothing to release.
    pub fn force_unlock(&self) {
    }

    /// The value, to read and to write: what is written there is what
    /// the lock holds afterwards.
    pub fn lock(&mut self) -> (r: &mut T)
        ensures
            *r == old(self)@,
            final(self)@ == *final(r),
    {
        &mut self.inner
    }

    /// Takes the value out of the lock.
    pub fn into_inner(self) -> (r: T)
        ensures
            r == self@,
    {
        self.inner
    }
}

} // verus!
