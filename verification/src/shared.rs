//! A single owner for a value that several call sites read and write in
//! turn.

use vstd::prelude::*;

verus! {

/// The owner of one value, which hands out a read view or a write view of
/// it. Views that would collide (a write view beside any other) are refused
/// where the program is compiled, so none can fail while it runs.
pub struct Shared<T> {
    v: T,
}

impl<T> Shared<T> {
    /// The value that the owner holds.
    pub closed spec fn value(&self) -> T {
        self.v
    }

    /// Takes ownership of `t`.
    pub fn new(t: T) -> (s: Shared<T>)
        ensures
            s.value() == t,
    {
        Shared { v: t }
    }

    /// A read view of the value.
    pub fn borrow(&self) -> (r: &T)
        ensures
            *r == self.value(),
    {
        &self.v
    }

    /// A write view of the value: what the caller leaves behind it is what
    /// the owner holds afterwards.
    pub fn borrow_mut(&mut self) -> (r: &mut T)
        ensures
            *r == old(self).value(),
            final(self).value() == *final(r),
    {
        &mut self.v
    }
}

/// `*shared`: a read view of the value.
impl<T> core::ops::Deref for Shared<T> {
    type Target = T;

    fn deref(&self) -> (r: &T)
        ensures
            *r == self.value(),
    {
        &self.v
    }
}

} // verus!
