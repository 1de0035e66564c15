//! Access to a resource from within a system.

use vstd::prelude::*;

verus! {

/// Shared access to a resource.
pub struct Res<'w, T> {
    value: &'w T,
}

impl<'w, T> Res<'w, T> {
    pub closed spec fn value(&self) -> T {
        *self.value
    }

    pub fn new(value: &'w T) -> (r: Res<'w, T>)
        ensures
            r.value() == *value,
    {
        Res { value }
    }

    pub fn get(&self) -> (r: &T)
        ensures
            *r == self.value(),
    {
        self.value
    }

    /// The reference itself, for as long as the resource is borrowed.
    pub fn inner(&self) -> (r: &'w T)
        ensures
            *r == self.value(),
    {
        self.value
    }
}

/// Exclusive access to a resource.
pub struct ResMut<'w, T> {
    /// The resource, borrowed from the world for the run.
    pub value: &'w mut T,
}

impl<'w, T> ResMut<'w, T> {
    pub open spec fn value(&self) -> T {
        *self.value
    }

    pub fn new(value: &'w mut T) -> (r: ResMut<'w, T>)
        ensures
            r.value() == *old(value),
            *final(value) == *final(r.value),
    {
        ResMut { value }
    }

    pub fn get(&self) -> (r: &T)
        ensures
            *r == self.value(),
    {
        self.value
    }

    pub fn get_mut(&mut self) -> (r: &mut T)
        ensures
            *r == old(self).value(),
            final(self).value() == *final(r),
    {
        self.value
    }
}

} // verus!
