//! A cell that owns a value and hands out access to it.

use vstd::prelude::*;

verus! {

pub struct SyncUnsafeCell<T> {
    value: T,
}

impl<T> SyncUnsafeCell<T> {
    pub closed spec fn value(&self) -> T {
        self.value
    }

    pub fn new(value: T) -> (r: SyncUnsafeCell<T>)
        ensures
            r.value() == value,
    {
        SyncUnsafeCell { value }
    }

    pub fn get_mut(&mut self) -> (r: &mut T)
        ensures
            *r == old(self).value(),
            final(self).value() == *final(r),
    {
        &mut self.value
    }

    pub(crate) fn get(&self) -> (r: &T)
        ensures
            *r == self.value(),
    {
        &self.value
    }
}

} // verus!
