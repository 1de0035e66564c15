//! An owned, heap-allocated value.

use vstd::prelude::*;

verus! {

pub struct Ptr<T> {
    data: Box<T>,
}

impl<T> Ptr<T> {
    pub closed spec fn value(&self) -> T {
        *self.data
    }

    pub fn new(value: T) -> (r: Ptr<T>)
        ensures
            r.value() == value,
    {
        Ptr { data: Box::new(value) }
    }

    pub fn deref(&self) -> (r: &T)
        ensures
            *r == self.value(),
    {
        &self.data
    }

    pub fn deref_mut(&mut self) -> (r: &mut T)
        ensures
            *r == old(self).value(),
            final(self).value() == *final(r),
    {
        &mut self.data
    }
}

} // verus!
