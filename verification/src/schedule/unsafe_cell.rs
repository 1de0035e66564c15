//! Cells that hold a system or a value while a schedule runs.

use vstd::prelude::*;

verus! {

pub struct UnsafeSyncCell<T> {
    value: T,
}

impl<T> UnsafeSyncCell<T> {
    pub closed spec fn value(&self) -> T {
        self.value
    }

    pub fn new(value: T) -> (r: UnsafeSyncCell<T>)
        ensures
            r.value() == value,
    {
        UnsafeSyncCell { value }
    }

    pub fn get_mut(&mut self) -> (r: &mut T)
        ensures
            *r == old(self).value(),
            final(self).value() == *final(r),
    {
        &mut self.value
    }

    pub(crate) fn get_ref(&self) -> (r: &T)
        ensures
            *r == self.value(),
    {
        &self.value
    }
}

pub struct UnsafeSendCell<T>(T);

impl<T> UnsafeSendCell<T> {
    pub closed spec fn value(&self) -> T {
        self.0
    }

    pub fn new(value: T) -> (r: UnsafeSendCell<T>)
        ensures
            r.value() == value,
    {
        UnsafeSendCell(value)
    }

    pub(crate) fn get_ref(&self) -> (r: &T)
        ensures
            *r == self.value(),
    {
        &self.0
    }

    pub(crate) fn _take(self) -> (r: T)
        ensures
            r == self.value(),
    {
        self.0
    }
}

} // verus!
