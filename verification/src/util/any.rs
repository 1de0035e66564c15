//! A value whose type is known only when it is read back.

use vstd::prelude::*;
use std::any::Any;

verus! {

/// Holds a `Box<dyn Any>`; its contents are reached only through the
/// functions below.
#[verifier::external_body]
pub struct AnyBox {
    value: Box<dyn Any>,
}

/// Boxes `value` (`Box::new`, as `Box<dyn Any>`).
#[verifier::external_body]
pub fn any_new<T: 'static>(value: T) -> (r: AnyBox) {
    AnyBox { value: Box::new(value) }
}

/// Calls `downcast_ref::<T>`: the value, if it is a `T`.
#[verifier::external_body]
pub fn any_ref<T: 'static>(b: &AnyBox) -> (r: Option<&T>) {
    b.value.downcast_ref::<T>()
}

/// Calls `downcast_mut::<T>`: the value, if it is a `T`.
#[verifier::external_body]
pub fn any_mut<T: 'static>(b: &mut AnyBox) -> (r: Option<&mut T>) {
    b.value.downcast_mut::<T>()
}

/// Calls `downcast::<T>` and unboxes: the value, if it is a `T`.
#[verifier::external_body]
pub fn any_take<T: 'static>(b: AnyBox) -> (r: Option<T>) {
    match b.value.downcast::<T>() {
        Ok(v) => Some(*v),
        Err(_) => None,
    }
}

} // verus!
