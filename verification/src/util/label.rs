//! Labels (phases, schedules, resources, components) are told apart by the
//! type that carries them.

use vstd::prelude::*;
use std::any::TypeId;

verus! {

#[verifier::external_type_specification]
#[verifier::external_body]
pub struct ExTypeId(TypeId);

/// Calls `std::any::TypeId::of::<T>()`.  Nothing is claimed of the result:
/// it identifies `T` within one build of the program.
#[verifier::external_body]
pub fn type_id_of<T: ?Sized + 'static>() -> (r: TypeId) {
    TypeId::of::<T>()
}

/// Calls `TypeId`'s `==`.  Two type ids compare equal exactly when they are
/// the same value.
#[verifier::external_body]
pub fn type_id_eq(a: &TypeId, b: &TypeId) -> (r: bool)
    ensures
        r == (*a == *b),
{
    *a == *b
}

/// Finds `key` in `keys`.
pub fn find_type_id(keys: &Vec<TypeId>, key: &TypeId) -> (r: Option<usize>)
    ensures
        match r {
            Some(i) => i < keys@.len() && keys@[i as int] == *key
                && forall|k: int| 0 <= k < i ==> keys@[k] != *key,
            None => !keys@.contains(*key),
        },
{
    let mut i: usize = 0;
    while i < keys.len()
        invariant
            i <= keys@.len(),
            forall|k: int| 0 <= k < i ==> keys@[k] != *key,
        decreases keys@.len() - i,
    {
        if type_id_eq(&keys[i], key) {
            return Some(i);
        }
        i = i + 1;
    }
    None
}

} // verus!

verus! {

/// What tells labels apart: the type of the label and, for labels of one
/// type with several values, a number for the value.
#[derive(Copy, Clone, Debug)]
pub struct LabelKey {
    pub type_id: TypeId,
    pub value: u64,
}

impl LabelKey {
    /// The key of value `value` of label type `T`.
    pub fn of<T: ?Sized + 'static>(value: u64) -> (r: LabelKey)
        ensures
            r.value == value,
    {
        LabelKey { type_id: type_id_of::<T>(), value }
    }
}

pub fn label_key_eq(a: &LabelKey, b: &LabelKey) -> (r: bool)
    ensures
        r == (*a == *b),
{
    a.value == b.value && type_id_eq(&a.type_id, &b.type_id)
}

/// Finds `key` in `keys`.
pub fn find_label_key(keys: &Vec<LabelKey>, key: &LabelKey) -> (r: Option<usize>)
    ensures
        match r {
            Some(i) => i < keys@.len() && keys@[i as int] == *key
                && forall|k: int| 0 <= k < i ==> keys@[k] != *key,
            None => !keys@.contains(*key),
        },
{
    let mut i: usize = 0;
    while i < keys.len()
        invariant
            i <= keys@.len(),
            forall|k: int| 0 <= k < i ==> keys@[k] != *key,
        decreases keys@.len() - i,
    {
        if label_key_eq(&keys[i], key) {
            return Some(i);
        }
        i = i + 1;
    }
    None
}

} // verus!
