//! Resources: values stored once per type.

use vstd::prelude::*;
use std::any::TypeId;

use crate::util::any::{AnyBox, any_new, any_ref, any_mut, any_take};
use crate::util::label::{type_id_of, find_type_id};

verus! {

#[derive(Copy, Clone, Debug, PartialEq, Eq, Hash, PartialOrd, Ord)]
pub struct ResourceId(pub usize);

impl ResourceId {
    pub(crate) fn new(index: usize) -> (r: ResourceId)
        ensures
            r.0 == index,
    {
        ResourceId(index)
    }

    pub fn index(&self) -> (r: usize)
        ensures
            r == self.0,
    {
        self.0
    }
}

/// The resources: one slot per type ever inserted, holding its value while
/// it is present.
pub struct Resources {
    keys: Vec<TypeId>,
    values: Vec<Option<AnyBox>>,
}

/// `new` is `old` with a value stored under `k`: its slot is added if the
/// key is new, and it alone changes.
pub open spec fn inserted(old: Resources, new: Resources, k: TypeId) -> bool {
    &&& new.keys() == if old.keys().contains(k) { old.keys() } else { old.keys().push(k) }
    &&& new.keys().contains(k)
    &&& forall|i: int| 0 <= i < new.keys().len() ==> #[trigger] new.present()[i]
        == (new.keys()[i] == k || (i < old.keys().len() && old.present()[i]))
}

impl Resources {
    /// The type of each slot, in the order the types were first inserted.
    pub closed spec fn keys(&self) -> Seq<TypeId> {
        self.keys@
    }

    /// Whether each slot holds a value.
    pub closed spec fn present(&self) -> Seq<bool> {
        self.values@.map_values(|v: Option<AnyBox>| v is Some)
    }

    pub closed spec fn wf(&self) -> bool {
        &&& self.keys@.len() == self.values@.len()
        &&& self.keys@.no_duplicates()
    }

    /// The slot of `k` holds a value.
    pub open spec fn holds(&self, k: TypeId) -> bool {
        exists|i: int| 0 <= i < self.keys().len() && self.keys()[i] == k && #[trigger] self.present()[i]
    }

    pub fn new() -> (r: Resources)
        ensures
            r.wf(),
            r.keys() == Seq::<TypeId>::empty(),
            r.present() == Seq::<bool>::empty(),
    {
        let r = Resources { keys: Vec::new(), values: Vec::new() };
        assert(r.present() =~= Seq::<bool>::empty());
        r
    }

    /// The slot of `key`, added empty if the key is new.
    fn slot(&mut self, key: TypeId) -> (r: usize)
        requires
            old(self).wf(),
        ensures
            final(self).wf(),
            r < final(self).keys().len(),
            final(self).keys()[r as int] == key,
            old(self).keys().contains(key) ==> final(self).keys() == old(self).keys()
                && final(self).present() == old(self).present(),
            !old(self).keys().contains(key) ==> final(self).keys() == old(self).keys().push(key)
                && final(self).present() == old(self).present().push(false),
    {
        match find_type_id(&self.keys, &key) {
            Some(i) => i,
            None => {
                let i = self.keys.len();
                let ghost p0 = self.present();
                self.keys.push(key);
                self.values.push(None);
                proof {
                    assert(self.present() =~= p0.push(false));
                    let k = self.keys@;
                    assert forall|a: int, b: int| 0 <= a < k.len() && 0 <= b < k.len() && a != b
                        implies k[a] != k[b] by {
                        if a == k.len() - 1 {
                            assert(old(self).keys@.contains(k[b]));
                        } else if b == k.len() - 1 {
                            assert(old(self).keys@.contains(k[a]));
                        }
                    }
                }
                i
            },
        }
    }

    /// Stores the value at `key`, replacing what was there.
    fn insert_at(&mut self, key: TypeId, value: AnyBox)
        requires
            old(self).wf(),
        ensures
            final(self).wf(),
            final(self).keys() == if old(self).keys().contains(key) { old(self).keys() } else { old(self).keys().push(key) },
            final(self).keys().contains(key),
            forall|i: int| 0 <= i < final(self).keys().len() ==> #[trigger] final(self).present()[i]
                == (final(self).keys()[i] == key || (i < old(self).keys().len() && old(self).present()[i])),
    {
        let i = self.slot(key);
        let ghost p1 = self.present();
        self.values.set(i, Some(value));
        proof {
            assert(self.present() =~= p1.update(i as int, true));
            assert(self.keys()[i as int] == key);
        }
    }

    pub fn insert<T: 'static>(&mut self, value: T)
        requires
            old(self).wf(),
        ensures
            final(self).wf(),
            old(self).keys().is_prefix_of(final(self).keys()),
            final(self).keys().len() <= old(self).keys().len() + 1,
            forall|i: int| 0 <= i < old(self).keys().len() && old(self).present()[i]
                ==> #[trigger] final(self).present()[i],
            exists|k: TypeId| #[trigger] inserted(*old(self), *final(self), k),
    {
        let key = type_id_of::<T>();
        self.insert_at(key, any_new(value));
        proof { assert(inserted(*old(self), *self, key)); }
    }

    /// Stores `value` under `key`, the type id of `T`.
    pub(crate) fn insert_keyed<T: 'static>(&mut self, key: TypeId, value: T)
        requires
            old(self).wf(),
        ensures
            final(self).wf(),
            inserted(*old(self), *final(self), key),
            final(self).holds(key),
    {
        self.insert_at(key, any_new(value));
        proof {
            let i = self.keys().index_of(key);
            assert(self.keys()[i] == key);
            assert(self.present()[i]);
        }
    }

    pub fn insert_non_send<T: 'static>(&mut self, value: T)
        requires
            old(self).wf(),
        ensures
            final(self).wf(),
            old(self).keys().is_prefix_of(final(self).keys()),
            final(self).keys().len() <= old(self).keys().len() + 1,
            exists|k: TypeId| #[trigger] inserted(*old(self), *final(self), k),
    {
        self.insert(value)
    }

    /// The slot of `key`, if the key has one.
    pub fn find(&self, key: &TypeId) -> (r: Option<ResourceId>)
        requires
            self.wf(),
        ensures
            match r {
                Some(id) => id.0 < self.keys().len() && self.keys()[id.0 as int] == *key,
                None => !self.keys().contains(*key),
            },
    {
        match find_type_id(&self.keys, key) {
            Some(i) => Some(ResourceId(i)),
            None => None,
        }
    }

    /// Whether the slot of `key` holds a value.
    pub fn contains_key(&self, key: &TypeId) -> (r: bool)
        requires
            self.wf(),
        ensures
            r == exists|i: int| 0 <= i < self.keys().len() && self.keys()[i] == *key && #[trigger] self.present()[i],
    {
        match self.find(key) {
            Some(id) => {
                let r = self.values[id.0].is_some();
                proof {
                    if exists|i: int| 0 <= i < self.keys().len() && self.keys()[i] == *key && #[trigger] self.present()[i] {
                        let i = choose|i: int| 0 <= i < self.keys().len() && self.keys()[i] == *key && #[trigger] self.present()[i];
                        assert(i == id.0);
                    }
                    assert(self.present()[id.0 as int] == r);
                }
                r
            },
            None => false,
        }
    }

    pub fn contains<T: 'static>(&self) -> (r: bool)
        requires
            self.wf(),
    {
        let key = type_id_of::<T>();
        self.contains_key(&key)
    }

    /// The value of `T`, if one is present.
    pub fn get<T: 'static>(&self) -> (r: Option<&T>)
        requires
            self.wf(),
    {
        let key = type_id_of::<T>();
        match self.find(&key) {
            Some(id) => match &self.values[id.0] {
                Some(b) => any_ref::<T>(b),
                None => None,
            },
            None => None,
        }
    }

    pub fn get_mut<T: 'static>(&mut self) -> (r: Option<&mut T>)
        requires
            old(self).wf(),
        ensures
            final(self).wf(),
            final(self).keys() == old(self).keys(),
            final(self).present() == old(self).present(),
    {
        let key = type_id_of::<T>();
        match self.find(&key) {
            Some(id) => {
                let i = id.0;
                match self.values[i].as_mut() {
                    Some(b) => any_mut::<T>(b),
                    None => None,
                }
            },
            None => None,
        }
    }

    /// Takes the value at `key` out, leaving its slot empty.
    fn take_at(&mut self, key: &TypeId) -> (r: Option<AnyBox>)
        requires
            old(self).wf(),
        ensures
            final(self).wf(),
            final(self).keys() == old(self).keys(),
            match old(self).keys().index_of_first(*key) {
                Some(i) => final(self).present() == old(self).present().update(i, false)
                    && (r is Some <==> old(self).present()[i]),
                None => final(self).present() == old(self).present() && r is None,
            },
    {
        match self.find(key) {
            Some(id) => {
                let i = id.0;
                let ghost p0 = self.present();
                proof {
                    self.keys@.index_of_first_ensures(*key);
                    assert(self.keys@.index_of_first(*key) == Some(i as int)) by {
                        let j = self.keys@.index_of_first(*key)->0;
                        assert(self.keys@[j] == *key);
                    }
                }
                let mut v: Option<AnyBox> = None;
                self.values.set_and_swap(i, &mut v);
                proof {
                    assert(self.present() =~= p0.update(i as int, false));
                }
                v
            },
            None => {
                proof {
                    self.keys@.index_of_first_ensures(*key);
                }
                None
            },
        }
    }

    /// Takes the value of `T` out, leaving its slot empty.
    pub fn remove<T: 'static>(&mut self) -> (r: Option<T>)
        requires
            old(self).wf(),
        ensures
            final(self).wf(),
            final(self).keys() == old(self).keys(),
            final(self).present() == old(self).present()
                || exists|i: int| 0 <= i < old(self).keys().len()
                    && final(self).present() == old(self).present().update(i, false),
            r is Some ==> exists|i: int| 0 <= i < old(self).keys().len() && #[trigger] old(self).present()[i]
                && final(self).present() == old(self).present().update(i, false),
    {
        let key = type_id_of::<T>();
        proof { self.keys@.index_of_first_ensures(key); }
        match self.take_at(&key) {
            Some(b) => any_take::<T>(b),
            None => None,
        }
    }

    pub fn get_resource_id<T: 'static>(&self) -> (r: Option<ResourceId>)
        requires
            self.wf(),
        ensures
            match r {
                Some(id) => id.0 < self.keys().len(),
                None => true,
            },
    {
        let key = type_id_of::<T>();
        self.find(&key)
    }
}

} // verus!
