//! Entity ids: an index and a generation.  A despawned entity's index is
//! handed out again under the next generation, so its old id no longer
//! names the new entity.

use vstd::prelude::*;

use crate::entity::column::is_free_gen;

verus! {

#[derive(Clone, Copy, Debug, PartialEq, Eq, Structural, Hash, PartialOrd)]
pub struct EntityId(pub u32, pub u32);

impl EntityId {
    pub fn new(index: u32) -> (r: EntityId)
        ensures
            r == EntityId(index, 0),
    {
        EntityId(index, 0)
    }

    pub fn index(&self) -> (r: usize)
        ensures
            r == self.0,
    {
        self.0 as usize
    }

    pub fn gen(&self) -> (r: u32)
        ensures
            r == self.1,
    {
        self.1
    }

    pub fn is_alloc(&self) -> (r: bool)
        ensures
            r == !is_free_gen(self.1),
    {
        self.1 & 0x8000_0000u32 == 0
    }

    /// The id once the entity is despawned: the next generation, marked free.
    pub(crate) fn free(&self) -> (r: EntityId)
        requires
            !is_free_gen(self.1),
        ensures
            r.0 == self.0,
            r.1 == (self.1 + 1) as u32 | 0x8000_0000u32,
            is_free_gen(r.1),
    {
        let g = self.1;
        assert(g & 0x8000_0000u32 == 0 ==> g < 0x8000_0000u32) by (bit_vector);
        let n: u32 = (g + 1) | 0x8000_0000u32;
        assert((n & 0x8000_0000u32) != 0) by (bit_vector)
            requires n == (g + 1) as u32 | 0x8000_0000u32;
        EntityId(self.0, n)
    }

    /// A freed id, allocated again.
    pub(crate) fn allocate(&self) -> (r: EntityId)
        requires
            is_free_gen(self.1),
        ensures
            r.0 == self.0,
            r.1 == self.1 & !0x8000_0000u32,
            !is_free_gen(r.1),
    {
        let g = self.1;
        let n: u32 = g & !0x8000_0000u32;
        assert((n & 0x8000_0000u32) == 0) by (bit_vector)
            requires n == g & !0x8000_0000u32;
        EntityId(self.0, n)
    }
}

/// Hands out entity ids: freed ids first, most recently freed first, then
/// new indices.
pub struct EntityAlloc {
    capacity: u32,
    free_list: Vec<EntityId>,
}

impl EntityAlloc {
    pub closed spec fn capacity(&self) -> nat {
        self.capacity as nat
    }

    pub closed spec fn free_ids(&self) -> Seq<EntityId> {
        self.free_list@
    }

    pub closed spec fn wf(&self) -> bool {
        forall|k: int| 0 <= k < self.free_list@.len() ==> {
            &&& #[trigger] self.free_list@[k].0 < self.capacity
            &&& is_free_gen(self.free_list@[k].1)
        }
    }

    /// The listed ids are freed ids of indices handed out.
    pub proof fn lemma_free_ids(&self)
        requires
            self.wf(),
        ensures
            forall|k: int| 0 <= k < self.free_ids().len() ==> {
                &&& (#[trigger] self.free_ids()[k]).0 < self.capacity()
                &&& is_free_gen(self.free_ids()[k].1)
            },
    {
    }

    pub fn new() -> (r: EntityAlloc)
        ensures
            r.wf(),
            r.capacity() == 0,
            r.free_ids() == Seq::<EntityId>::empty(),
    {
        EntityAlloc { capacity: 0, free_list: Vec::new() }
    }

    /// Whether `allocate` has an id to give: a freed one or a new index.
    pub fn can_allocate(&self) -> (r: bool)
        ensures
            r == (self.free_ids().len() > 0 || self.capacity() < u32::MAX),
    {
        self.free_list.len() > 0 || self.capacity < 0xffff_ffffu32
    }

    /// A fresh id; `None` once every `u32` index is taken and none is free.
    pub fn allocate(&mut self) -> (r: Option<EntityId>)
        requires
            old(self).wf(),
        ensures
            final(self).wf(),
            old(self).free_ids().len() > 0 ==> {
                let f = old(self).free_ids().last();
                &&& r == Some(EntityId(f.0, f.1 & !0x8000_0000u32))
                &&& final(self).free_ids() == old(self).free_ids().drop_last()
                &&& final(self).capacity() == old(self).capacity()
            },
            old(self).free_ids().len() == 0 && old(self).capacity() < u32::MAX ==> {
                &&& r == Some(EntityId(old(self).capacity() as u32, 0))
                &&& final(self).free_ids() == old(self).free_ids()
                &&& final(self).capacity() == old(self).capacity() + 1
            },
            old(self).free_ids().len() == 0 && old(self).capacity() == u32::MAX ==> {
                &&& r is None
                &&& final(self).free_ids() == old(self).free_ids()
                &&& final(self).capacity() == old(self).capacity()
            },
            r matches Some(id) ==> !is_free_gen(id.1) && id.0 < final(self).capacity(),
    {
        match self.free_list.pop() {
            Some(id) => {
                let ghost k = old(self).free_list@.len() - 1;
                assert(id == old(self).free_list@[k]);
                assert(old(self).free_list@[k].0 < old(self).capacity);
                Some(id.allocate())
            },
            None => {
                if self.capacity == u32::MAX {
                    return None;
                }
                let index = self.capacity;
                self.capacity = index + 1;
                assert(!is_free_gen(0u32)) by (bit_vector);
                Some(EntityId::new(index))
            },
        }
    }

    /// Takes back a freed id.
    pub fn free(&mut self, id: EntityId)
        requires
            old(self).wf(),
            is_free_gen(id.1),
            id.0 < old(self).capacity(),
        ensures
            final(self).wf(),
            final(self).free_ids() == old(self).free_ids().push(id),
            final(self).capacity() == old(self).capacity(),
    {
        self.free_list.push(id);
    }
}

/// An index handed out again after its entity was despawned comes back
/// under another generation: the despawned id does not name the new entity.
pub proof fn lemma_reuse_changes_id(id: EntityId)
    requires
        !is_free_gen(id.1),
    ensures
        ({
            let freed = EntityId(id.0, (id.1 + 1) as u32 | 0x8000_0000u32);
            &&& is_free_gen(freed.1)
            &&& EntityId(freed.0, freed.1 & !0x8000_0000u32) != id
        }),
{
    let g = id.1;
    assert(((g + 1) as u32 | 0x8000_0000u32) & !0x8000_0000u32 != g) by (bit_vector)
        requires g & 0x8000_0000u32 == 0;
    assert(((g + 1) as u32 | 0x8000_0000u32) & 0x8000_0000u32 != 0) by (bit_vector);
}

} // verus!
