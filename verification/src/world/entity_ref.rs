//! Handles on one entity of a world.

use vstd::prelude::*;

use crate::entity::entity::EntityId;
use crate::entity::store::Component;
use crate::world::world::World;

verus! {

/// An entity of a world, to read.
pub struct EntityRef<'a> {
    id: EntityId,
    world: &'a World,
}

impl<'a> EntityRef<'a> {
    pub closed spec fn spec_id(&self) -> EntityId {
        self.id
    }

    pub closed spec fn spec_world(&self) -> World {
        *self.world
    }

    pub(crate) fn new(id: EntityId, world: &'a World) -> (r: EntityRef<'a>)
        ensures
            r.spec_id() == id,
            r.spec_world() == *world,
    {
        EntityRef { id, world }
    }

    pub fn id(&self) -> (r: EntityId)
        ensures
            r == self.spec_id(),
    {
        self.id
    }

    /// The entity's `T`, if it is live and has one.
    pub fn get<T: Component>(&self) -> (r: Option<&T>)
        requires
            self.spec_world().wf(),
        ensures
            r is Some ==> self.spec_world().store_view().live(self.spec_id()),
    {
        self.world.get::<T>(self.id)
    }
}

/// An entity of a world, to change.
pub struct EntityMut<'a> {
    /// The entity.
    pub id: EntityId,
    /// The world the entity lives in, borrowed for as long as the handle.
    pub world: &'a mut World,
}

impl<'a> EntityMut<'a> {
    pub(crate) fn new(id: EntityId, world: &'a mut World) -> (r: EntityMut<'a>)
        ensures
            r.spec_id() == id,
            r.spec_world() == *old(world),
            *final(world) == *final(r.world),
    {
        EntityMut { id, world }
    }

    pub closed spec fn spec_id(&self) -> EntityId {
        self.id
    }

    pub open spec fn spec_world(&self) -> World {
        *self.world
    }

    pub fn id(&self) -> (r: EntityId)
        ensures
            r == self.spec_id(),
    {
        self.id
    }

    /// Despawns the entity; its world is well formed after.
    pub fn despawn(&mut self)
        requires
            old(self).spec_world().wf(),
        ensures
            final(self).spec_world().wf(),
            final(self).spec_id() == old(self).spec_id(),
            !final(self).spec_world().store_view().live(old(self).spec_id()),
            forall|other: EntityId| other != old(self).spec_id()
                ==> final(self).spec_world().store_view().live(other) == old(self).spec_world().store_view().live(other),
    {
        let _ = self.world.despawn(self.id);
    }
}

} // verus!
