//! The world: resources, including the world's schedules.

use vstd::prelude::*;

use crate::util::label::{LabelKey, type_id_of};

use crate::resource::{Resources, ResourceId, inserted};
use std::any::TypeId;
use crate::entity::entity::EntityId;
use crate::entity::store::{Bundle, Component, ComponentId, EntityStore};
use crate::world::entity_ref::{EntityMut, EntityRef};
use crate::entity::view::{QueryView, ViewPlan};
use crate::schedule::schedule::{Schedule, Schedules, ScheduleLabel};

verus! {

/// A value that can make itself from the world.
pub trait FromWorld: Sized {
    fn init(world: &mut World) -> (r: Self)
        requires
            old(world).wf(),
        ensures
            final(world).wf(),
    ;
}

impl<T: Default> FromWorld for T {
    fn init(world: &mut World) -> T {
        T::default()
    }
}

/// Calls `f(world, schedule)` and gives back what it returned.  The
/// world's fields are private, so `f` reaches them only through the world's
/// methods, each of which keeps it well formed.
#[verifier::external_body]
fn call_eval<R, F: FnOnce(&mut World, &mut Schedule) -> R>(f: F, world: &mut World, schedule: &mut Schedule) -> (r: R)
    requires
        old(world).wf(),
    ensures
        final(world).wf(),
{
    f(world, schedule)
}

#[derive(Debug)]
pub enum SchedErr {
    UnknownSchedule,
}

pub struct World {
    resources: Resources,
    store: EntityStore,
    store_lent: bool,
}

impl World {
    pub closed spec fn wf(&self) -> bool {
        &&& self.resources.wf()
        &&& self.store.wf()
    }

    /// The world's resources.
    pub closed spec fn resources_view(&self) -> Resources {
        self.resources
    }

    /// Whether the entity store is out of the world, lent to a query.
    pub closed spec fn store_lent(&self) -> bool {
        self.store_lent
    }

    pub closed spec fn store_view(&self) -> EntityStore {
        self.store
    }

    pub fn new() -> (r: World)
        ensures
            r.wf(),
    {
        World { resources: Resources::new(), store: EntityStore::new(), store_lent: false }
    }

    pub fn get_resource<T: 'static>(&self) -> (r: Option<&T>)
        requires
            self.wf(),
    {
        self.resources.get::<T>()
    }

    pub fn get_resource_mut<T: 'static>(&mut self) -> (r: Option<&mut T>)
        requires
            old(self).wf(),
        ensures
            final(self).wf(),
    {
        self.resources.get_mut::<T>()
    }

    /// The resource of type `T`; present if it was inserted and not removed.
    pub fn resource<T: 'static>(&self) -> (r: Option<&T>)
        requires
            self.wf(),
    {
        self.resources.get::<T>()
    }

    pub fn resource_mut<T: 'static>(&mut self) -> (r: Option<&mut T>)
        requires
            old(self).wf(),
        ensures
            final(self).wf(),
    {
        self.resources.get_mut::<T>()
    }

    pub fn contains_resource<T: 'static>(&self) -> (r: bool)
        requires
            self.wf(),
    {
        self.resources.contains::<T>()
    }

    /// Inserts the value `T` makes from the world, unless `T` is present.
    /// Where `T` is present the world stays exactly as it was; where it is
    /// not, it is present after.
    pub fn init_resource<T: FromWorld + 'static>(&mut self)
        requires
            old(self).wf(),
        ensures
            final(self).wf(),
            exists|k: TypeId| {
                &&& #[trigger] old(self).resources_view().holds(k) ==> *final(self) == *old(self)
                &&& !old(self).resources_view().holds(k) ==> final(self).resources_view().holds(k)
            },
    {
        let key = type_id_of::<T>();
        if self.resources.contains_key(&key) {
            proof {
                assert(old(self).resources_view().holds(key));
            }
            return;
        }
        proof {
            assert(!old(self).resources_view().holds(key));
        }
        let value = T::init(self);
        self.resources.insert_keyed(key, value);
        proof {
            assert(self.resources_view().holds(key));
        }
    }

    pub fn insert_resource<T: 'static>(&mut self, value: T)
        requires
            old(self).wf(),
        ensures
            final(self).wf(),
            exists|k: TypeId| #[trigger] inserted(old(self).resources_view(), final(self).resources_view(), k),
            final(self).store_view() == old(self).store_view(),
    {
        self.resources.insert::<T>(value);
        proof {
            let k = choose|k: TypeId| inserted(old(self).resources, self.resources, k);
            assert(inserted(old(self).resources_view(), self.resources_view(), k));
        }
    }

    pub fn insert_resource_non_send<T: 'static>(&mut self, value: T)
        requires
            old(self).wf(),
        ensures
            final(self).wf(),
            exists|k: TypeId| #[trigger] inserted(old(self).resources_view(), final(self).resources_view(), k),
            final(self).store_view() == old(self).store_view(),
    {
        self.resources.insert_non_send::<T>(value);
        proof {
            let k = choose|k: TypeId| inserted(old(self).resources, self.resources, k);
            assert(inserted(old(self).resources_view(), self.resources_view(), k));
        }
    }

    pub fn remove_resource<T: 'static>(&mut self) -> (r: Option<T>)
        requires
            old(self).wf(),
        ensures
            final(self).wf(),
            final(self).resources_view().keys() == old(self).resources_view().keys(),
            final(self).resources_view().present() == old(self).resources_view().present()
                || exists|i: int| 0 <= i < old(self).resources_view().keys().len()
                    && final(self).resources_view().present() == old(self).resources_view().present().update(i, false),
            r is Some ==> exists|i: int| 0 <= i < old(self).resources_view().keys().len()
                && #[trigger] old(self).resources_view().present()[i]
                && final(self).resources_view().present() == old(self).resources_view().present().update(i, false),
            final(self).store_view() == old(self).store_view(),
    {
        let r = self.resources.remove::<T>();
        proof {
            if r is Some {
                let i = choose|i: int| 0 <= i < old(self).resources.keys().len() && #[trigger] old(self).resources.present()[i]
                    && self.resources.present() == old(self).resources.present().update(i, false);
                assert(old(self).resources_view().present()[i]);
            }
        }
        r
    }

    pub fn get_resource_id<T: 'static>(&self) -> (r: Option<ResourceId>)
        requires
            self.wf(),
    {
        self.resources.get_resource_id::<T>()
    }
}

impl World {
    /// Labels `schedule` with `label` among the world's schedules.
    pub fn add_schedule<L: ScheduleLabel>(&mut self, label: L, schedule: Schedule)
        requires
            old(self).wf(),
        ensures
            final(self).wf(),
    {
        match self.resources.get_mut::<Schedules>() {
            Some(schedules) => {
                schedules.insert(label, schedule);
            },
            None => {},
        }
    }

    /// Runs the schedule labelled `key` once: takes it out of the world's
    /// schedules, ticks it on the world, and puts it back.
    pub fn try_run_schedule_key(&mut self, key: &LabelKey) -> (r: Result<(), SchedErr>)
        requires
            old(self).wf(),
        ensures
            final(self).wf(),
    {
        let entry = match self.resources.get_mut::<Schedules>() {
            Some(schedules) => schedules.remove_entry_by_key(key),
            None => None,
        };
        match entry {
            Some((k, schedule)) => {
                let mut schedule = schedule;
                let _ = schedule.tick(self);
                match self.resources.get_mut::<Schedules>() {
                    Some(schedules) => {
                        schedules.insert_by_key(k, schedule);
                    },
                    None => {},
                }
                Ok(())
            },
            None => Err(SchedErr::UnknownSchedule),
        }
    }

    /// Takes the schedule `label` out of the world's schedules, calls
    /// `fun` on the world and the schedule, puts the schedule back, and
    /// gives what `fun` returned; an error, with `fun` not called, when
    /// there is no such schedule.
    pub fn try_eval_schedule<L: ScheduleLabel, R, F: FnOnce(&mut World, &mut Schedule) -> R>(
        &mut self,
        label: L,
        fun: F,
    ) -> (r: Result<R, SchedErr>)
        requires
            old(self).wf(),
        ensures
            final(self).wf(),
    {
        let key = label.label_key();
        let entry = match self.resources.get_mut::<Schedules>() {
            Some(schedules) => schedules.remove_entry_by_key(&key),
            None => None,
        };
        match entry {
            Some((k, schedule)) => {
                let mut schedule = schedule;
                let value = call_eval(fun, self, &mut schedule);
                match self.resources.get_mut::<Schedules>() {
                    Some(schedules) => {
                        schedules.insert_by_key(k, schedule);
                    },
                    None => {},
                }
                Ok(value)
            },
            None => Err(SchedErr::UnknownSchedule),
        }
    }

    pub fn try_run_schedule<L: ScheduleLabel>(&mut self, label: L) -> (r: Result<(), SchedErr>)
        requires
            old(self).wf(),
        ensures
            final(self).wf(),
    {
        let key = label.label_key();
        self.try_run_schedule_key(&key)
    }

    /// Runs the schedule `label` once, if there is one.
    pub fn run_schedule<L: ScheduleLabel>(&mut self, label: L)
        requires
            old(self).wf(),
        ensures
            final(self).wf(),
    {
        let _ = self.try_run_schedule(label);
    }
}

impl World {
    pub fn store(&self) -> (r: &EntityStore)
        ensures
            *r == self.store_view(),
    {
        &self.store
    }

    /// A new entity holding `bundle`'s components; `None` when the store has
    /// no room for it.
    pub fn spawn<T: Bundle>(&mut self, bundle: T) -> (r: Option<EntityId>)
        requires
            old(self).wf(),
        ensures
            final(self).wf(),
            match r {
                Some(id) => {
                    &&& final(self).store_view().live(id)
                    &&& !old(self).store_view().live(id)
                    &&& forall|other: EntityId| other != id
                        ==> final(self).store_view().live(other) == old(self).store_view().live(other)
                },
                None => forall|other: EntityId| final(self).store_view().live(other) == old(self).store_view().live(other),
            },
    {
        self.store.spawn(bundle)
    }

    /// The component id of `T`, its column added if it is new.
    pub fn component_id<T: 'static>(&mut self) -> (r: ComponentId)
        requires
            old(self).wf(),
        ensures
            final(self).wf(),
            forall|other: EntityId| final(self).store_view().live(other) == old(self).store_view().live(other),
            r.0 < final(self).store_view().meta_view().cols().len(),
            final(self).store_view().meta_view().cols().len() >= old(self).store_view().meta_view().cols().len(),
            final(self).store_view().tables_view() == old(self).store_view().tables_view(),
            final(self).store_view().entities_view() == old(self).store_view().entities_view(),
            final(self).resources_view() == old(self).resources_view(),
    {
        let c = self.store.add_column::<T>();
        ComponentId(c.0)
    }

    /// A new entity without components.
    pub fn spawn_empty(&mut self) -> (r: Option<EntityId>)
        requires
            old(self).wf(),
        ensures
            final(self).wf(),
            r matches Some(id) ==> final(self).store_view().live(id) && !old(self).store_view().live(id),
    {
        self.store.spawn_empty()
    }

    /// The entity `id`, to read, when its index is one the store has handed
    /// out.
    pub fn get_entity(&self, id: EntityId) -> (r: Option<EntityRef<'_>>)
        ensures
            r is Some <==> (id.0 as int) < self.store_view().n_entities(),
            r matches Some(e) ==> e.spec_id() == id && e.spec_world() == *self,
    {
        match self.store.get_entity(id) {
            Some(id) => Some(EntityRef::new(id, self)),
            None => None,
        }
    }

    /// The entity `id`, to change, when its index is one the store has
    /// handed out.
    pub fn get_entity_mut(&mut self, id: EntityId) -> (r: Option<EntityMut<'_>>)
        ensures
            r is Some <==> (id.0 as int) < old(self).store_view().n_entities(),
            r matches Some(e) ==> e.spec_id() == id && e.spec_world() == *old(self)
                && *final(self) == *final(e.world),
            r is None ==> *final(self) == *old(self),
    {
        match self.store.get_entity(id) {
            Some(id) => Some(EntityMut::new(id, self)),
            None => None,
        }
    }

    /// The entity `id`, to read; its index must be one the store has handed
    /// out.
    pub fn entity(&mut self, id: EntityId) -> (r: EntityRef<'_>)
        requires
            (id.0 as int) < old(self).store_view().n_entities(),
        ensures
            r.spec_id() == id,
            r.spec_world() == *old(self),
    {
        EntityRef::new(id, self)
    }

    /// The entity `id`, to change; its index must be one the store has
    /// handed out.
    pub fn entity_mut(&mut self, id: EntityId) -> (r: EntityMut<'_>)
        requires
            (id.0 as int) < old(self).store_view().n_entities(),
        ensures
            r.spec_id() == id,
            r.spec_world() == *old(self),
            *final(self) == *final(r.world),
    {
        EntityMut::new(id, self)
    }

    /// Adds the component `value` to the live entity `id`, replacing the
    /// `T` it has; false, with no entity changed, when `id` is not live or
    /// the store has no room.
    pub fn insert<T: Component>(&mut self, id: EntityId, value: T) -> (r: bool)
        requires
            old(self).wf(),
        ensures
            final(self).wf(),
            forall|other: EntityId| final(self).store_view().live(other) == old(self).store_view().live(other),
            r ==> old(self).store_view().live(id),
    {
        self.store.extend(id, value)
    }

    /// The `T` of entity `id`, if it is live and has one.
    pub fn get<T: 'static>(&self, id: EntityId) -> (r: Option<&T>)
        requires
            self.wf(),
        ensures
            r is Some ==> self.store_view().live(id),
    {
        self.store.get::<T>(id)
    }

    /// The `T` of entity `id`, to change in place, if it is live and has one.
    pub fn get_mut<T: 'static>(&mut self, id: EntityId) -> (r: Option<&mut T>)
        requires
            old(self).wf(),
        ensures
            final(self).wf(),
            r is Some ==> old(self).store_view().live(id),
            forall|other: EntityId| final(self).store_view().live(other) == old(self).store_view().live(other),
    {
        self.store.get_mut::<T>(id)
    }

    /// Despawns entity `id`; false when it is not live.
    pub fn despawn(&mut self, id: EntityId) -> (r: bool)
        requires
            old(self).wf(),
        ensures
            final(self).wf(),
            r == old(self).store_view().live(id),
            !final(self).store_view().live(id),
            forall|other: EntityId| other != id
                ==> final(self).store_view().live(other) == old(self).store_view().live(other),
    {
        self.store.despawn(id)
    }

    /// Takes the entity store out of the world, leaving an empty one in its
    /// place until it is put back; `None` while it is out.
    pub fn take_store(&mut self) -> (r: Option<EntityStore>)
        requires
            old(self).wf(),
        ensures
            final(self).wf(),
            r matches Some(store) ==> store.wf() && store == old(self).store_view(),
            (r is Some) == !old(self).store_lent(),
            final(self).store_lent(),
            r is None ==> *final(self) == *old(self),
    {
        if self.store_lent {
            return None;
        }
        let mut store = EntityStore::new();
        std::mem::swap(&mut store, &mut self.store);
        self.store_lent = true;
        Some(store)
    }

    /// Puts back a store that `take_store` took.
    pub fn put_store(&mut self, store: EntityStore)
        requires
            old(self).wf(),
            store.wf(),
        ensures
            final(self).wf(),
            final(self).store_view() == store,
            !final(self).store_lent(),
    {
        self.store = store;
        self.store_lent = false;
    }

    /// The plan of view `V` over the world's store.
    pub fn view_plan_of<V: QueryView>(&mut self) -> (r: Option<ViewPlan>)
        requires
            old(self).wf(),
        ensures
            final(self).wf(),
            r matches Some(p) ==> p.view.0 < final(self).store_view().meta_view().views_v().len(),
            (r is Some) <== (old(self).store_view().meta_view().views_v().len() < usize::MAX
                && old(self).store_view().meta_view().vts().len()
                    < usize::MAX - old(self).store_view().meta_view().tabs().len()),
            final(self).resources_view() == old(self).resources_view(),
    {
        self.store.view_plan_of::<V>()
    }

    /// What `V` gives of each live entity whose table holds `V`'s columns,
    /// in view order.
    pub fn view<V: QueryView>(&mut self) -> (r: Vec<V::Item<'_>>)
        requires
            old(self).wf(),
        ensures
            final(self).wf(),
    {
        self.store.iter_view::<V>()
    }

    /// The `T`s of the live entities that have one, in view order.
    pub fn query<T: 'static>(&mut self) -> (r: Vec<&T>)
        requires
            old(self).wf(),
        ensures
            final(self).wf(),
    {
        self.store.view_values::<T>()
    }

    /// The live entities that have a `T`, in view order.
    pub fn query_ids<T: 'static>(&mut self) -> (r: Vec<EntityId>)
        requires
            old(self).wf(),
        ensures
            final(self).wf(),
            forall|k: int| 0 <= k < r@.len() ==> final(self).store_view().live(#[trigger] r@[k]),
            forall|other: EntityId| final(self).store_view().live(other) == old(self).store_view().live(other),
    {
        self.store.view_ids::<T>()
    }
}

} // verus!
