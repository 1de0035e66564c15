//! A small app over the core alone: a world whose schedules hold one main
//! schedule, `Core`.

use vstd::prelude::*;
use std::any::TypeId;
use crate::resource::Resources;

use crate::entity::entity::EntityId;
use crate::entity::store::Bundle;
use crate::schedule::executor::Executors;
use crate::schedule::phase::IntoPhaseConfigs;
use crate::schedule::planner::SystemMeta;
use crate::schedule::schedule::{Schedule, ScheduleLabel, Schedules};
use crate::schedule::system::IntoSystemConfig;
use crate::system::system::{IntoSystem, System};
use crate::util::label::LabelKey;
use crate::world::world::{FromWorld, SchedErr, World};

verus! {

/// The label of a core app's main schedule.
#[derive(Clone, Copy, Debug, PartialEq, Eq, Hash)]
pub struct Core;

impl ScheduleLabel for Core {}

pub struct CoreApp {
    world: World,
    main_schedule: LabelKey,
}

impl CoreApp {
    /// The resources of the app's world.
    pub closed spec fn resources_view(&self) -> Resources {
        self.world.resources_view()
    }

    pub closed spec fn wf(&self) -> bool {
        self.world.wf()
    }

    /// An app whose schedules hold an empty `Core` schedule.
    pub fn new() -> (r: CoreApp)
        ensures
            r.wf(),
    {
        let mut app = CoreApp::empty();
        app.world.insert_resource(Schedules::new());
        match app.world.get_resource_mut::<Schedules>() {
            Some(schedules) => {
                schedules.insert(Core, Schedule::new());
            },
            None => {},
        }
        app
    }

    /// An app with empty schedules.
    pub fn empty() -> (r: CoreApp)
        ensures
            r.wf(),
    {
        let mut world = World::new();
        world.init_resource::<Schedules>();
        CoreApp { world, main_schedule: LabelKey::of::<Core>(0) }
    }

    /// Adds systems to the schedule `label`, if there is one.
    pub fn system<M, L: ScheduleLabel, C: IntoSystemConfig<M>>(&mut self, label: L, system: C)
        requires
            old(self).wf(),
        ensures
            final(self).wf(),
    {
        match self.world.get_resource_mut::<Schedules>() {
            Some(schedules) => {
                let _ = schedules.add_system(&label, system);
            },
            None => {},
        }
    }

    /// Adds phases to the schedule `label`, if there is one.
    pub fn phase<L: ScheduleLabel, C: IntoPhaseConfigs>(&mut self, label: L, into_phases: C)
        requires
            old(self).wf(),
        ensures
            final(self).wf(),
    {
        match self.world.get_resource_mut::<Schedules>() {
            Some(schedules) => {
                let _ = schedules.add_phases(&label, into_phases);
            },
            None => {},
        }
    }

    pub fn get_resource<T: 'static>(&self) -> (r: Option<&T>)
        requires
            self.wf(),
    {
        self.world.get_resource::<T>()
    }

    pub fn get_mut_resource<T: 'static>(&mut self) -> (r: Option<&mut T>)
        requires
            old(self).wf(),
        ensures
            final(self).wf(),
    {
        self.world.get_resource_mut::<T>()
    }

    pub fn resource<T: 'static>(&self) -> (r: Option<&T>)
        requires
            self.wf(),
    {
        self.world.get_resource::<T>()
    }

    pub fn resource_mut<T: 'static>(&mut self) -> (r: Option<&mut T>)
        requires
            old(self).wf(),
        ensures
            final(self).wf(),
    {
        self.world.get_resource_mut::<T>()
    }

    pub fn contains_resource<T: 'static>(&self) -> (r: bool)
        requires
            self.wf(),
    {
        self.world.contains_resource::<T>()
    }

    /// Inserts the resource `T` made from the world, unless it is present:
    /// where it is, the app stays exactly as it was.
    pub fn init_resource<T: FromWorld + 'static>(&mut self)
        requires
            old(self).wf(),
        ensures
            final(self).wf(),
            exists|k: TypeId| {
                &&& #[trigger] old(self).resources_view().holds(k) ==> *final(self) == *old(self)
                &&& !old(self).resources_view().holds(k) ==> final(self).resources_view().holds(k)
            },
    {
        self.world.init_resource::<T>();
        proof {
            let k = choose|k: TypeId| {
                &&& #[trigger] old(self).world.resources_view().holds(k) ==> self.world == old(self).world
                &&& !old(self).world.resources_view().holds(k) ==> self.world.resources_view().holds(k)
            };
            if old(self).resources_view().holds(k) {
                assert(self.world == old(self).world);
                assert(*self == *old(self));
            } else {
                assert(self.resources_view().holds(k));
            }
        }
    }

    pub fn insert_resource<T: 'static>(&mut self, value: T)
        requires
            old(self).wf(),
        ensures
            final(self).wf(),
    {
        self.world.insert_resource(value);
    }

    /// A new entity holding `bundle`'s components.
    pub fn spawn<T: Bundle>(&mut self, bundle: T) -> (r: Option<EntityId>)
        requires
            old(self).wf(),
        ensures
            final(self).wf(),
    {
        self.world.spawn(bundle)
    }

    /// The `T`s of the live entities that have one, in view order.
    pub fn query<T: 'static>(&mut self) -> (r: Vec<&T>)
        requires
            old(self).wf(),
    {
        self.world.query::<T>()
    }

    pub fn get_mut_schedule<L: ScheduleLabel>(&mut self, label: &L) -> (r: Option<&mut Schedule>)
        requires
            old(self).wf(),
        ensures
            final(self).wf(),
    {
        match self.world.get_resource_mut::<Schedules>() {
            Some(schedules) => schedules.get_mut(label),
            None => None,
        }
    }

    /// Runs one system once on the world: initializes it, runs it and
    /// flushes it.
    pub fn run_system<M, S: IntoSystem<M>>(&mut self, into_system: S)
        requires
            old(self).wf(),
        ensures
            final(self).wf(),
    {
        let mut system = IntoSystem::into_system(into_system);
        let mut meta = SystemMeta::empty();
        system.init(&mut meta, &mut self.world);
        system.run(&mut self.world);
        system.flush(&mut self.world);
    }

    /// Runs the main schedule once; an error when the schedules hold none.
    pub fn tick(&mut self) -> (r: Result<(), SchedErr>)
        requires
            old(self).wf(),
        ensures
            final(self).wf(),
    {
        let key = self.main_schedule;
        self.world.try_run_schedule_key(&key)
    }

    /// Makes `executor` the executor of every schedule.
    pub fn set_executor(&mut self, executor: Executors)
        requires
            old(self).wf(),
        ensures
            final(self).wf(),
    {
        match self.world.get_resource_mut::<Schedules>() {
            Some(schedules) => schedules.set_executor(executor),
            None => {},
        }
    }
}

impl Default for CoreApp {
    fn default() -> (r: CoreApp)
        ensures
            r.wf(),
    {
        CoreApp::new()
    }
}

} // verus!
