//! The app: a world, its schedules and plugins, and the runner that drives
//! the main schedule.

use vstd::prelude::*;
use crate::resource::Resources;
use std::any::TypeId;

use crate::app::event::{Event, Events, EventsView};
use crate::app::main_schedule::{Main, MainSchedulePlugin, First};
use crate::app::plugin::{Plugin, Plugins};
use crate::param::res::ResMut;
use crate::schedule::planner::SystemMeta;
use crate::schedule::schedule::{Schedule, Schedules, ScheduleLabel};
use crate::schedule::system::IntoSystemConfig;
use crate::system::system::System;
use crate::util::label::{type_id_of, LabelKey};
use crate::world::world::{World, FromWorld};
use crate::entity::entity::EntityId;
use crate::entity::store::Bundle;

verus! {

/// Holds the function that runs an app, a boxed `FnOnce`; it is reached
/// only through the functions below.
#[verifier::external_body]
pub struct Runner {
    f: Box<dyn FnOnce(App)>,
}

/// Boxes `f` (`Box::new`).
#[verifier::external_body]
fn runner_new<F: FnOnce(App) + 'static>(f: F) -> (r: Runner) {
    Runner { f: Box::new(f) }
}

/// Calls the runner's function on `app`; what it does is up to it.
#[verifier::external_body]
fn runner_call(runner: Runner, app: App)
    requires
        app.wf(),
{
    (runner.f)(app)
}

/// The system that starts a new tick of the events of type `E`.
pub struct EventUpdateSystem<E> {
    marker: std::marker::PhantomData<E>,
    /// The world's events before and after the last run that found them.
    last: Ghost<Option<(EventsView<E>, EventsView<E>)>>,
}

/// `after` is `before` advanced by one tick: the events sent become the
/// previous tick's and the new tick starts empty.
pub open spec fn advanced_once<E>(before: EventsView<E>, after: EventsView<E>) -> bool {
    &&& after.prev == before.next
    &&& after.next == Seq::<E>::empty()
    &&& after.ticks == before.ticks + 1
}

impl<E> EventUpdateSystem<E> {
    pub fn new() -> (r: EventUpdateSystem<E>)
        ensures
            r.last_update() is None,
            r.consistent(),
    {
        EventUpdateSystem { marker: std::marker::PhantomData, last: Ghost(None) }
    }

    /// The world's events before and after the last run that found them.
    pub closed spec fn last_update(&self) -> Option<(EventsView<E>, EventsView<E>)> {
        self.last@
    }

    /// The last run that found the events advanced them by one tick, unless
    /// their tick count was at its limit.
    pub closed spec fn consistent(&self) -> bool {
        self.last@ matches Some((before, after)) ==> {
            &&& before.ticks < usize::MAX ==> advanced_once(before, after)
            &&& before.ticks == usize::MAX ==> after == before
        }
    }
}

/// A run of the update system that found the events moved the events sent
/// since the last update to the previous tick, dropped those of the tick
/// before, left the new tick empty, and counted one tick.
pub proof fn law_event_update_advances_once<E>(s: EventUpdateSystem<E>, before: EventsView<E>, after: EventsView<E>)
    requires
        s.consistent(),
        s.last_update() == Some((before, after)),
        before.ticks < usize::MAX,
    ensures
        after.prev == before.next,
        after.next == Seq::<E>::empty(),
        after.ticks == before.ticks + 1,
{
}

impl<E: Event> System for EventUpdateSystem<E> {
    fn init(&mut self, meta: &mut SystemMeta, world: &mut World) {
    }

    /// Advances the world's events of type `E` by exactly one tick.
    fn run(&mut self, world: &mut World)
        ensures
            final(self).consistent(),
            final(self).last_update() matches Some((before, after)) ==> {
                &&& before.ticks < usize::MAX ==> advanced_once(before, after)
                &&& before.ticks == usize::MAX ==> after == before
            },
    {
        match world.get_resource_mut::<Events<E>>() {
            Some(events) => {
                let ghost before = events@;
                if events.ticks() < usize::MAX {
                    Events::update(ResMut::new(events));
                }
                self.last = Ghost(Some((before, events@)));
            },
            None => {
                self.last = Ghost(None);
            },
        }
    }

    fn flush(&mut self, world: &mut World) {
    }
}

pub struct App {
    world: World,
    plugins: Plugins,
    main_schedule: LabelKey,
    runner: Option<Runner>,
}

/// Finishes and cleans up the app's plugins, then runs the main schedule
/// once.
fn run_once(app: App)
    requires
        app.wf(),
{
    let mut app = app;
    app.finish();
    app.cleanup();
    app.tick();
}

impl App {
    /// The resources of the app's world.
    pub closed spec fn resources_view(&self) -> Resources {
        self.world.resources_view()
    }

    pub closed spec fn wf(&self) -> bool {
        &&& self.world.wf()
        &&& self.plugins.names().no_duplicates()
    }

    /// The types of the unique plugins the app has built, each once.
    pub closed spec fn plugin_names(&self) -> Seq<std::any::TypeId> {
        self.plugins.names()
    }

    pub fn new() -> (r: App)
        ensures
            r.wf(),
    {
        let mut app = App::empty();
        app.init_resource::<Schedules>();
        app.plugin(MainSchedulePlugin);
        app
    }

    /// An app without even the main schedule.
    pub fn empty() -> (r: App)
        ensures
            r.wf(),
            r.plugin_names() == Seq::<TypeId>::empty(),
    {
        let mut world = World::new();
        world.init_resource::<Schedules>();
        App {
            world,
            plugins: Plugins::new(),
            main_schedule: LabelKey::of::<Main>(0),
            runner: Some(runner_new(run_once)),
        }
    }

    /// Adds systems to the schedule `label`, creating the schedule if there
    /// is none.
    pub fn system<M, L: ScheduleLabel, C: IntoSystemConfig<M>>(&mut self, label: L, into_system: C)
        requires
            old(self).wf(),
        ensures
            final(self).wf(),
    {
        match self.world.get_resource_mut::<Schedules>() {
            Some(schedules) => {
                let key = label.label_key();
                if schedules.get_by_key(&key).is_some() {
                    let _ = schedules.add_system(&label, into_system);
                } else {
                    let mut schedule = Schedule::new();
                    schedule.add_system(into_system);
                    schedules.insert_by_key(key, schedule);
                }
            },
            None => {},
        }
    }

    /// A new entity holding `bundle`'s components.
    pub fn spawn<T: Bundle>(&mut self, bundle: T) -> (r: Option<EntityId>)
        requires
            old(self).wf(),
        ensures
            final(self).wf(),
    {
        self.world.spawn(bundle)
    }

    pub fn insert_resource<T: 'static>(&mut self, value: T)
        requires
            old(self).wf(),
        ensures
            final(self).wf(),
    {
        self.world.insert_resource(value);
    }

    /// Inserts the resource `T` made from the world, unless it is present:
    /// where it is, the app stays exactly as it was.
    pub fn init_resource<T: FromWorld + 'static>(&mut self)
        requires
            old(self).wf(),
        ensures
            final(self).wf(),
            exists|k: TypeId| {
                &&& #[trigger] old(self).resources_view().holds(k) ==> *final(self) == *old(self)
                &&& !old(self).resources_view().holds(k) ==> final(self).resources_view().holds(k)
            },
    {
        self.world.init_resource::<T>();
        proof {
            let k = choose|k: TypeId| {
                &&& #[trigger] old(self).world.resources_view().holds(k) ==> self.world == old(self).world
                &&& !old(self).world.resources_view().holds(k) ==> self.world.resources_view().holds(k)
            };
            if old(self).resources_view().holds(k) {
                assert(self.world == old(self).world);
                assert(*self == *old(self));
            } else {
                assert(self.resources_view().holds(k));
            }
        }
    }

    pub fn get_resource<T: 'static>(&self) -> (r: Option<&T>)
        requires
            self.wf(),
    {
        self.world.get_resource::<T>()
    }

    pub fn get_mut_resource<T: 'static>(&mut self) -> (r: Option<&mut T>)
        requires
            old(self).wf(),
        ensures
            final(self).wf(),
    {
        self.world.get_resource_mut::<T>()
    }

    pub fn resource<T: 'static>(&self) -> (r: Option<&T>)
        requires
            self.wf(),
    {
        self.world.resource::<T>()
    }

    pub fn resource_mut<T: 'static>(&mut self) -> (r: Option<&mut T>)
        requires
            old(self).wf(),
        ensures
            final(self).wf(),
    {
        self.world.resource_mut::<T>()
    }

    pub fn remove_resource<T: 'static>(&mut self) -> (r: Option<T>)
        requires
            old(self).wf(),
        ensures
            final(self).wf(),
    {
        self.world.remove_resource::<T>()
    }

    pub fn insert_resource_non_send<T: 'static>(&mut self, value: T)
        requires
            old(self).wf(),
        ensures
            final(self).wf(),
    {
        self.world.insert_resource_non_send(value);
    }

    /// Inserts the resource `T` made from the world, unless it is present:
    /// where it is, the app stays exactly as it was.
    pub fn init_resource_non_send<T: FromWorld + 'static>(&mut self)
        requires
            old(self).wf(),
        ensures
            final(self).wf(),
            exists|k: TypeId| {
                &&& #[trigger] old(self).resources_view().holds(k) ==> *final(self) == *old(self)
                &&& !old(self).resources_view().holds(k) ==> final(self).resources_view().holds(k)
            },
    {
        self.world.init_resource::<T>();
        proof {
            let k = choose|k: TypeId| {
                &&& #[trigger] old(self).world.resources_view().holds(k) ==> self.world == old(self).world
                &&& !old(self).world.resources_view().holds(k) ==> self.world.resources_view().holds(k)
            };
            if old(self).resources_view().holds(k) {
                assert(self.world == old(self).world);
                assert(*self == *old(self));
            } else {
                assert(self.resources_view().holds(k));
            }
        }
    }

    pub fn remove_resource_non_send<T: 'static>(&mut self) -> (r: Option<T>)
        requires
            old(self).wf(),
        ensures
            final(self).wf(),
    {
        self.world.remove_resource::<T>()
    }

    /// Adds the events of type `E` and the system that updates them at the
    /// start of each tick, unless they are there.
    pub fn event<E: Event>(&mut self)
        requires
            old(self).wf(),
        ensures
            final(self).wf(),
    {
        if !self.world.contains_resource::<Events<E>>() {
            self.init_resource::<Events<E>>();
            self.system(First, EventUpdateSystem::<E>::new());
        }
    }

    /// Adds and builds a plugin; a unique plugin added before is not added
    /// again.
    pub fn plugin<P: Plugin>(&mut self, plugin: P)
        requires
            old(self).wf(),
        ensures
            final(self).wf(),
            final(self).plugin_names().no_duplicates(),
    {
        if self.plugins.add_name(&plugin) {
            plugin.build(self);
        }
    }

    pub fn contains_plugin<P: Plugin>(&self) -> (r: bool) {
        let key = type_id_of::<P>();
        self.plugins.contains_key(&key)
    }

    pub fn setup(&mut self) {
    }

    /// Plugins are not kept once built, so there is nothing to finish.
    pub fn finish(&mut self)
        ensures
            old(self).wf() ==> final(self).wf(),
    {
    }

    /// Plugins are not kept once built, so there is nothing to clean up.
    pub fn cleanup(&mut self)
        ensures
            old(self).wf() ==> final(self).wf(),
    {
    }

    /// Labels a schedule.
    pub fn schedule<L: ScheduleLabel>(&mut self, label: L, schedule: Schedule)
        requires
            old(self).wf(),
        ensures
            final(self).wf(),
    {
        self.world.add_schedule(label, schedule);
    }

    /// Runs the main schedule once.
    pub fn tick(&mut self)
        requires
            old(self).wf(),
        ensures
            final(self).wf(),
    {
        let key = self.main_schedule;
        let _ = self.world.try_run_schedule_key(&key);
    }

    /// Sets the function that runs the app.
    pub fn runner<F: FnOnce(App) + 'static>(&mut self, runner: F)
        requires
            old(self).wf(),
        ensures
            final(self).wf(),
    {
        self.runner = Some(runner_new(runner));
    }

    /// Hands the app to its runner, leaving an empty app in its place.
    pub fn run(&mut self)
        requires
            old(self).wf(),
        ensures
            final(self).wf(),
            final(self).plugin_names() == Seq::<TypeId>::empty(),
    {
        let mut app = App::empty();
        std::mem::swap(&mut app, self);
        let mut runner: Option<Runner> = None;
        std::mem::swap(&mut runner, &mut app.runner);
        app.runner = Some(runner_new(run_once));
        match runner {
            Some(r) => runner_call(r, app),
            None => run_once(app),
        }
    }
}

impl Default for App {
    fn default() -> (r: App)
        ensures
            r.wf(),
    {
        App::new()
    }
}

} // verus!
