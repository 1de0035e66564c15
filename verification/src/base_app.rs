//! A small app over the core alone: one main schedule whose systems run in
//! three chained phases, `First`, `Main` and `Last`; a system that names
//! no phase runs in `Main`.

use vstd::prelude::*;

use crate::schedule::phase::{IntoPhaseConfigs, Phase};
use crate::schedule::schedule::{Schedule, ScheduleLabel, Schedules};
use crate::schedule::system::{IntoSystemConfig, SystemConfigs};
use crate::util::label::LabelKey;
use crate::world::world::World;

verus! {

pub struct BaseApp {
    world: World,
}

/// The label of a base app's schedule.
#[derive(Clone, Copy, Debug, PartialEq, Eq, Hash)]
pub enum BaseSchedule {
    Main,
}

impl ScheduleLabel for BaseSchedule {}

/// The phases of a base app's schedule, in the order they run.
#[derive(Clone, Copy, Debug, PartialEq, Eq, Hash)]
pub enum BasePhases {
    First,
    Main,
    Last,
}

impl Phase for BasePhases {
    fn phase_key(&self) -> (r: LabelKey)
        ensures
            r.value == match self {
                BasePhases::First => 0u64,
                BasePhases::Main => 1u64,
                BasePhases::Last => 2u64,
            },
    {
        match self {
            BasePhases::First => LabelKey::of::<BasePhases>(0),
            BasePhases::Main => LabelKey::of::<BasePhases>(1),
            BasePhases::Last => LabelKey::of::<BasePhases>(2),
        }
    }
}

impl BasePhases {
    /// A schedule with the three phases chained.
    fn main_schedule() -> (r: Schedule)
        ensures
            r.system_count() == 0,
    {
        let mut schedule = Schedule::new();
        schedule.add_phases((BasePhases::First, BasePhases::Main, BasePhases::Last).chain());
        schedule
    }
}

/// Places each system that names no phase in phase `key`.
fn with_default_phase(configs: SystemConfigs, key: LabelKey) -> (r: SystemConfigs)
    ensures
        r.systems@.len() == configs.systems@.len(),
        forall|i: int| 0 <= i < configs.systems@.len() ==> (#[trigger] r.systems@[i]).phases@
            == if configs.systems@[i].phases@.len() == 0 { seq![key] } else { configs.systems@[i].phases@ },
{
    let mut systems = configs.systems;
    let ghost s0 = systems@;
    let mut k: usize = 0;
    while k < systems.len()
        invariant
            k <= systems@.len(),
            systems@.len() == s0.len(),
            forall|i: int| 0 <= i < k ==> (#[trigger] systems@[i]).phases@
                == if s0[i].phases@.len() == 0 { seq![key] } else { s0[i].phases@ },
            forall|i: int| k <= i < s0.len() ==> (#[trigger] systems@[i]).phases@ == s0[i].phases@,
        decreases systems@.len() - k,
    {
        if systems[k].phases.len() == 0 {
            let mut phases: Vec<LabelKey> = Vec::new();
            phases.push(key);
            std::mem::swap(&mut phases, &mut systems[k].phases);
        }
        k = k + 1;
    }
    SystemConfigs { systems }
}

impl BaseApp {
    pub closed spec fn wf(&self) -> bool {
        self.world.wf()
    }

    /// An app whose schedules hold the base schedule.
    pub fn new() -> (r: BaseApp)
        ensures
            r.wf(),
    {
        BaseApp::default()
    }

    /// An app with empty schedules.
    pub fn empty() -> (r: BaseApp)
        ensures
            r.wf(),
    {
        let mut world = World::new();
        world.init_resource::<Schedules>();
        BaseApp { world }
    }

    /// Adds systems to the base schedule; those that name no phase go in
    /// `BasePhases::Main`.
    pub fn add_system<M, C: IntoSystemConfig<M>>(&mut self, into_system: C) -> (r: &mut BaseApp)
        requires
            old(self).wf(),
        ensures
            r.wf(),
            *final(self) == *final(r),
    {
        let configs = with_default_phase(into_system.into_config(), BasePhases::Main.phase_key());
        match self.world.get_resource_mut::<Schedules>() {
            Some(schedules) => {
                let _ = schedules.add_system(&BaseSchedule::Main, configs);
            },
            None => {},
        }
        self
    }

    pub fn get_resource<T: 'static>(&self) -> (r: Option<&T>)
        requires
            self.wf(),
    {
        self.world.get_resource::<T>()
    }

    pub fn get_mut_resource<T: 'static>(&mut self) -> (r: Option<&mut T>)
        requires
            old(self).wf(),
        ensures
            final(self).wf(),
    {
        self.world.get_resource_mut::<T>()
    }

    pub fn resource<T: 'static>(&self) -> (r: Option<&T>)
        requires
            self.wf(),
    {
        self.world.get_resource::<T>()
    }

    pub fn resource_mut<T: 'static>(&mut self) -> (r: Option<&mut T>)
        requires
            old(self).wf(),
        ensures
            final(self).wf(),
    {
        self.world.get_resource_mut::<T>()
    }

    pub fn insert_resource<T: 'static>(&mut self, value: T)
        requires
            old(self).wf(),
        ensures
            final(self).wf(),
    {
        self.world.insert_resource(value);
    }

    /// The `T`s of the live entities that have one, in view order.
    pub fn query<T: 'static>(&mut self) -> (r: Vec<&T>)
        requires
            old(self).wf(),
    {
        self.world.query::<T>()
    }

    pub fn get_mut_schedule<L: ScheduleLabel>(&mut self, label: &L) -> (r: Option<&mut Schedule>)
        requires
            old(self).wf(),
        ensures
            final(self).wf(),
    {
        match self.world.get_resource_mut::<Schedules>() {
            Some(schedules) => schedules.get_mut(label),
            None => None,
        }
    }

    /// Runs the base schedule once, if the schedules hold it.
    pub fn tick(&mut self) -> (r: &mut BaseApp)
        requires
            old(self).wf(),
        ensures
            r.wf(),
            *final(self) == *final(r),
    {
        self.world.run_schedule(BaseSchedule::Main);
        self
    }
}

impl Default for BaseApp {
    fn default() -> (r: BaseApp)
        ensures
            r.wf(),
    {
        let mut app = BaseApp::empty();
        app.insert_resource(Schedules::new());
        match app.world.get_resource_mut::<Schedules>() {
            Some(schedules) => {
                let _ = schedules.insert(BaseSchedule::Main, BasePhases::main_schedule());
            },
            None => {},
        }
        app
    }
}

} // verus!
