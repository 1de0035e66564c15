//! The main schedule: on its first run it runs the startup schedules, and
//! on every run the update schedules, in order.

use vstd::prelude::*;

use crate::app::app::App;
use crate::app::plugin::Plugin;
use crate::schedule::executor::Executors;
use crate::schedule::planner::SystemMeta;
use crate::schedule::schedule::{Schedule, ScheduleLabel};
use crate::system::system::System;
use crate::util::label::LabelKey;
use crate::world::world::World;

verus! {

#[derive(Clone, Copy, Debug, PartialEq, Eq, Hash)]
pub struct Main;

#[derive(Clone, Copy, Debug, PartialEq, Eq, Hash)]
pub struct PreStartup;

#[derive(Clone, Copy, Debug, PartialEq, Eq, Hash)]
pub struct Startup;

#[derive(Clone, Copy, Debug, PartialEq, Eq, Hash)]
pub struct PostStartup;

#[derive(Clone, Copy, Debug, PartialEq, Eq, Hash)]
pub struct First;

#[derive(Clone, Copy, Debug, PartialEq, Eq, Hash)]
pub struct PreUpdate;

#[derive(Clone, Copy, Debug, PartialEq, Eq, Hash)]
pub struct Update;

#[derive(Clone, Copy, Debug, PartialEq, Eq, Hash)]
pub struct PostUpdate;

#[derive(Clone, Copy, Debug, PartialEq, Eq, Hash)]
pub struct Last;

impl ScheduleLabel for Main {}
impl ScheduleLabel for PreStartup {}
impl ScheduleLabel for Startup {}
impl ScheduleLabel for PostStartup {}
impl ScheduleLabel for First {}
impl ScheduleLabel for PreUpdate {}
impl ScheduleLabel for Update {}
impl ScheduleLabel for PostUpdate {}
impl ScheduleLabel for Last {}

/// The update schedules the main schedule runs, in order.
pub struct MainSchedule {
    schedules: Vec<LabelKey>,
}

impl MainSchedule {
    pub closed spec fn labels(&self) -> Seq<LabelKey> {
        self.schedules@
    }

    pub fn schedules(&self) -> (r: &Vec<LabelKey>)
        ensures
            r@ == self.labels(),
    {
        &self.schedules
    }
}

impl Default for MainSchedule {
    fn default() -> (r: MainSchedule)
        ensures
            r.labels().len() == 5,
    {
        let mut schedules: Vec<LabelKey> = Vec::new();
        schedules.push(LabelKey::of::<First>(0));
        schedules.push(LabelKey::of::<PreUpdate>(0));
        schedules.push(LabelKey::of::<Update>(0));
        schedules.push(LabelKey::of::<PostUpdate>(0));
        schedules.push(LabelKey::of::<Last>(0));
        MainSchedule { schedules }
    }
}

fn copy_keys(v: &Vec<LabelKey>) -> (r: Vec<LabelKey>)
    ensures
        r@ == v@,
{
    let mut r: Vec<LabelKey> = Vec::new();
    let mut i: usize = 0;
    while i < v.len()
        invariant
            i <= v@.len(),
            r@ == v@.take(i as int),
        decreases v@.len() - i,
    {
        r.push(v[i]);
        assert(r@ =~= v@.take(i + 1));
        i = i + 1;
    }
    assert(v@.take(v@.len() as int) =~= v@);
    r
}

/// The system of the main schedule.
pub struct MainSystem {
    is_init: bool,
}

impl MainSystem {
    /// Whether the startup schedules have been run.
    pub closed spec fn started(&self) -> bool {
        self.is_init
    }
}

impl System for MainSystem {
    fn init(&mut self, meta: &mut SystemMeta, world: &mut World) {
        meta.set_exclusive();
    }

    /// Runs the startup schedules on the first run only, then the main
    /// schedule's labels in order.
    fn run(&mut self, world: &mut World)
        ensures
            final(self).started(),
    {
        if !self.is_init {
            self.is_init = true;
            let _ = world.try_run_schedule(PreStartup);
            let _ = world.try_run_schedule(Startup);
            let _ = world.try_run_schedule(PostStartup);
        }
        let labels = match world.get_resource::<MainSchedule>() {
            Some(main) => copy_keys(main.schedules()),
            None => Vec::new(),
        };
        let mut i: usize = 0;
        while i < labels.len()
            invariant
                world.wf(),
            decreases labels@.len() - i,
        {
            let _ = world.try_run_schedule_key(&labels[i]);
            i = i + 1;
        }
    }

    fn flush(&mut self, world: &mut World) {
    }
}

/// Adds the main schedule, run by a single executor.
pub struct MainSchedulePlugin;

impl Plugin for MainSchedulePlugin {
    fn build(&self, app: &mut App) {
        let mut main_schedule = Schedule::new();
        main_schedule.set_executor(Executors::Single);
        main_schedule.add_system(MainSystem { is_init: false });
        app.schedule(Main, main_schedule);
        app.init_resource::<MainSchedule>();
    }
}

} // verus!
