//! Systems as added to a schedule, with the phases they go in.

use vstd::prelude::*;

use crate::schedule::phase::Phase;
use crate::system::condition::{Condition, Conditions, IntoCondition};
use crate::system::system::{System, IntoSystem};
use crate::util::label::LabelKey;

verus! {

/// A system, the phases it goes in, and the conditions under which it runs.
pub struct SystemConfig {
    pub system: Box<dyn System>,
    pub phases: Vec<LabelKey>,
    pub conditions: Conditions,
}

/// Systems to add to a schedule.
pub struct SystemConfigs {
    pub systems: Vec<SystemConfig>,
}

impl SystemConfigs {
    pub fn new(system: Box<dyn System>) -> (r: SystemConfigs)
        ensures
            r.systems@.len() == 1,
            r.systems@[0].phases@.len() == 0,
            r.systems@[0].conditions.count() == 0,
    {
        let config = SystemConfig { system, phases: Vec::new(), conditions: Conditions::new() };
        let systems = vec![config];
        SystemConfigs { systems }
    }

    /// Places each system in phase `P`.
    pub fn phase<P: Phase>(self, phase: P) -> (r: SystemConfigs)
        ensures
            r.systems@.len() == self.systems@.len(),
            forall|i: int| 0 <= i < r.systems@.len() ==> (#[trigger] r.systems@[i]).phases@.len()
                == self.systems@[i].phases@.len() + 1,
    {
        let key = phase.phase_key();
        let mut systems = self.systems;
        let mut out: Vec<SystemConfig> = Vec::new();
        let ghost s0 = systems@;
        while systems.len() > 0
            invariant
                out@.len() + systems@.len() == s0.len(),
                systems@ == s0.take(systems@.len() as int),
                forall|i: int| 0 <= i < out@.len() ==> (#[trigger] out@[i]).phases@.len()
                    == s0[s0.len() - 1 - i].phases@.len() + 1,
            decreases systems@.len(),
        {
            let mut config = systems.pop().unwrap();
            assert(config == s0[systems@.len() as int]);
            config.phases.push(key);
            out.push(config);
            assert(systems@ =~= s0.take(systems@.len() as int));
        }
        let mut result: Vec<SystemConfig> = Vec::new();
        let ghost o = out@;
        while out.len() > 0
            invariant
                out@.len() + result@.len() == s0.len(),
                out@ == o.take(out@.len() as int),
                o.len() == s0.len(),
                forall|i: int| 0 <= i < o.len() ==> (#[trigger] o[i]).phases@.len()
                    == s0[s0.len() - 1 - i].phases@.len() + 1,
                forall|i: int| 0 <= i < result@.len() ==> (#[trigger] result@[i]).phases@.len()
                    == s0[i].phases@.len() + 1,
            decreases out@.len(),
        {
            let config = out.pop().unwrap();
            assert(config == o[out@.len() as int]);
            result.push(config);
            assert(out@ =~= o.take(out@.len() as int));
        }
        SystemConfigs { systems: result }
    }

    /// Lets the last system of the set run only on the ticks on which
    /// `condition` holds (a set as built here holds one system).
    pub fn run_if<N, C: IntoCondition<N>>(self, condition: C) -> (r: SystemConfigs)
        ensures
            r.systems@.len() == self.systems@.len(),
            forall|i: int| 0 <= i < self.systems@.len() ==> (#[trigger] r.systems@[i]).phases@
                == self.systems@[i].phases@,
            forall|i: int| 0 <= i < self.systems@.len() ==> (#[trigger] r.systems@[i]).conditions.count()
                == self.systems@[i].conditions.count() + if i == r.systems@.len() - 1 { 1int } else { 0int },
    {
        self.add_condition(Box::new(IntoCondition::into_condition(condition)))
    }

    fn add_condition(self, condition: Box<dyn Condition>) -> (r: SystemConfigs)
        ensures
            r.systems@.len() == self.systems@.len(),
            forall|i: int| 0 <= i < self.systems@.len() ==> (#[trigger] r.systems@[i]).phases@
                == self.systems@[i].phases@,
            forall|i: int| 0 <= i < self.systems@.len() ==> (#[trigger] r.systems@[i]).conditions.count()
                == self.systems@[i].conditions.count() + if i == r.systems@.len() - 1 { 1int } else { 0int },
    {
        let mut systems = self.systems;
        let ghost s0 = systems@;
        if systems.len() > 0 {
            let mut config = systems.pop().unwrap();
            let ghost mid = systems@;
            config.conditions.push(condition);
            systems.push(config);
            proof {
                assert(mid =~= s0.drop_last());
                assert forall|i: int| 0 <= i < s0.len() - 1 implies systems@[i] == s0[i] by {
                    assert(systems@[i] == mid[i]);
                }
            }
        }
        SystemConfigs { systems }
    }
}

/// What can be added to a schedule as systems.
pub trait IntoSystemConfig<M>: Sized {
    fn into_config(self) -> SystemConfigs;

    fn phase<P: Phase>(self, phase: P) -> SystemConfigs {
        self.into_config().phase(phase)
    }

    fn run_if<N, C: IntoCondition<N>>(self, condition: C) -> SystemConfigs {
        self.into_config().run_if(condition)
    }
}

impl IntoSystemConfig<()> for SystemConfigs {
    fn into_config(self) -> SystemConfigs {
        self
    }
}

impl IntoSystemConfig<()> for Box<dyn System> {
    fn into_config(self) -> (r: SystemConfigs)
        ensures
            r.systems@.len() == 1,
            r.systems@[0].phases@.len() == 0,
            r.systems@[0].conditions.count() == 0,
    {
        SystemConfigs::new(self)
    }
}

impl<S, M> IntoSystemConfig<M> for S where S: IntoSystem<M> {
    fn into_config(self) -> (r: SystemConfigs)
        ensures
            r.systems@.len() == 1,
            r.systems@[0].phases@.len() == 0,
            r.systems@[0].conditions.count() == 0,
    {
        SystemConfigs::new(Box::new(IntoSystem::into_system(self)))
    }
}

} // verus!
