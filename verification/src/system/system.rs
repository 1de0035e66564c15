//! Systems: the units of work a schedule runs.

use vstd::prelude::*;

use crate::schedule::planner::SystemMeta;
use crate::world::world::World;

verus! {

/// The index of a system within its schedule.
#[derive(Copy, Clone, Debug, PartialEq, Eq, Hash)]
pub struct SystemId(pub usize);

impl SystemId {
    pub fn index(&self) -> (r: usize)
        ensures
            r == self.0,
    {
        self.0
    }
}

/// A unit of work: it records what it reads and writes when initialized,
/// runs on the world, and applies deferred work when flushed.
pub trait System: 'static {
    fn init(&mut self, meta: &mut SystemMeta, world: &mut World)
        requires
            old(world).wf(),
        ensures
            final(world).wf(),
    ;

    fn run(&mut self, world: &mut World)
        requires
            old(world).wf(),
        ensures
            final(world).wf(),
    ;

    fn flush(&mut self, world: &mut World)
        requires
            old(world).wf(),
        ensures
            final(world).wf(),
    ;
}

/// What can be turned into a system.
pub trait IntoSystem<M>: Sized {
    type System: System;

    fn into_system(this: Self) -> Self::System;
}

impl<S: System> IntoSystem<()> for S {
    type System = S;

    fn into_system(this: Self) -> S {
        this
    }
}

} // verus!
