//! A function of the world as a system: it has the world to itself.

use vstd::prelude::*;

use crate::schedule::planner::SystemMeta;
use crate::system::system::{System, IntoSystem};
use crate::world::world::World;

verus! {

/// Calls `f(world)`; what it does is up to `f`.  The world's fields are
/// private, so `f` reaches them only through the world's methods, each of
/// which keeps it well formed.
#[verifier::external_body]
fn call_world_fn<F: Fn(&mut World)>(f: &F, world: &mut World)
    requires
        old(world).wf(),
    ensures
        final(world).wf(),
{
    f(world)
}

/// Marks functions of the world.
pub struct IsWorld;

/// A function of the world that a system runs.
pub trait WorldFun: 'static {
    fn run_world(&self, world: &mut World)
        requires
            old(world).wf(),
        ensures
            final(world).wf(),
    ;
}

impl<F: Fn(&mut World) + 'static> WorldFun for F {
    fn run_world(&self, world: &mut World) {
        call_world_fn(self, world)
    }
}

/// A system that runs a function of the world; it is exclusive.
pub struct WorldFunSystem<F> {
    fun: F,
}

impl<F: WorldFun> System for WorldFunSystem<F> {
    fn init(&mut self, meta: &mut SystemMeta, world: &mut World) {
        meta.set_exclusive();
    }

    fn run(&mut self, world: &mut World) {
        self.fun.run_world(world)
    }

    fn flush(&mut self, world: &mut World) {
    }
}

impl<F: Fn(&mut World) + 'static> IntoSystem<IsWorld> for F {
    type System = WorldFunSystem<F>;

    fn into_system(this: Self) -> WorldFunSystem<F> {
        WorldFunSystem { fun: this }
    }
}

} // verus!
