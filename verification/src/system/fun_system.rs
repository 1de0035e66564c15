//! A function without arguments as a system.

use vstd::prelude::*;

use crate::schedule::planner::SystemMeta;
use crate::system::system::{System, IntoSystem};
use crate::world::world::World;

verus! {

/// Calls `f()`; what it does is up to `f`.
#[verifier::external_body]
fn call_fn<F: FnMut()>(f: &mut F) {
    f()
}

/// Marks functions without arguments.
pub struct IsFun;

/// A function that a system runs.
pub trait Fun: 'static {
    fn run_fun(&mut self);
}

impl<F: FnMut() + 'static> Fun for F {
    fn run_fun(&mut self) {
        call_fn(self)
    }
}

/// A system that runs a function; it reads and writes nothing of the world.
pub struct FunctionSystem<F> {
    fun: F,
}

impl<F: Fun> System for FunctionSystem<F> {
    fn init(&mut self, meta: &mut SystemMeta, world: &mut World) {
    }

    fn run(&mut self, world: &mut World) {
        self.fun.run_fun()
    }

    fn flush(&mut self, world: &mut World) {
    }
}

impl<F: FnMut() + 'static> IntoSystem<IsFun> for F {
    type System = FunctionSystem<F>;

    fn into_system(this: Self) -> FunctionSystem<F> {
        FunctionSystem { fun: this }
    }
}

} // verus!
