//! A function of the world and of values the system keeps for itself, as
//! an exclusive system.

use vstd::prelude::*;

use crate::param::local::Local;
use crate::schedule::planner::SystemMeta;
use crate::system::system::{IntoSystem, System};
use crate::system::world_fun_system::IsWorld;
use crate::world::world::World;

verus! {

/// A parameter of an exclusive system: made from the system's own state
/// alone, since the function has the world itself.
pub trait ParamExcl: 'static {
    type State: 'static;
    type Arg<'s>;

    fn init(world: &mut World, meta: &mut SystemMeta) -> (r: Self::State)
        requires
            old(world).wf(),
        ensures
            final(world).wf(),
    ;

    fn arg<'s>(state: &'s mut Self::State) -> Self::Arg<'s>;
}

impl<T: Default + 'static> ParamExcl for Local<'static, T> {
    type State = T;
    type Arg<'s> = Local<'s, T>;

    /// Starts from `T`'s default.
    fn init(world: &mut World, meta: &mut SystemMeta) -> T {
        T::default()
    }

    fn arg<'s>(state: &'s mut T) -> Local<'s, T> {
        Local(state)
    }
}

/// Calls `f(world, a)`; what it does is up to `f`.  The world's fields are
/// private, so `f` reaches them only through the world's methods, each of
/// which keeps it well formed.
#[verifier::external_body]
fn call_world_excl<F: FnMut(&mut World, A), A>(f: &mut F, world: &mut World, a: A)
    requires
        old(world).wf(),
    ensures
        final(world).wf(),
{
    f(world, a)
}

/// A function of the world and of parameter `P`.
pub trait FunExcl<P: ParamExcl>: 'static {
    fn run_excl(&mut self, world: &mut World, arg: P::Arg<'_>)
        requires
            old(world).wf(),
        ensures
            final(world).wf(),
    ;
}

impl<F: 'static, P: ParamExcl> FunExcl<P> for F
    where F: FnMut(&mut World, P), for<'a> F: FnMut(&mut World, P::Arg<'a>)
{
    fn run_excl(&mut self, world: &mut World, arg: P::Arg<'_>) {
        call_world_excl(self, world, arg)
    }
}

/// An exclusive system that runs a function of the world and of its own
/// parameter.
pub struct FunSystemExcl<F, P: ParamExcl> {
    fun: F,
    state: Option<P::State>,
}

impl<F, P: ParamExcl> FunSystemExcl<F, P> {
    /// Whether the parameter's state has been made.
    pub closed spec fn initialized(&self) -> bool {
        self.state is Some
    }
}

impl<F: FunExcl<P>, P: ParamExcl> System for FunSystemExcl<F, P> {
    /// Marks the system exclusive and makes the parameter's state.
    fn init(&mut self, meta: &mut SystemMeta, world: &mut World)
        ensures
            final(self).initialized(),
    {
        meta.set_exclusive();
        self.state = Some(P::init(world, meta));
    }

    /// Runs the function once the system is initialized.
    fn run(&mut self, world: &mut World) {
        match &mut self.state {
            Some(state) => {
                let arg = P::arg(state);
                self.fun.run_excl(world, arg);
            },
            None => {},
        }
    }

    fn flush(&mut self, world: &mut World) {
    }
}

impl<F: 'static, P: ParamExcl> IntoSystem<(IsWorld, P)> for F
    where F: FnMut(&mut World, P), for<'a> F: FnMut(&mut World, P::Arg<'a>)
{
    type System = FunSystemExcl<F, P>;

    fn into_system(this: Self) -> FunSystemExcl<F, P> {
        FunSystemExcl { fun: this, state: None }
    }
}

} // verus!
