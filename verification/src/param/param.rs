//! System parameters: what a system function takes, fetched from the world
//! for each run.  A parameter takes what it needs out of the world, the
//! function runs with it, and the parameter puts it back; so each
//! parameter has its value to itself while the function runs.

use vstd::prelude::*;

use crate::param::local::Local;
use crate::param::res::{Res, ResMut};
use crate::schedule::planner::{SystemMeta, MetaView, set_insert};
use crate::resource::inserted;
use std::any::TypeId;
use crate::system::system::{IntoSystem, System};
use crate::world::world::{FromWorld, World};

verus! {

/// A parameter of a system function.
pub trait Param: 'static {
    /// What the parameter keeps between runs.
    type State: 'static;
    /// What the parameter takes out of the world for one run.
    type Fetch: 'static;
    /// What the function gets.
    type Arg<'a>;

    /// The parameter's state, its access recorded in `meta`; `None` when
    /// the world cannot give the parameter.
    fn init(meta: &mut SystemMeta, world: &mut World) -> (r: Option<Self::State>)
        requires
            old(world).wf(),
        ensures
            final(world).wf(),
    ;

    /// Takes what the parameter needs out of the world; `None` when it is
    /// not there.
    fn fetch(world: &mut World, state: &mut Self::State) -> (r: Option<Self::Fetch>)
        requires
            old(world).wf(),
        ensures
            final(world).wf(),
    ;

    /// The function's argument, made of what was fetched and the state.
    fn arg<'a>(fetch: &'a mut Self::Fetch, state: &'a mut Self::State) -> Self::Arg<'a>;

    /// Puts back what `fetch` took.
    fn release(world: &mut World, state: &mut Self::State, fetch: Self::Fetch)
        requires
            old(world).wf(),
        ensures
            final(world).wf(),
    ;

    /// Applies work the parameter deferred.
    fn flush(world: &mut World, state: &mut Self::State)
        requires
            old(world).wf(),
        ensures
            final(world).wf(),
    {
    }
}

impl<T: 'static> Param for Res<'static, T> {
    type State = ();
    type Fetch = T;
    type Arg<'a> = Res<'a, T>;

    /// The resource must be there; the system reads it.
    fn init(meta: &mut SystemMeta, world: &mut World) -> (r: Option<()>)
        ensures
            *final(world) == *old(world),
            r is None ==> final(meta)@ == old(meta)@,
            r is Some ==> exists|id: usize|
                final(meta)@ == (MetaView { res: #[trigger] set_insert(old(meta)@.res, id), ..old(meta)@ }),
    {
        match world.get_resource_id::<T>() {
            Some(id) => {
                if world.contains_resource::<T>() {
                    meta.insert_resource(id);
                    Some(())
                } else {
                    None
                }
            },
            None => None,
        }
    }

    fn fetch(world: &mut World, state: &mut ()) -> (r: Option<T>) {
        world.remove_resource::<T>()
    }

    fn arg<'a>(fetch: &'a mut T, state: &'a mut ()) -> Res<'a, T> {
        Res::new(fetch)
    }

    fn release(world: &mut World, state: &mut (), fetch: T) {
        world.insert_resource(fetch);
    }
}

impl<T: 'static> Param for ResMut<'static, T> {
    type State = ();
    type Fetch = T;
    type Arg<'a> = ResMut<'a, T>;

    /// The resource must be there; the system writes it.
    fn init(meta: &mut SystemMeta, world: &mut World) -> (r: Option<()>)
        ensures
            *final(world) == *old(world),
            r is None ==> final(meta)@ == old(meta)@,
            r is Some ==> exists|id: usize|
                final(meta)@ == (MetaView { mut_res: #[trigger] set_insert(old(meta)@.mut_res, id), ..old(meta)@ }),
    {
        match world.get_resource_id::<T>() {
            Some(id) => {
                if world.contains_resource::<T>() {
                    meta.insert_resource_mut(id);
                    Some(())
                } else {
                    None
                }
            },
            None => None,
        }
    }

    fn fetch(world: &mut World, state: &mut ()) -> (r: Option<T>) {
        world.remove_resource::<T>()
    }

    fn arg<'a>(fetch: &'a mut T, state: &'a mut ()) -> ResMut<'a, T> {
        ResMut::new(fetch)
    }

    fn release(world: &mut World, state: &mut (), fetch: T) {
        world.insert_resource(fetch);
    }
}

impl<T: 'static> Param for Option<Res<'static, T>> {
    type State = ();
    type Fetch = Option<T>;
    type Arg<'a> = Option<Res<'a, T>>;

    /// The resource may be missing; if it is there, the system reads it.
    fn init(meta: &mut SystemMeta, world: &mut World) -> (r: Option<()>) {
        if world.contains_resource::<T>() {
            match world.get_resource_id::<T>() {
                Some(id) => meta.insert_resource(id),
                None => {},
            }
        }
        Some(())
    }

    fn fetch(world: &mut World, state: &mut ()) -> (r: Option<Option<T>>)
        ensures
            r is Some,
    {
        Some(world.remove_resource::<T>())
    }

    fn arg<'a>(fetch: &'a mut Option<T>, state: &'a mut ()) -> (r: Option<Res<'a, T>>)
        ensures
            (r is Some) == (*old(fetch) is Some),
    {
        match fetch {
            Some(v) => Some(Res::new(v)),
            None => None,
        }
    }

    fn release(world: &mut World, state: &mut (), fetch: Option<T>)
        ensures
            fetch is None ==> *final(world) == *old(world),
            fetch is Some ==> exists|k: TypeId|
                #[trigger] inserted(old(world).resources_view(), final(world).resources_view(), k),
    {
        match fetch {
            Some(v) => world.insert_resource(v),
            None => {},
        }
    }
}

impl<T: 'static> Param for Option<ResMut<'static, T>> {
    type State = ();
    type Fetch = Option<T>;
    type Arg<'a> = Option<ResMut<'a, T>>;

    /// The resource may be missing; if it is there, the system writes it.
    fn init(meta: &mut SystemMeta, world: &mut World) -> (r: Option<()>) {
        if world.contains_resource::<T>() {
            match world.get_resource_id::<T>() {
                Some(id) => meta.insert_resource_mut(id),
                None => {},
            }
        }
        Some(())
    }

    fn fetch(world: &mut World, state: &mut ()) -> (r: Option<Option<T>>)
        ensures
            r is Some,
    {
        Some(world.remove_resource::<T>())
    }

    fn arg<'a>(fetch: &'a mut Option<T>, state: &'a mut ()) -> (r: Option<ResMut<'a, T>>)
        ensures
            (r is Some) == (*old(fetch) is Some),
    {
        match fetch {
            Some(v) => Some(ResMut::new(v)),
            None => None,
        }
    }

    fn release(world: &mut World, state: &mut (), fetch: Option<T>)
        ensures
            fetch is None ==> *final(world) == *old(world),
            fetch is Some ==> exists|k: TypeId|
                #[trigger] inserted(old(world).resources_view(), final(world).resources_view(), k),
    {
        match fetch {
            Some(v) => world.insert_resource(v),
            None => {},
        }
    }
}

impl<T: FromWorld + 'static> Param for Local<'static, T> {
    type State = T;
    type Fetch = ();
    type Arg<'a> = Local<'a, T>;

    /// The system's own value, made from the world when it is initialized.
    fn init(meta: &mut SystemMeta, world: &mut World) -> (r: Option<T>) {
        Some(T::init(world))
    }

    fn fetch(world: &mut World, state: &mut T) -> (r: Option<()>) {
        Some(())
    }

    fn arg<'a>(fetch: &'a mut (), state: &'a mut T) -> Local<'a, T> {
        Local(state)
    }

    fn release(world: &mut World, state: &mut T, fetch: ()) {
    }
}

/// Calls `f(a)`; what it does is up to `f`.
#[verifier::external_body]
pub(crate) fn call_fn1<F: FnMut(A), A>(f: &mut F, a: A) {
    f(a)
}

/// Calls `f(a, b)`; what it does is up to `f`.
#[verifier::external_body]
fn call_fn2<F: FnMut(A, B), A, B>(f: &mut F, a: A, b: B) {
    f(a, b)
}

/// Calls `f(a, b, c)`; what it does is up to `f`.
#[verifier::external_body]
fn call_fn3<F: FnMut(A, B, C), A, B, C>(f: &mut F, a: A, b: B, c: C) {
    f(a, b, c)
}

/// Marks functions of parameters.
pub struct IsParams;

/// A system that runs a function of one parameter.
pub struct ParamSystem1<F, P1: Param> {
    fun: F,
    state: Option<P1::State>,
}

impl<F: 'static, P1: Param> System for ParamSystem1<F, P1>
    where for<'a> F: FnMut(P1::Arg<'a>)
{
    fn init(&mut self, meta: &mut SystemMeta, world: &mut World) {
        self.state = P1::init(meta, world);
    }

    /// Runs the function when its parameter can be fetched.
    fn run(&mut self, world: &mut World) {
        match &mut self.state {
            Some(s1) => {
                match P1::fetch(world, s1) {
                    Some(mut f1) => {
                        call_fn1(&mut self.fun, P1::arg(&mut f1, s1));
                        P1::release(world, s1, f1);
                    },
                    None => {},
                }
            },
            None => {},
        }
    }

    fn flush(&mut self, world: &mut World) {
        match &mut self.state {
            Some(s1) => P1::flush(world, s1),
            None => {},
        }
    }
}

impl<F: 'static, P1: Param> IntoSystem<(IsParams, P1)> for F
    where F: FnMut(P1), for<'a> F: FnMut(P1::Arg<'a>)
{
    type System = ParamSystem1<F, P1>;

    fn into_system(this: Self) -> ParamSystem1<F, P1> {
        ParamSystem1 { fun: this, state: None }
    }
}

/// A system that runs a function of two parameters.
pub struct ParamSystem2<F, P1: Param, P2: Param> {
    fun: F,
    state: Option<(P1::State, P2::State)>,
}

impl<F: 'static, P1: Param, P2: Param> System for ParamSystem2<F, P1, P2>
    where for<'a> F: FnMut(P1::Arg<'a>, P2::Arg<'a>)
{
    fn init(&mut self, meta: &mut SystemMeta, world: &mut World) {
        self.state = match P1::init(meta, world) {
            Some(s1) => match P2::init(meta, world) {
                Some(s2) => Some((s1, s2)),
                None => None,
            },
            None => None,
        };
    }

    /// Runs the function when both parameters can be fetched; what one
    /// fetched is put back when the other cannot be.
    fn run(&mut self, world: &mut World) {
        match &mut self.state {
            Some((s1, s2)) => {
                match P1::fetch(world, s1) {
                    Some(mut f1) => {
                        match P2::fetch(world, s2) {
                            Some(mut f2) => {
                                call_fn2(&mut self.fun, P1::arg(&mut f1, s1), P2::arg(&mut f2, s2));
                                P2::release(world, s2, f2);
                            },
                            None => {},
                        }
                        P1::release(world, s1, f1);
                    },
                    None => {},
                }
            },
            None => {},
        }
    }

    fn flush(&mut self, world: &mut World) {
        match &mut self.state {
            Some((s1, s2)) => {
                P1::flush(world, s1);
                P2::flush(world, s2);
            },
            None => {},
        }
    }
}

impl<F: 'static, P1: Param, P2: Param> IntoSystem<(IsParams, P1, P2)> for F
    where F: FnMut(P1, P2), for<'a> F: FnMut(P1::Arg<'a>, P2::Arg<'a>)
{
    type System = ParamSystem2<F, P1, P2>;

    fn into_system(this: Self) -> ParamSystem2<F, P1, P2> {
        ParamSystem2 { fun: this, state: None }
    }
}

/// A system that runs a function of three parameters.
pub struct ParamSystem3<F, P1: Param, P2: Param, P3: Param> {
    fun: F,
    state: Option<(P1::State, P2::State, P3::State)>,
}

impl<F: 'static, P1: Param, P2: Param, P3: Param> System for ParamSystem3<F, P1, P2, P3>
    where for<'a> F: FnMut(P1::Arg<'a>, P2::Arg<'a>, P3::Arg<'a>)
{
    fn init(&mut self, meta: &mut SystemMeta, world: &mut World) {
        self.state = match P1::init(meta, world) {
            Some(s1) => match P2::init(meta, world) {
                Some(s2) => match P3::init(meta, world) {
                    Some(s3) => Some((s1, s2, s3)),
                    None => None,
                },
                None => None,
            },
            None => None,
        };
    }

    /// Runs the function when all three parameters can be fetched; what
    /// was fetched is put back when one cannot be.
    fn run(&mut self, world: &mut World) {
        match &mut self.state {
            Some((s1, s2, s3)) => {
                match P1::fetch(world, s1) {
                    Some(mut f1) => {
                        match P2::fetch(world, s2) {
                            Some(mut f2) => {
                                match P3::fetch(world, s3) {
                                    Some(mut f3) => {
                                        call_fn3(
                                            &mut self.fun,
                                            P1::arg(&mut f1, s1),
                                            P2::arg(&mut f2, s2),
                                            P3::arg(&mut f3, s3),
                                        );
                                        P3::release(world, s3, f3);
                                    },
                                    None => {},
                                }
                                P2::release(world, s2, f2);
                            },
                            None => {},
                        }
                        P1::release(world, s1, f1);
                    },
                    None => {},
                }
            },
            None => {},
        }
    }

    fn flush(&mut self, world: &mut World) {
        match &mut self.state {
            Some((s1, s2, s3)) => {
                P1::flush(world, s1);
                P2::flush(world, s2);
                P3::flush(world, s3);
            },
            None => {},
        }
    }
}

impl<F: 'static, P1: Param, P2: Param, P3: Param> IntoSystem<(IsParams, P1, P2, P3)> for F
    where F: FnMut(P1, P2, P3), for<'a> F: FnMut(P1::Arg<'a>, P2::Arg<'a>, P3::Arg<'a>)
{
    type System = ParamSystem3<F, P1, P2, P3>;

    fn into_system(this: Self) -> ParamSystem3<F, P1, P2, P3> {
        ParamSystem3 { fun: this, state: None }
    }
}

} // verus!
