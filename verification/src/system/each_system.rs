//! A function of one entity's components as a system: it runs once for
//! each live entity that has them, in view order.

use vstd::prelude::*;
use std::marker::PhantomData;

use crate::entity::store::{Component, ComponentId};
use crate::entity::view::QueryView;
use crate::param::param::call_fn1;
use crate::schedule::planner::{SystemMeta, MetaView, set_insert};
use crate::system::system::{IntoSystem, System};
use crate::world::world::World;

verus! {

/// Calls `f(value)`; what it does is up to `f`.
#[verifier::external_body]
fn call_each_mut<F: FnMut(&mut T), T>(f: &mut F, value: &mut T) {
    f(value)
}

/// Marks functions of what a view gives of an entity.
pub struct IsPlain;

/// Marks functions of a component to change.
pub struct IsEachMut;

/// A function of what view `V` gives of one entity.
pub trait EachFun<V: QueryView>: 'static {
    fn run_each<'w>(&mut self, item: V::Item<'w>);
}

impl<F: 'static, V: QueryView> EachFun<V> for F
    where F: FnMut(V), for<'w> F: FnMut(V::Item<'w>)
{
    fn run_each<'w>(&mut self, item: V::Item<'w>) {
        call_fn1(self, item)
    }
}

/// A system that runs a function on what view `V` gives of each live
/// entity that has `V`'s columns, in view order.
pub struct EachSystem<F, V> {
    fun: F,
    marker: PhantomData<V>,
}

impl<F: EachFun<V>, V: QueryView + 'static> System for EachSystem<F, V> {
    /// The system reads and writes the view's columns.
    fn init(&mut self, meta: &mut SystemMeta, world: &mut World) {
        match world.view_plan_of::<V>() {
            Some(plan) => {
                let mut k: usize = 0;
                while k < plan.components.len()
                    decreases plan.components@.len() - k,
                {
                    meta.insert_component(ComponentId(plan.components[k].0));
                    k = k + 1;
                }
                let mut k: usize = 0;
                while k < plan.mut_components.len()
                    decreases plan.mut_components@.len() - k,
                {
                    meta.insert_component_mut(ComponentId(plan.mut_components[k].0));
                    k = k + 1;
                }
            },
            None => {},
        }
    }

    fn run(&mut self, world: &mut World) {
        let mut items = world.view::<V>();
        let mut reversed: Vec<V::Item<'_>> = Vec::new();
        while items.len() > 0
            decreases items@.len(),
        {
            match items.pop() {
                Some(item) => reversed.push(item),
                None => {},
            }
        }
        while reversed.len() > 0
            decreases reversed@.len(),
        {
            match reversed.pop() {
                Some(item) => self.fun.run_each(item),
                None => {},
            }
        }
    }

    fn flush(&mut self, world: &mut World) {
    }
}

impl<F: 'static, V: QueryView + 'static> IntoSystem<(IsPlain, V)> for F
    where F: FnMut(V), for<'w> F: FnMut(V::Item<'w>)
{
    type System = EachSystem<F, V>;

    fn into_system(this: Self) -> EachSystem<F, V> {
        EachSystem { fun: this, marker: PhantomData }
    }
}

/// A system that runs a function on each entity's `T`, to change it.
pub struct EachMutSystem<F, T> {
    fun: F,
    marker: PhantomData<T>,
}

impl<F: FnMut(&mut T) + 'static, T: Component> System for EachMutSystem<F, T> {
    /// The system writes the component.
    fn init(&mut self, meta: &mut SystemMeta, world: &mut World)
        ensures
            exists|c: usize| final(meta)@ == (MetaView { mut_comp: #[trigger] set_insert(old(meta)@.mut_comp, c), ..old(meta)@ })
                && c < final(world).store_view().meta_view().cols().len(),
    {
        let id = world.component_id::<T>();
        meta.insert_component_mut(id);
    }

    fn run(&mut self, world: &mut World) {
        let ids = world.query_ids::<T>();
        let mut i: usize = 0;
        while i < ids.len()
            invariant
                world.wf(),
            decreases ids@.len() - i,
        {
            match world.get_mut::<T>(ids[i]) {
                Some(value) => call_each_mut(&mut self.fun, value),
                None => {},
            }
            i = i + 1;
        }
    }

    fn flush(&mut self, world: &mut World) {
    }
}

impl<F: FnMut(&mut T) + 'static, T: Component> IntoSystem<(IsEachMut, T)> for F {
    type System = EachMutSystem<F, T>;

    fn into_system(this: Self) -> EachMutSystem<F, T> {
        EachMutSystem { fun: this, marker: PhantomData }
    }
}

} // verus!
