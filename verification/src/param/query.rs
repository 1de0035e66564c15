//! Queries: a system parameter that reads the entities of a view.

use vstd::prelude::*;
use std::marker::PhantomData;

use crate::entity::store::{ComponentId, EntityStore};
use crate::entity::view::{QueryView, ViewPlan};
use crate::param::param::Param;
use crate::schedule::planner::SystemMeta;
use crate::world::world::World;

verus! {

/// The world's entity store, lent to a query for one run.
pub struct QueryStore {
    store: EntityStore,
}

impl QueryStore {
    /// The lent store.
    pub closed spec fn store_view(&self) -> EntityStore {
        self.store
    }

    #[verifier::type_invariant]
    spec fn inv(&self) -> bool {
        self.store.wf()
    }
}

/// A system's view of the entities that `V` reads.
pub struct Query<'a, V> {
    store: &'a EntityStore,
    plan: &'a ViewPlan,
    marker: PhantomData<V>,
}

impl<'a, V> Query<'a, V> {
    /// The store the query reads.
    pub closed spec fn store_view(&self) -> EntityStore {
        *self.store
    }

    /// The plan of the query's view.
    pub closed spec fn plan_view(&self) -> ViewPlan {
        *self.plan
    }

    #[verifier::type_invariant]
    spec fn inv(&self) -> bool {
        self.store.wf()
    }
}

impl<'a, V: QueryView> Query<'a, V> {
    /// What `V` gives of each live entity whose table holds `V`'s columns,
    /// in view order.
    pub fn iter(&self) -> (r: Vec<V::Item<'a>>) {
        proof { use_type_invariant(self); }
        if self.plan.view.0 < self.store.meta().n_views() {
            self.store.view_items::<V>(self.plan)
        } else {
            Vec::new()
        }
    }
}

impl<V: QueryView + 'static> Param for Query<'static, V> {
    type State = ViewPlan;
    type Fetch = QueryStore;
    type Arg<'a> = Query<'a, V>;

    /// The plan of `V`; the system reads and writes its columns.
    fn init(meta: &mut SystemMeta, world: &mut World) -> (r: Option<ViewPlan>)
        ensures
            r matches Some(p) ==> p.view.0 < final(world).store_view().meta_view().views_v().len(),
            (r is Some) <== (old(world).store_view().meta_view().views_v().len() < usize::MAX
                && old(world).store_view().meta_view().vts().len()
                    < usize::MAX - old(world).store_view().meta_view().tabs().len()),
            final(world).resources_view() == old(world).resources_view(),
    {
        let plan = match world.view_plan_of::<V>() {
            Some(plan) => plan,
            None => return None,
        };
        let mut k: usize = 0;
        while k < plan.components.len()
            decreases plan.components@.len() - k,
        {
            meta.insert_component(ComponentId(plan.components[k].0));
            k = k + 1;
        }
        let mut k: usize = 0;
        while k < plan.mut_components.len()
            decreases plan.mut_components@.len() - k,
        {
            meta.insert_component_mut(ComponentId(plan.mut_components[k].0));
            k = k + 1;
        }
        Some(plan)
    }

    /// Takes the world's store; `None` while another query has it.
    fn fetch(world: &mut World, state: &mut ViewPlan) -> (r: Option<QueryStore>)
        ensures
            (r is Some) == !old(world).store_lent(),
            r matches Some(q) ==> q.store_view() == old(world).store_view(),
            final(world).store_lent(),
    {
        match world.take_store() {
            Some(store) => Some(QueryStore { store }),
            None => None,
        }
    }

    fn arg<'a>(fetch: &'a mut QueryStore, state: &'a mut ViewPlan) -> (r: Query<'a, V>)
        ensures
            r.store_view() == old(fetch).store_view(),
            r.plan_view() == *old(state),
    {
        proof { use_type_invariant(&*fetch); }
        Query { store: &fetch.store, plan: state, marker: PhantomData }
    }

    fn release(world: &mut World, state: &mut ViewPlan, fetch: QueryStore)
        ensures
            final(world).store_view() == fetch.store_view(),
            !final(world).store_lent(),
    {
        proof { use_type_invariant(&fetch); }
        let QueryStore { store } = fetch;
        world.put_store(store);
    }
}

} // verus!
