//! Schedules: systems, their phases and plan, and the executor that runs
//! them; and the set of schedules of a world, by label.

use vstd::prelude::*;
use std::any::TypeId;

use crate::schedule::executor::{runs_once_in_order, pos_steps, Step, Executor, ExecutorFactory, Executors, PlanExecutor};
use crate::schedule::phase::{
    Phase, PhaseId, PhaseItem, IntoPhaseConfig, IntoPhaseConfigs, uninit_of, lemma_uninit_of, phase_ids,
};
use crate::schedule::plan::{Plan, PlanView, plan_sound};
use crate::schedule::planner::{Planner, SystemMeta, MetaView, phases_ready, plannable, first_of, last_of, no_self_reads, planned_groups};
use crate::schedule::system::{IntoSystemConfig, SystemConfig, SystemConfigs};
use crate::system::system::{System, SystemId};
use crate::system::condition::RunIf;
use crate::util::label::{type_id_of, LabelKey, find_label_key, label_key_eq};
use crate::world::world::World;

verus! {

/// A label that names a schedule.  A label is identified by its type.
pub trait ScheduleLabel: 'static {
    fn label_key(&self) -> LabelKey {
        LabelKey::of::<Self>(0)
    }
}

#[derive(Debug)]
pub enum ScheduleErr {
    Misc,
    UnknownSchedule,
}

/// The marker system at the start or end of a phase; it does nothing.
struct PhaseSystem(PhaseId);

impl System for PhaseSystem {
    fn init(&mut self, meta: &mut SystemMeta, world: &mut World) {
    }

    fn run(&mut self, world: &mut World) {
    }

    fn flush(&mut self, world: &mut World) {
    }
}

/// Every phase with markers has two of its own, marker systems of the
/// schedule; a phase has both markers or neither; every other system names
/// an existing phase.
pub open spec fn phases_partly_ready(ms: Seq<MetaView>, items: Seq<PhaseItem>) -> bool {
    &&& forall|p: int| 0 <= p < items.len() ==> ((#[trigger] items[p]).first_id is None <==> items[p].last_id is None)
    &&& forall|p: int| 0 <= p < items.len() && (#[trigger] items[p]).first_id is Some ==> {
        &&& first_of(items[p]) < ms.len()
        &&& last_of(items[p]) < ms.len()
        &&& ms[first_of(items[p]) as int].marker
        &&& ms[last_of(items[p]) as int].marker
        &&& first_of(items[p]) != last_of(items[p])
    }
    &&& forall|p: int, q: int| 0 <= p < items.len() && 0 <= q < items.len() && p != q
        && (#[trigger] items[p]).first_id is Some && (#[trigger] items[q]).first_id is Some
        ==> last_of(items[q]) != first_of(items[p])
    &&& forall|s: int| 0 <= s < ms.len() && !(#[trigger] ms[s]).marker ==> ms[s].phase < items.len()
}

/// One system of a list, and the rest.
pub struct SystemNode {
    system: Box<dyn System>,
    next: Option<Box<SystemNode>>,
}

spec fn list_len(o: Option<Box<SystemNode>>) -> nat
    decreases o,
{
    match o {
        Some(n) => 1 + list_len(n.next),
        None => 0,
    }
}

fn push_node(o: &mut Option<Box<SystemNode>>, system: Box<dyn System>)
    ensures
        list_len(*final(o)) == list_len(*old(o)) + 1,
    decreases list_len(*old(o)),
{
    match o {
        Some(n) => {
            push_node(&mut n.next, system);
        },
        None => {
            *o = Some(Box::new(SystemNode { system, next: None }));
        },
    }
}

fn run_node(o: &mut Option<Box<SystemNode>>, i: usize, world: &mut World)
    requires
        old(world).wf(),
        i < list_len(*old(o)),
    ensures
        final(world).wf(),
        list_len(*final(o)) == list_len(*old(o)),
    decreases i,
{
    match o {
        Some(n) => {
            if i == 0 {
                n.system.run(world);
            } else {
                run_node(&mut n.next, i - 1, world);
            }
        },
        None => {},
    }
}

fn init_node(o: &mut Option<Box<SystemNode>>, i: usize, meta: &mut SystemMeta, world: &mut World)
    requires
        old(world).wf(),
        i < list_len(*old(o)),
    ensures
        final(world).wf(),
        list_len(*final(o)) == list_len(*old(o)),
    decreases i,
{
    match o {
        Some(n) => {
            if i == 0 {
                n.system.init(meta, world);
            } else {
                init_node(&mut n.next, i - 1, meta, world);
            }
        },
        None => {},
    }
}

fn flush_nodes(o: &mut Option<Box<SystemNode>>, world: &mut World)
    requires
        old(world).wf(),
    ensures
        final(world).wf(),
        list_len(*final(o)) == list_len(*old(o)),
    decreases list_len(*old(o)),
{
    match o {
        Some(n) => {
            n.system.flush(world);
            flush_nodes(&mut n.next, world);
        },
        None => {},
    }
}

/// The systems of a schedule, in the order they were added.
pub struct SystemList {
    head: Option<Box<SystemNode>>,
    len: usize,
}

impl SystemList {
    pub closed spec fn count(&self) -> nat {
        self.len as nat
    }

    pub closed spec fn wf(&self) -> bool {
        list_len(self.head) == self.len
    }

    fn new() -> (r: SystemList)
        ensures
            r.wf(),
            r.count() == 0,
    {
        SystemList { head: None, len: 0 }
    }

    fn len(&self) -> (r: usize)
        ensures
            r == self.count(),
    {
        self.len
    }

    fn push(&mut self, system: Box<dyn System>)
        requires
            old(self).wf(),
            old(self).count() < usize::MAX,
        ensures
            final(self).wf(),
            final(self).count() == old(self).count() + 1,
    {
        push_node(&mut self.head, system);
        self.len = self.len + 1;
    }

    fn run(&mut self, i: usize, world: &mut World)
        requires
            old(self).wf(),
            old(world).wf(),
            i < old(self).count(),
        ensures
            final(self).wf(),
            final(world).wf(),
            final(self).count() == old(self).count(),
    {
        run_node(&mut self.head, i, world);
    }

    fn init(&mut self, i: usize, meta: &mut SystemMeta, world: &mut World)
        requires
            old(self).wf(),
            old(world).wf(),
            i < old(self).count(),
        ensures
            final(self).wf(),
            final(world).wf(),
            final(self).count() == old(self).count(),
    {
        init_node(&mut self.head, i, meta, world);
    }

    fn flush(&mut self, world: &mut World)
        requires
            old(self).wf(),
            old(world).wf(),
        ensures
            final(self).wf(),
            final(world).wf(),
            final(self).count() == old(self).count(),
    {
        flush_nodes(&mut self.head, world);
    }
}

/// The systems of a schedule and their planner.
pub struct ScheduleInner {
    systems: SystemList,
    uninit_systems: Vec<SystemId>,
    planner: Planner,
    executor_factory: Executors,
    is_stale: bool,
    /// What the schedule has done: each system run and each flush, in order.
    log: Ghost<Seq<Step>>,
}

impl ScheduleInner {
    pub closed spec fn wf(&self) -> bool {
        &&& self.planner.wf()
        &&& self.systems.wf()
        &&& self.systems.count() == self.planner.metas().len()
        &&& self.planner.phase_items().len() >= 1
        &&& forall|k: int| 0 <= k < self.uninit_systems@.len() ==> (#[trigger] self.uninit_systems@[k]).0 < self.systems.count()
        &&& phases_partly_ready(self.planner.metas(), self.planner.phase_items())
    }

    pub closed spec fn n_systems(&self) -> nat {
        self.systems.count()
    }

    /// Whether the systems or phases changed since the schedule was planned.
    pub closed spec fn stale(&self) -> bool {
        self.is_stale
    }

    /// There is a meta per system.
    pub proof fn lemma_n_metas(&self)
        requires
            self.wf(),
        ensures
            self.n_systems() == self.metas().len(),
    {
    }

    /// The systems run and the flushes made so far, in order.
    pub closed spec fn log(&self) -> Seq<Step> {
        self.log@
    }

    pub closed spec fn metas(&self) -> Seq<MetaView> {
        self.planner.metas()
    }

    fn new() -> (r: ScheduleInner)
        ensures
            r.wf(),
            r.n_systems() == 0,
            r.is_stale,
    {
        ScheduleInner {
            systems: SystemList::new(),
            uninit_systems: Vec::new(),
            planner: Planner::new(),
            executor_factory: Executors::default(),
            is_stale: true,
            log: Ghost(Seq::empty()),
        }
    }

    pub fn len(&self) -> (r: usize)
        requires
            self.wf(),
        ensures
            r == self.n_systems(),
    {
        self.systems.len()
    }

    pub(crate) fn is_marker(&self, id: SystemId) -> (r: bool)
        requires
            self.wf(),
            id.0 < self.n_systems(),
        ensures
            r == self.metas()[id.0 as int].marker,
    {
        self.planner.meta(id).is_marker()
    }

    pub(crate) fn meta(&self, id: SystemId) -> (r: &SystemMeta)
        requires
            self.wf(),
            id.0 < self.n_systems(),
        ensures
            r@ == self.metas()[id.0 as int],
    {
        self.planner.meta(id)
    }

    pub(crate) fn run_system(&mut self, id: SystemId, world: &mut World)
        requires
            old(self).wf(),
            old(world).wf(),
            id.0 < old(self).n_systems(),
        ensures
            final(self).wf(),
            final(world).wf(),
            final(self).n_systems() == old(self).n_systems(),
            final(self).metas() == old(self).metas(),
            final(self).log() == old(self).log().push(Step::Run(id.0)),
            final(self).stale() == old(self).stale(),
    {
        self.systems.run(id.index(), world);
        self.log = Ghost(self.log@.push(Step::Run(id.0)));
    }

    pub(crate) fn flush(&mut self, world: &mut World)
        requires
            old(self).wf(),
            old(world).wf(),
        ensures
            final(self).wf(),
            final(world).wf(),
            final(self).n_systems() == old(self).n_systems(),
            final(self).metas() == old(self).metas(),
            final(self).log() == old(self).log().push(Step::Flush),
            final(self).stale() == old(self).stale(),
    {
        self.systems.flush(world);
        self.log = Ghost(self.log@.push(Step::Flush));
    }

    /// Adds a system in `phase_id`.
    fn add_system2(&mut self, system: Box<dyn System>, phase_id: PhaseId) -> (id: SystemId)
        requires
            old(self).wf(),
            phase_id.0 < old(self).planner.phase_items().len(),
            old(self).n_systems() + 1 < usize::MAX,
        ensures
            final(self).wf(),
            id.0 == old(self).n_systems(),
            final(self).n_systems() == old(self).n_systems() + 1,
            final(self).planner.phase_set() == old(self).planner.phase_set(),
            final(self).planner.phase_items() == old(self).planner.phase_items(),
            final(self).planner.metas() == old(self).planner.metas().push(MetaView {
                id: id.0, phase: phase_id.0, priority: 1000, exclusive: false, marker: false,
                res: Seq::empty(), mut_res: Seq::empty(), comp: Seq::empty(), mut_comp: Seq::empty(),
            }),
            final(self).executor_factory == old(self).executor_factory,
            final(self).is_stale,
            final(self).log() == old(self).log(),
    {
        let id = SystemId(self.systems.len());
        self.uninit_systems.push(id);
        self.systems.push(system);
        proof { self.planner.lemma_wf(); }
        self.planner.add(id, String::new(), phase_id);
        self.is_stale = true;
        proof {
            let ms = self.planner.metas();
            let items = self.planner.phase_items();
            assert(items == old(self).planner.phase_items());
            assert forall|p: int| 0 <= p < items.len() && (#[trigger] items[p]).first_id is Some implies {
                &&& first_of(items[p]) < ms.len()
                &&& last_of(items[p]) < ms.len()
                &&& ms[first_of(items[p]) as int].marker
                &&& ms[last_of(items[p]) as int].marker
                &&& first_of(items[p]) != last_of(items[p])
            } by {
                assert(ms[first_of(items[p]) as int] == old(self).planner.metas()[first_of(items[p]) as int]);
                assert(ms[last_of(items[p]) as int] == old(self).planner.metas()[last_of(items[p]) as int]);
            }
            assert forall|s: int| 0 <= s < ms.len() && !(#[trigger] ms[s]).marker implies ms[s].phase < items.len() by {
                if s < old(self).planner.metas().len() {
                    assert(ms[s] == old(self).planner.metas()[s]);
                }
            }
            assert forall|k: int| 0 <= k < self.uninit_systems@.len() implies (#[trigger] self.uninit_systems@[k]).0 < self.systems.count() by {
                if k < old(self).uninit_systems@.len() {
                    assert(self.uninit_systems@[k] == old(self).uninit_systems@[k]);
                    assert(old(self).uninit_systems@[k].0 < old(self).systems.count());
                } else {
                    assert(self.uninit_systems@[k] == id);
                }
            }
        }
        id
    }

    /// Adds a system, in the phase it names or the default phase.
    fn add_system(&mut self, config: SystemConfig)
        requires
            old(self).wf(),
            old(self).n_systems() + 1 < usize::MAX,
            old(self).planner.phase_items().len() + 1 < usize::MAX,
        ensures
            final(self).wf(),
            final(self).n_systems() == old(self).n_systems() + 1,
            final(self).is_stale,
            final(self).executor_factory == old(self).executor_factory,
            final(self).planner.phase_items().len() <= old(self).planner.phase_items().len() + 1,
    {
        proof {
            old(self).planner.lemma_phase_keys();
        }
        let SystemConfig { system, phases, conditions } = config;
        let system: Box<dyn System> = if conditions.is_empty() {
            system
        } else {
            Box::new(RunIf::new(system, conditions))
        };
        let phase_id = if phases.len() == 0 {
            PhaseId::zero()
        } else {
            proof { self.planner.lemma_wf(); }
            let id = self.planner.add_phase_config(crate::schedule::phase::PhaseConfig { key: phases[0] });
            proof {
                let ms = self.planner.metas();
                let items = self.planner.phase_items();
                let items0 = old(self).planner.phase_items();
                assert forall|p: int| 0 <= p < items.len() implies ((#[trigger] items[p]).first_id is None <==> items[p].last_id is None) by {
                    if p < items0.len() { assert(items[p] == items0[p]); }
                }
                assert forall|p: int| 0 <= p < items.len() && (#[trigger] items[p]).first_id is Some implies {
                    &&& first_of(items[p]) < ms.len()
                    &&& last_of(items[p]) < ms.len()
                    &&& ms[first_of(items[p]) as int].marker
                    &&& ms[last_of(items[p]) as int].marker
                    &&& first_of(items[p]) != last_of(items[p])
                } by {
                    assert(items[p] == items0[p]);
                }
                assert forall|p: int, q: int| 0 <= p < items.len() && 0 <= q < items.len() && p != q
                    && (#[trigger] items[p]).first_id is Some && (#[trigger] items[q]).first_id is Some
                    implies last_of(items[q]) != first_of(items[p]) by {
                    assert(items[p] == items0[p]);
                    assert(items[q] == items0[q]);
                }
                self.planner.lemma_wf();
                assert(id.0 < items.len());
                self.planner.lemma_phase_keys();
                assert(items.len() <= items0.len() + 1);
            }
            id
        };
        proof { self.planner.lemma_wf(); }
        self.add_system2(system, phase_id);
    }

    fn add_phase(&mut self, config: crate::schedule::phase::PhaseConfig)
        requires
            old(self).wf(),
            old(self).planner.phase_items().len() + 1 < usize::MAX,
        ensures
            final(self).wf(),
            final(self).n_systems() == old(self).n_systems(),
            final(self).is_stale,
            final(self).planner.metas() == old(self).planner.metas(),
            exists|id: crate::schedule::phase::PhaseId| crate::schedule::phase::added_phase(
                old(self).planner.phase_set(), final(self).planner.phase_set(), config.key, id),
    {
        let ghost items0 = self.planner.phase_items();
        self.planner.add_phase_config(config);
        proof {
            let items = self.planner.phase_items();
            if items.len() > items0.len() {
                assert(items0.is_prefix_of(items));
                assert(items[items0.len() as int].first_id is None);
                assert(items[items0.len() as int].last_id is None);
            } else {
                assert(items0.is_prefix_of(items));
            }
            self.lemma_new_phases(*old(self));
        }
        self.is_stale = true;
    }

    fn add_phases(&mut self, config: crate::schedule::phase::PhaseConfigs)
        requires
            old(self).wf(),
            old(self).planner.phase_items().len() + config.phases@.len() < usize::MAX,
            config.is_chained ==> forall|i: int| 0 <= i < config.phases@.len() - 1
                ==> (#[trigger] config.phases@[i]).key != config.phases@[i + 1].key,
        ensures
            final(self).wf(),
            final(self).n_systems() == old(self).n_systems(),
            final(self).is_stale,
            final(self).planner.metas() == old(self).planner.metas(),
            old(self).planner.phase_keys().is_prefix_of(final(self).planner.phase_keys()),
            forall|i: int| 0 <= i < config.phases@.len()
                ==> final(self).planner.phase_keys().contains(#[trigger] config.phases@[i].key),
    {
        self.planner.add_phase_configs(config);
        proof { self.lemma_new_phases(*old(self)); }
        self.is_stale = true;
    }

    proof fn lemma_new_phases(&self, before: ScheduleInner)
        requires
            before.wf(),
            self.planner.wf(),
            self.systems == before.systems,
            self.uninit_systems@ == before.uninit_systems@,
            self.planner.metas() == before.planner.metas(),
            before.planner.phase_items().is_prefix_of(self.planner.phase_items()),
            forall|k: int| before.planner.phase_items().len() <= k < self.planner.phase_items().len()
                ==> (#[trigger] self.planner.phase_items()[k]).first_id is None,
            forall|k: int| before.planner.phase_items().len() <= k < self.planner.phase_items().len()
                ==> (#[trigger] self.planner.phase_items()[k]).last_id is None,
        ensures
            self.wf(),
    {
        let ms = self.planner.metas();
        let items = self.planner.phase_items();
        let items0 = before.planner.phase_items();
        assert forall|p: int| 0 <= p < items.len() implies ((#[trigger] items[p]).first_id is None <==> items[p].last_id is None) by {
            if p < items0.len() { assert(items[p] == items0[p]); }
        }
        assert forall|p: int| 0 <= p < items.len() && (#[trigger] items[p]).first_id is Some implies {
            &&& first_of(items[p]) < ms.len()
            &&& last_of(items[p]) < ms.len()
            &&& ms[first_of(items[p]) as int].marker
            &&& ms[last_of(items[p]) as int].marker
            &&& first_of(items[p]) != last_of(items[p])
        } by {
            assert(items[p] == items0[p]);
        }
        assert forall|p: int, q: int| 0 <= p < items.len() && 0 <= q < items.len() && p != q
            && (#[trigger] items[p]).first_id is Some && (#[trigger] items[q]).first_id is Some
            implies last_of(items[q]) != first_of(items[p]) by {
            assert(items[p] == items0[p]);
            assert(items[q] == items0[q]);
        }
        assert forall|s: int| 0 <= s < ms.len() && !(#[trigger] ms[s]).marker implies ms[s].phase < items.len() by {
            assert(ms[s].phase < items0.len());
        }
    }
}

} // verus!

verus! {

impl ScheduleInner {
    /// Gives each phase without markers its first and last marker systems.
    fn init_phases(&mut self) -> (ok: bool)
        requires
            old(self).wf(),
        ensures
            final(self).wf(),
            ok ==> phases_ready(final(self).planner.metas(), final(self).planner.phase_items()),
            final(self).n_systems() >= old(self).n_systems(),
            !ok ==> final(self).n_systems() >= usize::MAX - 3,
            final(self).log() == old(self).log(),
    {
        proof { self.planner.lemma_wf(); }
        let uninit = self.planner.uninit_phases();
        let ghost items0 = self.planner.phase_items();
        let ghost u = phase_ids(uninit@);
        proof {
            lemma_uninit_of(items0, items0.len() as int);
            assert(u.subrange(0, u.len() as int) =~= u);
        }
        let mut j: usize = 0;
        while j < uninit.len()
            invariant
                self.wf(),
                u == phase_ids(uninit@),
                self.log() == old(self).log(),
                u == uninit_of(items0, items0.len() as int),
                self.planner.phase_items().len() == items0.len(),
                j <= u.len(),
                self.n_systems() >= old(self).n_systems(),
                forall|k: int| 0 <= k < u.len() ==> {
                    &&& #[trigger] u[k] < items0.len()
                    &&& items0[u[k] as int].first_id is None
                },
                forall|a: int, b: int| 0 <= a < b < u.len() ==> #[trigger] u[a] < #[trigger] u[b],
                forall|p: int| 0 <= p < items0.len() && (#[trigger] items0[p]).first_id is None
                    ==> u.contains(p as usize),
                forall|k: int| j <= k < u.len() ==> (#[trigger] self.planner.phase_items()[u[k] as int]).first_id is None,
                forall|p: int| 0 <= p < items0.len() && !u.subrange(j as int, u.len() as int).contains(p as usize)
                    ==> (#[trigger] self.planner.phase_items()[p]).first_id is Some,
            decreases u.len() - j,
        {
            let p = uninit[j];
            assert(u[j as int] == p.0);
            if self.systems.len() >= usize::MAX - 3 {
                return false;
            }
            proof { self.planner.lemma_wf(); }
            let ghost before = *self;
            let first = self.add_system2(Box::new(PhaseSystem(p)), PhaseId::zero());
            let last = self.add_system2(Box::new(PhaseSystem(p)), PhaseId::zero());
            let ghost mid = *self;
            self.planner.set_marker(first);
            self.planner.set_marker(last);
            let ghost ms2 = self.planner.metas();
            proof {
                assert(self.planner.phase_items()[p.0 as int].first_id is None);
                assert(self.planner.phase_items()[p.0 as int].last_id is None);
            }
            self.planner.set_phase_systems(p, first, last);
            proof {
                let ms = self.planner.metas();
                let items = self.planner.phase_items();
                let ms0 = before.planner.metas();
                let items1 = before.planner.phase_items();
                assert(ms.len() == ms0.len() + 2);
                assert(first.0 == ms0.len() && last.0 == ms0.len() + 1);
                assert(ms[first.0 as int].marker && ms[last.0 as int].marker);
                assert forall|q: int| 0 <= q < ms0.len() implies #[trigger] ms[q] == ms0[q] by {}
                assert forall|q: int| 0 <= q < items.len() implies ((#[trigger] items[q]).first_id is None <==> items[q].last_id is None) by {
                    if q != p.0 { assert(items[q] == items1[q]); }
                }
                assert forall|q: int| 0 <= q < items.len() && (#[trigger] items[q]).first_id is Some implies {
                    &&& first_of(items[q]) < ms.len()
                    &&& last_of(items[q]) < ms.len()
                    &&& ms[first_of(items[q]) as int].marker
                    &&& ms[last_of(items[q]) as int].marker
                    &&& first_of(items[q]) != last_of(items[q])
                } by {
                    if q != p.0 {
                        assert(items[q] == items1[q]);
                        assert(ms[first_of(items[q]) as int] == ms0[first_of(items[q]) as int]);
                        assert(ms[last_of(items[q]) as int] == ms0[last_of(items[q]) as int]);
                    }
                }
                assert forall|a: int, b: int| 0 <= a < items.len() && 0 <= b < items.len() && a != b
                    && (#[trigger] items[a]).first_id is Some && (#[trigger] items[b]).first_id is Some
                    implies last_of(items[b]) != first_of(items[a]) by {
                    if a != p.0 && b != p.0 {
                        assert(items[a] == items1[a]);
                        assert(items[b] == items1[b]);
                    } else if a == p.0 {
                        assert(items[b] == items1[b]);
                        assert(last_of(items1[b]) < ms0.len());
                    } else {
                        assert(items[a] == items1[a]);
                        assert(first_of(items1[a]) < ms0.len());
                    }
                }
                assert forall|s: int| 0 <= s < ms.len() && !(#[trigger] ms[s]).marker implies ms[s].phase < items.len() by {
                    assert(s < ms0.len());
                    assert(ms[s] == ms0[s]);
                }
                assert forall|k: int| j + 1 <= k < u.len() implies (#[trigger] self.planner.phase_items()[u[k] as int]).first_id is None by {
                    assert(u[j as int] < u[k]);
                    assert(items[u[k] as int] == items1[u[k] as int]);
                }
                assert forall|q: int| 0 <= q < items0.len() && !u.subrange(j + 1, u.len() as int).contains(q as usize)
                    implies (#[trigger] self.planner.phase_items()[q]).first_id is Some by {
                    if q != p.0 {
                        assert(items[q] == items1[q]);
                        if u.subrange(j as int, u.len() as int).contains(q as usize) {
                            let k = u.subrange(j as int, u.len() as int).index_of(q as usize);
                            if k == 0 {
                                assert(u[j as int] == q as usize);
                            } else {
                                assert(u.subrange(j + 1, u.len() as int)[k - 1] == q as usize);
                            }
                        }
                    }
                }
            }
            j = j + 1;
        }
        proof {
            let items = self.planner.phase_items();
            assert forall|q: int| 0 <= q < items.len() implies (#[trigger] items[q]).first_id is Some by {
                assert(!u.subrange(u.len() as int, u.len() as int).contains(q as usize));
            }
        }
        true
    }
}

} // verus!

verus! {

impl ScheduleInner {
    /// Adds missing phase markers, lets each new system record its
    /// accesses, and sorts the systems.  False when the systems cannot be
    /// planned.
    fn init(&mut self, world: &mut World) -> (ok: bool)
        requires
            old(self).wf(),
            old(world).wf(),
        ensures
            final(self).wf(),
            final(world).wf(),
            ok ==> plannable(final(self).planner.metas(), final(self).planner.phase_items()),
            !ok ==> final(self).n_systems() >= usize::MAX - 3
                || !no_self_reads(planned_groups(final(self).planner.metas())),
            final(self).log() == old(self).log(),
    {
        if !self.init_phases() {
            return false;
        }
        let mut uninit: Vec<SystemId> = Vec::new();
        std::mem::swap(&mut uninit, &mut self.uninit_systems);
        proof {
            assert forall|k: int| 0 <= k < self.uninit_systems@.len() implies (#[trigger] self.uninit_systems@[k]).0 < self.systems.count() by {}
        }
        let mut j: usize = 0;
        while j < uninit.len()
            invariant
                self.wf(),
                world.wf(),
                phases_ready(self.planner.metas(), self.planner.phase_items()),
                self.log() == old(self).log(),
                forall|k: int| 0 <= k < uninit@.len() ==> (#[trigger] uninit@[k]).0 < self.systems.count(),
            decreases uninit@.len() - j,
        {
            let id = uninit[j];
            let mut meta = self.planner.meta_copy(id);
            self.systems.init(id.index(), &mut meta, world);
            let ghost ms0 = self.planner.metas();
            proof { self.planner.lemma_wf(); }
            self.planner.restore_meta(id, meta);
            proof {
                let ms = self.planner.metas();
                let items = self.planner.phase_items();
                assert forall|q: int| 0 <= q < ms.len() implies (#[trigger] ms[q]).marker == ms0[q].marker
                    && ms[q].phase == ms0[q].phase by {}
                assert forall|p: int| 0 <= p < items.len() && (#[trigger] items[p]).first_id is Some implies {
                    &&& first_of(items[p]) < ms.len()
                    &&& last_of(items[p]) < ms.len()
                    &&& ms[first_of(items[p]) as int].marker
                    &&& ms[last_of(items[p]) as int].marker
                    &&& first_of(items[p]) != last_of(items[p])
                } by {
                    assert(ms[first_of(items[p]) as int].marker == ms0[first_of(items[p]) as int].marker);
                    assert(ms[last_of(items[p]) as int].marker == ms0[last_of(items[p]) as int].marker);
                }
                assert forall|p: int| 0 <= p < items.len() implies {
                    &&& (#[trigger] items[p]).first_id is Some
                    &&& items[p].last_id is Some
                    &&& first_of(items[p]) < ms.len()
                    &&& last_of(items[p]) < ms.len()
                    &&& ms[first_of(items[p]) as int].marker
                    &&& ms[last_of(items[p]) as int].marker
                    &&& first_of(items[p]) != last_of(items[p])
                } by {
                    assert(ms[first_of(items[p]) as int].marker == ms0[first_of(items[p]) as int].marker);
                    assert(ms[last_of(items[p]) as int].marker == ms0[last_of(items[p]) as int].marker);
                }
                assert forall|s: int| 0 <= s < ms.len() && !(#[trigger] ms[s]).marker implies ms[s].phase < items.len() by {
                    assert(ms[s].marker == ms0[s].marker && ms[s].phase == ms0[s].phase);
                }
            }
            j = j + 1;
        }
        proof { self.planner.lemma_wf(); }
        if self.planner.self_reads() {
            return false;
        }
        self.planner.sort();
        true
    }

    /// The plan of the systems, when they can be planned.
    fn plan(&self) -> (r: Option<Plan>)
        requires
            self.wf(),
        ensures
            (r is Some) == (no_self_reads(planned_groups(self.planner.metas()))
                && forall|p: int| 0 <= p < self.planner.phase_items().len()
                    ==> (#[trigger] self.planner.phase_items()[p]).first_id is Some),
            r matches Some(plan) ==> plan_sound(plan@, plan.ordered_n_incoming()),
            r matches Some(plan) ==> plan@.order.len() == self.n_systems(),
    {
        proof { self.planner.lemma_wf(); }
        if self.planner.self_reads() || !self.phases_are_ready() {
            None
        } else {
            Some(self.planner.plan())
        }
    }

    /// Whether every phase has its markers.
    fn phases_are_ready(&self) -> (r: bool)
        requires
            self.wf(),
        ensures
            r ==> phases_ready(self.planner.metas(), self.planner.phase_items()),
            r == forall|p: int| 0 <= p < self.planner.phase_items().len()
                ==> (#[trigger] self.planner.phase_items()[p]).first_id is Some,
    {
        proof { self.planner.lemma_wf(); }
        let uninit = self.planner.uninit_phases();
        let ghost items = self.planner.phase_items();
        proof {
            lemma_uninit_of(items, items.len() as int);
        }
        if uninit.len() == 0 {
            proof {
                let u = phase_ids(uninit@);
                assert forall|p: int| 0 <= p < items.len() implies (#[trigger] items[p]).first_id is Some by {
                    if items[p].first_id is None {
                        assert(u.contains(p as usize));
                    }
                }
            }
            true
        } else {
            proof {
                let u = phase_ids(uninit@);
                assert(u.len() > 0);
                assert(items[u[0] as int].first_id is None);
            }
            false
        }
    }

    fn set_executor_factory(&mut self, factory: Executors)
        requires
            old(self).wf(),
        ensures
            final(self).wf(),
            final(self).n_systems() == old(self).n_systems(),
            final(self).executor_factory == factory,
            final(self).is_stale,
    {
        self.executor_factory = factory;
        self.is_stale = true;
    }
}

/// A schedule: systems in phases, planned and run by an executor.
pub struct Schedule {
    inner: ScheduleInner,
    executor: Option<PlanExecutor>,
}

/// Each system that is not a phase marker runs exactly once in `steps`,
/// and nothing else runs.
pub open spec fn each_system_once(ms: Seq<MetaView>, steps: Seq<Step>) -> bool {
    &&& forall|k: int| 0 <= k < steps.len() && (#[trigger] steps[k]) is Run
        ==> (steps[k]->Run_0 as int) < ms.len() && !ms[steps[k]->Run_0 as int].marker
    &&& forall|id: int| 0 <= id < ms.len() && !(#[trigger] ms[id]).marker
        ==> exists|k: int| 0 <= k < steps.len() && steps[k] == Step::Run(id as usize)
    &&& forall|k1: int, k2: int| 0 <= k1 < steps.len() && 0 <= k2 < steps.len() && k1 != k2
        && (#[trigger] steps[k1]) is Run ==> steps[k1] != #[trigger] steps[k2]
}

/// `s1` is `s0` after a tick: either nothing ran (the tick failed), or
/// each system that is not a phase marker ran once, in the order of a
/// sound plan of the systems, and the systems were flushed.
pub open spec fn ticked(s0: Schedule, s1: Schedule) -> bool {
    ||| s1.log() == s0.log()
    ||| exists|pv: PlanView, oi: Seq<nat>, ran: Seq<Step>|
        #![trigger plan_sound(pv, oi), runs_once_in_order(pv, s1.metas_view(), ran)] {
        &&& plan_sound(pv, oi)
        &&& pv.order.len() == s1.metas_view().len()
        &&& s1.log() == s0.log() + ran.push(Step::Flush)
        &&& runs_once_in_order(pv, s1.metas_view(), ran)
        &&& each_system_once(s1.metas_view(), ran)
    }
}

/// A run of a sound plan that orders all the systems runs each of them
/// once.
proof fn lemma_each_system_once(pv: PlanView, oi: Seq<nat>, ms: Seq<MetaView>, steps: Seq<Step>)
    requires
        plan_sound(pv, oi),
        pv.order.len() == ms.len(),
        runs_once_in_order(pv, ms, steps),
    ensures
        each_system_once(ms, steps),
{
    assert forall|k: int| 0 <= k < steps.len() && (#[trigger] steps[k]) is Run
        implies (steps[k]->Run_0 as int) < ms.len() && !ms[steps[k]->Run_0 as int].marker by {
        let p = choose|p: int| 0 <= p < pv.order.len() && steps[k] == Step::Run(pv.order[p])
            && (pv.order[p] as int) < ms.len() && !ms[pv.order[p] as int].marker;
    }
    assert forall|id: int| 0 <= id < ms.len() && !(#[trigger] ms[id]).marker
        implies exists|k: int| 0 <= k < steps.len() && steps[k] == Step::Run(id as usize) by {
        crate::schedule::preorder::lemma_permutation_covers(pv.order, pv.order.len(), id as usize);
        let p = choose|p: int| 0 <= p < pv.order.len() && pv.order[p] == id as usize;
        assert(!ms[pv.order[p] as int].marker);
    }
}

impl Schedule {
    #[verifier::type_invariant]
    spec fn inv(&self) -> bool {
        &&& self.inner.wf()
        &&& !self.inner.is_stale ==> (self.executor matches Some(e) ==> {
            &&& plan_sound(e.plan()@, e.plan().ordered_n_incoming())
            &&& e.plan()@.order.len() == self.inner.n_systems()
        })
    }

    /// What the schedule has done: each system run and each flush, in order.
    pub closed spec fn log(&self) -> Seq<Step> {
        self.inner.log()
    }

    /// The meta of each system, phase markers included.
    pub closed spec fn metas_view(&self) -> Seq<MetaView> {
        self.inner.metas()
    }

    /// Whether some of the schedule's systems read what they themselves last
    /// write, so that they cannot be planned.
    pub closed spec fn has_self_reads(&self) -> bool {
        !no_self_reads(planned_groups(self.inner.planner.metas()))
    }

    /// The keys of the schedule's phases, in the order they were added.
    pub closed spec fn phase_keys(&self) -> Seq<LabelKey> {
        self.inner.planner.phase_keys()
    }

    /// The number of the schedule's phases.
    pub closed spec fn n_phases(&self) -> nat {
        self.inner.planner.phase_items().len()
    }

    /// The kind of executor the schedule runs with.
    pub closed spec fn executor_kind(&self) -> Executors {
        self.inner.executor_factory
    }

    /// Whether the next tick plans the schedule anew: systems or phases
    /// changed, or it was never planned.
    pub closed spec fn needs_plan(&self) -> bool {
        self.inner.is_stale || self.executor is None
    }

    /// The number of systems, phase markers included.
    pub closed spec fn system_count(&self) -> nat {
        self.inner.n_systems()
    }

    pub fn new() -> (r: Schedule)
        ensures
            r.system_count() == 0,
    {
        Schedule { inner: ScheduleInner::new(), executor: None }
    }

    /// The number of systems, phase markers included.
    pub fn len(&self) -> (r: usize)
        ensures
            r == self.system_count(),
    {
        proof { use_type_invariant(self); }
        self.inner.len()
    }

    fn take_inner(&mut self) -> (r: ScheduleInner)
        ensures
            r.wf(),
            r.n_systems() == old(self).system_count(),
            r == old(self).inner,
            final(self).executor == old(self).executor,
    {
        proof { use_type_invariant(&*self); }
        let mut inner = ScheduleInner::new();
        std::mem::swap(&mut inner, &mut self.inner);
        inner
    }

    /// Adds the systems of `config`; a system is left out only when the
    /// schedule has no room for it.
    pub fn add_system<M, C: IntoSystemConfig<M>>(&mut self, config: C)
        ensures
            final(self).system_count() >= old(self).system_count(),
            final(self).executor_kind() == old(self).executor_kind(),
            final(self).system_count() != old(self).system_count() ==> final(self).needs_plan(),
    {
        self.add_configs(config.into_config())
    }

    /// Adds the systems of `configs`, in order: with room for them all, the
    /// schedule gains exactly one system per config.
    pub fn add_configs(&mut self, configs: SystemConfigs)
        ensures
            old(self).system_count() + configs.systems@.len() + 3 < usize::MAX
                && old(self).n_phases() + configs.systems@.len() + 3 < usize::MAX
                ==> final(self).system_count() == old(self).system_count() + configs.systems@.len(),
            final(self).system_count() >= old(self).system_count(),
            final(self).system_count() <= old(self).system_count() + configs.systems@.len(),
            final(self).executor_kind() == old(self).executor_kind(),
            final(self).system_count() != old(self).system_count() ==> final(self).needs_plan(),
    {
        proof { use_type_invariant(&*self); }
        let ghost len0 = configs.systems@.len();
        let ghost room = old(self).system_count() + len0 + 3 < usize::MAX
            && old(self).n_phases() + len0 + 3 < usize::MAX;
        let mut inner = self.take_inner();
        let mut systems = configs.systems;
        while systems.len() > 0
            invariant
                inner.wf(),
                !inner.is_stale ==> inner.n_systems() == old(self).inner.n_systems() && !old(self).inner.is_stale,
                inner.n_systems() >= old(self).system_count(),
                inner.n_systems() <= old(self).system_count() + (len0 - systems@.len()),
                room == (old(self).system_count() + len0 + 3 < usize::MAX
                    && old(self).n_phases() + len0 + 3 < usize::MAX),
                room ==> inner.n_systems() == old(self).system_count() + (len0 - systems@.len()),
                inner.planner.phase_items().len() <= old(self).n_phases() + (len0 - systems@.len()),
                systems@.len() <= len0,
                inner.executor_factory == old(self).inner.executor_factory,
                inner.n_systems() != old(self).system_count() ==> inner.is_stale,
            decreases systems@.len(),
        {
            let ghost rem = systems@.len();
            let c = systems.remove(0);
            proof {
                inner.planner.lemma_wf();
                assert(systems@.len() == rem - 1);
                if room {
                    assert(inner.n_systems() < usize::MAX - 2);
                    assert(inner.planner.phase_items().len() < usize::MAX - 2);
                }
            }
            if inner.len() < usize::MAX - 2 && inner.planner.n_phases() < usize::MAX - 2 {
                inner.add_system(c);
            }
        }
        self.inner = inner;
    }

    /// Adds the phase of `into_config`, unless it is there or the schedule
    /// has no room for more phases.
    pub fn add_phase<C: IntoPhaseConfig>(&mut self, into_config: C)
        ensures
            final(self).system_count() == old(self).system_count(),
            old(self).phase_keys().is_prefix_of(final(self).phase_keys()),
            old(self).n_phases() < usize::MAX - 2 ==> final(self).needs_plan() && exists|k: LabelKey|
                final(self).phase_keys().contains(k) && final(self).phase_keys() == (if old(self).phase_keys().contains(k) {
                    old(self).phase_keys()
                } else {
                    old(self).phase_keys().push(k)
                }),
    {
        proof { use_type_invariant(&*self); }
        let config = into_config.into_config();
        let mut inner = self.take_inner();
        proof { inner.planner.lemma_wf(); }
        if inner.planner.n_phases() < usize::MAX - 2 {
            let ghost k = config.key;
            inner.add_phase(config);
            proof {
                old(self).inner.planner.lemma_phase_keys();
                inner.planner.lemma_phase_keys();
                let id = choose|id: crate::schedule::phase::PhaseId| crate::schedule::phase::added_phase(
                    old(self).inner.planner.phase_set(), inner.planner.phase_set(), k, id);
                if old(self).inner.planner.phase_keys().contains(k) {
                    assert(inner.planner.phase_keys()[id.0 as int] == k);
                } else {
                    assert(inner.planner.phase_keys()[old(self).inner.planner.phase_keys().len() as int] == k);
                }
            }
            self.inner = inner;
            proof {
                assert(self.phase_keys().contains(k));
                assert(self.phase_keys() == (if old(self).phase_keys().contains(k) {
                    old(self).phase_keys()
                } else {
                    old(self).phase_keys().push(k)
                }));
            }
            return;
        }
        self.inner = inner;
    }

    /// Adds the phases of `into_config`, and the arrows between them when
    /// they are chained; nothing when the schedule has no room for them or
    /// a chain names one phase twice in a row.
    pub fn add_phases<C: IntoPhaseConfigs>(&mut self, into_config: C)
        ensures
            final(self).system_count() == old(self).system_count(),
            old(self).phase_keys().is_prefix_of(final(self).phase_keys()),
    {
        proof { use_type_invariant(&*self); }
        let config = into_config.into_config();
        let mut inner = self.take_inner();
        proof { inner.planner.lemma_wf(); }
        if inner.planner.n_phases() < usize::MAX / 2 && config.phases.len() < usize::MAX / 2
            && (!config.is_chained || chain_keys_differ(&config.phases)) {
            inner.add_phases(config);
        }
        self.inner = inner;
    }

    /// Makes `executor` the schedule's executor; the next tick plans anew.
    pub fn set_executor(&mut self, executor: Executors)
        ensures
            final(self).executor_kind() == executor,
            final(self).needs_plan(),
            final(self).system_count() == old(self).system_count(),
    {
        let mut inner = self.take_inner();
        inner.set_executor_factory(executor);
        self.inner = inner;
    }

    /// Plans the schedule if it changed, then runs its systems once and
    /// flushes them.
    pub fn tick(&mut self, world: &mut World) -> (r: Result<(), ScheduleErr>)
        requires
            old(world).wf(),
        ensures
            final(world).wf(),
            !old(self).needs_plan() ==> r is Ok,
            r is Err ==> old(self).needs_plan()
                && (final(self).system_count() >= usize::MAX - 3 || final(self).has_self_reads()),
            r is Err ==> final(self).log() == old(self).log(),
            ticked(*old(self), *final(self)),
            r is Ok ==> exists|pv: PlanView, oi: Seq<nat>, ran: Seq<Step>|
                #![trigger plan_sound(pv, oi), runs_once_in_order(pv, final(self).metas_view(), ran)] {
                &&& plan_sound(pv, oi)
                &&& pv.order.len() == final(self).metas_view().len()
                &&& final(self).log() == old(self).log() + ran.push(Step::Flush)
                &&& runs_once_in_order(pv, final(self).metas_view(), ran)
                &&& each_system_once(final(self).metas_view(), ran)
            },
    {
        proof { use_type_invariant(&*self); }
        let mut executor: Option<PlanExecutor> = None;
        std::mem::swap(&mut executor, &mut self.executor);
        let mut inner = self.take_inner();
        if inner.is_stale || executor.is_none() {
            if !inner.init(world) {
                self.inner = inner;
                return Err(ScheduleErr::Misc);
            }
            match inner.plan() {
                Some(plan) => {
                    executor = Some(inner.executor_factory.create(plan));
                    inner.is_stale = false;
                },
                None => {
                    self.inner = inner;
                    return Err(ScheduleErr::Misc);
                },
            }
        }
        let ghost log_run = inner.log();
        let ghost ms = inner.metas();
        let ghost plan_before = executor->Some_0.plan();
        let ghost single = executor->Some_0 is Single;
        proof {
            inner.lemma_n_metas();
            assert(log_run == old(self).log());
            assert(plan_sound(plan_before@, plan_before.ordered_n_incoming()));
            assert(plan_before@.order.len() == ms.len());
        }
        let result = match &mut executor {
            Some(e) => e.run(&mut inner, world),
            None => Err(ScheduleErr::Misc),
        };
        let ghost log_ran = inner.log();
        inner.flush(world);
        let ghost pv = plan_before@;
        let ghost oi = plan_before.ordered_n_incoming();
        let ghost ran = log_ran.skip(log_run.len() as int);
        proof {
            let t = choose|t: Seq<usize>| log_ran == log_run + #[trigger] pos_steps(pv, ms, t, single)
                && (plan_sound(pv, oi) ==> crate::schedule::executor::traversal_ok(pv, t));
            assert(log_ran =~= log_run + ran);
            assert(inner.log() =~= old(self).log() + ran.push(Step::Flush));
            lemma_each_system_once(pv, oi, ms, ran);
            assert(inner.metas() == ms);
        }
        self.inner = inner;
        self.executor = executor;
        proof {
            assert(self.log() == old(self).log() + ran.push(Step::Flush));
            assert(self.metas_view() == ms);
            assert(plan_sound(pv, oi) && runs_once_in_order(pv, self.metas_view(), ran));
        }
        result
    }
}

/// Whether consecutive phases of a chain differ.
fn chain_keys_differ(phases: &Vec<crate::schedule::phase::PhaseConfig>) -> (r: bool)
    ensures
        r == forall|i: int| 0 <= i < phases@.len() - 1 ==> (#[trigger] phases@[i]).key != phases@[i + 1].key,
{
    let mut i: usize = 1;
    while i < phases.len()
        invariant
            1 <= i,
            forall|k: int| 0 <= k < i - 1 && k < phases@.len() - 1 ==> (#[trigger] phases@[k]).key != phases@[k + 1].key,
        decreases phases@.len() - i,
    {
        if label_key_eq(&phases[i - 1].key, &phases[i].key) {
            assert(phases@[i - 1].key == phases@[(i - 1) + 1].key);
            return false;
        }
        i = i + 1;
    }
    true
}

impl Default for Schedule {
    fn default() -> (r: Schedule) {
        Schedule::new()
    }
}

} // verus!

verus! {

/// In a sequence without repeats, an element's index is where it stands.
proof fn lemma_index_of(keys: Seq<LabelKey>, i: int)
    requires
        keys.no_duplicates(),
        0 <= i < keys.len(),
    ensures
        keys.index_of(keys[i]) == i,
{
    assert(keys.contains(keys[i]));
}

/// The schedules of a world, by label.
pub struct Schedules {
    keys: Vec<LabelKey>,
    schedules: Vec<Schedule>,
    default_executor: Executors,
}

impl Schedules {
    /// The label of each schedule.
    pub closed spec fn keys(&self) -> Seq<LabelKey> {
        self.keys@
    }

    pub closed spec fn wf(&self) -> bool {
        &&& self.keys@.len() == self.schedules@.len()
        &&& self.keys@.no_duplicates()
    }

    /// The schedule labelled `k`.
    pub closed spec fn schedule_of(&self, k: LabelKey) -> Schedule {
        self.schedules@[self.keys@.index_of(k)]
    }

    /// The number of schedules.
    pub closed spec fn n_schedules(&self) -> nat {
        self.schedules@.len()
    }

    /// The executor kind of the `i`-th schedule.
    pub closed spec fn executor_of(&self, i: int) -> Executors {
        self.schedules@[i].executor_kind()
    }

    /// The executor kind given to schedules as they are inserted.
    pub closed spec fn default_executor(&self) -> Executors {
        self.default_executor
    }

    pub fn new() -> (r: Schedules)
        ensures
            r.wf(),
            r.keys() == Seq::<LabelKey>::empty(),
    {
        Schedules { keys: Vec::new(), schedules: Vec::new(), default_executor: Executors::default() }
    }

    /// The index of the schedule labelled `key`.
    fn find(&self, key: &LabelKey) -> (r: Option<usize>)
        ensures
            match r {
                Some(i) => i < self.keys().len() && i < self.schedules@.len() && self.keys()[i as int] == *key,
                None => !self.keys().contains(*key) || self.keys@.len() != self.schedules@.len(),
            },
    {
        match find_label_key(&self.keys, key) {
            Some(i) => if i < self.schedules.len() { Some(i) } else { None },
            None => None,
        }
    }

    pub fn get_by_key(&self, key: &LabelKey) -> (r: Option<&Schedule>)
        ensures
            r is Some ==> self.keys().contains(*key),
            self.wf() && self.keys().contains(*key) ==> r is Some,
    {
        match self.find(key) {
            Some(i) => Some(&self.schedules[i]),
            None => None,
        }
    }

    pub fn get<L: ScheduleLabel>(&self, label: &L) -> (r: Option<&Schedule>) {
        let key = label.label_key();
        self.get_by_key(&key)
    }

    /// The schedule labelled `key`, to change in place.
    pub fn get_mut_by_key(&mut self, key: &LabelKey) -> (r: Option<&mut Schedule>)
        ensures
            old(self).wf() ==> (r is Some) == old(self).keys().contains(*key),
            old(self).wf() ==> (r matches Some(s) ==> {
                &&& *s == old(self).schedule_of(*key)
                &&& final(self).wf()
                &&& final(self).keys() == old(self).keys()
                &&& final(self).schedule_of(*key) == *final(s)
                &&& forall|k: LabelKey| k != *key && #[trigger] old(self).keys().contains(k)
                    ==> final(self).schedule_of(k) == old(self).schedule_of(k)
            }),
            r is None ==> *final(self) == *old(self),
    {
        match self.find(key) {
            Some(i) => {
                proof {
                    if self.wf() {
                        lemma_index_of(self.keys@, i as int);
                        assert forall|k: LabelKey| k != *key && #[trigger] self.keys@.contains(k)
                            implies self.keys@.index_of(k) != i by {}
                    }
                }
                Some(&mut self.schedules[i])
            },
            None => None,
        }
    }

    pub fn get_mut<L: ScheduleLabel>(&mut self, label: &L) -> (r: Option<&mut Schedule>)
        ensures
            old(self).wf() ==> exists|k: LabelKey| {
                &&& (r is Some) == #[trigger] old(self).keys().contains(k)
                &&& (r matches Some(s) ==> {
                    &&& *s == old(self).schedule_of(k)
                    &&& final(self).wf()
                    &&& final(self).keys() == old(self).keys()
                    &&& final(self).schedule_of(k) == *final(s)
                    &&& forall|k2: LabelKey| k2 != k && #[trigger] old(self).keys().contains(k2)
                        ==> final(self).schedule_of(k2) == old(self).schedule_of(k2)
                })
            },
            r is None ==> *final(self) == *old(self),
    {
        let key = label.label_key();
        self.get_mut_by_key(&key)
    }

    /// Labels `schedule` with `key`, giving back the schedule it replaces.
    pub fn insert_by_key(&mut self, key: LabelKey, schedule: Schedule) -> (r: Option<Schedule>)
        ensures
            old(self).wf() ==> final(self).wf(),
            old(self).wf() ==> final(self).keys().contains(key),
            old(self).wf() && old(self).keys().contains(key) ==> final(self).keys() == old(self).keys() && r is Some,
            old(self).wf() && !old(self).keys().contains(key) ==> final(self).keys() == old(self).keys().push(key) && r is None,
            old(self).wf() ==> final(self).schedule_of(key) == schedule,
            old(self).wf() && r is Some ==> r->0 == old(self).schedule_of(key),
    {
        let ghost s0 = schedule;
        match self.find(&key) {
            Some(i) => {
                proof {
                    if old(self).wf() {
                        lemma_index_of(self.keys@, i as int);
                    }
                }
                let mut s = schedule;
                std::mem::swap(&mut s, &mut self.schedules[i]);
                Some(s)
            },
            None => {
                self.keys.push(key);
                self.schedules.push(schedule);
                proof {
                    let k = self.keys@;
                    assert(k[k.len() - 1] == key);
                    if old(self).wf() {
                        assert(self.schedules@[k.len() - 1] == s0);
                        assert forall|a: int, b: int| 0 <= a < k.len() && 0 <= b < k.len() && a != b
                            implies k[a] != k[b] by {
                            if a == k.len() - 1 {
                                assert(old(self).keys@.contains(k[b]));
                            } else if b == k.len() - 1 {
                                assert(old(self).keys@.contains(k[a]));
                            }
                        }
                    }
                }
                None
            },
        }
    }

    pub fn insert<L: ScheduleLabel>(&mut self, label: L, schedule: Schedule) -> (r: Option<Schedule>)
        ensures
            old(self).wf() ==> final(self).wf(),
            old(self).wf() ==> old(self).keys().is_prefix_of(final(self).keys()),
            old(self).wf() ==> exists|k: LabelKey| #[trigger] final(self).keys().contains(k) && if old(self).keys().contains(k) {
                final(self).keys() == old(self).keys() && r is Some
            } else {
                final(self).keys() == old(self).keys().push(k) && r is None
            },
    {
        let key = label.label_key();
        let r = self.insert_by_key(key, schedule);
        proof {
            if old(self).wf() {
                assert(self.keys().contains(key));
            }
        }
        r
    }

    /// Takes the schedule labelled `key` out, with its label.
    pub fn remove_entry_by_key(&mut self, key: &LabelKey) -> (r: Option<(LabelKey, Schedule)>)
        ensures
            old(self).wf() ==> final(self).wf(),
            old(self).wf() ==> !final(self).keys().contains(*key),
            old(self).wf() ==> (old(self).keys().contains(*key) <==> r is Some),
            r is Some ==> (r->0).0 == *key,
            old(self).wf() ==> forall|k: LabelKey| k != *key ==> (final(self).keys().contains(k) <==> old(self).keys().contains(k)),
            old(self).wf() && r is Some ==> (r->0).1 == old(self).schedule_of(*key),
    {
        match self.find(key) {
            Some(i) => {
                proof {
                    if old(self).wf() {
                        lemma_index_of(self.keys@, i as int);
                    }
                }
                let ghost k0 = self.keys@;
                let k = self.keys.remove(i);
                let s = self.schedules.remove(i);
                proof {
                    let k1 = self.keys@;
                    assert(k1 =~= k0.remove(i as int));
                    if old(self).wf() {
                    assert forall|a: int, b: int| 0 <= a < k1.len() && 0 <= b < k1.len() && a != b
                        implies k1[a] != k1[b] by {
                        let a0 = if a < i { a } else { a + 1 };
                        let b0 = if b < i { b } else { b + 1 };
                        assert(k1[a] == k0[a0] && k1[b] == k0[b0]);
                    }
                    assert(!k1.contains(*key)) by {
                        if k1.contains(*key) {
                            let j = k1.index_of(*key);
                            let j0 = if j < i { j } else { j + 1 };
                            assert(k0[j0] == *key);
                        }
                    }
                    assert forall|x: LabelKey| x != *key implies (k1.contains(x) <==> k0.contains(x)) by {
                        if k0.contains(x) {
                            let j = k0.index_of(x);
                            assert(j != i);
                            if j < i { assert(k1[j] == x); } else { assert(k1[j - 1] == x); }
                        }
                        if k1.contains(x) {
                            let j = k1.index_of(x);
                            if j < i { assert(k0[j] == x); } else { assert(k0[j + 1] == x); }
                        }
                    }
                    }
                }
                Some((k, s))
            },
            None => None,
        }
    }

    pub fn remove_entry<L: ScheduleLabel>(&mut self, label: &L) -> (r: Option<(LabelKey, Schedule)>)
        ensures
            old(self).wf() ==> final(self).wf(),
            old(self).wf() ==> exists|k: LabelKey| {
                &&& !#[trigger] final(self).keys().contains(k)
                &&& (old(self).keys().contains(k) <==> r is Some)
                &&& r matches Some(e) ==> e.0 == k
                &&& forall|k2: LabelKey| k2 != k
                    ==> (final(self).keys().contains(k2) <==> old(self).keys().contains(k2))
            },
    {
        let key = label.label_key();
        let r = self.remove_entry_by_key(&key);
        proof {
            if old(self).wf() {
                assert(!self.keys().contains(key));
            }
        }
        r
    }

    pub fn remove<L: ScheduleLabel>(&mut self, label: &L) -> (r: Option<Schedule>)
        ensures
            old(self).wf() ==> final(self).wf(),
            old(self).wf() ==> exists|k: LabelKey| {
                &&& !#[trigger] final(self).keys().contains(k)
                &&& (old(self).keys().contains(k) <==> r is Some)
                &&& forall|k2: LabelKey| k2 != k
                    ==> (final(self).keys().contains(k2) <==> old(self).keys().contains(k2))
            },
    {
        match self.remove_entry(label) {
            Some((_, s)) => Some(s),
            None => None,
        }
    }

    /// Adds systems to the schedule `label`, if there is one.
    /// Adds systems to the schedule `label`; false, with nothing changed,
    /// when there is no such schedule.  Only that schedule changes.
    pub fn add_system<L: ScheduleLabel, M, C: IntoSystemConfig<M>>(&mut self, label: &L, config: C) -> (r: bool)
        ensures
            old(self).wf() ==> final(self).wf(),
            old(self).wf() ==> exists|k: LabelKey| {
                &&& r == #[trigger] old(self).keys().contains(k)
                &&& r ==> {
                    &&& final(self).keys() == old(self).keys()
                    &&& final(self).schedule_of(k).system_count() >= old(self).schedule_of(k).system_count()
                    &&& forall|k2: LabelKey| k2 != k && #[trigger] old(self).keys().contains(k2)
                        ==> final(self).schedule_of(k2) == old(self).schedule_of(k2)
                }
            },
            old(self).wf() && !r ==> *final(self) == *old(self),
    {
        let key = label.label_key();
        match self.get_mut_by_key(&key) {
            Some(schedule) => {
                schedule.add_system(config);
                true
            },
            None => false,
        }
    }

    /// Adds phases to the schedule `label`, if there is one.
    /// Adds phases to the schedule `label`; false, with nothing changed,
    /// when there is no such schedule.  Only that schedule changes.
    pub fn add_phases<L: ScheduleLabel, C: IntoPhaseConfigs>(&mut self, label: &L, config: C) -> (r: bool)
        ensures
            old(self).wf() ==> final(self).wf(),
            old(self).wf() ==> exists|k: LabelKey| {
                &&& r == #[trigger] old(self).keys().contains(k)
                &&& r ==> {
                    &&& final(self).keys() == old(self).keys()
                    &&& old(self).schedule_of(k).phase_keys().is_prefix_of(final(self).schedule_of(k).phase_keys())
                    &&& forall|k2: LabelKey| k2 != k && #[trigger] old(self).keys().contains(k2)
                        ==> final(self).schedule_of(k2) == old(self).schedule_of(k2)
                }
            },
            old(self).wf() && !r ==> *final(self) == *old(self),
    {
        let key = label.label_key();
        match self.get_mut_by_key(&key) {
            Some(schedule) => {
                schedule.add_phases(config);
                true
            },
            None => false,
        }
    }

    /// Makes `executor` the default, and the executor of every schedule.
    pub fn set_executor(&mut self, executor: Executors)
        ensures
            final(self).keys() == old(self).keys(),
            final(self).default_executor() == executor,
            final(self).n_schedules() == old(self).n_schedules(),
            forall|i: int| 0 <= i < final(self).n_schedules() ==> #[trigger] final(self).executor_of(i) == executor,
    {
        self.default_executor = executor;
        let n = self.schedules.len();
        let mut i: usize = 0;
        while i < n
            invariant
                n == self.schedules@.len(),
                n == old(self).schedules@.len(),
                self.keys() == old(self).keys(),
                self.default_executor == executor,
                i <= n,
                forall|k: int| 0 <= k < i ==> #[trigger] self.schedules@[k].executor_kind() == executor,
            decreases n - i,
        {
            self.schedules[i].set_executor(executor);
            i = i + 1;
        }
    }

    /// Runs the schedule `label` once.
    pub fn tick<L: ScheduleLabel>(&mut self, label: &L, world: &mut World) -> (r: Result<(), ScheduleErr>)
        requires
            old(world).wf(),
        ensures
            final(world).wf(),
            old(self).wf() ==> final(self).wf() && final(self).keys() == old(self).keys(),
            old(self).wf() ==> exists|k: LabelKey| {
                &&& !#[trigger] old(self).keys().contains(k) ==> r is Err && *final(self) == *old(self)
                &&& old(self).keys().contains(k) ==> ticked(old(self).schedule_of(k), final(self).schedule_of(k))
                    && forall|k2: LabelKey| k2 != k && #[trigger] old(self).keys().contains(k2)
                        ==> final(self).schedule_of(k2) == old(self).schedule_of(k2)
            },
    {
        let key = label.label_key();
        match self.get_mut_by_key(&key) {
            Some(schedule) => schedule.tick(world),
            None => Err(ScheduleErr::UnknownSchedule),
        }
    }
}

impl Default for Schedules {
    fn default() -> (r: Schedules)
        ensures
            r.wf(),
            r.keys() == Seq::<LabelKey>::empty(),
    {
        Schedules::new()
    }
}

} // verus!
