//! Executors run a schedule's systems in the order of its plan.

use vstd::prelude::*;

use crate::schedule::plan::{Plan, PlanView, is_pred, plan_sound, sys_ids};
use crate::schedule::planner::MetaView;
use crate::schedule::ready::{in_rounds_before, rounds_view};
use crate::schedule::schedule::{ScheduleInner, ScheduleErr};
use crate::world::world::World;

verus! {

/// One thing a schedule does: run a system, or flush the systems' deferred
/// work.
pub enum Step {
    Run(usize),
    Flush,
}

/// The steps of visiting the plan positions `t` in turn: a system is run;
/// a phase marker is a flush when `flush_at_markers`, else nothing;
/// positions whose system is unknown give nothing.
pub open spec fn pos_steps(pv: PlanView, ms: Seq<MetaView>, t: Seq<usize>, flush_at_markers: bool) -> Seq<Step>
    decreases t.len(),
{
    if t.len() == 0 {
        Seq::empty()
    } else {
        let rest = pos_steps(pv, ms, t.drop_last(), flush_at_markers);
        let p = t.last();
        if (p as int) < pv.order.len() && (pv.order[p as int] as int) < ms.len() {
            if ms[pv.order[p as int] as int].marker {
                if flush_at_markers { rest.push(Step::Flush) } else { rest }
            } else {
                rest.push(Step::Run(pv.order[p as int]))
            }
        } else {
            rest
        }
    }
}

/// `t` visits every position of the plan once, each after every position
/// with an arrow to it.
pub open spec fn traversal_ok(pv: PlanView, t: Seq<usize>) -> bool {
    &&& t.no_duplicates()
    &&& forall|k: int| 0 <= k < t.len() ==> (#[trigger] t[k] as int) < pv.order.len()
    &&& forall|p: int| 0 <= p < pv.order.len() ==> #[trigger] t.contains(p as usize)
    &&& forall|q: int, p: int, k1: int, k2: int| #[trigger] is_pred(pv, q, p) && 0 <= k1 < t.len() && 0 <= k2 < t.len()
        && #[trigger] t[k1] == q && #[trigger] t[k2] == p ==> k1 < k2
}

/// The steps run each system of the plan that is not a phase marker
/// exactly once, each after every such system with an arrow to it, and run
/// nothing else.
pub open spec fn runs_once_in_order(pv: PlanView, ms: Seq<MetaView>, steps: Seq<Step>) -> bool {
    &&& forall|k: int| 0 <= k < steps.len() && (#[trigger] steps[k]) is Run ==> exists|p: int| {
        &&& 0 <= p < pv.order.len()
        &&& steps[k] == Step::Run(pv.order[p])
        &&& (pv.order[p] as int) < ms.len()
        &&& !ms[pv.order[p] as int].marker
    }
    &&& forall|p: int| 0 <= p < pv.order.len() && (pv.order[p] as int) < ms.len()
        && !ms[#[trigger] pv.order[p] as int].marker ==> exists|k: int| 0 <= k < steps.len() && steps[k] == Step::Run(pv.order[p])
    &&& forall|k1: int, k2: int| 0 <= k1 < steps.len() && 0 <= k2 < steps.len() && k1 != k2
        && (#[trigger] steps[k1]) is Run ==> steps[k1] != #[trigger] steps[k2]
    &&& forall|q: int, p: int, k1: int, k2: int| #[trigger] is_pred(pv, q, p) && 0 <= k1 < steps.len() && 0 <= k2 < steps.len()
        && #[trigger] steps[k1] == Step::Run(pv.order[q]) && #[trigger] steps[k2] == Step::Run(pv.order[p]) ==> k1 < k2
}

/// Visiting positions without repeats, each after its predecessors, runs
/// each system it reaches once and after its predecessors.
#[verifier::spinoff_prover]
#[verifier::rlimit(60)]
proof fn lemma_steps_prefix(pv: PlanView, oi: Seq<nat>, ms: Seq<MetaView>, t: Seq<usize>, f: bool)
    requires
        plan_sound(pv, oi),
        t.no_duplicates(),
        forall|k: int| 0 <= k < t.len() ==> (#[trigger] t[k] as int) < pv.order.len(),
        forall|q: int, p: int, k1: int, k2: int| #[trigger] is_pred(pv, q, p) && 0 <= k1 < t.len() && 0 <= k2 < t.len()
            && #[trigger] t[k1] == q && #[trigger] t[k2] == p ==> k1 < k2,
    ensures
        ({
            let steps = pos_steps(pv, ms, t, f);
            &&& forall|k: int| 0 <= k < steps.len() && (#[trigger] steps[k]) is Run ==> exists|j: int| {
                &&& 0 <= j < t.len()
                &&& steps[k] == Step::Run(pv.order[t[j] as int])
                &&& (pv.order[t[j] as int] as int) < ms.len()
                &&& !ms[pv.order[t[j] as int] as int].marker
            }
            &&& forall|j: int| 0 <= j < t.len() && (pv.order[t[j] as int] as int) < ms.len()
                && !ms[#[trigger] pv.order[t[j] as int] as int].marker
                ==> exists|k: int| 0 <= k < steps.len() && steps[k] == Step::Run(pv.order[t[j] as int])
            &&& forall|k1: int, k2: int| 0 <= k1 < steps.len() && 0 <= k2 < steps.len() && k1 != k2
                && (#[trigger] steps[k1]) is Run ==> steps[k1] != #[trigger] steps[k2]
            &&& forall|q: int, p: int, k1: int, k2: int| #[trigger] is_pred(pv, q, p) && 0 <= k1 < steps.len() && 0 <= k2 < steps.len()
                && #[trigger] steps[k1] == Step::Run(pv.order[q]) && #[trigger] steps[k2] == Step::Run(pv.order[p]) ==> k1 < k2
        }),
    decreases t.len(),
{
    if t.len() > 0 {
        let t0 = t.drop_last();
        assert forall|k: int| 0 <= k < t0.len() implies (#[trigger] t0[k] as int) < pv.order.len() by {
            assert(t0[k] == t[k]);
        }
        assert forall|q: int, p: int, k1: int, k2: int| #[trigger] is_pred(pv, q, p) && 0 <= k1 < t0.len() && 0 <= k2 < t0.len()
            && #[trigger] t0[k1] == q && #[trigger] t0[k2] == p implies k1 < k2 by {
            assert(t[k1] == q && t[k2] == p);
        }
        assert(t0.no_duplicates()) by {
            assert forall|a: int, b: int| 0 <= a < t0.len() && 0 <= b < t0.len() && a != b implies t0[a] != t0[b] by {
                assert(t0[a] == t[a] && t0[b] == t[b]);
            }
        }
        lemma_steps_prefix(pv, oi, ms, t0, f);
        let s0 = pos_steps(pv, ms, t0, f);
        let steps = pos_steps(pv, ms, t, f);
        let last = t.last();
        let li = t.len() - 1;
        assert(t[li] == last);
        assert forall|j: int| 0 <= j < t0.len() implies t0[j] != last by {
            assert(t[j] == t0[j]);
        }
        let id = pv.order[last as int];
        // the order names each system once
        assert forall|j: int| 0 <= j < t0.len() implies pv.order[t0[j] as int] != id by {
            assert(t0[j] != last);
            assert(pv.order.no_duplicates());
        }
        if (last as int) < pv.order.len() && (id as int) < ms.len() && !ms[id as int].marker {
            assert(steps == s0.push(Step::Run(id)));
            let n = s0.len() as int;
            assert(steps[n] == Step::Run(id));
            assert forall|k: int| 0 <= k < n implies steps[k] == s0[k] by {}
            // no earlier step runs `id`
            assert forall|k: int| 0 <= k < n implies s0[k] != Step::Run(id) by {
                if s0[k] == Step::Run(id) {
                    let j = choose|j: int| 0 <= j < t0.len() && s0[k] == Step::Run(pv.order[t0[j] as int])
                        && (pv.order[t0[j] as int] as int) < ms.len() && !ms[pv.order[t0[j] as int] as int].marker;
                }
            }
            assert forall|k: int| 0 <= k < steps.len() && (#[trigger] steps[k]) is Run implies exists|j: int| {
                &&& 0 <= j < t.len()
                &&& steps[k] == Step::Run(pv.order[t[j] as int])
                &&& (pv.order[t[j] as int] as int) < ms.len()
                &&& !ms[pv.order[t[j] as int] as int].marker
            } by {
                if k == n {
                    assert(steps[k] == Step::Run(pv.order[t[li] as int]));
                } else {
                    let j = choose|j: int| 0 <= j < t0.len() && s0[k] == Step::Run(pv.order[t0[j] as int])
                        && (pv.order[t0[j] as int] as int) < ms.len() && !ms[pv.order[t0[j] as int] as int].marker;
                    assert(t[j] == t0[j]);
                }
            }
            assert forall|j: int| 0 <= j < t.len() && (pv.order[t[j] as int] as int) < ms.len()
                && !ms[#[trigger] pv.order[t[j] as int] as int].marker
                implies exists|k: int| 0 <= k < steps.len() && steps[k] == Step::Run(pv.order[t[j] as int]) by {
                if j == li {
                    assert(steps[n] == Step::Run(pv.order[t[j] as int]));
                } else {
                    assert(t[j] == t0[j]);
                    assert(pv.order[t0[j] as int] == pv.order[t[j] as int]);
                    let k = choose|k: int| 0 <= k < s0.len() && s0[k] == Step::Run(pv.order[t0[j] as int]);
                    assert(steps[k] == s0[k]);
                }
            }
            assert forall|k1: int, k2: int| 0 <= k1 < steps.len() && 0 <= k2 < steps.len() && k1 != k2
                && (#[trigger] steps[k1]) is Run implies steps[k1] != #[trigger] steps[k2] by {
                if k1 == n {
                    assert(steps[k2] == s0[k2]);
                } else if k2 == n {
                    assert(steps[k1] == s0[k1]);
                } else {
                    assert(steps[k1] == s0[k1] && steps[k2] == s0[k2]);
                }
            }
            assert forall|q: int, p: int, k1: int, k2: int| #[trigger] is_pred(pv, q, p) && 0 <= k1 < steps.len() && 0 <= k2 < steps.len()
                && #[trigger] steps[k1] == Step::Run(pv.order[q]) && #[trigger] steps[k2] == Step::Run(pv.order[p])
                implies k1 < k2 by {
                assert(q < p);
                assert(pv.order[q] != pv.order[p]);
                if k1 == n {
                    // `q` is the last position visited; `p` came earlier
                    assert(pv.order[q] == id);
                    assert(q == last as int);
                    assert(steps[k2] == s0[k2]);
                    let j = choose|j: int| 0 <= j < t0.len() && s0[k2] == Step::Run(pv.order[t0[j] as int])
                        && (pv.order[t0[j] as int] as int) < ms.len() && !ms[pv.order[t0[j] as int] as int].marker;
                    assert(pv.order[t0[j] as int] == pv.order[p]);
                    assert(t0[j] as int == p);
                    assert(t[j] == p && t[li] == q);
                } else if k2 == n {
                } else {
                    assert(steps[k1] == s0[k1] && steps[k2] == s0[k2]);
                }
            }
        } else {
            assert(steps == s0 || steps == s0.push(Step::Flush));
            let n = s0.len() as int;
            assert forall|k: int| 0 <= k < n implies steps[k] == s0[k] by {}
            assert forall|k: int| 0 <= k < steps.len() && (#[trigger] steps[k]) is Run implies exists|j: int| {
                &&& 0 <= j < t.len()
                &&& steps[k] == Step::Run(pv.order[t[j] as int])
                &&& (pv.order[t[j] as int] as int) < ms.len()
                &&& !ms[pv.order[t[j] as int] as int].marker
            } by {
                assert(k < n);
                let j = choose|j: int| 0 <= j < t0.len() && s0[k] == Step::Run(pv.order[t0[j] as int])
                    && (pv.order[t0[j] as int] as int) < ms.len() && !ms[pv.order[t0[j] as int] as int].marker;
                assert(t[j] == t0[j]);
            }
            assert forall|j: int| 0 <= j < t.len() && (pv.order[t[j] as int] as int) < ms.len()
                && !ms[#[trigger] pv.order[t[j] as int] as int].marker
                implies exists|k: int| 0 <= k < steps.len() && steps[k] == Step::Run(pv.order[t[j] as int]) by {
                assert(j != li);
                assert(t[j] == t0[j]);
                let k = choose|k: int| 0 <= k < s0.len() && s0[k] == Step::Run(pv.order[t0[j] as int]);
                assert(steps[k] == s0[k]);
            }
            assert forall|k1: int, k2: int| 0 <= k1 < steps.len() && 0 <= k2 < steps.len() && k1 != k2
                && (#[trigger] steps[k1]) is Run implies steps[k1] != #[trigger] steps[k2] by {
                if k2 == n {
                    assert(steps[k1] == s0[k1]);
                } else {
                    assert(k1 < n);
                    assert(steps[k1] == s0[k1] && steps[k2] == s0[k2]);
                }
            }
            assert forall|q: int, p: int, k1: int, k2: int| #[trigger] is_pred(pv, q, p) && 0 <= k1 < steps.len() && 0 <= k2 < steps.len()
                && #[trigger] steps[k1] == Step::Run(pv.order[q]) && #[trigger] steps[k2] == Step::Run(pv.order[p])
                implies k1 < k2 by {
                assert(k1 < n && k2 < n);
                assert(steps[k1] == s0[k1] && steps[k2] == s0[k2]);
            }
        }
    }
}

/// A traversal of a sound plan runs each system once and in order.
pub proof fn lemma_runs_once_in_order(pv: PlanView, oi: Seq<nat>, ms: Seq<MetaView>, t: Seq<usize>, f: bool)
    requires
        plan_sound(pv, oi),
        traversal_ok(pv, t),
    ensures
        runs_once_in_order(pv, ms, pos_steps(pv, ms, t, f)),
{
    lemma_steps_prefix(pv, oi, ms, t, f);
    let steps = pos_steps(pv, ms, t, f);
    assert forall|k: int| 0 <= k < steps.len() && (#[trigger] steps[k]) is Run implies exists|p: int| {
        &&& 0 <= p < pv.order.len()
        &&& steps[k] == Step::Run(pv.order[p])
        &&& (pv.order[p] as int) < ms.len()
        &&& !ms[pv.order[p] as int].marker
    } by {
        let j = choose|j: int| 0 <= j < t.len() && steps[k] == Step::Run(pv.order[t[j] as int])
            && (pv.order[t[j] as int] as int) < ms.len() && !ms[pv.order[t[j] as int] as int].marker;
        let p = t[j] as int;
        assert(0 <= p < pv.order.len());
    }
    assert forall|p: int| 0 <= p < pv.order.len() && (pv.order[p] as int) < ms.len()
        && !ms[#[trigger] pv.order[p] as int].marker implies exists|k: int| 0 <= k < steps.len() && steps[k] == Step::Run(pv.order[p]) by {
        assert(t.contains(p as usize));
        let j = choose|j: int| 0 <= j < t.len() && t[j] == p as usize;
        assert(t[j] as int == p);
        assert(pv.order[t[j] as int] == pv.order[p]);
        assert(!ms[pv.order[t[j] as int] as int].marker);
    }
}

/// Runs the systems of a schedule.
pub trait Executor {
    fn run(&mut self, schedule: &mut ScheduleInner, world: &mut World) -> (r: Result<(), ScheduleErr>)
        requires
            old(schedule).wf(),
            old(world).wf(),
        ensures
            final(schedule).wf(),
            final(world).wf(),
            final(schedule).n_systems() == old(schedule).n_systems(),
            r is Ok,
    ;
}

/// Makes the executor of a plan.
pub trait ExecutorFactory {
    fn create(&self, plan: Plan) -> (r: PlanExecutor);
}

/// The executor of a plan: one of the library's executors.
pub enum PlanExecutor {
    Single(SingleExecutor),
    Multithreaded(MultithreadedExecutor),
}

impl PlanExecutor {
    /// The plan the executor runs.
    pub open spec fn plan(&self) -> Plan {
        match self {
            PlanExecutor::Single(e) => e.0,
            PlanExecutor::Multithreaded(e) => e.plan,
        }
    }
}

impl Executor for PlanExecutor {
    fn run(&mut self, schedule: &mut ScheduleInner, world: &mut World) -> (r: Result<(), ScheduleErr>)
        ensures
            final(schedule).metas() == old(schedule).metas(),
            final(schedule).stale() == old(schedule).stale(),
            final(self).plan() == old(self).plan(),
            (*final(self) is Single) == (*old(self) is Single),
            ran_plan(old(self).plan()@, old(self).plan().ordered_n_incoming(), old(schedule).metas(),
                old(schedule).log(), final(schedule).log(), *old(self) is Single),
    {
        match self {
            PlanExecutor::Single(e) => e.run(schedule, world),
            PlanExecutor::Multithreaded(e) => e.run(schedule, world),
        }
    }
}

#[derive(Debug, Clone, Copy, PartialEq, Eq)]
pub enum Executors {
    Single,
    Multithreaded,
}

impl Default for Executors {
    fn default() -> (r: Executors)
        ensures
            r == Executors::Multithreaded,
    {
        Executors::Multithreaded
    }
}

impl ExecutorFactory for Executors {
    fn create(&self, plan: Plan) -> (r: PlanExecutor)
        ensures
            (r is Single) <==> (*self == Executors::Single),
            r.plan() == plan,
    {
        match self {
            Executors::Single => PlanExecutor::Single(SingleExecutor(plan)),
            Executors::Multithreaded => PlanExecutor::Multithreaded(MultithreadedExecutor::new(plan)),
        }
    }
}

/// The positions `0..n`, in order.
pub open spec fn positions(n: int) -> Seq<usize> {
    Seq::new(n as nat, |k: int| k as usize)
}

/// `new_log` is `old_log` followed by the steps of visiting the plan's
/// positions in some order; of a sound plan, that order is a traversal, so
/// each system that is not a phase marker ran once, after its
/// predecessors.
pub open spec fn ran_plan(pv: PlanView, oi: Seq<nat>, ms: Seq<MetaView>, old_log: Seq<Step>, new_log: Seq<Step>, flush: bool) -> bool {
    &&& exists|t: Seq<usize>| new_log == old_log + #[trigger] pos_steps(pv, ms, t, flush)
        && (plan_sound(pv, oi) ==> traversal_ok(pv, t))
    &&& plan_sound(pv, oi) ==> runs_once_in_order(pv, ms, new_log.skip(old_log.len() as int))
}

/// Visiting `t`, after `old_log`, gives a run of the plan.
proof fn lemma_ran_plan(pv: PlanView, oi: Seq<nat>, ms: Seq<MetaView>, old_log: Seq<Step>, t: Seq<usize>, flush: bool)
    requires
        plan_sound(pv, oi) ==> traversal_ok(pv, t),
    ensures
        ran_plan(pv, oi, ms, old_log, old_log + pos_steps(pv, ms, t, flush), flush),
{
    let new_log = old_log + pos_steps(pv, ms, t, flush);
    assert(new_log.skip(old_log.len() as int) =~= pos_steps(pv, ms, t, flush));
    assert(new_log == old_log + pos_steps(pv, ms, t, flush) && (plan_sound(pv, oi) ==> traversal_ok(pv, t)));
    if plan_sound(pv, oi) {
        lemma_runs_once_in_order(pv, oi, ms, t, flush);
        assert(runs_once_in_order(pv, ms, new_log.skip(old_log.len() as int)));
    }
}

/// Runs the systems one at a time in the plan's order, flushing at each
/// phase marker.
pub struct SingleExecutor(pub Plan);

impl Executor for SingleExecutor {
    /// Visits the plan's positions in order: runs each system, and
    /// flushes at each phase marker.
    fn run(&mut self, schedule: &mut ScheduleInner, world: &mut World) -> (r: Result<(), ScheduleErr>)
        ensures
            final(schedule).metas() == old(schedule).metas(),
            final(schedule).stale() == old(schedule).stale(),
            final(schedule).log() == old(schedule).log()
                + pos_steps(old(self).0@, old(schedule).metas(), positions(old(self).0@.order.len() as int), true),
            final(self).0 == old(self).0,
            ran_plan(old(self).0@, old(self).0.ordered_n_incoming(), old(schedule).metas(),
                old(schedule).log(), final(schedule).log(), true),
    {
        let ghost pv = self.0@;
        let ghost ms = schedule.metas();
        let ghost log0 = schedule.log();
        let order = self.0.order();
        let n = schedule.len();
        proof { schedule.lemma_n_metas(); }
        let mut i: usize = 0;
        while i < order.len()
            invariant
                schedule.wf(),
                world.wf(),
                n == schedule.n_systems(),
                pv == self.0@,
                ms == schedule.metas(),
                schedule.stale() == old(schedule).stale(),
                n == ms.len(),
                sys_ids(order@) == pv.order,
                i <= order@.len(),
                schedule.log() == log0 + pos_steps(pv, ms, positions(i as int), true),
            decreases order@.len() - i,
        {
            let id = order[i];
            proof {
                assert(positions(i + 1).drop_last() =~= positions(i as int));
                assert(positions(i + 1).last() == i);
                assert(sys_ids(order@)[i as int] == id.0);
            }
            if id.0 < n {
                if schedule.is_marker(id) {
                    schedule.flush(world);
                } else {
                    schedule.run_system(id, world);
                }
            }
            proof {
                assert(schedule.log() =~= log0 + pos_steps(pv, ms, positions(i + 1), true));
            }
            i = i + 1;
        }
        proof {
            let t = positions(pv.order.len() as int);
            if plan_sound(pv, self.0.ordered_n_incoming()) {
                assert forall|p: int| 0 <= p < pv.order.len() implies #[trigger] t.contains(p as usize) by {
                    assert(t[p] == p as usize);
                }
                assert forall|q: int, p: int, k1: int, k2: int| #[trigger] is_pred(pv, q, p) && 0 <= k1 < t.len() && 0 <= k2 < t.len()
                    && #[trigger] t[k1] == q && #[trigger] t[k2] == p implies k1 < k2 by {
                    assert(q < p);
                }
                assert(traversal_ok(pv, t));
            }
            lemma_ran_plan(pv, self.0.ordered_n_incoming(), ms, log0, t, true);
        }
        Ok(())
    }
}

/// Makes executors that start every system as soon as the systems before
/// it have completed.
pub struct MultithreadedExecutorFactory;

impl ExecutorFactory for MultithreadedExecutorFactory {
    fn create(&self, plan: Plan) -> (r: PlanExecutor)
        ensures
            r is Multithreaded,
            r.plan() == plan,
    {
        PlanExecutor::Multithreaded(MultithreadedExecutor::new(plan))
    }
}

/// Starts, in rounds, every system whose predecessors have all completed.
pub struct MultithreadedExecutor {
    pub plan: Plan,
}

impl MultithreadedExecutor {
    pub fn new(plan: Plan) -> (r: MultithreadedExecutor)
        ensures
            r.plan == plan,
    {
        MultithreadedExecutor { plan }
    }
}

/// Position `(i, b)` of the rounds comes before `(r, j)`.
pub open spec fn slot_before(i: int, b: int, r: int, j: int) -> bool {
    i < r || (i == r && b < j)
}

impl Executor for MultithreadedExecutor {
    /// Runs the systems of each ready round in turn; phase markers are
    /// passed over.
    fn run(&mut self, schedule: &mut ScheduleInner, world: &mut World) -> (res: Result<(), ScheduleErr>)
        ensures
            final(schedule).metas() == old(schedule).metas(),
            final(schedule).stale() == old(schedule).stale(),
            final(self).plan == old(self).plan,
            ran_plan(old(self).plan@, old(self).plan.ordered_n_incoming(), old(schedule).metas(),
                old(schedule).log(), final(schedule).log(), false),
    {
        let ghost pv = self.plan@;
        let ghost oi = self.plan.ordered_n_incoming();
        let ghost sound = plan_sound(pv, oi);
        let ghost ms = schedule.metas();
        let ghost log0 = schedule.log();
        let rounds = crate::schedule::ready::ready_rounds(&self.plan);
        let ghost rv = rounds_view(rounds@);
        let n = schedule.len();
        proof { schedule.lemma_n_metas(); }
        let ghost mut t: Seq<usize> = Seq::empty();
        let mut r: usize = 0;
        while r < rounds.len()
            invariant
                forall|a: int, b: int| 0 <= a < rounds@.len() && 0 <= b < rounds@[a]@.len()
                    ==> #[trigger] rounds@[a]@[b] < self.plan@.order.len(),
                forall|i1: int, a: int, i2: int, b: int| 0 <= i1 < rounds@.len() && 0 <= a < rounds@[i1]@.len()
                    && 0 <= i2 < rounds@.len() && 0 <= b < rounds@[i2]@.len() && (i1 != i2 || a != b)
                    ==> #[trigger] rounds@[i1]@[a] != #[trigger] rounds@[i2]@[b],
                sound ==> forall|i: int, a: int, q: int| 0 <= i < rounds@.len() && 0 <= a < rounds@[i]@.len()
                    && #[trigger] is_pred(pv, q, rounds@[i]@[a] as int) ==> in_rounds_before(rv, i, q),
                rv == rounds_view(rounds@),
                pv == self.plan@,
                sound == plan_sound(pv, oi),
                schedule.wf(),
                world.wf(),
                n == schedule.n_systems(),
                ms == schedule.metas(),
                schedule.stale() == old(schedule).stale(),
                n == ms.len(),
                r <= rounds@.len(),
                schedule.log() == log0 + pos_steps(pv, ms, t, false),
                forall|k: int| 0 <= k < t.len() ==> exists|i: int, b: int| slot_before(i, b, r as int, 0)
                    && 0 <= i < rounds@.len() && 0 <= b < rounds@[i]@.len() && #[trigger] t[k] == rounds@[i]@[b],
                forall|i: int, b: int| 0 <= i < r && 0 <= b < rounds@[i]@.len() ==> t.contains(#[trigger] rounds@[i]@[b]),
                t.no_duplicates(),
                sound ==> forall|q: int, p: int, k1: int, k2: int| #[trigger] is_pred(pv, q, p) && 0 <= k1 < t.len()
                    && 0 <= k2 < t.len() && #[trigger] t[k1] == q && #[trigger] t[k2] == p ==> k1 < k2,
            decreases rounds@.len() - r,
        {
            let round = &rounds[r];
            let mut j: usize = 0;
            while j < round.len()
                invariant
                    forall|a: int, b: int| 0 <= a < rounds@.len() && 0 <= b < rounds@[a]@.len()
                        ==> #[trigger] rounds@[a]@[b] < self.plan@.order.len(),
                    forall|i1: int, a: int, i2: int, b: int| 0 <= i1 < rounds@.len() && 0 <= a < rounds@[i1]@.len()
                        && 0 <= i2 < rounds@.len() && 0 <= b < rounds@[i2]@.len() && (i1 != i2 || a != b)
                        ==> #[trigger] rounds@[i1]@[a] != #[trigger] rounds@[i2]@[b],
                    sound ==> forall|i: int, a: int, q: int| 0 <= i < rounds@.len() && 0 <= a < rounds@[i]@.len()
                        && #[trigger] is_pred(pv, q, rounds@[i]@[a] as int) ==> in_rounds_before(rv, i, q),
                    rv == rounds_view(rounds@),
                    round == rounds@[r as int],
                    r < rounds@.len(),
                    pv == self.plan@,
                    sound == plan_sound(pv, oi),
                    schedule.wf(),
                    world.wf(),
                    n == schedule.n_systems(),
                    ms == schedule.metas(),
                    schedule.stale() == old(schedule).stale(),
                    n == ms.len(),
                    j <= round@.len(),
                    schedule.log() == log0 + pos_steps(pv, ms, t, false),
                    forall|k: int| 0 <= k < t.len() ==> exists|i: int, b: int| slot_before(i, b, r as int, j as int)
                        && 0 <= i < rounds@.len() && 0 <= b < rounds@[i]@.len() && #[trigger] t[k] == rounds@[i]@[b],
                    forall|i: int, b: int| 0 <= i < r && 0 <= b < rounds@[i]@.len() ==> t.contains(#[trigger] rounds@[i]@[b]),
                    forall|b: int| 0 <= b < j ==> t.contains(#[trigger] rounds@[r as int]@[b]),
                    t.no_duplicates(),
                    sound ==> forall|q: int, p: int, k1: int, k2: int| #[trigger] is_pred(pv, q, p) && 0 <= k1 < t.len()
                        && 0 <= k2 < t.len() && #[trigger] t[k1] == q && #[trigger] t[k2] == p ==> k1 < k2,
                decreases round@.len() - j,
            {
                let p = round[j];
                let id = self.plan.system_id(p);
                if id.0 < n && !schedule.is_marker(id) {
                    schedule.run_system(id, world);
                }
                proof {
                    let t0 = t;
                    t = t.push(p);
                    assert(t.drop_last() == t0);
                    assert(schedule.log() =~= log0 + pos_steps(pv, ms, t, false));
                    let nk = t0.len() as int;
                    assert(t[nk] == p);
                    assert forall|k: int| 0 <= k < nk implies t0[k] != p by {
                        let (i, b) = choose|i: int, b: int| slot_before(i, b, r as int, j as int)
                            && 0 <= i < rounds@.len() && 0 <= b < rounds@[i]@.len() && t0[k] == rounds@[i]@[b];
                        assert(rounds@[r as int]@[j as int] == p);
                    }
                    assert(t.no_duplicates()) by {
                        assert forall|a: int, b: int| 0 <= a < t.len() && 0 <= b < t.len() && a != b implies t[a] != t[b] by {
                            if a < nk && b < nk {
                                assert(t[a] == t0[a] && t[b] == t0[b]);
                            } else if a < nk {
                                assert(t[a] == t0[a]);
                            } else {
                                assert(t[b] == t0[b]);
                            }
                        }
                    }
                    assert forall|k: int| 0 <= k < t.len() implies exists|i: int, b: int| slot_before(i, b, r as int, j + 1)
                        && 0 <= i < rounds@.len() && 0 <= b < rounds@[i]@.len() && #[trigger] t[k] == rounds@[i]@[b] by {
                        if k < nk {
                            assert(t[k] == t0[k]);
                            let (i, b) = choose|i: int, b: int| slot_before(i, b, r as int, j as int)
                                && 0 <= i < rounds@.len() && 0 <= b < rounds@[i]@.len() && t0[k] == rounds@[i]@[b];
                            assert(slot_before(i, b, r as int, j + 1));
                        } else {
                            assert(slot_before(r as int, j as int, r as int, j + 1));
                        }
                    }
                    assert forall|i: int, b: int| 0 <= i < r && 0 <= b < rounds@[i]@.len() implies t.contains(#[trigger] rounds@[i]@[b]) by {
                        let k = choose|k: int| 0 <= k < t0.len() && t0[k] == rounds@[i]@[b];
                        assert(t[k] == t0[k]);
                    }
                    assert forall|b: int| 0 <= b < j + 1 implies t.contains(#[trigger] rounds@[r as int]@[b]) by {
                        if b < j {
                            let k = choose|k: int| 0 <= k < t0.len() && t0[k] == rounds@[r as int]@[b];
                            assert(t[k] == t0[k]);
                        } else {
                            assert(t[nk] == rounds@[r as int]@[b]);
                        }
                    }
                    if sound {
                        assert forall|q: int, pp: int, k1: int, k2: int| #[trigger] is_pred(pv, q, pp) && 0 <= k1 < t.len()
                            && 0 <= k2 < t.len() && #[trigger] t[k1] == q && #[trigger] t[k2] == pp implies k1 < k2 by {
                            if k1 == nk {
                                if k2 < nk {
                                    // `pp` was visited before `q`, yet `q` points to it
                                    assert(t[k2] == t0[k2]);
                                    let (i, b) = choose|i: int, b: int| slot_before(i, b, r as int, j as int)
                                        && 0 <= i < rounds@.len() && 0 <= b < rounds@[i]@.len() && t0[k2] == rounds@[i]@[b];
                                    assert(is_pred(pv, q, rounds@[i]@[b] as int));
                                    assert(in_rounds_before(rv, i, q));
                                    let (i2, b2) = choose|i2: int, b2: int| 0 <= i2 < i && 0 <= b2 < rv[i2].len() && rv[i2][b2] == q;
                                    assert(rv[i2] == rounds@[i2]@);
                                    assert(rounds@[r as int]@[j as int] == p);
                                    assert(rounds@[i2]@[b2] == q);
                                }
                            } else if k2 == nk {
                            } else {
                                assert(t[k1] == t0[k1] && t[k2] == t0[k2]);
                            }
                        }
                    }
                }
                j = j + 1;
            }
            proof {
                assert forall|k: int| 0 <= k < t.len() implies exists|i: int, b: int| slot_before(i, b, r + 1, 0)
                    && 0 <= i < rounds@.len() && 0 <= b < rounds@[i]@.len() && #[trigger] t[k] == rounds@[i]@[b] by {
                    let (i, b) = choose|i: int, b: int| slot_before(i, b, r as int, j as int)
                        && 0 <= i < rounds@.len() && 0 <= b < rounds@[i]@.len() && t[k] == rounds@[i]@[b];
                    assert(slot_before(i, b, r + 1, 0));
                }
                assert forall|i: int, b: int| 0 <= i < r + 1 && 0 <= b < rounds@[i]@.len() implies t.contains(#[trigger] rounds@[i]@[b]) by {
                    if i == r {
                        assert(b < j);
                    }
                }
            }
            r = r + 1;
        }
        proof {
            if sound {
                assert forall|pp: int| 0 <= pp < pv.order.len() implies #[trigger] t.contains(pp as usize) by {
                    assert(in_rounds_before(rounds_view(rounds@), rounds@.len() as int, pp));
                    let (i, b) = choose|i: int, b: int| 0 <= i < rounds@.len() && 0 <= b < rv[i].len() && rv[i][b] == pp;
                    assert(rv[i] == rounds@[i]@);
                    assert(t.contains(rounds@[i]@[b]));
                }
                assert forall|k: int| 0 <= k < t.len() implies (#[trigger] t[k] as int) < pv.order.len() by {
                    let (i, b) = choose|i: int, b: int| slot_before(i, b, rounds@.len() as int, 0)
                        && 0 <= i < rounds@.len() && 0 <= b < rounds@[i]@.len() && t[k] == rounds@[i]@[b];
                }
                assert(traversal_ok(pv, t));
            }
            lemma_ran_plan(pv, oi, ms, log0, t, false);
        }
        Ok(())
    }
}

} // verus!
