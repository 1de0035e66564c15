//! Conditions: tests that decide whether a system runs on a tick.

use vstd::prelude::*;

use crate::schedule::planner::SystemMeta;
use crate::system::system::System;
use crate::world::world::World;

verus! {

/// A test that a schedule makes before it runs a system.
pub trait Condition: 'static {
    fn init(&mut self, meta: &mut SystemMeta, world: &mut World)
        requires
            old(world).wf(),
        ensures
            final(world).wf(),
    ;

    fn test(&mut self, world: &mut World) -> (r: bool)
        requires
            old(world).wf(),
        ensures
            final(world).wf(),
    ;
}

/// What can be turned into a condition.
pub trait IntoCondition<M>: Sized {
    type Condition: Condition;

    fn into_condition(this: Self) -> Self::Condition;
}

impl<C: Condition> IntoCondition<()> for C {
    type Condition = C;

    fn into_condition(this: Self) -> C {
        this
    }
}

/// Calls `f()` and gives back what it returned.
#[verifier::external_body]
fn call_test<F: FnMut() -> bool>(f: &mut F) -> bool {
    f()
}

/// Marks functions without arguments that return `bool`.
pub struct IsTest;

/// A condition that calls a function; it reads and writes nothing of the world.
pub struct FunCondition<F> {
    fun: F,
}

impl<F: FnMut() -> bool + 'static> Condition for FunCondition<F> {
    fn init(&mut self, meta: &mut SystemMeta, world: &mut World) {
    }

    fn test(&mut self, world: &mut World) -> bool {
        call_test(&mut self.fun)
    }
}

impl<F: FnMut() -> bool + 'static> IntoCondition<IsTest> for F {
    type Condition = FunCondition<F>;

    fn into_condition(this: Self) -> FunCondition<F> {
        FunCondition { fun: this }
    }
}

/// One condition of a list, and the rest.
pub struct CondNode {
    pub cond: Box<dyn Condition>,
    pub next: Option<Box<CondNode>>,
    /// What the condition's last test returned, if it was tested.
    pub last: Ghost<Option<bool>>,
}

/// What each condition of the list at `node` last returned, in order.
pub open spec fn cond_results(node: Option<Box<CondNode>>) -> Seq<Option<bool>>
    decreases node,
{
    match node {
        Some(n) => seq![n.last@] + cond_results(n.next),
        None => Seq::empty(),
    }
}

/// The list at `node` has one result per condition.
proof fn lemma_results_len(node: Option<Box<CondNode>>)
    ensures
        cond_results(node).len() == cond_count(node),
    decreases node,
{
    match node {
        Some(n) => lemma_results_len(n.next),
        None => {},
    }
}

/// Tests the condition of `n` and records what it returned.
fn test_node(n: &mut CondNode, world: &mut World) -> (r: bool)
    requires
        old(world).wf(),
    ensures
        final(world).wf(),
        final(n).last@ == Some(r),
        final(n).next == old(n).next,
{
    let r = n.cond.test(world);
    n.last = Ghost(Some(r));
    r
}

/// The number of conditions in the list that starts at `node`.
pub open spec fn cond_count(node: Option<Box<CondNode>>) -> nat
    decreases node,
{
    match node {
        Some(n) => 1 + cond_count(n.next),
        None => 0,
    }
}

/// The conditions of a system, in the order they were added.
pub struct Conditions {
    head: Option<Box<CondNode>>,
}

impl Conditions {
    pub closed spec fn count(&self) -> nat {
        cond_count(self.head)
    }

    pub fn new() -> (r: Conditions)
        ensures
            r.count() == 0,
    {
        Conditions { head: None }
    }

    /// Tells whether there are no conditions.
    pub fn is_empty(&self) -> (r: bool)
        ensures
            r == (self.count() == 0),
    {
        self.head.is_none()
    }

    /// Adds `cond` after the others.
    pub fn push(&mut self, cond: Box<dyn Condition>)
        ensures
            final(self).count() == old(self).count() + 1,
    {
        let head = self.head.take();
        self.head = Some(push_last(head, cond));
    }

    /// Initializes each condition with the meta of the system it guards.
    pub fn init(&mut self, meta: &mut SystemMeta, world: &mut World)
        requires
            old(world).wf(),
        ensures
            final(self).count() == old(self).count(),
            final(self).results() == old(self).results(),
            final(world).wf(),
    {
        init_nodes(&mut self.head, meta, world);
    }

    /// What each condition last returned, in order.
    pub closed spec fn results(&self) -> Seq<Option<bool>> {
        cond_results(self.head)
    }

    /// Tests every condition, in order, and tells whether all of them held.
    /// Each is tested, also after one has failed.
    pub fn test_all(&mut self, world: &mut World) -> (r: bool)
        requires
            old(world).wf(),
        ensures
            final(self).count() == old(self).count(),
            final(world).wf(),
            old(self).count() == 0 ==> r,
            forall|i: int| 0 <= i < final(self).count() ==> (#[trigger] final(self).results()[i]) is Some,
            r == forall|i: int| 0 <= i < final(self).count() ==> #[trigger] final(self).results()[i] == Some(true),
    {
        test_nodes(&mut self.head, world)
    }
}

fn push_last(node: Option<Box<CondNode>>, cond: Box<dyn Condition>) -> (r: Box<CondNode>)
    ensures
        cond_count(Some(r)) == cond_count(node) + 1,
    decreases node,
{
    match node {
        None => Box::new(CondNode { cond, next: None, last: Ghost(None) }),
        Some(n) => {
            let CondNode { cond: first, next, last } = *n;
            let rest = push_last(next, cond);
            Box::new(CondNode { cond: first, next: Some(rest), last })
        },
    }
}

fn init_nodes(node: &mut Option<Box<CondNode>>, meta: &mut SystemMeta, world: &mut World)
    requires
        old(world).wf(),
    ensures
        final(world).wf(),
        cond_count(*final(node)) == cond_count(*old(node)),
        cond_results(*final(node)) == cond_results(*old(node)),
    decreases cond_count(*old(node)),
{
    match node {
        Some(n) => {
            n.cond.init(meta, world);
            init_nodes(&mut n.next, meta, world);
        },
        None => {},
    }
}

fn test_nodes(node: &mut Option<Box<CondNode>>, world: &mut World) -> (r: bool)
    requires
        old(world).wf(),
    ensures
        final(world).wf(),
        cond_count(*final(node)) == cond_count(*old(node)),
        cond_count(*old(node)) == 0 ==> r,
        forall|i: int| 0 <= i < cond_count(*final(node)) ==> (#[trigger] cond_results(*final(node))[i]) is Some,
        r == forall|i: int| 0 <= i < cond_count(*final(node)) ==> #[trigger] cond_results(*final(node))[i] == Some(true),
    decreases cond_count(*old(node)),
{
    match node {
        Some(n) => {
            let first = test_node(n, world);
            let rest = test_nodes(&mut n.next, world);
            proof {
                let res = cond_results(*node);
                let tail = cond_results(n.next);
                lemma_results_len(*node);
                lemma_results_len(n.next);
                assert(res == seq![Some(first)] + tail);
                assert forall|i: int| 0 <= i < cond_count(*node) implies (#[trigger] res[i]) is Some by {
                    if i > 0 {
                        assert(res[i] == tail[i - 1]);
                    }
                }
                if first && rest {
                    assert forall|i: int| 0 <= i < cond_count(*node) implies #[trigger] res[i] == Some(true) by {
                        if i > 0 {
                            assert(res[i] == tail[i - 1]);
                        }
                    }
                } else if !first {
                    assert(res[0] == Some(false));
                } else {
                    let j = choose|j: int| 0 <= j < cond_count(n.next) && tail[j] != Some(true);
                    assert(res[j + 1] == tail[j]);
                }
            }
            first && rest
        },
        None => true,
    }
}

/// A system that runs only on the ticks on which all its conditions hold.
pub struct RunIf {
    system: Box<dyn System>,
    conditions: Conditions,
    /// Whether the system ran on the last run, once there was one.
    ran: Ghost<Option<bool>>,
}

impl RunIf {
    /// After a run, the system ran exactly when every condition returned
    /// true, each condition having been tested.
    pub closed spec fn consistent(&self) -> bool {
        self.ran@ matches Some(b) ==> {
            &&& forall|i: int| 0 <= i < self.conditions.count() ==> (#[trigger] self.conditions.results()[i]) is Some
            &&& b == forall|i: int| 0 <= i < self.conditions.count()
                ==> #[trigger] self.conditions.results()[i] == Some(true)
        }
    }

    pub fn new(system: Box<dyn System>, conditions: Conditions) -> (r: RunIf)
        ensures
            r.last_ran() is None,
            r.consistent(),
            r.condition_count() == conditions.count(),
    {
        RunIf { system, conditions, ran: Ghost(None) }
    }

    /// Whether the guarded system ran on the last run.
    pub closed spec fn last_ran(&self) -> Option<bool> {
        self.ran@
    }

    pub closed spec fn condition_count(&self) -> nat {
        self.conditions.count()
    }

    /// What each condition returned on the last run.
    pub closed spec fn condition_results(&self) -> Seq<Option<bool>> {
        self.conditions.results()
    }
}

impl System for RunIf {
    /// Initializes the system, then its conditions with the same meta.
    fn init(&mut self, meta: &mut SystemMeta, world: &mut World)
        ensures
            old(self).consistent() ==> final(self).consistent(),
            final(self).last_ran() == old(self).last_ran(),
    {
        self.system.init(meta, world);
        self.conditions.init(meta, world);
    }

    /// Tests all conditions; runs the system when every one held.
    fn run(&mut self, world: &mut World)
        ensures
            final(self).condition_count() == old(self).condition_count(),
            forall|i: int| 0 <= i < final(self).condition_count()
                ==> (#[trigger] final(self).condition_results()[i]) is Some,
            final(self).last_ran() == Some(forall|i: int| 0 <= i < final(self).condition_count()
                ==> #[trigger] final(self).condition_results()[i] == Some(true)),
            final(self).consistent(),
    {
        let ok = self.conditions.test_all(world);
        if ok {
            self.system.run(world);
        }
        self.ran = Ghost(Some(ok));
    }

    fn flush(&mut self, world: &mut World) {
        self.system.flush(world);
    }
}

/// A run-if system that ran did so because every one of its conditions
/// returned true.
pub proof fn law_run_if_ran_only_if_all_held(r: RunIf, i: int)
    requires
        r.consistent(),
        r.last_ran() == Some(true),
        0 <= i < r.condition_count(),
    ensures
        r.condition_results()[i] == Some(true),
{
}

/// One condition that returned false keeps a run-if system from running,
/// whatever the others returned.
pub proof fn law_run_if_one_false_blocks(r: RunIf, i: int)
    requires
        r.consistent(),
        r.last_ran() is Some,
        0 <= i < r.condition_count(),
        r.condition_results()[i] == Some(false),
    ensures
        r.last_ran() == Some(false),
{
}

/// A run-if system whose conditions all returned true ran.
pub proof fn law_run_if_all_held_runs(r: RunIf)
    requires
        r.consistent(),
        r.last_ran() is Some,
        forall|i: int| 0 <= i < r.condition_count() ==> #[trigger] r.condition_results()[i] == Some(true),
    ensures
        r.last_ran() == Some(true),
{
    assert forall|i: int| 0 <= i < r.conditions.count() implies #[trigger] r.conditions.results()[i] == Some(true) by {
        assert(r.condition_results()[i] == Some(true));
    }
}

} // verus!
