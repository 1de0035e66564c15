//! The execution plan of a schedule: the sorted order of its systems and,
//! for each system, how many systems must finish before it and which
//! positions of the order wait on it.

use vstd::prelude::*;

use crate::system::system::SystemId;
use super::preorder::{
    Preorder, NodeId, NodeView, ids_of, is_topological, lemma_permutation_covers, graph_wf,
    has_arrow, arrow_between,
    same_weights, arrows_subset, only_cycles_broken,
};

verus! {

pub struct PlanSystem {
    n_incoming: usize,
    outgoing: Vec<usize>,
}

pub struct Plan {
    systems: Vec<PlanSystem>,
    order: Vec<SystemId>,
    n_incoming: Vec<usize>,
}

/// What a plan holds, as plain values.
pub struct PlanView {
    /// The systems in execution order.
    pub order: Seq<usize>,
    /// For each system (by id), the number of arrows into it.
    pub n_incoming: Seq<nat>,
    /// For each system (by id), the positions in `order` of its successors.
    pub outgoing: Seq<Seq<usize>>,
}

pub open spec fn sys_ids(s: Seq<SystemId>) -> Seq<usize> {
    s.map_values(|n: SystemId| n.0)
}

/// The position of `id` in `order`.
pub open spec fn position_in(order: Seq<usize>, id: usize) -> int {
    order.index_of(id)
}

/// The plan of graph `g` whose sorted order is `order`.
pub open spec fn plan_of(g: Seq<NodeView>, order: Seq<usize>) -> PlanView {
    PlanView {
        order,
        n_incoming: Seq::new(g.len(), |i: int| g[i].incoming.len()),
        outgoing: Seq::new(
            g.len(),
            |i: int| g[i].outgoing.map_values(|n: usize| position_in(order, n) as usize),
        ),
    }
}

/// Position `q`'s system has an arrow to position `p`'s system.
pub open spec fn is_pred(pv: PlanView, q: int, p: int) -> bool {
    &&& 0 <= q < pv.order.len()
    &&& 0 <= p < pv.order.len()
    &&& (pv.order[q] as int) < pv.outgoing.len()
    &&& pv.outgoing[pv.order[q] as int].contains(p as usize)
}

/// The positions whose systems have an arrow to position `p`'s system.
pub open spec fn preds(pv: PlanView, p: int) -> Set<int> {
    Set::new(|q: int| is_pred(pv, q, p))
}

/// Each successor list names a position once, each position's count of
/// incoming arrows (`ordered_in`, in execution order) is its number of
/// predecessors, and every arrow goes forward in the order.
pub open spec fn plan_sound(pv: PlanView, ordered_in: Seq<nat>) -> bool {
    &&& pv.order.len() <= usize::MAX
    &&& pv.outgoing.len() == pv.order.len()
    &&& ordered_in.len() == pv.order.len()
    &&& pv.order.no_duplicates()
    &&& forall|k: int| 0 <= k < pv.order.len() ==> #[trigger] pv.order[k] < pv.order.len()
    &&& forall|x: int| 0 <= x < pv.outgoing.len() ==> (#[trigger] pv.outgoing[x]).no_duplicates()
    &&& forall|p: int| 0 <= p < pv.order.len()
        ==> (#[trigger] preds(pv, p)).finite() && preds(pv, p).len() == ordered_in[p]
    &&& forall|q: int, p: int| #[trigger] is_pred(pv, q, p) ==> q < p
}

/// In an order that holds each of `n` nodes once, a node's position is
/// where it stands.
proof fn lemma_position(ord: Seq<usize>, y: usize)
    requires
        ord.no_duplicates(),
        forall|k: int| 0 <= k < ord.len() ==> #[trigger] ord[k] < ord.len(),
        y < ord.len(),
    ensures
        0 <= position_in(ord, y) < ord.len(),
        ord[position_in(ord, y)] == y,
        forall|k: int| 0 <= k < ord.len() && #[trigger] ord[k] == y ==> k == position_in(ord, y),
{
    lemma_permutation_covers(ord, ord.len(), y);
}

/// The plan of a well-formed graph in a topological order is sound.
proof fn lemma_plan_sound(g: Seq<NodeView>, ord: Seq<usize>)
    requires
        graph_wf(g),
        is_topological(g, ord.map_values(|i: usize| NodeId(i))),
    ensures
        plan_sound(plan_of(g, ord), ord.map_values(|i: usize| plan_of(g, ord).n_incoming[i as int])),
{
    let pv = plan_of(g, ord);
    let n = ord.len();
    let nodes = ord.map_values(|i: usize| NodeId(i));
    assert(ids_of(nodes) =~= ord);
    assert forall|k: int| 0 <= k < n implies #[trigger] ord[k] < n by {
        assert(nodes[k].0 < g.len());
    }
    // a position names an arrow exactly when the nodes there have one
    assert forall|q: int, p: int| 0 <= q < n && 0 <= p < n implies
        (#[trigger] is_pred(pv, q, p) <==> has_arrow(g, ord[q] as int, ord[p] as int)) by {
        let a = ord[q] as int;
        let outs = g[a].outgoing;
        let mapped = outs.map_values(|m: usize| position_in(ord, m) as usize);
        assert(pv.outgoing[a] == mapped);
        if is_pred(pv, q, p) {
            let k = choose|k: int| 0 <= k < mapped.len() && mapped[k] == p as usize;
            assert(outs[k] < g.len());
            lemma_position(ord, outs[k]);
            assert(ord[p] == outs[k]);
            assert(outs.contains(ord[p]));
        }
        if has_arrow(g, a, ord[p] as int) {
            let k = choose|k: int| 0 <= k < outs.len() && outs[k] == ord[p];
            lemma_position(ord, ord[p]);
            assert(mapped[k] == p as usize);
            assert(mapped.contains(p as usize));
        }
    }
    // successor lists name each position once
    assert forall|x: int| 0 <= x < pv.outgoing.len() implies (#[trigger] pv.outgoing[x]).no_duplicates() by {
        let outs = g[x].outgoing;
        let mapped = outs.map_values(|m: usize| position_in(ord, m) as usize);
        assert(pv.outgoing[x] == mapped);
        assert forall|i: int, j: int| 0 <= i < mapped.len() && 0 <= j < mapped.len() && i != j
            implies mapped[i] != mapped[j] by {
            lemma_position(ord, outs[i]);
            lemma_position(ord, outs[j]);
        }
    }
    // arrows go forward
    assert forall|q: int, p: int| #[trigger] is_pred(pv, q, p) implies q < p by {
        assert(has_arrow(g, ord[q] as int, ord[p] as int));
        assert(arrow_between(g, nodes[q].0, nodes[p].0));
    }
    // the count of incoming arrows is the number of predecessors
    assert forall|p: int| 0 <= p < n implies
        (#[trigger] preds(pv, p)).finite() && preds(pv, p).len() == ord.map_values(|i: usize| pv.n_incoming[i as int])[p] by {
        let b = ord[p];
        let inc = g[b as int].incoming;
        let ps = preds(pv, p);
        vstd::set_lib::lemma_int_range(0, n as int);
        assert(ps.subset_of(vstd::set_lib::set_int_range(0, n as int)));
        vstd::set_lib::lemma_len_subset(ps, vstd::set_lib::set_int_range(0, n as int));
        let f = |q: int| ord[q];
        assert(vstd::relations::injective_on(f, ps)) by {
            assert forall|x: int, y: int| ps.contains(x) && ps.contains(y) && #[trigger] f(x) == #[trigger] f(y)
                implies x == y by {}
        }
        assert(ps.map(f) =~= inc.to_set()) by {
            assert forall|a: usize| ps.map(f).contains(a) implies inc.to_set().contains(a) by {
                let q = choose|q: int| ps.contains(q) && f(q) == a;
                assert(has_arrow(g, ord[q] as int, b as int));
                assert(g[a as int].outgoing.contains(b));
                assert(g[b as int].incoming.contains(a));
            }
            assert forall|a: usize| inc.to_set().contains(a) implies ps.map(f).contains(a) by {
                assert(inc.contains(a));
                let k = choose|k: int| 0 <= k < inc.len() && inc[k] == a;
                assert(a < g.len());
                assert(g[b as int].incoming.contains(a));
                assert(g[a as int].outgoing.contains(b));
                lemma_position(ord, a);
                let q = position_in(ord, a);
                assert(ord[q] == a);
                assert(has_arrow(g, ord[q] as int, ord[p] as int));
                assert(ps.contains(q));
                assert(f(q) == a);
            }
        }
        vstd::set_lib::lemma_map_size(ps, inc.to_set(), f);
        inc.unique_seq_to_set();
        assert(pv.n_incoming[b as int] == inc.len());
    }
}

impl PlanSystem {
    fn new(preorder: &Preorder, id: NodeId, order: &Vec<NodeId>) -> (r: PlanSystem)
        requires
            preorder.wf(),
            id.0 < preorder@.len(),
            is_topological(preorder@, order@),
        ensures
            r.n_incoming == preorder@[id.0 as int].incoming.len(),
            r.outgoing@ == preorder@[id.0 as int].outgoing.map_values(
                |n: usize| position_in(ids_of(order@), n) as usize),
    {
        let ghost g = preorder@;
        proof { preorder.lemma_wf(); }
        let incoming = preorder.incoming(id);
        let outgoing = preorder.outgoing(id);
        let mut positions: Vec<usize> = Vec::new();
        let mut i: usize = 0;
        while i < outgoing.len()
            invariant
                preorder.wf(),
                g == preorder@,
                graph_wf(g),
                id.0 < g.len(),
                is_topological(g, order@),
                ids_of(outgoing@) == g[id.0 as int].outgoing,
                i <= outgoing@.len(),
                positions@ == g[id.0 as int].outgoing.subrange(0, i as int).map_values(
                    |n: usize| position_in(ids_of(order@), n) as usize),
            decreases outgoing.len() - i,
        {
            let target = outgoing[i].0;
            proof {
                assert(ids_of(outgoing@)[i as int] == target);
                assert(g[id.0 as int].outgoing[i as int] < g.len());
                assert forall|k: int| 0 <= k < ids_of(order@).len() implies ids_of(order@)[k] < g.len() by {
                    assert(order@[k].0 < g.len());
                }
                lemma_permutation_covers(ids_of(order@), g.len(), target);
            }
            let pos = Self::position(order, target);
            positions.push(pos);
            proof {
                assert(g[id.0 as int].outgoing.subrange(0, i + 1) =~= g[id.0 as int].outgoing.subrange(0, i as int).push(target));
                assert(positions@ =~= g[id.0 as int].outgoing.subrange(0, i + 1).map_values(
                    |n: usize| position_in(ids_of(order@), n) as usize));
            }
            i = i + 1;
        }
        proof {
            assert(g[id.0 as int].outgoing.subrange(0, outgoing@.len() as int) =~= g[id.0 as int].outgoing);
        }
        PlanSystem { n_incoming: incoming.len(), outgoing: positions }
    }

    /// The position of `target` in `order`, which holds it exactly once.
    fn position(order: &Vec<NodeId>, target: usize) -> (r: usize)
        requires
            ids_of(order@).no_duplicates(),
            ids_of(order@).contains(target),
        ensures
            r == position_in(ids_of(order@), target),
    {
        let mut i: usize = 0;
        while i < order.len()
            invariant
                ids_of(order@).no_duplicates(),
                ids_of(order@).contains(target),
                i <= order@.len(),
                forall|k: int| 0 <= k < i ==> order@[k].0 != target,
            decreases order.len() - i,
        {
            if order[i].0 == target {
                proof {
                    let k = ids_of(order@).index_of(target);
                    assert(ids_of(order@)[k] == target);
                    assert(ids_of(order@)[i as int] == target);
                }
                return i;
            }
            i = i + 1;
        }
        proof {
            let k = ids_of(order@).index_of(target);
            assert(ids_of(order@)[k] == target);
            assert(order@[k].0 == target);
        }
        0
    }
}

impl View for Plan {
    type V = PlanView;

    closed spec fn view(&self) -> PlanView {
        PlanView {
            order: sys_ids(self.order@),
            n_incoming: Seq::new(self.systems@.len(), |i: int| self.systems@[i].n_incoming as nat),
            outgoing: Seq::new(self.systems@.len(), |i: int| self.systems@[i].outgoing@),
        }
    }
}

impl Plan {
    /// The systems' incoming-arrow counts, in execution order.
    pub closed spec fn ordered_n_incoming(&self) -> Seq<nat> {
        self.n_incoming@.map_values(|x: usize| x as nat)
    }

    /// Sorts the graph and records, for each node, its number of incoming
    /// arrows and the positions of its successors in the sorted order.
    pub fn new(preorder: &mut Preorder) -> (r: Plan)
        requires
            old(preorder).wf(),
        ensures
            final(preorder).wf(),
            same_weights(final(preorder)@, old(preorder)@),
            arrows_subset(final(preorder)@, old(preorder)@),
            only_cycles_broken(final(preorder)@, old(preorder)@),
            is_topological(final(preorder)@, r@.order.map_values(|i: usize| NodeId(i))),
            r@ == plan_of(final(preorder)@, r@.order),
            r.ordered_n_incoming() == r@.order.map_values(|i: usize| r@.n_incoming[i as int]),
            plan_sound(r@, r.ordered_n_incoming()),
    {
        let order = preorder.sort();
        let ghost g = preorder@;
        let mut system_order: Vec<SystemId> = Vec::new();
        let mut i: usize = 0;
        while i < order.len()
            invariant
                i <= order@.len(),
                sys_ids(system_order@) == ids_of(order@).subrange(0, i as int),
            decreases order.len() - i,
        {
            let ghost before = system_order@;
            system_order.push(SystemId(order[i].0));
            assert(sys_ids(system_order@) =~= sys_ids(before).push(order@[i as int].0));
            proof {
                assert(ids_of(order@)[i as int] == order@[i as int].0);
                assert(sys_ids(system_order@) =~= ids_of(order@).subrange(0, i + 1));
            }
            i = i + 1;
        }
        proof {
            assert(ids_of(order@).subrange(0, order@.len() as int) =~= ids_of(order@));
        }
        let node_ids = preorder.node_ids();
        let mut systems: Vec<PlanSystem> = Vec::new();
        let mut i: usize = 0;
        while i < node_ids.len()
            invariant
                preorder.wf(),
                g == preorder@,
                is_topological(g, order@),
                node_ids@.len() == g.len(),
                forall|k: int| 0 <= k < node_ids@.len() ==> (#[trigger] node_ids@[k]).0 == k,
                i <= node_ids@.len(),
                systems@.len() == i,
                forall|k: int| 0 <= k < i ==> (#[trigger] systems@[k]).n_incoming == g[k].incoming.len()
                    && systems@[k].outgoing@ == g[k].outgoing.map_values(
                        |n: usize| position_in(ids_of(order@), n) as usize),
            decreases node_ids.len() - i,
        {
            systems.push(PlanSystem::new(preorder, node_ids[i], &order));
            i = i + 1;
        }
        let mut n_incoming: Vec<usize> = Vec::new();
        let mut i: usize = 0;
        while i < system_order.len()
            invariant
                is_topological(g, order@),
                order@.len() == g.len(),
                system_order@.len() == g.len(),
                sys_ids(system_order@) == ids_of(order@),
                systems@.len() == g.len(),
                i <= system_order@.len(),
                n_incoming@.len() == i,
                forall|k: int| 0 <= k < i ==> n_incoming@[k] == systems@[system_order@[k].0 as int].n_incoming,
            decreases system_order.len() - i,
        {
            proof {
                assert(sys_ids(system_order@)[i as int] == system_order@[i as int].0);
                assert(ids_of(order@)[i as int] == order@[i as int].0);
                assert(order@[i as int].0 < g.len());
            }
            n_incoming.push(systems[system_order[i].0].n_incoming);
            i = i + 1;
        }
        let r = Plan { order: system_order, systems, n_incoming };
        proof {
            assert(r@.order == ids_of(order@));
            assert(r@.order.map_values(|i: usize| NodeId(i)) =~= order@);
            let pv = plan_of(g, r@.order);
            assert(r@.n_incoming =~= pv.n_incoming);
            assert(r@.outgoing =~= pv.outgoing);
            assert(r@ =~= plan_of(g, r@.order));
            assert(r.ordered_n_incoming() =~= r@.order.map_values(|i: usize| r@.n_incoming[i as int]));
            preorder.lemma_wf();
            lemma_plan_sound(g, r@.order);
        }
        r
    }

    pub fn len(&self) -> (r: usize)
        ensures
            r == self@.order.len(),
    {
        self.order.len()
    }

    pub fn order(&self) -> (r: &Vec<SystemId>)
        ensures
            sys_ids(r@) == self@.order,
    {
        &self.order
    }

    pub fn n_incoming(&self) -> (r: &Vec<usize>)
        ensures
            r@.map_values(|x: usize| x as nat) == self.ordered_n_incoming(),
    {
        &self.n_incoming
    }

    pub fn system_id(&self, i: usize) -> (r: SystemId)
        requires
            i < self@.order.len(),
        ensures
            r.0 == self@.order[i as int],
    {
        self.order[i]
    }

    /// The number of systems the plan knows the successors of.
    pub(crate) fn n_systems(&self) -> (r: usize)
        ensures
            r == self@.outgoing.len(),
    {
        self.systems.len()
    }

    pub(crate) fn outgoing(&self, id: SystemId) -> (r: &Vec<usize>)
        requires
            id.0 < self@.outgoing.len(),
        ensures
            r@ == self@.outgoing[id.0 as int],
    {
        &self.systems[id.index()].outgoing
    }
}

} // verus!
