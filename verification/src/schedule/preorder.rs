//! A directed graph of weighted nodes and its greedy topological sort.
//!
//! The sort proceeds in rounds: every pending node whose incoming arrows all
//! come from completed nodes completes in the round, heaviest first.  When a
//! round cannot make progress the graph has a cycle, and one arrow into a
//! node on a cycle is removed.

use vstd::prelude::*;
use fixedbitset::FixedBitSet;
use core::cmp::Ordering;

use crate::bitset::{
    bitset_ones, bitset_len, bitset_with_capacity, bitset_insert_all, bitset_clear, bitset_insert,
    bitset_contains, bitset_difference_with, bitset_ones_vec,
};

verus! {

#[derive(Copy, Clone, Debug, PartialEq, Eq, Hash, PartialOrd, Ord)]
pub struct NodeId(pub usize);

impl NodeId {
    pub fn index(&self) -> (r: usize)
        ensures
            r == self.0,
    {
        self.0
    }
}

/// What a node holds, as plain values: its weight and the indices of the
/// nodes at the other end of its incoming and outgoing arrows.
pub struct NodeView {
    pub weight: u64,
    pub incoming: Seq<usize>,
    pub outgoing: Seq<usize>,
}

pub open spec fn ids_of(s: Seq<NodeId>) -> Seq<usize> {
    s.map_values(|n: NodeId| n.0)
}

pub open spec fn has_arrow(g: Seq<NodeView>, a: int, b: int) -> bool {
    &&& 0 <= a < g.len()
    &&& 0 <= b < g.len()
    &&& g[a].outgoing.contains(b as usize)
}

/// Every arrow is recorded at both of its ends, at most once, between two
/// distinct nodes of the graph.
pub open spec fn graph_wf(g: Seq<NodeView>) -> bool {
    &&& g.len() <= usize::MAX
    &&& forall|a: int|
        0 <= a < g.len() ==> (#[trigger] g[a]).outgoing.no_duplicates()
            && g[a].incoming.no_duplicates()
    &&& forall|a: int, k: int|
        0 <= a < g.len() && 0 <= k < g[a].outgoing.len() ==> #[trigger] g[a].outgoing[k] < g.len()
    &&& forall|a: int, k: int|
        0 <= a < g.len() && 0 <= k < g[a].incoming.len() ==> #[trigger] g[a].incoming[k] < g.len()
    &&& forall|a: usize, b: usize|
        #![trigger g[a as int].outgoing.contains(b)]
        #![trigger g[b as int].incoming.contains(a)]
        a < g.len() && b < g.len() ==> (g[a as int].outgoing.contains(b)
            <==> g[b as int].incoming.contains(a))
    &&& forall|a: usize| a < g.len() ==> !(#[trigger] g[a as int].outgoing.contains(a))
}

/// `p` is a walk along arrows of `g`.
pub open spec fn is_path(g: Seq<NodeView>, p: Seq<int>) -> bool {
    &&& p.len() >= 1
    &&& forall|i: int| #![trigger p[i]] 0 <= i < p.len() - 1 ==> has_arrow(g, p[i], p[i + 1])
}

pub open spec fn reachable(g: Seq<NodeView>, a: int, b: int) -> bool {
    exists|p: Seq<int>| #[trigger] is_path(g, p) && p[0] == a && p.last() == b
}

/// Some walk of at least one arrow leads from `a` back to `a`.
pub open spec fn on_cycle(g: Seq<NodeView>, a: int) -> bool {
    exists|p: Seq<int>| #[trigger] is_path(g, p) && p.len() >= 2 && p[0] == a && p.last() == a
}

/// Every arrow of `g2` is an arrow of `g1`.
pub open spec fn arrows_subset(g2: Seq<NodeView>, g1: Seq<NodeView>) -> bool {
    forall|a: int, b: int| #[trigger] has_arrow(g2, a, b) ==> has_arrow(g1, a, b)
}

pub open spec fn same_weights(g2: Seq<NodeView>, g1: Seq<NodeView>) -> bool {
    &&& g2.len() == g1.len()
    &&& forall|i: int| 0 <= i < g1.len() ==> (#[trigger] g2[i]).weight == g1[i].weight
}

/// The graph after `add_arrow(s, t)`: the arrow is recorded once at each end.
pub open spec fn with_arrow(g: Seq<NodeView>, s: int, t: int) -> Seq<NodeView> {
    let gs = if g[s].outgoing.contains(t as usize) {
        g
    } else {
        g.update(
            s,
            NodeView { outgoing: g[s].outgoing.push(t as usize), ..g[s] },
        )
    };
    if gs[t].incoming.contains(s as usize) {
        gs
    } else {
        gs.update(t, NodeView { incoming: gs[t].incoming.push(s as usize), ..gs[t] })
    }
}

/// The number of arrows of a graph, counted at their sources.
pub open spec fn arrow_count(g: Seq<NodeView>) -> nat
    decreases g.len(),
{
    if g.len() == 0 {
        0
    } else {
        arrow_count(g.drop_last()) + g.last().outgoing.len()
    }
}

pub open spec fn in_count(g: Seq<NodeView>, a: usize) -> nat {
    g[a as int].incoming.len()
}

pub open spec fn out_count(g: Seq<NodeView>, a: usize) -> nat {
    g[a as int].outgoing.len()
}

pub open spec fn weight_at(g: Seq<NodeView>, a: usize) -> u64 {
    g[a as int].weight
}

pub open spec fn reaches(g: Seq<NodeView>, a: usize, b: usize) -> bool {
    reachable(g, a as int, b as int)
}

/// Neither of `a` and `b` reaches the other without being reached back,
/// and they have as many incoming and as many outgoing arrows.
pub open spec fn tied(g: Seq<NodeView>, a: usize, b: usize) -> bool {
    &&& reaches(g, a, b) == reaches(g, b, a)
    &&& in_count(g, a) == in_count(g, b)
    &&& out_count(g, a) == out_count(g, b)
}

/// `a` is lighter than `b`, or as heavy and of no higher index.
pub open spec fn lighter_or_eq(g: Seq<NodeView>, a: usize, b: usize) -> bool {
    weight_at(g, a) < weight_at(g, b) || (weight_at(g, a) == weight_at(g, b) && a <= b)
}

/// Of all-tied ids, the one at `i` is tied with any other of them.
proof fn lemma_tied_pair(g: Seq<NodeView>, ids: Seq<NodeId>, i: usize, b: usize)
    requires
        all_tied(g, ids_of(ids)),
        i < ids.len(),
        ids_of(ids).contains(b),
    ensures
        tied(g, ids[i as int].0, b),
{
    let jb = ids_of(ids).index_of(b);
    assert(ids_of(ids)[jb] == b);
    assert(ids_of(ids)[i as int] == ids[i as int].0);
    assert(tied(g, ids_of(ids)[i as int], ids_of(ids)[jb]));
}

/// Any two pending nodes on cycles are tied.
pub open spec fn cycle_nodes_tied(g: Seq<NodeView>, pend: Set<usize>) -> bool {
    forall|c1: usize, c2: usize| pend.contains(c1) && cyclic_at(g, c1) && pend.contains(c2) && cyclic_at(g, c2)
        ==> #[trigger] tied(g, c1, c2)
}

/// Any two of `ids` are tied.
pub open spec fn all_tied(g: Seq<NodeView>, ids: Seq<usize>) -> bool {
    forall|j: int, k: int| 0 <= j < ids.len() && 0 <= k < ids.len() ==> #[trigger] tied(g, ids[j], ids[k])
}

/// The order in which a cycle is broken: a node that reaches the other
/// without being reached from it comes first; then fewer incoming arrows,
/// more outgoing arrows, lower weight and lower index.
pub open spec fn node_order(g: Seq<NodeView>, a: usize, b: usize) -> Ordering {
    let ab = reaches(g, a, b);
    let ba = reaches(g, b, a);
    if ab && !ba {
        Ordering::Less
    } else if ba && !ab {
        Ordering::Greater
    } else if in_count(g, a) < in_count(g, b) {
        Ordering::Less
    } else if in_count(g, a) > in_count(g, b) {
        Ordering::Greater
    } else if out_count(g, b) < out_count(g, a) {
        Ordering::Less
    } else if out_count(g, b) > out_count(g, a) {
        Ordering::Greater
    } else if weight_at(g, a) < weight_at(g, b) {
        Ordering::Less
    } else if weight_at(g, a) > weight_at(g, b) {
        Ordering::Greater
    } else if a < b {
        Ordering::Less
    } else if a > b {
        Ordering::Greater
    } else {
        Ordering::Equal
    }
}

/// Within a round, heavier nodes come first and equal weights keep their
/// index order.
pub open spec fn weight_before(g: Seq<NodeView>, a: usize, b: usize) -> bool {
    g[a as int].weight > g[b as int].weight || (g[a as int].weight == g[b as int].weight && a < b)
}

struct Node {
    id: NodeId,
    weight: u64,
    incoming: Vec<NodeId>,
    outgoing: Vec<NodeId>,
}

impl Node {
    spec fn view(&self) -> NodeView {
        NodeView { weight: self.weight, incoming: ids_of(self.incoming@), outgoing: ids_of(self.outgoing@) }
    }

    fn new(id: NodeId, weight: u64) -> (r: Node)
        ensures
            r.id == id,
            r.view() == (NodeView { weight, incoming: Seq::empty(), outgoing: Seq::empty() }),
    {
        let r = Node { id, weight, incoming: Vec::new(), outgoing: Vec::new() };
        assert(ids_of(r.incoming@) =~= Seq::empty());
        assert(ids_of(r.outgoing@) =~= Seq::empty());
        r
    }

    fn id(&self) -> (r: NodeId)
        ensures
            r == self.id,
    {
        self.id
    }

    fn copy_ids(v: &Vec<NodeId>) -> (r: Vec<NodeId>)
        ensures
            r@ == v@,
    {
        let mut r: Vec<NodeId> = Vec::new();
        let mut i: usize = 0;
        while i < v.len()
            invariant
                i <= v.len(),
                r@ == v@.subrange(0, i as int),
            decreases v.len() - i,
        {
            r.push(v[i]);
            i = i + 1;
        }
        assert(v@.subrange(0, v.len() as int) =~= v@);
        r
    }

    fn duplicate(&self) -> (r: Node)
        ensures
            r.id == self.id,
            r.view() == self.view(),
    {
        Node {
            id: self.id,
            weight: self.weight,
            incoming: Self::copy_ids(&self.incoming),
            outgoing: Self::copy_ids(&self.outgoing),
        }
    }
}

pub struct Preorder {
    nodes: Vec<Node>,
}

impl View for Preorder {
    type V = Seq<NodeView>;

    closed spec fn view(&self) -> Seq<NodeView> {
        self.nodes@.map_values(|n: Node| n.view())
    }
}

/// A sequence without duplicates whose elements are all below `n` has at
/// most `n` elements.
pub proof fn lemma_distinct_bounded(s: Seq<usize>, n: nat)
    requires
        s.no_duplicates(),
        forall|i: int| 0 <= i < s.len() ==> s[i] < n,
    ensures
        s.len() <= n,
    decreases n,
{
    if n == 0 {
        if s.len() > 0 {
            assert(s[0] < 0);
        }
    } else {
        let top = (n - 1) as usize;
        if s.contains(top) {
            let k = s.index_of(top);
            let t = s.remove(k);
            s.remove_ensures(k);
            assert forall|i: int| 0 <= i < t.len() implies t[i] < n - 1 by {
                if i < k {
                    assert(t[i] == s[i]);
                } else {
                    assert(t[i] == s[i + 1]);
                }
            }
            assert forall|i: int, j: int| 0 <= i < t.len() && 0 <= j < t.len() && i != j implies t[i] != t[j] by {
                let si = if i < k { i } else { i + 1 };
                let sj = if j < k { j } else { j + 1 };
                assert(t[i] == s[si]);
                assert(t[j] == s[sj]);
            }
            lemma_distinct_bounded(t, (n - 1) as nat);
        } else {
            assert forall|i: int| 0 <= i < s.len() implies s[i] < n - 1 by {
                if s[i] == top {
                    assert(s.contains(top));
                }
            }
            lemma_distinct_bounded(s, (n - 1) as nat);
        }
    }
}

/// Every pending node has a pending predecessor: no pending node is ready.
pub open spec fn stuck(g: Seq<NodeView>, pend: Set<usize>) -> bool {
    forall|i: usize| #![trigger g[i as int]] pend.contains(i) ==> exists|a: usize|
        g[i as int].incoming.contains(a) && pend.contains(a)
}

/// A pending predecessor of `i`.
spec fn pending_pred(g: Seq<NodeView>, pend: Set<usize>, i: usize) -> usize {
    choose|a: usize| g[i as int].incoming.contains(a) && pend.contains(a)
}

/// Walking `k` steps backwards from `x` through pending predecessors.
spec fn back_walk(g: Seq<NodeView>, pend: Set<usize>, x: usize, k: nat) -> usize
    decreases k,
{
    if k == 0 {
        x
    } else {
        pending_pred(g, pend, back_walk(g, pend, x, (k - 1) as nat))
    }
}

proof fn lemma_back_walk(g: Seq<NodeView>, pend: Set<usize>, x: usize, k: nat)
    requires
        graph_wf(g),
        pend.contains(x),
        forall|i: usize| #[trigger] pend.contains(i) ==> i < g.len(),
        stuck(g, pend),
    ensures
        pend.contains(back_walk(g, pend, x, k)),
        k > 0 ==> has_arrow(g, back_walk(g, pend, x, k) as int, back_walk(g, pend, x, (k - 1) as nat) as int),
    decreases k,
{
    if k > 0 {
        lemma_back_walk(g, pend, x, (k - 1) as nat);
        let prev = back_walk(g, pend, x, (k - 1) as nat);
        assert(pend.contains(prev));
        let a = pending_pred(g, pend, prev);
        assert(g[prev as int].incoming.contains(a) && pend.contains(a));
        assert(g[a as int].outgoing.contains(prev));
    }
}

/// When every pending node has a pending predecessor, some pending node lies
/// on a cycle.
proof fn lemma_stuck_has_cycle(g: Seq<NodeView>, pend: Set<usize>, x: usize)
    requires
        graph_wf(g),
        pend.contains(x),
        forall|i: usize| #[trigger] pend.contains(i) ==> i < g.len(),
        stuck(g, pend),
    ensures
        exists|c: usize| pend.contains(c) && on_cycle(g, c as int),
{
    let n = g.len();
    let w = Seq::new(n + 1, |k: int| back_walk(g, pend, x, k as nat));
    assert forall|i: int| 0 <= i < w.len() implies w[i] < n by {
        lemma_back_walk(g, pend, x, i as nat);
    }
    if w.no_duplicates() {
        lemma_distinct_bounded(w, n);
        assert(false);
    }
    let (i, j) = choose|i: int, j: int| 0 <= i < w.len() && 0 <= j < w.len() && i != j && w[i] == w[j];
    let lo = if i < j { i } else { j };
    let hi = if i < j { j } else { i };
    let p = Seq::new((hi - lo + 1) as nat, |m: int| w[hi - m] as int);
    assert forall|m: int| #![trigger p[m]] 0 <= m < p.len() - 1 implies has_arrow(g, p[m], p[m + 1]) by {
        lemma_back_walk(g, pend, x, (hi - m) as nat);
    }
    assert(is_path(g, p));
    lemma_back_walk(g, pend, x, hi as nat);
    assert(pend.contains(w[hi]));
    assert(p.last() == w[lo] as int);
    assert(on_cycle(g, w[hi] as int));
}

/// A set closed under arrows contains everything reachable from its members.
proof fn lemma_closed_reach(g: Seq<NodeView>, vis: Seq<bool>, p: Seq<int>)
    requires
        graph_wf(g),
        vis.len() == g.len(),
        is_path(g, p),
        0 <= p[0] < g.len(),
        vis[p[0]],
        forall|v: int, w: int| 0 <= v < g.len() && vis[v] && #[trigger] has_arrow(g, v, w) ==> vis[w],
    ensures
        0 <= p.last() < g.len(),
        vis[p.last()],
    decreases p.len(),
{
    if p.len() > 1 {
        let q = p.drop_last();
        assert forall|i: int| #![trigger q[i]] 0 <= i < q.len() - 1 implies has_arrow(g, q[i], q[i + 1]) by {
            assert(q[i] == p[i] && q[i + 1] == p[i + 1]);
        }
        lemma_closed_reach(g, vis, q);
        assert(q.last() == p[p.len() - 2]);
        assert(has_arrow(g, p[p.len() - 2], p[p.len() - 1]));
    }
}

/// Arrows only removed: every walk of the smaller graph is one of the larger.
proof fn lemma_path_subset(g2: Seq<NodeView>, g1: Seq<NodeView>, p: Seq<int>)
    requires
        arrows_subset(g2, g1),
        is_path(g2, p),
    ensures
        is_path(g1, p),
{
    assert forall|i: int| #![trigger p[i]] 0 <= i < p.len() - 1 implies has_arrow(g1, p[i], p[i + 1]) by {
        assert(has_arrow(g2, p[i], p[i + 1]));
    }
}

/// `y` is in `s` with `x` pushed exactly when it was in `s` or is `x`.
pub proof fn lemma_push_contains(s: Seq<usize>, x: usize, y: usize)
    ensures
        s.push(x).contains(y) <==> (s.contains(y) || x == y),
{
    if s.contains(y) {
        let k = s.index_of(y);
        assert(s.push(x)[k] == y);
    }
    if x == y {
        assert(s.push(x)[s.len() as int] == y);
    }
    if s.push(x).contains(y) && x != y {
        let k = s.push(x).index_of(y);
        assert(s[k] == y);
    }
}

proof fn lemma_path_push(g: Seq<NodeView>, p: Seq<int>, w: int)
    requires
        is_path(g, p),
        has_arrow(g, p.last(), w),
    ensures
        is_path(g, p.push(w)),
        p.push(w)[0] == p[0],
        p.push(w).last() == w,
{
    let q = p.push(w);
    assert forall|i: int| #![trigger q[i]] 0 <= i < q.len() - 1 implies has_arrow(g, q[i], q[i + 1]) by {
        if i < p.len() - 1 {
            assert(q[i] == p[i] && q[i + 1] == p[i + 1]);
        } else {
            assert(q[i] == p.last());
        }
    }
}

spec fn count_false(s: Seq<bool>) -> nat
    decreases s.len(),
{
    if s.len() == 0 {
        0
    } else {
        count_false(s.drop_last()) + if s.last() { 0nat } else { 1nat }
    }
}

proof fn lemma_count_false_set(s: Seq<bool>, i: int)
    requires
        0 <= i < s.len(),
        !s[i],
    ensures
        count_false(s.update(i, true)) + 1 == count_false(s),
    decreases s.len(),
{
    let t = s.update(i, true);
    if i == s.len() - 1 {
        assert(t.drop_last() =~= s.drop_last());
    } else {
        assert(t.drop_last() =~= s.drop_last().update(i, true));
        lemma_count_false_set(s.drop_last(), i);
    }
}

proof fn lemma_arrow_count_remove(g: Seq<NodeView>, a: int, k: int)
    requires
        0 <= a < g.len(),
        0 <= k < g[a].outgoing.len(),
    ensures
        arrow_count(g.update(a, NodeView { outgoing: g[a].outgoing.remove(k), ..g[a] })) + 1
            == arrow_count(g),
    decreases g.len(),
{
    let h = g.update(a, NodeView { outgoing: g[a].outgoing.remove(k), ..g[a] });
    g[a].outgoing.remove_ensures(k);
    if a == g.len() - 1 {
        assert(h.drop_last() =~= g.drop_last());
    } else {
        assert(h.drop_last() =~= g.drop_last().update(
            a,
            NodeView { outgoing: g.drop_last()[a].outgoing.remove(k), ..g.drop_last()[a] },
        ));
        lemma_arrow_count_remove(g.drop_last(), a, k);
    }
}

proof fn lemma_arrow_count_same_out(g: Seq<NodeView>, h: Seq<NodeView>)
    requires
        g.len() == h.len(),
        forall|i: int| 0 <= i < g.len() ==> (#[trigger] g[i]).outgoing == h[i].outgoing,
    ensures
        arrow_count(g) == arrow_count(h),
    decreases g.len(),
{
    if g.len() > 0 {
        lemma_arrow_count_same_out(g.drop_last(), h.drop_last());
    }
}

impl Preorder {
    /// Node `i` sits at index `i`, and the arrows form a well-formed graph.
    pub closed spec fn wf(&self) -> bool {
        &&& forall|i: int| 0 <= i < self.nodes@.len() ==> (#[trigger] self.nodes@[i]).id.0 == i
        &&& graph_wf(self@)
    }

    /// A well-formed preorder's graph is well formed.
    pub proof fn lemma_wf(&self)
        requires
            self.wf(),
        ensures
            graph_wf(self@),
    {
    }

    proof fn lemma_view(&self)
        ensures
            self@.len() == self.nodes@.len(),
            forall|i: int| 0 <= i < self.nodes@.len() ==> #[trigger] self@[i] == self.nodes@[i].view(),
    {
    }

    pub fn new() -> (r: Preorder)
        ensures
            r.wf(),
            r@ == Seq::<NodeView>::empty(),
    {
        let r = Preorder { nodes: Vec::new() };
        assert(r@ =~= Seq::<NodeView>::empty());
        r
    }

    pub fn len(&self) -> (r: usize)
        ensures
            r == self@.len(),
    {
        proof { self.lemma_view(); }
        self.nodes.len()
    }

    pub(crate) fn incoming(&self, id: NodeId) -> (r: &Vec<NodeId>)
        requires
            id.0 < self@.len(),
        ensures
            ids_of(r@) == self@[id.0 as int].incoming,
    {
        proof { self.lemma_view(); }
        &self.nodes[id.index()].incoming
    }

    pub(crate) fn outgoing(&self, id: NodeId) -> (r: &Vec<NodeId>)
        requires
            id.0 < self@.len(),
        ensures
            ids_of(r@) == self@[id.0 as int].outgoing,
    {
        proof { self.lemma_view(); }
        &self.nodes[id.index()].outgoing
    }

    pub(crate) fn weight(&self, id: NodeId) -> (r: u64)
        requires
            id.0 < self@.len(),
        ensures
            r == self@[id.0 as int].weight,
    {
        proof { self.lemma_view(); }
        self.nodes[id.index()].weight
    }

    pub fn add_node(&mut self, weight: u64) -> (id: NodeId)
        requires
            old(self).wf(),
            old(self)@.len() < usize::MAX,
        ensures
            final(self).wf(),
            id.0 == old(self)@.len(),
            final(self)@ == old(self)@.push(
                NodeView { weight, incoming: Seq::empty(), outgoing: Seq::empty() },
            ),
    {
        proof { self.lemma_view(); }
        let id = NodeId(self.nodes.len());
        let node = Node::new(id, weight);
        self.nodes.push(node);
        proof {
            self.lemma_view();
            assert(self@ =~= old(self)@.push(
                NodeView { weight, incoming: Seq::empty(), outgoing: Seq::empty() },
            ));
        }
        id
    }

    pub(crate) fn node_ids(&self) -> (r: Vec<NodeId>)
        requires
            self.wf(),
        ensures
            r@.len() == self@.len(),
            forall|i: int| 0 <= i < r@.len() ==> (#[trigger] r@[i]).0 == i,
    {
        proof { self.lemma_view(); }
        let mut r: Vec<NodeId> = Vec::new();
        let mut i: usize = 0;
        while i < self.nodes.len()
            invariant
                self.wf(),
                i <= self.nodes@.len(),
                r@.len() == i,
                forall|k: int| 0 <= k < i ==> (#[trigger] r@[k]).0 == k,
            decreases self.nodes@.len() - i,
        {
            r.push(self.nodes[i].id());
            i = i + 1;
        }
        r
    }

    fn contains_id(v: &Vec<NodeId>, id: NodeId) -> (r: bool)
        ensures
            r == ids_of(v@).contains(id.0),
    {
        let mut i: usize = 0;
        while i < v.len()
            invariant
                i <= v@.len(),
                forall|k: int| 0 <= k < i ==> v@[k].0 != id.0,
            decreases v.len() - i,
        {
            if v[i].0 == id.0 {
                assert(ids_of(v@)[i as int] == id.0);
                return true;
            }
            i = i + 1;
        }
        proof {
            if ids_of(v@).contains(id.0) {
                let k = ids_of(v@).index_of(id.0);
                assert(v@[k].0 == id.0);
            }
        }
        false
    }

    pub fn add_arrow(&mut self, source_id: NodeId, target_id: NodeId)
        requires
            old(self).wf(),
            source_id.0 != target_id.0,
            source_id.0 < old(self)@.len(),
            target_id.0 < old(self)@.len(),
        ensures
            final(self).wf(),
            final(self)@ == with_arrow(old(self)@, source_id.0 as int, target_id.0 as int),
    {
        proof { self.lemma_view(); }
        let s = source_id.index();
        let t = target_id.index();
        let ghost g0 = self@;
        if !Self::contains_id(&self.nodes[s].outgoing, target_id) {
            self.nodes[s].outgoing.push(target_id);
        }
        let ghost g1 = self@;
        proof {
            self.lemma_view();
            let e = if g0[s as int].outgoing.contains(t) { g0 } else {
                g0.update(s as int, NodeView { outgoing: g0[s as int].outgoing.push(t), ..g0[s as int] })
            };
            if !g0[s as int].outgoing.contains(t) {
                assert(ids_of(self.nodes@[s as int].outgoing@) =~= g0[s as int].outgoing.push(t));
            }
            assert(g1 =~= e);
        }
        if !Self::contains_id(&self.nodes[t].incoming, source_id) {
            self.nodes[t].incoming.push(source_id);
        }
        proof {
            self.lemma_view();
            if !g1[t as int].incoming.contains(s) {
                assert(ids_of(self.nodes@[t as int].incoming@) =~= g1[t as int].incoming.push(s));
            }
        }
        proof {
            self.lemma_view();
            assert(self@ =~= with_arrow(g0, s as int, t as int));
            let g = self@;
            assert forall|a: int| 0 <= a < g.len() implies (#[trigger] g[a]).outgoing.no_duplicates()
                && g[a].incoming.no_duplicates() by {
                assert(g0[a].outgoing.no_duplicates() && g0[a].incoming.no_duplicates());
            }
            assert forall|a: int, k: int| 0 <= a < g.len() && 0 <= k < g[a].outgoing.len()
                implies #[trigger] g[a].outgoing[k] < g.len() by {
                if a == s && k == g0[a].outgoing.len() {
                } else {
                    assert(g[a].outgoing[k] == g0[a].outgoing[k]);
                }
            }
            assert forall|a: int, k: int| 0 <= a < g.len() && 0 <= k < g[a].incoming.len()
                implies #[trigger] g[a].incoming[k] < g.len() by {
                if a == t && k == g0[a].incoming.len() {
                } else {
                    assert(g[a].incoming[k] == g0[a].incoming[k]);
                }
            }
            assert forall|a: usize, b: usize| a < g.len() && b < g.len()
                implies (g[a as int].outgoing.contains(b) <==> g[b as int].incoming.contains(a)) by {
                lemma_push_contains(g0[a as int].outgoing, t, b);
                lemma_push_contains(g0[b as int].incoming, s, a);
                assert(g0[a as int].outgoing.contains(b) <==> g0[b as int].incoming.contains(a));
            }
            assert forall|a: usize| a < g.len() implies !(#[trigger] g[a as int].outgoing.contains(a)) by {
                lemma_push_contains(g0[a as int].outgoing, t, a);
                assert(!g0[a as int].outgoing.contains(a));
            }
        }
    }
}

/// Some node of `starts` reaches `v`.
pub open spec fn reached_from(g: Seq<NodeView>, starts: Seq<usize>, v: int) -> bool {
    exists|k: int| 0 <= k < starts.len() && #[trigger] reachable(g, starts[k] as int, v)
}

/// `g` without the arrow from `a` to `b`, recorded at neither end.
pub open spec fn without_arrow(g: Seq<NodeView>, a: int, b: int) -> Seq<NodeView> {
    let ga = g.update(
        a,
        NodeView { outgoing: g[a].outgoing.remove(g[a].outgoing.index_of(b as usize)), ..g[a] },
    );
    ga.update(b, NodeView { incoming: ga[b].incoming.remove(ga[b].incoming.index_of(a as usize)), ..ga[b] })
}

/// The position of the first incoming arrow of `b` whose source is pending.
pub open spec fn has_pending_in(g: Seq<NodeView>, pend: Set<usize>, b: int) -> bool {
    exists|k: int| 0 <= k < g[b].incoming.len() && #[trigger] pend.contains(g[b].incoming[k])
}

proof fn lemma_reach_step(g: Seq<NodeView>, a: int, v: int, w: int)
    requires
        reachable(g, a, v),
        has_arrow(g, v, w),
    ensures
        reachable(g, a, w),
{
    let p = choose|p: Seq<int>| #[trigger] is_path(g, p) && p[0] == a && p.last() == v;
    lemma_path_push(g, p, w);
}

proof fn lemma_reach_refl(g: Seq<NodeView>, a: int)
    ensures
        reachable(g, a, a),
{
    let p = seq![a];
    assert(is_path(g, p));
}

/// A node lies on a cycle exactly when one of its successors reaches it.
proof fn lemma_on_cycle_succ(g: Seq<NodeView>, a: int)
    requires
        graph_wf(g),
        0 <= a < g.len(),
    ensures
        on_cycle(g, a) <==> reached_from(g, g[a].outgoing, a),
{
    if on_cycle(g, a) {
        let p = choose|p: Seq<int>| #[trigger] is_path(g, p) && p.len() >= 2 && p[0] == a && p.last() == a;
        assert(has_arrow(g, p[0], p[1]));
        let o = p[1];
        let q = p.subrange(1, p.len() as int);
        assert forall|i: int| #![trigger q[i]] 0 <= i < q.len() - 1 implies has_arrow(g, q[i], q[i + 1]) by {
            assert(q[i] == p[i + 1] && q[i + 1] == p[i + 2]);
            assert(has_arrow(g, p[i + 1], p[i + 2]));
        }
        assert(is_path(g, q));
        assert(q[0] == o && q.last() == a);
        assert(g[a].outgoing.contains(o as usize));
        let k = g[a].outgoing.index_of(o as usize);
        assert(g[a].outgoing[k] as int == o);
        assert(reachable(g, g[a].outgoing[k] as int, a));
    }
    if reached_from(g, g[a].outgoing, a) {
        let k = choose|k: int| 0 <= k < g[a].outgoing.len() && #[trigger] reachable(g, g[a].outgoing[k] as int, a);
        let o = g[a].outgoing[k] as int;
        let q = choose|q: Seq<int>| #[trigger] is_path(g, q) && q[0] == o && q.last() == a;
        let p = seq![a] + q;
        assert(has_arrow(g, a, o));
        assert forall|i: int| #![trigger p[i]] 0 <= i < p.len() - 1 implies has_arrow(g, p[i], p[i + 1]) by {
            if i > 0 {
                assert(p[i] == q[i - 1] && p[i + 1] == q[i]);
            }
        }
        assert(is_path(g, p) && p.len() >= 2 && p[0] == a && p.last() == a);
    }
}

proof fn lemma_swap_keeps(s: Seq<NodeId>, i: int, j: int)
    requires
        0 <= i < s.len(),
        0 <= j < s.len(),
    ensures
        forall|x: NodeId| s.update(i, s[j]).update(j, s[i]).contains(x) <==> s.contains(x),
        s.no_duplicates() ==> s.update(i, s[j]).update(j, s[i]).no_duplicates(),
{
    let t = s.update(i, s[j]).update(j, s[i]);
    assert forall|x: NodeId| t.contains(x) <==> s.contains(x) by {
        if t.contains(x) {
            let k = t.index_of(x);
            if k == i {
                assert(s[j] == x);
            } else if k == j {
                assert(s[i] == x);
            } else {
                assert(s[k] == x);
            }
        }
        if s.contains(x) {
            let k = s.index_of(x);
            if k == i {
                assert(t[j] == x);
            } else if k == j {
                assert(t[i] == x);
            } else {
                assert(t[k] == x);
            }
        }
    }
    if s.no_duplicates() {
        assert forall|p: int, q: int| 0 <= p < t.len() && 0 <= q < t.len() && p != q implies t[p] != t[q] by {
            let sp = if p == i { j } else if p == j { i } else { p };
            let sq = if q == i { j } else if q == j { i } else { q };
            assert(t[p] == s[sp]);
            assert(t[q] == s[sq]);
        }
    }
}

impl Node {
    fn is_incoming_pending(&self, pending: &FixedBitSet) -> (r: bool)
        ensures
            r == exists|k: int| 0 <= k < self.incoming@.len()
                && #[trigger] bitset_ones(*pending).contains(self.incoming@[k].0),
    {
        let mut i: usize = 0;
        while i < self.incoming.len()
            invariant
                i <= self.incoming@.len(),
                forall|k: int| 0 <= k < i ==> !(#[trigger] bitset_ones(*pending).contains(self.incoming@[k].0)),
            decreases self.incoming.len() - i,
        {
            if bitset_contains(pending, self.incoming[i].0) {
                return true;
            }
            i = i + 1;
        }
        false
    }

    fn find_pending(&self, pending: &FixedBitSet) -> (r: Option<NodeId>)
        ensures
            r is None <==> !(exists|k: int| 0 <= k < self.incoming@.len()
                && #[trigger] bitset_ones(*pending).contains(self.incoming@[k].0)),
            r matches Some(id) ==> exists|k: int| #![trigger self.incoming@[k]]
                0 <= k < self.incoming@.len() && self.incoming@[k] == id
                && bitset_ones(*pending).contains(id.0)
                && forall|m: int| 0 <= m < k ==> !bitset_ones(*pending).contains(#[trigger] self.incoming@[m].0),
    {
        let mut i: usize = 0;
        while i < self.incoming.len()
            invariant
                i <= self.incoming@.len(),
                forall|k: int| 0 <= k < i ==> !(#[trigger] bitset_ones(*pending).contains(self.incoming@[k].0)),
            decreases self.incoming.len() - i,
        {
            if bitset_contains(pending, self.incoming[i].0) {
                return Some(self.incoming[i]);
            }
            i = i + 1;
        }
        None
    }

    fn position_of(v: &Vec<NodeId>, id: NodeId) -> (r: Option<usize>)
        ensures
            r is None ==> !ids_of(v@).contains(id.0),
            r matches Some(k) ==> k < v@.len() && v@[k as int].0 == id.0
                && forall|m: int| 0 <= m < k ==> v@[m].0 != id.0,
    {
        let mut i: usize = 0;
        while i < v.len()
            invariant
                i <= v@.len(),
                forall|k: int| 0 <= k < i ==> v@[k].0 != id.0,
            decreases v.len() - i,
        {
            if v[i].0 == id.0 {
                return Some(i);
            }
            i = i + 1;
        }
        proof {
            if ids_of(v@).contains(id.0) {
                let k = ids_of(v@).index_of(id.0);
                assert(v@[k].0 == id.0);
            }
        }
        None
    }
}

impl Preorder {
    /// The nodes reachable from the nodes in `starts`, by a walk of any
    /// length, found by a worklist search.
    fn search(&self, starts: &Vec<usize>) -> (vis: Vec<bool>)
        requires
            self.wf(),
            forall|k: int| 0 <= k < starts@.len() ==> starts@[k] < self@.len(),
        ensures
            vis@.len() == self@.len(),
            forall|v: int| 0 <= v < self@.len() ==> (vis@[v] <==> reached_from(self@, starts@, v)),
    {
        proof { self.lemma_view(); }
        let ghost g = self@;
        let n = self.nodes.len();
        let mut vis: Vec<bool> = Vec::new();
        let mut i: usize = 0;
        while i < n
            invariant
                i <= n,
                vis@.len() == i,
                forall|k: int| 0 <= k < i ==> !vis@[k],
            decreases n - i,
        {
            vis.push(false);
            i = i + 1;
        }
        let mut work: Vec<usize> = Vec::new();
        let mut i: usize = 0;
        while i < starts.len()
            invariant
                n == g.len(),
                g == self@,
                self.wf(),
                forall|k: int| 0 <= k < starts@.len() ==> starts@[k] < n,
                i <= starts@.len(),
                vis@.len() == n,
                forall|k: int| 0 <= k < work@.len() ==> #[trigger] work@[k] < n && vis@[work@[k] as int],
                work@.no_duplicates(),
                forall|v: int| 0 <= v < n && vis@[v] ==> reached_from(g, starts@, v),
                forall|v: int| 0 <= v < n && vis@[v] ==> work@.contains(v as usize),
                forall|k: int| 0 <= k < i ==> vis@[#[trigger] starts@[k] as int],
            decreases starts.len() - i,
        {
            let s = starts[i];
            if !vis[s] {
                proof {
                    lemma_reach_refl(g, s as int);
                    assert(reachable(g, starts@[i as int] as int, s as int));
                }
                vis.set(s, true);
                proof {
                    assert forall|k: int| 0 <= k < work@.len() implies work@[k] != s by {}
                }
                let ghost w0 = work@;
                work.push(s);
                proof {
                    assert forall|v: int| 0 <= v < n && vis@[v] implies work@.contains(v as usize) by {
                        if v == s as int {
                            assert(work@[work@.len() - 1] == s);
                        } else {
                            let k = w0.index_of(v as usize);
                            assert(work@[k] == v as usize);
                        }
                    }
                }
            }
            i = i + 1;
        }
        while work.len() > 0
            invariant
                n == g.len(),
                g == self@,
                self.wf(),
                vis@.len() == n,
                forall|k: int| 0 <= k < starts@.len() ==> starts@[k] < n,
                forall|k: int| 0 <= k < work@.len() ==> #[trigger] work@[k] < n && vis@[work@[k] as int],
                work@.no_duplicates(),
                forall|v: int| 0 <= v < n && vis@[v] ==> reached_from(g, starts@, v),
                forall|v: int, w: int| 0 <= v < n && vis@[v] && !work@.contains(v as usize)
                    && #[trigger] has_arrow(g, v, w) ==> vis@[w],
                forall|k: int| 0 <= k < starts@.len() ==> vis@[#[trigger] starts@[k] as int],
            decreases 2 * count_false(vis@) + work@.len(),
        {
            let ghost wbefore = work@;
            let v = work.pop().unwrap();
            let ghost work1 = work@;
            let ghost cf0 = count_false(vis@);
            let out = &self.nodes[v].outgoing;
            proof {
                assert(ids_of(out@) == g[v as int].outgoing);
                assert(!work@.contains(v)) by {
                    if work@.contains(v) {
                        let k = work@.index_of(v);
                        assert(wbefore[k] == v);
                        assert(wbefore[wbefore.len() - 1] == v);
                    }
                }
                assert(wbefore =~= work@.push(v));
                assert forall|u: usize| wbefore.contains(u) && u != v implies work@.contains(u) by {
                    lemma_push_contains(work@, v, u);
                }
            }
            let mut j: usize = 0;
            while j < out.len()
                invariant
                    n == g.len(),
                    g == self@,
                    self.wf(),
                    v < n,
                    ids_of(out@) == g[v as int].outgoing,
                    j <= out@.len(),
                    vis@.len() == n,
                    vis@[v as int],
                    !work@.contains(v),
                    forall|k: int| 0 <= k < starts@.len() ==> starts@[k] < n,
                    forall|k: int| 0 <= k < work@.len() ==> #[trigger] work@[k] < n && vis@[work@[k] as int],
                    work@.no_duplicates(),
                    forall|u: int| 0 <= u < n && vis@[u] ==> reached_from(g, starts@, u),
                    forall|u: int, w: int| 0 <= u < n && u != v && vis@[u] && !work@.contains(u as usize)
                        && #[trigger] has_arrow(g, u, w) ==> vis@[w],
                    forall|k: int| 0 <= k < j ==> vis@[#[trigger] out@[k].0 as int],
                    forall|k: int| 0 <= k < starts@.len() ==> vis@[#[trigger] starts@[k] as int],
                    2 * count_false(vis@) + work@.len() <= 2 * cf0 + work1.len(),
                decreases out@.len() - j,
            {
                let w = out[j].0;
                proof {
                    assert(ids_of(out@)[j as int] == w);
                    assert(g[v as int].outgoing.contains(w));
                    assert(w < n);
                }
                if !vis[w] {
                    proof {
                        assert(has_arrow(g, v as int, w as int));
                        let k = choose|k: int| 0 <= k < starts@.len() && #[trigger] reachable(g, starts@[k] as int, v as int);
                        lemma_reach_step(g, starts@[k] as int, v as int, w as int);
                        assert(reachable(g, starts@[k] as int, w as int));
                        lemma_count_false_set(vis@, w as int);
                        assert forall|k: int| 0 <= k < work@.len() implies work@[k] != w by {}
                    }
                    let ghost vb = vis@;
                    let ghost wb = work@;
                    vis.set(w, true);
                    work.push(w);
                    proof {
                        assert(vis@ == vb.update(w as int, true));
                        assert forall|k: int| 0 <= k < j implies vis@[#[trigger] out@[k].0 as int] by {
                            assert(vb[out@[k].0 as int]);
                            assert(ids_of(out@)[k] == out@[k].0);
                            assert(g[v as int].outgoing[k] < n);
                        }
                        assert forall|k: int| 0 <= k < starts@.len() implies vis@[#[trigger] starts@[k] as int] by {
                            assert(vb[starts@[k] as int]);
                        }
                        assert(work@ =~= wb.push(w));
                        assert forall|u: int, x: int| 0 <= u < n && u != v && vis@[u] && !work@.contains(u as usize)
                            && #[trigger] has_arrow(g, u, x) implies vis@[x] by {
                            lemma_push_contains(wb, w, u as usize);
                            assert(vb[u]);
                            assert(!wb.contains(u as usize));
                        }
                    }
                }
                proof {
                    assert(vis@[w as int]);
                    assert(out@[j as int].0 == w);
                }
                j = j + 1;
            }
            proof {
                assert forall|u: int, w: int| 0 <= u < n && vis@[u] && !work@.contains(u as usize)
                    && #[trigger] has_arrow(g, u, w) implies vis@[w] by {
                    if u == v as int {
                        let k = g[v as int].outgoing.index_of(w as usize);
                        assert(out@[k].0 == w as usize);
                    }
                }
            }
        }
        proof {
            assert forall|v: int| 0 <= v < n implies (vis@[v] <==> reached_from(g, starts@, v)) by {
                if reached_from(g, starts@, v) {
                    let k = choose|k: int| 0 <= k < starts@.len() && #[trigger] reachable(g, starts@[k] as int, v);
                    let p = choose|p: Seq<int>| #[trigger] is_path(g, p) && p[0] == starts@[k] as int && p.last() == v;
                    assert forall|x: int, w: int| 0 <= x < g.len() && vis@[x] && #[trigger] has_arrow(g, x, w)
                        implies vis@[w] by {
                        assert(!work@.contains(x as usize));
                    }
                    lemma_closed_reach(g, vis@, p);
                }
            }
        }
        vis
    }

    fn is_path_to(&self, id_a: NodeId, id_b: NodeId, pending: &FixedBitSet) -> (r: bool)
        requires
            self.wf(),
            id_a.0 < self@.len(),
            id_b.0 < self@.len(),
        ensures
            r == reachable(self@, id_a.0 as int, id_b.0 as int),
    {
        let mut starts: Vec<usize> = Vec::new();
        starts.push(id_a.0);
        let vis = self.search(&starts);
        proof {
            if reachable(self@, id_a.0 as int, id_b.0 as int) {
                assert(reachable(self@, starts@[0] as int, id_b.0 as int));
            }
        }
        vis[id_b.0]
    }

    fn is_cyclic(&self, id: NodeId, pending: &FixedBitSet) -> (r: bool)
        requires
            self.wf(),
            id.0 < self@.len(),
        ensures
            r == on_cycle(self@, id.0 as int),
    {
        proof { self.lemma_view(); }
        let out = &self.nodes[id.0].outgoing;
        let mut starts: Vec<usize> = Vec::new();
        let mut i: usize = 0;
        while i < out.len()
            invariant
                self.wf(),
                id.0 < self@.len(),
                ids_of(out@) == self@[id.0 as int].outgoing,
                i <= out@.len(),
                starts@ == ids_of(out@).subrange(0, i as int),
            decreases out.len() - i,
        {
            starts.push(out[i].0);
            i = i + 1;
        }
        proof {
            assert(starts@ =~= self@[id.0 as int].outgoing);
            assert forall|k: int| 0 <= k < starts@.len() implies starts@[k] < self@.len() by {
                assert(self@[id.0 as int].outgoing[k] < self@.len());
            }
        }
        let vis = self.search(&starts);
        proof { lemma_on_cycle_succ(self@, id.0 as int); }
        vis[id.0]
    }

    fn compare_nodes(&self, id_a: NodeId, id_b: NodeId, pending: &FixedBitSet) -> (r: Ordering)
        requires
            self.wf(),
            id_a.0 < self@.len(),
            id_b.0 < self@.len(),
        ensures
            r == node_order(self@, id_a.0, id_b.0),
            reaches(self@, id_a.0, id_b.0) && !reaches(self@, id_b.0, id_a.0) ==> r == Ordering::Less,
            reaches(self@, id_b.0, id_a.0) && !reaches(self@, id_a.0, id_b.0) ==> r == Ordering::Greater,
            reaches(self@, id_a.0, id_b.0) == reaches(self@, id_b.0, id_a.0) ==> {
                &&& in_count(self@, id_a.0) < in_count(self@, id_b.0) ==> r == Ordering::Less
                &&& in_count(self@, id_a.0) > in_count(self@, id_b.0) ==> r == Ordering::Greater
            },
            reaches(self@, id_a.0, id_b.0) == reaches(self@, id_b.0, id_a.0)
                && in_count(self@, id_a.0) == in_count(self@, id_b.0) ==> {
                &&& out_count(self@, id_a.0) > out_count(self@, id_b.0) ==> r == Ordering::Less
                &&& out_count(self@, id_a.0) < out_count(self@, id_b.0) ==> r == Ordering::Greater
            },
            tied(self@, id_a.0, id_b.0) ==> {
                &&& weight_at(self@, id_a.0) < weight_at(self@, id_b.0) ==> r == Ordering::Less
                &&& weight_at(self@, id_a.0) > weight_at(self@, id_b.0) ==> r == Ordering::Greater
                &&& weight_at(self@, id_a.0) == weight_at(self@, id_b.0)
                    ==> ((r == Ordering::Less) == (id_a.0 < id_b.0))
            },
    {
        proof { self.lemma_view(); }
        let node_a = &self.nodes[id_a.0];
        let node_b = &self.nodes[id_b.0];
        let is_path_a_to_b = self.is_path_to(id_a, id_b, pending);
        let is_path_b_to_a = self.is_path_to(id_b, id_a, pending);
        if is_path_a_to_b && !is_path_b_to_a {
            return Ordering::Less;
        } else if is_path_b_to_a && !is_path_a_to_b {
            return Ordering::Greater;
        }
        let ina = node_a.incoming.len();
        let inb = node_b.incoming.len();
        if ina < inb {
            return Ordering::Less;
        } else if ina > inb {
            return Ordering::Greater;
        }
        let outa = node_a.outgoing.len();
        let outb = node_b.outgoing.len();
        if outb < outa {
            return Ordering::Less;
        } else if outb > outa {
            return Ordering::Greater;
        }
        if node_a.weight < node_b.weight {
            return Ordering::Less;
        } else if node_a.weight > node_b.weight {
            return Ordering::Greater;
        }
        if id_a.0 < id_b.0 {
            Ordering::Less
        } else if id_a.0 > id_b.0 {
            Ordering::Greater
        } else {
            Ordering::Equal
        }
    }
}

/// `scan_first` over the first `i` ids of `ids`.
pub open spec fn scan_prefix(g: Seq<NodeView>, ids: Seq<NodeId>, i: usize) -> usize {
    scan_first(g, ids_of(ids), i as int)
}

pub open spec fn id_at(ids: Seq<NodeId>, i: usize) -> usize {
    ids[i as int].0
}

pub open spec fn arrow_between(g: Seq<NodeView>, a: usize, b: usize) -> bool {
    has_arrow(g, a as int, b as int)
}

pub open spec fn cyclic_at(g: Seq<NodeView>, a: usize) -> bool {
    on_cycle(g, a as int)
}

/// The node chosen by scanning `ids` from the front, keeping the first of
/// any two nodes unless a later one orders strictly before it.
pub open spec fn scan_first(g: Seq<NodeView>, ids: Seq<usize>, i: int) -> usize
    decreases i,
{
    if i <= 1 {
        ids[0]
    } else {
        let best = scan_first(g, ids, i - 1);
        let cand = ids[i - 1];
        if node_order(g, cand, best) == Ordering::Less {
            cand
        } else {
            best
        }
    }
}

proof fn lemma_remove_contains(s: Seq<usize>, k: int, y: usize)
    requires
        s.no_duplicates(),
        0 <= k < s.len(),
    ensures
        s.remove(k).contains(y) <==> (s.contains(y) && y != s[k]),
        s.remove(k).no_duplicates(),
        s.remove(k).len() + 1 == s.len(),
{
    let t = s.remove(k);
    s.remove_ensures(k);
    if t.contains(y) {
        let m = t.index_of(y);
        if m < k {
            assert(s[m] == y);
        } else {
            assert(s[m + 1] == y);
        }
    }
    if s.contains(y) && y != s[k] {
        let m = s.index_of(y);
        if m < k {
            assert(t[m] == y);
        } else {
            assert(m != k);
            assert(t[m - 1] == y);
        }
    }
    assert forall|i: int, j: int| 0 <= i < t.len() && 0 <= j < t.len() && i != j implies t[i] != t[j] by {
        let si = if i < k { i } else { i + 1 };
        let sj = if j < k { j } else { j + 1 };
        assert(t[i] == s[si]);
        assert(t[j] == s[sj]);
    }
}

/// Removing one arrow keeps the graph well formed, removes exactly that
/// arrow and lowers the arrow count by one.
proof fn lemma_without_arrow(g: Seq<NodeView>, a: int, b: int)
    requires
        graph_wf(g),
        has_arrow(g, a, b),
    ensures
        graph_wf(without_arrow(g, a, b)),
        same_weights(without_arrow(g, a, b), g),
        forall|x: int, y: int| #[trigger] has_arrow(without_arrow(g, a, b), x, y)
            <==> has_arrow(g, x, y) && !(x == a && y == b),
        arrow_count(without_arrow(g, a, b)) + 1 == arrow_count(g),
        forall|x: int| 0 <= x < g.len() && x != b ==> #[trigger] without_arrow(g, a, b)[x].incoming == g[x].incoming,
{
    let w = without_arrow(g, a, b);
    let ka = g[a].outgoing.index_of(b as usize);
    let ga = g.update(a, NodeView { outgoing: g[a].outgoing.remove(ka), ..g[a] });
    assert(g[b].incoming.contains(a as usize));
    let kb = ga[b].incoming.index_of(a as usize);
    assert(a != b);
    assert(ga[b] == g[b]);
    lemma_arrow_count_remove(g, a, ka);
    lemma_arrow_count_same_out(w, ga);
    assert forall|x: int, y: int| 0 <= x < g.len() && 0 <= y < g.len() implies
        (w[x].outgoing.contains(y as usize) <==> (g[x].outgoing.contains(y as usize) && !(x == a && y == b)))
        && (w[y].incoming.contains(x as usize) <==> (g[y].incoming.contains(x as usize) && !(x == a && y == b))) by {
        if x == a {
            lemma_remove_contains(g[a].outgoing, ka, y as usize);
        }
        if y == b {
            lemma_remove_contains(g[b].incoming, kb, x as usize);
        }
    }
    assert forall|x: int, y: int| #[trigger] has_arrow(w, x, y)
        <==> has_arrow(g, x, y) && !(x == a && y == b) by {
        if 0 <= x < g.len() && 0 <= y < g.len() {
        }
    }
    assert forall|x: int| 0 <= x < w.len() implies (#[trigger] w[x]).outgoing.no_duplicates()
        && w[x].incoming.no_duplicates() by {
        lemma_remove_contains(g[a].outgoing, ka, 0);
        lemma_remove_contains(g[b].incoming, kb, 0);
    }
    assert forall|x: int, k: int| 0 <= x < w.len() && 0 <= k < w[x].outgoing.len()
        implies #[trigger] w[x].outgoing[k] < w.len() by {
        if x == a {
            g[a].outgoing.remove_ensures(ka);
            if k < ka {
                assert(w[x].outgoing[k] == g[a].outgoing[k]);
            } else {
                assert(w[x].outgoing[k] == g[a].outgoing[k + 1]);
            }
        }
    }
    assert forall|x: int, k: int| 0 <= x < w.len() && 0 <= k < w[x].incoming.len()
        implies #[trigger] w[x].incoming[k] < w.len() by {
        if x == b {
            g[b].incoming.remove_ensures(kb);
            if k < kb {
                assert(w[x].incoming[k] == g[b].incoming[k]);
            } else {
                assert(w[x].incoming[k] == g[b].incoming[k + 1]);
            }
        }
    }
    assert forall|x: usize, y: usize| x < w.len() && y < w.len()
        implies (w[x as int].outgoing.contains(y) <==> w[y as int].incoming.contains(x)) by {
        assert(g[x as int].outgoing.contains(y) <==> g[y as int].incoming.contains(x));
    }
    assert forall|x: usize| x < w.len() implies !(#[trigger] w[x as int].outgoing.contains(x)) by {
        assert(!g[x as int].outgoing.contains(x));
    }
}

impl Node {
    fn remove_incoming(&mut self, node_id: NodeId)
        requires
            ids_of(old(self).incoming@).no_duplicates(),
            ids_of(old(self).incoming@).contains(node_id.0),
        ensures
            final(self).id == old(self).id,
            final(self).view() == (NodeView {
                incoming: old(self).view().incoming.remove(old(self).view().incoming.index_of(node_id.0)),
                ..old(self).view()
            }),
    {
        let k = Self::position_of(&self.incoming, node_id).unwrap();
        let ghost before = ids_of(self.incoming@);
        proof {
            assert(before[k as int] == node_id.0);
            assert(before.index_of(node_id.0) == k) by {
                let m = before.index_of(node_id.0);
                assert(before[m] == node_id.0);
            }
        }
        self.incoming.remove(k);
        proof {
            assert(ids_of(self.incoming@) =~= before.remove(k as int));
        }
    }

    fn remove_outgoing(&mut self, node_id: NodeId)
        requires
            ids_of(old(self).outgoing@).no_duplicates(),
            ids_of(old(self).outgoing@).contains(node_id.0),
        ensures
            final(self).id == old(self).id,
            final(self).view() == (NodeView {
                outgoing: old(self).view().outgoing.remove(old(self).view().outgoing.index_of(node_id.0)),
                ..old(self).view()
            }),
    {
        let k = Self::position_of(&self.outgoing, node_id).unwrap();
        let ghost before = ids_of(self.outgoing@);
        proof {
            assert(before[k as int] == node_id.0);
            assert(before.index_of(node_id.0) == k) by {
                let m = before.index_of(node_id.0);
                assert(before[m] == node_id.0);
            }
        }
        self.outgoing.remove(k);
        proof {
            assert(ids_of(self.outgoing@) =~= before.remove(k as int));
        }
    }
}

impl Preorder {
    /// Removes the arrow into `node_id` from its first pending source, if
    /// there is one.  The result is always `false`.
    fn remove_pending(&mut self, node_id: NodeId, pending: &FixedBitSet) -> (r: bool)
        requires
            old(self).wf(),
            node_id.0 < old(self)@.len(),
        ensures
            !r,
            final(self).wf(),
            !has_pending_in(old(self)@, bitset_ones(*pending), node_id.0 as int) ==> final(self)@ == old(self)@,
            has_pending_in(old(self)@, bitset_ones(*pending), node_id.0 as int) ==> exists|k: int|
                #![trigger old(self)@[node_id.0 as int].incoming[k]]
                0 <= k < old(self)@[node_id.0 as int].incoming.len()
                && bitset_ones(*pending).contains(old(self)@[node_id.0 as int].incoming[k])
                && (forall|m: int| 0 <= m < k ==> !bitset_ones(*pending).contains(
                    #[trigger] old(self)@[node_id.0 as int].incoming[m]))
                && final(self)@ == without_arrow(old(self)@,
                    old(self)@[node_id.0 as int].incoming[k] as int, node_id.0 as int),
    {
        proof { self.lemma_view(); }
        let ghost g = self@;
        let b = node_id.0;
        let incoming_id = match self.nodes[b].find_pending(pending) {
            Some(incoming_id) => incoming_id,
            None => {
                proof {
                    assert forall|k: int| 0 <= k < g[b as int].incoming.len() implies
                        !bitset_ones(*pending).contains(#[trigger] g[b as int].incoming[k]) by {
                        assert(g[b as int].incoming[k] == self.nodes@[b as int].incoming@[k].0);
                    }
                }
                return false;
            },
        };
        let a = incoming_id.0;
        proof {
            let k = choose|k: int| #![trigger self.nodes@[b as int].incoming@[k]]
                0 <= k < self.nodes@[b as int].incoming@.len() && self.nodes@[b as int].incoming@[k] == incoming_id
                && bitset_ones(*pending).contains(incoming_id.0)
                && forall|m: int| 0 <= m < k ==> !bitset_ones(*pending).contains(#[trigger] self.nodes@[b as int].incoming@[m].0);
            assert(g[b as int].incoming[k] == a);
            assert(g[b as int].incoming.contains(a));
            assert(a < g.len()) by {
                assert(g[b as int].incoming[k] < g.len());
            }
            assert(g[a as int].outgoing.contains(b));
            assert forall|m: int| 0 <= m < k implies !bitset_ones(*pending).contains(#[trigger] g[b as int].incoming[m]) by {
                assert(g[b as int].incoming[m] == self.nodes@[b as int].incoming@[m].0);
            }
            lemma_without_arrow(g, a as int, b as int);
        }
        self.nodes[b].remove_incoming(incoming_id);
        let ghost g1 = self@;
        proof {
            self.lemma_view();
            assert(self.nodes@[a as int] == old(self).nodes@[a as int]);
        }
        self.nodes[a].remove_outgoing(node_id);
        proof {
            self.lemma_view();
            assert(self@ =~= without_arrow(g, a as int, b as int));
            let k = choose|k: int| #![trigger g[b as int].incoming[k]]
                0 <= k < g[b as int].incoming.len() && g[b as int].incoming[k] == a
                && forall|m: int| 0 <= m < k ==> !bitset_ones(*pending).contains(#[trigger] g[b as int].incoming[m]);
            assert(bitset_ones(*pending).contains(g[b as int].incoming[k]));
        }
        false
    }

    /// The first of `ids` in the order in which cycles are broken.
    fn first_in_order(&self, ids: &Vec<NodeId>, pending: &FixedBitSet) -> (r: NodeId)
        requires
            self.wf(),
            ids@.len() > 0,
            forall|k: int| 0 <= k < ids@.len() ==> (#[trigger] ids@[k]).0 < self@.len(),
        ensures
            r.0 == scan_prefix(self@, ids@, ids.len()),
            ids_of(ids@).contains(r.0),
            all_tied(self@, ids_of(ids@)) ==> forall|k: int| 0 <= k < ids@.len()
                ==> #[trigger] lighter_or_eq(self@, r.0, ids@[k].0),
    {
        let mut best = ids[0];
        let mut i: usize = 1;
        proof {
            assert(ids_of(ids@)[0] == best.0);
        }
        while i < ids.len()
            invariant
                self.wf(),
                1 <= i <= ids@.len(),
                forall|k: int| 0 <= k < ids@.len() ==> (#[trigger] ids@[k]).0 < self@.len(),
                i <= ids.len(),
                best.0 == scan_prefix(self@, ids@, i),
                ids_of(ids@).contains(best.0),
                best.0 < self@.len(),
                all_tied(self@, ids_of(ids@)) ==> forall|k: int| 0 <= k < i
                    ==> #[trigger] lighter_or_eq(self@, best.0, ids@[k].0),
            decreases ids@.len() - i,
        {
            let cand = ids[i];
            let order = self.compare_nodes(cand, best, pending);
            proof {
                assert(id_at(ids@, i) == cand.0);
                if all_tied(self@, ids_of(ids@)) {
                    lemma_tied_pair(self@, ids@, i, best.0);
                }
            }
            let ghost prev = best.0;
            match order {
                Ordering::Less => {
                    best = cand;
                },
                _ => {},
            }
            proof {
                if all_tied(self@, ids_of(ids@)) {
                    assert forall|k: int| 0 <= k < i + 1
                        implies #[trigger] lighter_or_eq(self@, best.0, ids@[k].0) by {
                        if k < i {
                            assert(lighter_or_eq(self@, prev, ids@[k].0));
                        } else {
                            assert(ids@[k] == cand);
                        }
                    }
                }
            }
            i = i + 1;
        }
        best
    }

    /// The pending nodes that lie on a cycle, in increasing order.
    fn cyclic_pending(&self, pending: &FixedBitSet) -> (cycle_ids: Vec<NodeId>)
        requires
            self.wf(),
            forall|i: usize| #[trigger] bitset_ones(*pending).contains(i) ==> i < self@.len(),
        ensures
            forall|k: int| 0 <= k < cycle_ids@.len() ==> (#[trigger] cycle_ids@[k]).0 < self@.len()
                && cyclic_at(self@, cycle_ids@[k].0) && bitset_ones(*pending).contains(cycle_ids@[k].0),
            forall|c: usize| bitset_ones(*pending).contains(c) && #[trigger] cyclic_at(self@, c)
                ==> ids_of(cycle_ids@).contains(c),
    {
        let ghost g = self@;
        let ones = bitset_ones_vec(pending);
        let mut cycle_ids: Vec<NodeId> = Vec::new();
        let mut i: usize = 0;
        while i < ones.len()
            invariant
                self.wf(),
                self@ == g,
                forall|b: usize| bitset_ones(*pending).contains(b) <==> ones@.contains(b),
                forall|b: usize| #[trigger] bitset_ones(*pending).contains(b) ==> b < g.len(),
                i <= ones@.len(),
                forall|k: int| 0 <= k < cycle_ids@.len() ==> (#[trigger] cycle_ids@[k]).0 < g.len()
                    && cyclic_at(g, cycle_ids@[k].0) && bitset_ones(*pending).contains(cycle_ids@[k].0),
                forall|k: int| 0 <= k < i && cyclic_at(g, #[trigger] ones@[k]) ==> ids_of(cycle_ids@).contains(ones@[k]),
            decreases ones@.len() - i,
        {
            let index = ones[i];
            proof {
                assert(ones@.contains(index));
            }
            let ghost before = cycle_ids@;
            if self.is_cyclic(NodeId(index), pending) {
                cycle_ids.push(NodeId(index));
                proof {
                    assert(ids_of(cycle_ids@)[before.len() as int] == index);
                    assert forall|k: int| 0 <= k < i + 1 && cyclic_at(g, #[trigger] ones@[k]) implies
                        ids_of(cycle_ids@).contains(ones@[k]) by {
                        if k < i {
                            let m = ids_of(before).index_of(ones@[k]);
                            assert(ids_of(cycle_ids@)[m] == ones@[k]);
                        }
                    }
                }
            }
            i = i + 1;
        }
        proof {
            assert forall|c: usize| bitset_ones(*pending).contains(c) && #[trigger] cyclic_at(self@, c)
                implies ids_of(cycle_ids@).contains(c) by {
                let k = ones@.index_of(c);
                assert(cyclic_at(g, ones@[k]));
            }
        }
        cycle_ids
    }

    /// Removes one arrow into a pending node that lies on a cycle.
    #[verifier::spinoff_prover]
    #[verifier::rlimit(40)]
    fn break_cycle(&mut self, pending: &FixedBitSet)
        requires
            old(self).wf(),
            bitset_len(*pending) == old(self)@.len(),
            forall|i: usize| #[trigger] bitset_ones(*pending).contains(i) ==> i < old(self)@.len(),
            exists|i: usize| #[trigger] bitset_ones(*pending).contains(i),
            stuck(old(self)@, bitset_ones(*pending)),
        ensures
            final(self).wf(),
            same_weights(final(self)@, old(self)@),
            arrows_subset(final(self)@, old(self)@),
            arrow_count(final(self)@) + 1 == arrow_count(old(self)@),
            forall|a: usize, b: usize| arrow_between(old(self)@, a, b) && !#[trigger] arrow_between(final(self)@, a, b)
                ==> cyclic_at(old(self)@, b) && bitset_ones(*pending).contains(b),
            forall|a: usize, b: usize| !bitset_ones(*pending).contains(b)
                ==> (#[trigger] arrow_between(final(self)@, a, b) == arrow_between(old(self)@, a, b)),
            exists|b: usize| {
                &&& #[trigger] cyclic_at(old(self)@, b)
                &&& bitset_ones(*pending).contains(b)
                &&& forall|a: usize, x: usize| arrow_between(old(self)@, a, x) && !#[trigger] arrow_between(final(self)@, a, x)
                    ==> x == b
                &&& cycle_nodes_tied(old(self)@, bitset_ones(*pending)) ==> forall|c: usize|
                    bitset_ones(*pending).contains(c) && cyclic_at(old(self)@, c) ==> #[trigger] lighter_or_eq(old(self)@, b, c)
            },
    {
        let ghost g = self@;
        let cycle_ids = self.cyclic_pending(pending);
        proof {
            lemma_cycle_exists(g, bitset_ones(*pending), ids_of(cycle_ids@));
        }
        proof {
            if cycle_nodes_tied(g, bitset_ones(*pending)) {
                assert forall|j: int, k: int| 0 <= j < ids_of(cycle_ids@).len() && 0 <= k < ids_of(cycle_ids@).len()
                    implies #[trigger] tied(g, ids_of(cycle_ids@)[j], ids_of(cycle_ids@)[k]) by {
                    assert(cycle_ids@[j].0 == ids_of(cycle_ids@)[j]);
                    assert(cycle_ids@[k].0 == ids_of(cycle_ids@)[k]);
                }
            }
        }
        let node_id = self.first_in_order(&cycle_ids, pending);
        proof {
            lemma_chosen_pending(g, bitset_ones(*pending), cycle_ids@, node_id);
        }
        self.remove_pending(node_id, pending);
        proof {
            lemma_break_effect(g, self@, bitset_ones(*pending), node_id.0);
            let b = node_id.0;
            if cycle_nodes_tied(g, bitset_ones(*pending)) {
                assert forall|c: usize| bitset_ones(*pending).contains(c) && cyclic_at(g, c)
                    implies #[trigger] lighter_or_eq(g, b, c) by {
                    assert(ids_of(cycle_ids@).contains(c));
                    let k = choose|k: int| 0 <= k < ids_of(cycle_ids@).len() && ids_of(cycle_ids@)[k] == c;
                    assert(cycle_ids@[k].0 == c);
                    assert(lighter_or_eq(g, b, cycle_ids@[k].0));
                }
            }
            assert(cyclic_at(g, b));
        }
    }
}

proof fn lemma_cycle_exists(g: Seq<NodeView>, pend: Set<usize>, ids: Seq<usize>)
    requires
        graph_wf(g),
        forall|i: usize| #[trigger] pend.contains(i) ==> i < g.len(),
        exists|i: usize| #[trigger] pend.contains(i),
        stuck(g, pend),
        forall|c: usize| pend.contains(c) && #[trigger] cyclic_at(g, c) ==> ids.contains(c),
    ensures
        ids.len() > 0,
{
    let x = choose|x: usize| #[trigger] pend.contains(x);
    lemma_stuck_has_cycle(g, pend, x);
    let c = choose|c: usize| pend.contains(c) && on_cycle(g, c as int);
    assert(cyclic_at(g, c));
    assert(ids.contains(c));
}

proof fn lemma_chosen_pending(g: Seq<NodeView>, pend: Set<usize>, ids: Seq<NodeId>, node_id: NodeId)
    requires
        forall|k: int| 0 <= k < ids.len() ==> (#[trigger] ids[k]).0 < g.len()
            && cyclic_at(g, ids[k].0) && pend.contains(ids[k].0),
        ids_of(ids).contains(node_id.0),
        stuck(g, pend),
    ensures
        node_id.0 < g.len(),
        pend.contains(node_id.0),
        cyclic_at(g, node_id.0),
        has_pending_in(g, pend, node_id.0 as int),
{
    let k = ids_of(ids).index_of(node_id.0);
    assert(ids[k].0 == node_id.0);
    let a = choose|a: usize| g[node_id.0 as int].incoming.contains(a) && pend.contains(a);
    let m = g[node_id.0 as int].incoming.index_of(a);
    assert(pend.contains(g[node_id.0 as int].incoming[m]));
}

proof fn lemma_break_effect(g: Seq<NodeView>, h: Seq<NodeView>, pend: Set<usize>, b: usize)
    requires
        graph_wf(g),
        b < g.len(),
        pend.contains(b),
        cyclic_at(g, b),
        has_pending_in(g, pend, b as int),
        exists|k: int|
            #![trigger g[b as int].incoming[k]]
            0 <= k < g[b as int].incoming.len()
            && pend.contains(g[b as int].incoming[k])
            && (forall|m: int| 0 <= m < k ==> !pend.contains(#[trigger] g[b as int].incoming[m]))
            && h == without_arrow(g, g[b as int].incoming[k] as int, b as int),
    ensures
        graph_wf(h),
        same_weights(h, g),
        arrows_subset(h, g),
        arrow_count(h) + 1 == arrow_count(g),
        forall|x: usize, y: usize| arrow_between(g, x, y) && !#[trigger] arrow_between(h, x, y)
            ==> cyclic_at(g, y) && pend.contains(y),
        forall|x: usize, y: usize| !pend.contains(y)
            ==> (#[trigger] arrow_between(h, x, y) == arrow_between(g, x, y)),
        forall|x: usize, y: usize| arrow_between(g, x, y) && !#[trigger] arrow_between(h, x, y) ==> y == b,
{
    let k = choose|k: int|
        #![trigger g[b as int].incoming[k]]
        0 <= k < g[b as int].incoming.len()
        && pend.contains(g[b as int].incoming[k])
        && (forall|m: int| 0 <= m < k ==> !pend.contains(#[trigger] g[b as int].incoming[m]))
        && h == without_arrow(g, g[b as int].incoming[k] as int, b as int);
    let a = g[b as int].incoming[k];
    assert(g[b as int].incoming.contains(a));
    assert(a < g.len());
    assert(g[a as int].outgoing.contains(b));
    assert(has_arrow(g, a as int, b as int));
    lemma_without_arrow(g, a as int, b as int);
    assert forall|x: int, y: int| #[trigger] has_arrow(h, x, y) implies has_arrow(g, x, y) by {}
}

/// A sequence that contains every index below `n` has at least `n` elements.
proof fn lemma_covers(s: Seq<usize>, n: nat)
    requires
        n <= usize::MAX,
        forall|b: usize| b < n ==> s.contains(b),
    ensures
        s.len() >= n,
    decreases n,
{
    if n > 0 {
        let top = (n - 1) as usize;
        assert(s.contains(top));
        let k = s.index_of(top);
        let t = s.remove(k);
        s.remove_ensures(k);
        assert forall|b: usize| b < n - 1 implies t.contains(b) by {
            assert(s.contains(b));
            let m = s.index_of(b);
            assert(s[m] == b);
            assert(s[k] == top);
            assert(m != k);
            if m < k {
                assert(t[m] == b);
            } else {
                assert(t[m - 1] == b);
            }
        }
        lemma_covers(t, (n - 1) as nat);
    }
}

proof fn lemma_cycle_subset(h: Seq<NodeView>, g: Seq<NodeView>, b: usize)
    requires
        arrows_subset(h, g),
        cyclic_at(h, b),
    ensures
        cyclic_at(g, b),
{
    let p = choose|p: Seq<int>| #[trigger] is_path(h, p) && p.len() >= 2 && p[0] == b as int && p.last() == b as int;
    lemma_path_subset(h, g, p);
}

/// The ids of `s` at positions `lo..hi`.
pub open spec fn segment(s: Seq<NodeId>, lo: int, hi: int) -> Seq<usize> {
    ids_of(s).subrange(lo, hi)
}

impl Preorder {
    fn before(&self, a: NodeId, b: NodeId) -> (r: bool)
        requires
            self.wf(),
            a.0 < self@.len(),
            b.0 < self@.len(),
        ensures
            r == weight_before(self@, a.0, b.0),
    {
        proof { self.lemma_view(); }
        let wa = self.nodes[a.0].weight;
        let wb = self.nodes[b.0].weight;
        wa > wb || (wa == wb && a.0 < b.0)
    }

    /// Orders `results[start..]` heaviest first, equal weights by index.
    fn sort_round(&self, results: &mut Vec<NodeId>, start: usize)
        requires
            self.wf(),
            start <= old(results)@.len(),
            ids_of(old(results)@).no_duplicates(),
            forall|k: int| 0 <= k < old(results)@.len() ==> (#[trigger] old(results)@[k]).0 < self@.len(),
        ensures
            final(results)@.len() == old(results)@.len(),
            forall|k: int| 0 <= k < start ==> final(results)@[k] == old(results)@[k],
            forall|x: NodeId| final(results)@.contains(x) <==> old(results)@.contains(x),
            ids_of(final(results)@).no_duplicates(),
            forall|k: int| 0 <= k < final(results)@.len() ==> (#[trigger] final(results)@[k]).0 < self@.len(),
            forall|p: int, q: int| start <= p < q < final(results)@.len()
                ==> weight_before(self@, final(results)@[p].0, final(results)@[q].0),
    {
        let ghost orig = results@;
        let len = results.len();
        let mut i: usize = start;
        while i < len
            invariant
                self.wf(),
                start <= i <= len,
                len == results@.len(),
                forall|k: int| 0 <= k < start ==> results@[k] == orig[k],
                forall|x: NodeId| results@.contains(x) <==> orig.contains(x),
                ids_of(results@).no_duplicates(),
                forall|k: int| 0 <= k < len ==> (#[trigger] results@[k]).0 < self@.len(),
                forall|p: int, q: int| start <= p < q < i
                    ==> weight_before(self@, results@[p].0, results@[q].0),
            decreases len - i,
        {
            let mut j: usize = i;
            while j > start && self.before(results[j], results[j - 1])
                invariant
                    self.wf(),
                    start <= j <= i < len,
                    len == results@.len(),
                    forall|k: int| 0 <= k < start ==> results@[k] == orig[k],
                    forall|x: NodeId| results@.contains(x) <==> orig.contains(x),
                    ids_of(results@).no_duplicates(),
                    forall|k: int| 0 <= k < len ==> (#[trigger] results@[k]).0 < self@.len(),
                    forall|p: int, q: int| start <= p < q <= i && p != j && q != j
                        ==> weight_before(self@, results@[p].0, results@[q].0),
                    forall|q: int| j < q <= i ==> weight_before(self@, results@[j as int].0, results@[q].0),
                decreases j,
            {
                let x = results[j - 1];
                let y = results[j];
                let ghost before_swap = results@;
                results.set(j - 1, y);
                results.set(j, x);
                proof {
                    assert(results@ == before_swap.update(j - 1, before_swap[j as int]).update(j as int, before_swap[j - 1]));
                    lemma_swap_keeps(before_swap, j - 1, j as int);
                    assert(ids_of(results@) =~= ids_of(before_swap).update(j - 1, ids_of(before_swap)[j as int]).update(
                        j as int, ids_of(before_swap)[j - 1]));
                    lemma_swap_ids(ids_of(before_swap), j - 1, j as int);
                }
                j = j - 1;
            }
            proof {
                if j > start {
                    let a = results@[j - 1].0;
                    let b = results@[j as int].0;
                    assert(ids_of(results@)[j - 1] == a && ids_of(results@)[j as int] == b);
                    assert(a != b);
                    assert(weight_before(self@, a, b));
                }
                assert forall|p: int, q: int| start <= p < q < i + 1
                    implies weight_before(self@, results@[p].0, results@[q].0) by {
                    if q == j && p < j - 1 {
                        assert(weight_before(self@, results@[p].0, results@[j - 1].0));
                    }
                }
            }
            i = i + 1;
        }
    }
}

proof fn lemma_swap_ids(s: Seq<usize>, i: int, j: int)
    requires
        0 <= i < s.len(),
        0 <= j < s.len(),
        s.no_duplicates(),
    ensures
        s.update(i, s[j]).update(j, s[i]).no_duplicates(),
{
    let t = s.update(i, s[j]).update(j, s[i]);
    assert forall|p: int, q: int| 0 <= p < t.len() && 0 <= q < t.len() && p != q implies t[p] != t[q] by {
        let sp = if p == i { j } else if p == j { i } else { p };
        let sq = if q == i { j } else if q == j { i } else { q };
        assert(t[p] == s[sp]);
        assert(t[q] == s[sq]);
    }
}

impl Preorder {
    /// Appends every pending node without a pending incoming arrow to
    /// `results`, in increasing index order, and enables it in `completed`.
    fn collect_ready(&self, pending: &FixedBitSet, completed: &mut FixedBitSet, results: &mut Vec<NodeId>)
        requires
            self.wf(),
            bitset_len(*old(completed)) == self@.len(),
            bitset_ones(*old(completed)) == Set::<usize>::empty(),
            forall|b: usize| #[trigger] bitset_ones(*pending).contains(b)
                <==> (b < self@.len() && !ids_of(old(results)@).contains(b)),
            ids_of(old(results)@).no_duplicates(),
            forall|k: int| 0 <= k < old(results)@.len() ==> (#[trigger] old(results)@[k]).0 < self@.len(),
        ensures
            final(results)@.len() >= old(results)@.len(),
            forall|k: int| 0 <= k < old(results)@.len() ==> final(results)@[k] == old(results)@[k],
            ids_of(final(results)@).no_duplicates(),
            forall|k: int| 0 <= k < final(results)@.len() ==> (#[trigger] final(results)@[k]).0 < self@.len(),
            forall|m: int| old(results)@.len() <= m < final(results)@.len() ==>
                bitset_ones(*pending).contains(#[trigger] final(results)@[m].0)
                && !has_pending_in(self@, bitset_ones(*pending), final(results)@[m].0 as int),
            forall|b: usize| bitset_ones(*pending).contains(b)
                && !has_pending_in(self@, bitset_ones(*pending), b as int)
                ==> #[trigger] segment(final(results)@, old(results)@.len() as int, final(results)@.len() as int).contains(b),
            bitset_len(*final(completed)) == self@.len(),
            forall|b: usize| #[trigger] bitset_ones(*final(completed)).contains(b)
                <==> segment(final(results)@, old(results)@.len() as int, final(results)@.len() as int).contains(b),
            final(results)@.len() == old(results)@.len() ==> stuck(self@, bitset_ones(*pending)),
    {
        proof { self.lemma_view(); }
        let ghost g = self@;
        let ghost pend = bitset_ones(*pending);
        let start = results.len();
        let ones = bitset_ones_vec(pending);
        let mut k: usize = 0;
        while k < ones.len()
            invariant
                self.wf(),
                g == self@,
                pend == bitset_ones(*pending),
                forall|i: int, j: int| 0 <= i < j < ones@.len() ==> ones@[i] < ones@[j],
                forall|b: usize| pend.contains(b) <==> ones@.contains(b),
                forall|b: usize| #[trigger] pend.contains(b) <==> (b < g.len() && !ids_of(old(results)@).contains(b)),
                k <= ones@.len(),
                start == old(results)@.len(),
                results@.len() >= start,
                forall|i: int| 0 <= i < start ==> results@[i] == old(results)@[i],
                ids_of(results@).no_duplicates(),
                forall|i: int| 0 <= i < results@.len() ==> (#[trigger] results@[i]).0 < g.len(),
                forall|m: int| start <= m < results@.len() ==>
                    pend.contains(#[trigger] results@[m].0) && !has_pending_in(g, pend, results@[m].0 as int),
                forall|m: int, k2: int| start <= m < results@.len() && k <= k2 < ones@.len()
                    ==> #[trigger] results@[m].0 < #[trigger] ones@[k2],
                forall|k2: int| 0 <= k2 < k && !has_pending_in(g, pend, ones@[k2] as int)
                    ==> #[trigger] segment(results@, start as int, results@.len() as int).contains(ones@[k2]),
                bitset_len(*completed) == g.len(),
                forall|b: usize| #[trigger] bitset_ones(*completed).contains(b)
                    <==> segment(results@, start as int, results@.len() as int).contains(b),
                results@.len() == start ==> forall|k2: int| 0 <= k2 < k
                    ==> #[trigger] has_pending_in(g, pend, ones@[k2] as int),
            decreases ones@.len() - k,
        {
            let index = ones[k];
            proof {
                assert(ones@.contains(index));
                assert(pend.contains(index));
            }
            let ghost rb = results@;
            if !self.nodes[index].is_incoming_pending(pending) {
                proof {
                    assert(!has_pending_in(g, pend, index as int)) by {
                        if has_pending_in(g, pend, index as int) {
                            let j = choose|j: int| 0 <= j < g[index as int].incoming.len()
                                && #[trigger] pend.contains(g[index as int].incoming[j]);
                            assert(g[index as int].incoming[j] == self.nodes@[index as int].incoming@[j].0);
                        }
                    }
                    assert(!ids_of(rb).contains(index)) by {
                        if ids_of(rb).contains(index) {
                            let m = ids_of(rb).index_of(index);
                            if m < start {
                                assert(ids_of(old(results)@)[m] == index);
                            } else {
                                assert(rb[m].0 < ones@[k as int]);
                            }
                        }
                    }
                    assert(index < g.len());
                }
                bitset_insert(completed, index);
                results.push(self.nodes[index].id());
                proof {
                    assert(results@ == rb.push(NodeId(index)));
                    assert(ids_of(results@) =~= ids_of(rb).push(index));
                    assert(segment(results@, start as int, results@.len() as int)
                        =~= segment(rb, start as int, rb.len() as int).push(index));
                    assert forall|b: usize| #[trigger] bitset_ones(*completed).contains(b)
                        <==> segment(results@, start as int, results@.len() as int).contains(b) by {
                        lemma_push_contains(segment(rb, start as int, rb.len() as int), index, b);
                    }
                    assert forall|k2: int| 0 <= k2 < k + 1 && !has_pending_in(g, pend, ones@[k2] as int)
                        implies #[trigger] segment(results@, start as int, results@.len() as int).contains(ones@[k2]) by {
                        lemma_push_contains(segment(rb, start as int, rb.len() as int), index, ones@[k2]);
                    }
                    assert forall|i: int, j: int| 0 <= i < ids_of(results@).len() && 0 <= j < ids_of(results@).len()
                        && i != j implies ids_of(results@)[i] != ids_of(results@)[j] by {
                        if i == rb.len() as int && j < rb.len() {
                            assert(ids_of(rb)[j] == ids_of(results@)[j]);
                            assert(ids_of(rb).contains(ids_of(rb)[j]));
                        }
                        if j == rb.len() as int && i < rb.len() {
                            assert(ids_of(rb)[i] == ids_of(results@)[i]);
                            assert(ids_of(rb).contains(ids_of(rb)[i]));
                        }
                    }
                }
            } else {
                proof {
                    let j = choose|j: int| 0 <= j < self.nodes@[index as int].incoming@.len()
                        && #[trigger] bitset_ones(*pending).contains(self.nodes@[index as int].incoming@[j].0);
                    assert(g[index as int].incoming[j] == self.nodes@[index as int].incoming@[j].0);
                    assert(has_pending_in(g, pend, index as int));
                }
            }
            k = k + 1;
        }
        proof {
            assert forall|b: usize| pend.contains(b) && !has_pending_in(g, pend, b as int)
                implies #[trigger] segment(results@, start as int, results@.len() as int).contains(b) by {
                let k2 = ones@.index_of(b);
                assert(ones@[k2] == b);
            }
            if results@.len() == start {
                assert forall|i: usize| #![trigger g[i as int]] pend.contains(i) implies exists|a: usize|
                    g[i as int].incoming.contains(a) && pend.contains(a) by {
                    let k2 = ones@.index_of(i);
                    assert(ones@[k2] == i);
                    assert(has_pending_in(g, pend, ones@[k2] as int));
                    let j = choose|j: int| 0 <= j < g[i as int].incoming.len()
                        && #[trigger] pend.contains(g[i as int].incoming[j]);
                    assert(g[i as int].incoming.contains(g[i as int].incoming[j]));
                }
            }
        }
    }
}

/// The sort's result lists every node once, and every arrow of the graph
/// left after the sort leads from an earlier node to a later one.
pub open spec fn is_topological(g: Seq<NodeView>, r: Seq<NodeId>) -> bool {
    &&& r.len() == g.len()
    &&& ids_of(r).no_duplicates()
    &&& forall|k: int| 0 <= k < r.len() ==> (#[trigger] r[k]).0 < g.len()
    &&& forall|i: int, j: int| 0 <= i < r.len() && 0 <= j < r.len()
        && #[trigger] arrow_between(g, r[j].0, r[i].0) ==> j < i
}

/// Only arrows into nodes on a cycle of `g1` are missing from `g2`.
pub open spec fn only_cycles_broken(g2: Seq<NodeView>, g1: Seq<NodeView>) -> bool {
    forall|a: usize, b: usize| arrow_between(g1, a, b) && !#[trigger] arrow_between(g2, a, b) ==> cyclic_at(g1, b)
}

proof fn lemma_concat_contains(a: Seq<usize>, b: Seq<usize>, x: usize)
    ensures
        (a + b).contains(x) <==> (a.contains(x) || b.contains(x)),
{
    if a.contains(x) {
        let k = a.index_of(x);
        assert((a + b)[k] == x);
    }
    if b.contains(x) {
        let k = b.index_of(x);
        assert((a + b)[a.len() + k] == x);
    }
    if (a + b).contains(x) {
        let k = (a + b).index_of(x);
        if k < a.len() {
            assert(a[k] == x);
        } else {
            assert(b[k - a.len()] == x);
        }
    }
}

proof fn lemma_subset_trans(g3: Seq<NodeView>, g2: Seq<NodeView>, g1: Seq<NodeView>)
    requires
        arrows_subset(g3, g2),
        arrows_subset(g2, g1),
    ensures
        arrows_subset(g3, g1),
{
    assert forall|a: int, b: int| #[trigger] has_arrow(g3, a, b) implies has_arrow(g1, a, b) by {
        assert(has_arrow(g2, a, b));
    }
}

impl Preorder {
    /// Orders every node after its predecessors.  Each round completes the
    /// pending nodes with no pending predecessor, heaviest first; a round
    /// that completes nothing removes one arrow into a node on a cycle.
    pub fn sort(&mut self) -> (r: Vec<NodeId>)
        requires
            old(self).wf(),
        ensures
            final(self).wf(),
            same_weights(final(self)@, old(self)@),
            arrows_subset(final(self)@, old(self)@),
            only_cycles_broken(final(self)@, old(self)@),
            is_topological(final(self)@, r@),
            acyclic(old(self)@) ==> final(self)@ == old(self)@
                && exists|bounds: Seq<int>| #[trigger] sorted_in_rounds(final(self)@, r@, bounds),
    {
        proof { self.lemma_view(); }
        let ghost g0 = self@;
        let n = self.nodes.len();
        let mut results = Vec::<NodeId>::new();
        let mut pending = bitset_with_capacity(n);
        bitset_insert_all(&mut pending);
        let mut completed = bitset_with_capacity(n);
        proof {
            assert forall|b: usize| #[trigger] bitset_ones(pending).contains(b)
                <==> (b < n && !ids_of(results@).contains(b)) by {
                assert(ids_of(results@) =~= Seq::<usize>::empty());
            }
        }
        let ghost mut bounds: Seq<int> = seq![0int];
        while results.len() < n
            invariant
                self.wf(),
                n == self@.len(),
                acyclic(g0) ==> self@ == g0 && sorted_in_rounds(g0, results@, bounds),
                same_weights(self@, g0),
                arrows_subset(self@, g0),
                only_cycles_broken(self@, g0),
                bitset_len(pending) == n,
                bitset_len(completed) == n,
                results@.len() <= n,
                ids_of(results@).no_duplicates(),
                forall|k: int| 0 <= k < results@.len() ==> (#[trigger] results@[k]).0 < n,
                forall|b: usize| #[trigger] bitset_ones(pending).contains(b)
                    <==> (b < n && !ids_of(results@).contains(b)),
                forall|i: int, j: int| 0 <= i < results@.len() && 0 <= j < results@.len()
                    && #[trigger] arrow_between(self@, results@[j].0, results@[i].0) ==> j < i,
                forall|i: int, a: usize| 0 <= i < results@.len() && #[trigger] arrow_between(self@, a, results@[i].0)
                    ==> !bitset_ones(pending).contains(a),
            decreases n - results@.len(), arrow_count(self@),
        {
            let ghost g = self@;
            let ghost pend = bitset_ones(pending);
            let ghost rb = results@;
            let start_len = results.len();
            bitset_clear(&mut completed);
            self.collect_ready(&pending, &mut completed, &mut results);
            let ghost rc = results@;
            if results.len() == start_len {
                proof {
                    assert(exists|i: usize| #[trigger] pend.contains(i)) by {
                        if !exists|i: usize| #[trigger] pend.contains(i) {
                            assert forall|b: usize| b < n implies ids_of(rb).contains(b) by {
                                assert(!pend.contains(b));
                            }
                            lemma_covers(ids_of(rb), n as nat);
                        }
                    }
                }
                proof {
                    if acyclic(g0) {
                        self.lemma_view();
                        let x = choose|i: usize| #[trigger] pend.contains(i);
                        lemma_stuck_has_cycle(g, pend, x);
                        let c = choose|c: usize| pend.contains(c) && on_cycle(g, c as int);
                        assert(cyclic_at(g0, c));
                        assert(false);
                    }
                }
                self.break_cycle(&pending);
                proof {
                    lemma_subset_trans(self@, g, g0);
                    assert forall|a: usize, b: usize| arrow_between(g0, a, b) && !#[trigger] arrow_between(self@, a, b)
                        implies cyclic_at(g0, b) by {
                        if arrow_between(g, a, b) {
                            assert(cyclic_at(g, b));
                            lemma_cycle_subset(g, g0, b);
                        }
                    }
                    assert forall|i: int, j: int| 0 <= i < results@.len() && 0 <= j < results@.len()
                        && #[trigger] arrow_between(self@, results@[j].0, results@[i].0) implies j < i by {
                        assert(!pend.contains(results@[i].0)) by {
                            assert(results@ =~= rb);
                            assert(ids_of(rb)[i] == results@[i].0);
                            assert(ids_of(rb).contains(ids_of(rb)[i]));
                            assert(bitset_ones(pending).contains(results@[i].0) <==> (results@[i].0 < n && !ids_of(rb).contains(results@[i].0)));
                        }
                    }
                    assert forall|i: int, a: usize| 0 <= i < results@.len()
                        && #[trigger] arrow_between(self@, a, results@[i].0) implies !pend.contains(a) by {
                        assert(!pend.contains(results@[i].0)) by {
                            assert(results@ =~= rb);
                            assert(ids_of(rb)[i] == results@[i].0);
                            assert(ids_of(rb).contains(ids_of(rb)[i]));
                            assert(bitset_ones(pending).contains(results@[i].0) <==> (results@[i].0 < n && !ids_of(rb).contains(results@[i].0)));
                        }
                    }
                }
            }
            let ghost h = self@;
            self.sort_round(&mut results, start_len);
            bitset_difference_with(&mut pending, &completed);
            proof {
                let r = results@;
                assert(ids_of(rc) =~= ids_of(rb) + segment(rc, start_len as int, rc.len() as int));
                assert forall|x: NodeId| r.contains(x) <==> rc.contains(x) by {}
                assert forall|b: usize| ids_of(r).contains(b) <==> ids_of(rc).contains(b) by {
                    if ids_of(r).contains(b) {
                        let k = ids_of(r).index_of(b);
                        assert(r.contains(r[k]));
                        let m = rc.index_of(r[k]);
                        assert(ids_of(rc)[m] == b);
                    }
                    if ids_of(rc).contains(b) {
                        let k = ids_of(rc).index_of(b);
                        assert(rc.contains(rc[k]));
                        let m = r.index_of(rc[k]);
                        assert(ids_of(r)[m] == b);
                    }
                }
                // pending after the round
                assert forall|b: usize| #[trigger] bitset_ones(pending).contains(b)
                    <==> (b < n && !ids_of(results@).contains(b)) by {
                    let seg = segment(rc, start_len as int, rc.len() as int);
                    lemma_concat_contains(ids_of(rb), seg, b);
                    assert(bitset_ones(completed).contains(b) <==> seg.contains(b));
                    if ids_of(rc).contains(b) {
                        let k = ids_of(rc).index_of(b);
                        if k >= start_len {
                            assert(seg[k - start_len] == b);
                        }
                    }
                    if seg.contains(b) {
                        let k = seg.index_of(b);
                        assert(ids_of(rc)[k + start_len] == b);
                    }
                }
                // nodes of the round and their incoming arrows
                assert forall|i: int| start_len <= i < r.len() implies
                    pend.contains(#[trigger] r[i].0) && !has_pending_in(h, pend, r[i].0 as int) by {
                    assert(rc.contains(r[i]));
                    let m = rc.index_of(r[i]);
                    if m < start_len {
                        assert(r[m] == rc[m]);
                        assert(ids_of(r)[m] == ids_of(r)[i]);
                    }
                    assert(pend.contains(rc[m].0) && !has_pending_in(h, pend, rc[m].0 as int));
                }
                assert forall|i: int, a: usize| 0 <= i < r.len() && #[trigger] arrow_between(self@, a, r[i].0)
                    implies !pend.contains(a) by {
                    if i >= start_len {
                        assert(pend.contains(r[i].0));
                        if pend.contains(a) {
                            assert(h[r[i].0 as int].incoming.contains(a));
                            let j = h[r[i].0 as int].incoming.index_of(a);
                            assert(pend.contains(h[r[i].0 as int].incoming[j]));
                            assert(has_pending_in(h, pend, r[i].0 as int));
                        }
                    } else {
                        assert(r[i] == rb[i]);
                    }
                }
                assert forall|i: int, a: usize| 0 <= i < r.len() && #[trigger] arrow_between(self@, a, r[i].0)
                    implies !bitset_ones(pending).contains(a) by {
                }
                assert forall|k: int| 0 <= k < ids_of(r).len() implies ids_of(r)[k] < n by {
                    assert(r[k].0 < n);
                }
                lemma_distinct_bounded(ids_of(r), n as nat);
                assert forall|i: int, j: int| 0 <= i < r.len() && 0 <= j < r.len()
                    && #[trigger] arrow_between(self@, r[j].0, r[i].0) implies j < i by {
                    if i < start_len && j < start_len {
                        assert(r[i] == rb[i] && r[j] == rb[j]);
                    } else if i < start_len {
                        assert(r[i] == rb[i]);
                        assert(!pend.contains(r[j].0));
                        assert(pend.contains(r[j].0));
                    } else {
                        assert(!pend.contains(r[j].0));
                        if j >= start_len {
                            assert(pend.contains(r[j].0));
                        }
                    }
                }
                if acyclic(g0) {
                    let nb = bounds.push(r.len() as int);
                    lemma_round_step(g0, rb, rc, r, bounds, pend);
                    bounds = nb;
                }
            }
        }
        results
    }
}

/// A round collected from the ready nodes and ordered by weight extends
/// the rounds before it.
#[verifier::spinoff_prover]
proof fn lemma_round_step(g0: Seq<NodeView>, rb: Seq<NodeId>, rc: Seq<NodeId>, r: Seq<NodeId>, bounds: Seq<int>, pend: Set<usize>)
    requires
        sorted_in_rounds(g0, rb, bounds),
        rc.len() > rb.len(),
        r.len() == rc.len(),
        forall|k: int| 0 <= k < rb.len() ==> rc[k] == rb[k],
        forall|k: int| 0 <= k < rb.len() ==> r[k] == rc[k],
        forall|x: NodeId| r.contains(x) <==> rc.contains(x),
        ids_of(r).no_duplicates(),
        ids_of(rc).no_duplicates(),
        forall|p: int, q: int| rb.len() <= p < q < r.len() ==> weight_before(g0, r[p].0, r[q].0),
        forall|m: int| rb.len() <= m < rc.len() ==>
            pend.contains(#[trigger] rc[m].0) && !has_pending_in(g0, pend, rc[m].0 as int),
        forall|b: usize| #[trigger] pend.contains(b) <==> ((b as int) < g0.len() && !ids_of(rb).contains(b)),
        forall|b: usize| pend.contains(b) && !has_pending_in(g0, pend, b as int)
            ==> #[trigger] segment(rc, rb.len() as int, rc.len() as int).contains(b),
    ensures
        sorted_in_rounds(g0, r, bounds.push(r.len() as int)),
{
    let nb = bounds.push(r.len() as int);
    let st = rb.len() as int;
    assert(bounds.last() == st);
    assert(r.len() > st);
    assert forall|i: int| 0 <= i < st implies #[trigger] r[i] == rb[i] by {
        assert(r[i] == rc[i]);
        assert(rc[i] == rb[i]);
    }
    assert(ids_of(r).take(st) =~= ids_of(rb));
    assert forall|i: int| 0 <= i <= st implies #[trigger] ids_of(r).take(i) == ids_of(rb).take(i) by {
        assert(ids_of(r).take(i) =~= ids_of(rb).take(i));
    }
    assert(left_after(g0, r, st) =~= pend);
    lemma_segment_perm(rc, r, st);
    assert forall|k: int| 0 <= k < nb.len() - 1 implies #[trigger] nb[k] < nb[k + 1] by {
        if k < bounds.len() - 1 {
            assert(nb[k] == bounds[k] && nb[k + 1] == bounds[k + 1]);
        }
    }
    assert forall|k: int, p: int, q: int| #![trigger nb[k], r[p], r[q]]
        0 <= k < nb.len() - 1 && nb[k] <= p < q < nb[k + 1]
        implies weight_before(g0, r[p].0, r[q].0) by {
        if k < bounds.len() - 1 {
            assert(nb[k] == bounds[k] && nb[k + 1] == bounds[k + 1]);
            lemma_bounds_mono(bounds, k + 1);
            lemma_bounds_low(bounds, k);
            assert(bounds[k + 1] <= bounds.last());
            assert(q < st);
            assert(r[p] == rb[p]);
            assert(r[q] == rb[q]);
        }
    }
    assert forall|k: int, b: usize| 0 <= k < nb.len() - 1 implies
        (#[trigger] segment(r, nb[k], nb[k + 1]).contains(b)
            <==> (left_after(g0, r, nb[k]).contains(b) && !has_pending_in(g0, left_after(g0, r, nb[k]), b as int))) by {
        if k < bounds.len() - 1 {
            assert(nb[k] == bounds[k] && nb[k + 1] == bounds[k + 1]);
            lemma_bounds_mono(bounds, k + 1);
            lemma_bounds_low(bounds, k);
            assert forall|i: int| 0 <= i < nb[k + 1] - nb[k] implies
                #[trigger] segment(r, nb[k], nb[k + 1])[i] == segment(rb, bounds[k], bounds[k + 1])[i] by {
                assert(r[nb[k] + i] == rb[nb[k] + i]);
            }
            assert(segment(r, nb[k], nb[k + 1]) =~= segment(rb, bounds[k], bounds[k + 1]));
            assert(ids_of(r).take(nb[k]) == ids_of(rb).take(nb[k]));
            assert(left_after(g0, r, nb[k]) =~= left_after(g0, rb, bounds[k]));
            assert(segment(rb, bounds[k], bounds[k + 1]).contains(b)
                <==> (left_after(g0, rb, bounds[k]).contains(b) && !has_pending_in(g0, left_after(g0, rb, bounds[k]), b as int)));
        } else {
            assert(nb[k] == st);
            assert(segment(r, st, r.len() as int).contains(b) <==> segment(rc, st, rc.len() as int).contains(b));
            if segment(rc, st, rc.len() as int).contains(b) {
                let m = choose|m: int| 0 <= m < segment(rc, st, rc.len() as int).len()
                    && segment(rc, st, rc.len() as int)[m] == b;
                assert(rc[m + st].0 == b);
                assert(pend.contains(rc[m + st].0) && !has_pending_in(g0, pend, rc[m + st].0 as int));
            }
        }
    }
}

/// No bound of a round lies below the first.
proof fn lemma_bounds_low(bounds: Seq<int>, k: int)
    requires
        0 <= k < bounds.len(),
        forall|j: int| 0 <= j < bounds.len() - 1 ==> #[trigger] bounds[j] < bounds[j + 1],
    ensures
        bounds[0] <= bounds[k],
    decreases k,
{
    if k > 0 {
        assert(bounds[k - 1] < bounds[k]);
        lemma_bounds_low(bounds, k - 1);
    }
}

/// The bounds of rounds never decrease.
proof fn lemma_bounds_mono(bounds: Seq<int>, k: int)
    requires
        0 <= k < bounds.len(),
        forall|j: int| 0 <= j < bounds.len() - 1 ==> #[trigger] bounds[j] < bounds[j + 1],
    ensures
        bounds[k] <= bounds.last(),
    decreases bounds.len() - k,
{
    if k < bounds.len() - 1 {
        assert(bounds[k] < bounds[k + 1]);
        lemma_bounds_mono(bounds, k + 1);
    }
}

/// The nodes of `g` not listed in the first `i` entries of `r`.
pub open spec fn left_after(g: Seq<NodeView>, r: Seq<NodeId>, i: int) -> Set<usize> {
    Set::new(|b: usize| (b as int) < g.len() && !ids_of(r).take(i).contains(b))
}

/// The node ids of the indices `s`.
pub open spec fn node_ids(s: Seq<usize>) -> Seq<NodeId> {
    s.map_values(|i: usize| NodeId(i))
}

/// No node of `g` lies on a cycle.
pub open spec fn acyclic(g: Seq<NodeView>) -> bool {
    forall|a: usize| (a as int) < g.len() ==> !#[trigger] cyclic_at(g, a)
}

/// `bounds` cuts `r` into rounds: round `k` holds exactly the nodes not in
/// an earlier round that no such node points to, heaviest first and equal
/// weights by index.
pub open spec fn sorted_in_rounds(g: Seq<NodeView>, r: Seq<NodeId>, bounds: Seq<int>) -> bool {
    &&& bounds.len() >= 1
    &&& bounds[0] == 0
    &&& bounds.last() == r.len()
    &&& forall|k: int| 0 <= k < bounds.len() - 1 ==> #[trigger] bounds[k] < bounds[k + 1]
    &&& forall|k: int, p: int, q: int| #![trigger bounds[k], r[p], r[q]]
        0 <= k < bounds.len() - 1 && bounds[k] <= p < q < bounds[k + 1]
        ==> weight_before(g, r[p].0, r[q].0)
    &&& forall|k: int, b: usize| 0 <= k < bounds.len() - 1 ==>
        (#[trigger] segment(r, bounds[k], bounds[k + 1]).contains(b)
            <==> (left_after(g, r, bounds[k]).contains(b) && !has_pending_in(g, left_after(g, r, bounds[k]), b as int)))
}

/// Reordering the entries after `start` keeps which nodes stand there.
proof fn lemma_segment_perm(rc: Seq<NodeId>, r: Seq<NodeId>, start: int)
    requires
        0 <= start <= rc.len(),
        r.len() == rc.len(),
        forall|k: int| 0 <= k < start ==> r[k] == rc[k],
        forall|x: NodeId| r.contains(x) <==> rc.contains(x),
        ids_of(r).no_duplicates(),
        ids_of(rc).no_duplicates(),
    ensures
        forall|b: usize| segment(r, start, r.len() as int).contains(b) <==> segment(rc, start, rc.len() as int).contains(b),
{
    assert forall|b: usize| segment(r, start, r.len() as int).contains(b) implies segment(rc, start, rc.len() as int).contains(b) by {
        let j = choose|j: int| 0 <= j < segment(r, start, r.len() as int).len() && segment(r, start, r.len() as int)[j] == b;
        let m = j + start;
        assert(r[m].0 == b);
        assert(r.contains(r[m]));
        let m2 = choose|m2: int| 0 <= m2 < rc.len() && rc[m2] == r[m];
        if m2 < start {
            assert(r[m2] == rc[m2]);
            assert(ids_of(r)[m2] == ids_of(r)[m]);
        }
        assert(segment(rc, start, rc.len() as int)[m2 - start] == b);
    }
    assert forall|b: usize| segment(rc, start, rc.len() as int).contains(b) implies segment(r, start, r.len() as int).contains(b) by {
        let j = choose|j: int| 0 <= j < segment(rc, start, rc.len() as int).len() && segment(rc, start, rc.len() as int)[j] == b;
        let m = j + start;
        assert(rc[m].0 == b);
        assert(rc.contains(rc[m]));
        let m2 = choose|m2: int| 0 <= m2 < r.len() && r[m2] == rc[m];
        if m2 < start {
            assert(r[m2] == rc[m2]);
            assert(ids_of(rc)[m2] == ids_of(rc)[m]);
        }
        assert(segment(r, start, r.len() as int)[m2 - start] == b);
    }
}

/// A sequence of `n` distinct indices below `n` holds every index below `n`.
pub proof fn lemma_permutation_covers(s: Seq<usize>, n: nat, b: usize)
    requires
        s.len() == n,
        s.no_duplicates(),
        forall|i: int| 0 <= i < s.len() ==> s[i] < n,
        b < n,
    ensures
        s.contains(b),
{
    if !s.contains(b) {
        let t = s.map_values(|x: usize| if x > b { (x - 1) as usize } else { x });
        assert forall|i: int| 0 <= i < t.len() implies t[i] < n - 1 by {
            assert(s[i] != b);
        }
        assert forall|i: int, j: int| 0 <= i < t.len() && 0 <= j < t.len() && i != j implies t[i] != t[j] by {
            assert(s[i] != b && s[j] != b);
            assert(s[i] != s[j]);
        }
        lemma_distinct_bounded(t, (n - 1) as nat);
    }
}

impl Clone for Preorder {
    fn clone(&self) -> (r: Self)
        ensures
            r@ == self@,
            self.wf() ==> r.wf(),
    {
        let mut nodes: Vec<Node> = Vec::new();
        let mut i: usize = 0;
        while i < self.nodes.len()
            invariant
                i <= self.nodes@.len(),
                nodes@.len() == i,
                forall|k: int| 0 <= k < i ==> (#[trigger] nodes@[k]).view() == self.nodes@[k].view()
                    && nodes@[k].id == self.nodes@[k].id,
            decreases self.nodes@.len() - i,
        {
            nodes.push(self.nodes[i].duplicate());
            i = i + 1;
        }
        let r = Preorder { nodes };
        proof {
            r.lemma_view();
            self.lemma_view();
            assert(r@ =~= self@);
        }
        r
    }
}

impl Default for Preorder {
    fn default() -> (r: Self)
        ensures
            r.wf(),
            r@ == Seq::<NodeView>::empty(),
    {
        Preorder::new()
    }
}

} // verus!

verus! {

/// Adding an arrow adds exactly that arrow: every other arrow, every weight
/// and the number of nodes stay as they were.
pub proof fn lemma_with_arrow(g: Seq<NodeView>, s: usize, t: usize)
    requires
        s < g.len(),
        t < g.len(),
    ensures
        with_arrow(g, s as int, t as int).len() == g.len(),
        same_weights(with_arrow(g, s as int, t as int), g),
        forall|a: usize, b: usize| #[trigger] arrow_between(with_arrow(g, s as int, t as int), a, b)
            <==> (arrow_between(g, a, b) || (a == s && b == t)),
{
    let h = with_arrow(g, s as int, t as int);
    assert forall|a: usize, b: usize| #[trigger] arrow_between(h, a, b)
        <==> (arrow_between(g, a, b) || (a == s && b == t)) by {
        if a == s && !g[s as int].outgoing.contains(t) {
            lemma_push_contains(g[s as int].outgoing, t, b);
        }
    }
}

} // verus!

verus! {

/// Adding a node adds no arrow.
pub proof fn lemma_push_node(g: Seq<NodeView>, w: u64)
    requires
        graph_wf(g),
    ensures
        forall|a: usize, b: usize| #[trigger] arrow_between(
            g.push(NodeView { weight: w, incoming: Seq::empty(), outgoing: Seq::empty() }), a, b)
            <==> arrow_between(g, a, b),
{
    let h = g.push(NodeView { weight: w, incoming: Seq::empty(), outgoing: Seq::empty() });
    assert forall|a: usize, b: usize| #[trigger] arrow_between(h, a, b) <==> arrow_between(g, a, b) by {
        if a < g.len() && g[a as int].outgoing.contains(b) {
            let k = g[a as int].outgoing.index_of(b);
            assert(g[a as int].outgoing[k] < g.len());
        }
    }
}

} // verus!

