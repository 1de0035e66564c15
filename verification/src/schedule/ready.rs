//! The rounds in which a plan's systems can start: a system is ready once
//! every system with an arrow into it has completed.

use vstd::prelude::*;

use crate::schedule::plan::{Plan, PlanView, is_pred, plan_sound, preds};
use crate::system::system::SystemId;
use crate::bitset::{bitset_len, bitset_ones, bitset_with_capacity, bitset_insert, bitset_set, bitset_ones_vec};
use fixedbitset::FixedBitSet;

verus! {

/// The predecessors of position `p` that have not completed.
pub open spec fn waiting(pv: PlanView, done: Seq<bool>, p: int) -> Set<int> {
    Set::new(|q: int| is_pred(pv, q, p) && !done[q])
}

/// Position `q` stands in one of the rounds before round `i`.
pub open spec fn in_rounds_before(rounds: Seq<Seq<usize>>, i: int, q: int) -> bool {
    exists|i2: int, b: int| 0 <= i2 < i && 0 <= b < rounds[i2].len() && rounds[i2][b] == q
}

/// The rounds as plain sequences.
pub open spec fn rounds_view(rounds: Seq<Vec<usize>>) -> Seq<Seq<usize>> {
    rounds.map_values(|v: Vec<usize>| v@)
}

/// The started positions.
spec fn started_set(started: Seq<bool>) -> Set<int> {
    Set::new(|p: int| 0 <= p < started.len() && started[p])
}

/// Marks the successors of the system at `pos` as having one completed
/// predecessor more; those with none left become ready.
fn complete(plan: &Plan, pos: usize, counts: &mut Vec<usize>, started: &Vec<bool>, ready: &mut FixedBitSet)
    requires
        pos < plan@.order.len(),
        old(counts)@.len() == plan@.order.len(),
        started@.len() == plan@.order.len(),
        bitset_len(*old(ready)) == plan@.order.len(),
        forall|b: usize| #[trigger] bitset_ones(*old(ready)).contains(b) ==> b < plan@.order.len(),
        plan_sound(plan@, plan.ordered_n_incoming()) ==> forall|p: int| #[trigger] is_pred(plan@, pos as int, p)
            ==> old(counts)@[p] > 0,
    ensures
        final(counts)@.len() == old(counts)@.len(),
        bitset_len(*final(ready)) == plan@.order.len(),
        forall|b: usize| #[trigger] bitset_ones(*final(ready)).contains(b) ==> b < plan@.order.len(),
        plan_sound(plan@, plan.ordered_n_incoming()) ==> forall|p: int| 0 <= p < plan@.order.len()
            ==> #[trigger] final(counts)@[p] == old(counts)@[p] - (if is_pred(plan@, pos as int, p) { 1int } else { 0int }),
        forall|b: usize| #[trigger] bitset_ones(*old(ready)).contains(b) ==> bitset_ones(*final(ready)).contains(b),
        forall|b: usize| #[trigger] bitset_ones(*final(ready)).contains(b) ==> bitset_ones(*old(ready)).contains(b)
            || (final(counts)@[b as int] == 0 && !started@[b as int]),
        plan_sound(plan@, plan.ordered_n_incoming()) ==> forall|p: int| 0 <= p < plan@.order.len()
            && is_pred(plan@, pos as int, p) && #[trigger] final(counts)@[p] == 0 && !started@[p]
            ==> bitset_ones(*final(ready)).contains(p as usize),
{
    let ghost pv = plan@;
    let ghost sound = plan_sound(plan@, plan.ordered_n_incoming());
    let ghost counts0 = counts@;
    let ghost ready0 = bitset_ones(*ready);
    let id = plan.system_id(pos);
    if id.0 < plan.n_systems() {
        let outgoing = plan.outgoing(id);
        let n = counts.len();
        let mut k: usize = 0;
        while k < outgoing.len()
            invariant
                counts@.len() == n,
                n == plan@.order.len(),
                started@.len() == n,
                k <= outgoing@.len(),
                pos < n,
                pv == plan@,
                id.0 == pv.order[pos as int],
                (id.0 as int) < pv.outgoing.len(),
                outgoing@ == pv.outgoing[id.0 as int],
                sound == plan_sound(plan@, plan.ordered_n_incoming()),
                sound ==> forall|p: int| #[trigger] is_pred(pv, pos as int, p) ==> counts0[p] > 0,
                bitset_len(*ready) == n,
                forall|b: usize| #[trigger] bitset_ones(*ready).contains(b) ==> b < n,
                sound ==> forall|p: int| 0 <= p < n ==> #[trigger] counts@[p]
                    == counts0[p] - (if outgoing@.take(k as int).contains(p as usize) { 1int } else { 0int }),
                forall|b: usize| #[trigger] ready0.contains(b) ==> bitset_ones(*ready).contains(b),
                forall|b: usize| #[trigger] bitset_ones(*ready).contains(b) ==> ready0.contains(b)
                    || (counts@[b as int] == 0 && !started@[b as int]),
                sound ==> forall|p: int| 0 <= p < n && outgoing@.take(k as int).contains(p as usize)
                    && #[trigger] counts@[p] == 0 && !started@[p] ==> bitset_ones(*ready).contains(p as usize),
                forall|b: usize| #[trigger] bitset_ones(*ready).contains(b) && !ready0.contains(b)
                    ==> (b as int) < n && counts@[b as int] == 0,
            decreases outgoing@.len() - k,
        {
            let o = outgoing[k];
            let ghost before = counts@;
            let ghost tk = outgoing@.take(k as int);
            proof {
                assert(outgoing@.take(k + 1) =~= tk.push(o));
                if sound {
                    assert(pv.outgoing[id.0 as int].no_duplicates());
                    assert(!tk.contains(o)) by {
                        if tk.contains(o) {
                            let j = choose|j: int| 0 <= j < tk.len() && tk[j] == o;
                            assert(outgoing@[j] == outgoing@[k as int]);
                        }
                    }
                }
            }
            if o < n && counts[o] > 0 {
                let c = counts[o] - 1;
                counts.set(o, c);
                if c == 0 && !started[o] {
                    bitset_insert(ready, o);
                }
            }
            proof {
                assert(outgoing@[k as int] == o);
                assert(pv.outgoing[id.0 as int].contains(o));
                if sound {
                    assert forall|p: int| 0 <= p < n implies #[trigger] counts@[p]
                        == counts0[p] - (if outgoing@.take(k + 1).contains(p as usize) { 1int } else { 0int }) by {
                        if p as usize != o {
                            assert(outgoing@.take(k + 1).contains(p as usize) == tk.contains(p as usize));
                        } else {
                            assert(outgoing@.take(k + 1)[k as int] == o);
                            assert(outgoing@.take(k + 1).contains(o));
                            assert(pv.outgoing[pv.order[pos as int] as int].contains(p as usize));
                            assert(is_pred(pv, pos as int, p));
                        }
                    }
                }
            }
            k = k + 1;
        }
        proof {
            assert(outgoing@.take(outgoing@.len() as int) =~= outgoing@);
        }
    }
}

fn copy_positions(v: &Vec<usize>) -> (r: Vec<usize>)
    ensures
        r@ == v@,
{
    let r = v.clone();
    assert(r@ =~= v@);
    r
}

/// The first position before `p`, or `p` itself, whose system has not
/// started.
proof fn lemma_first_unstarted(started: Seq<bool>, p: int) -> (m: int)
    requires
        0 <= p < started.len(),
        !started[p],
    ensures
        0 <= m <= p,
        !started[m],
        forall|x: int| 0 <= x < m ==> started[x],
    decreases p,
{
    if exists|x: int| 0 <= x < p && !started[x] {
        let x = choose|x: int| 0 <= x < p && !started[x];
        lemma_first_unstarted(started, x)
    } else {
        p
    }
}

/// A finite set of length zero is empty; one holding `x` has a positive
/// length.
proof fn lemma_len_zero(s: Set<int>, x: int)
    requires
        s.finite(),
    ensures
        s.len() == 0 ==> !s.contains(x),
        s.contains(x) ==> s.len() > 0 && s.remove(x).len() == s.len() - 1,
{
    if s.contains(x) {
        assert(s.remove(x).insert(x) =~= s);
    }
}

/// The systems of the plan, in the rounds in which they become ready; each
/// round lists positions of the plan's order, in increasing order, and no
/// position stands twice.  Of a sound plan, a position stands in a round
/// only after every position with an arrow to it, and every position
/// stands in some round (before the end).
pub fn ready_rounds(plan: &Plan) -> (r: Vec<Vec<usize>>)
    ensures
        forall|i: int, j: int| 0 <= i < r@.len() && 0 <= j < r@[i]@.len()
            ==> #[trigger] r@[i]@[j] < plan@.order.len(),
        forall|i: int, a: int, b: int| 0 <= i < r@.len() && 0 <= a < b < r@[i]@.len()
            ==> #[trigger] r@[i]@[a] < #[trigger] r@[i]@[b],
        forall|i1: int, a: int, i2: int, b: int| 0 <= i1 < r@.len() && 0 <= a < r@[i1]@.len()
            && 0 <= i2 < r@.len() && 0 <= b < r@[i2]@.len() && (i1 != i2 || a != b)
            ==> #[trigger] r@[i1]@[a] != #[trigger] r@[i2]@[b],
        plan_sound(plan@, plan.ordered_n_incoming()) ==> forall|i: int, a: int, q: int|
            0 <= i < r@.len() && 0 <= a < r@[i]@.len() && #[trigger] is_pred(plan@, q, r@[i]@[a] as int)
            ==> in_rounds_before(rounds_view(r@), i, q),
        plan_sound(plan@, plan.ordered_n_incoming()) ==> forall|p: int| 0 <= p < plan@.order.len()
            ==> #[trigger] in_rounds_before(rounds_view(r@), r@.len() as int, p),
{
    let ghost pv = plan@;
    let ghost sound = plan_sound(plan@, plan.ordered_n_incoming());
    let n = plan.len();
    let incoming = plan.n_incoming();
    proof {
        if sound {
            assert(incoming@.map_values(|x: usize| x as nat).len() == n);
        }
    }
    let mut counts: Vec<usize> = Vec::new();
    let mut started: Vec<bool> = Vec::new();
    let mut ready = bitset_with_capacity(n);
    let mut i: usize = 0;
    while i < n
        invariant
            n == plan@.order.len(),
            pv == plan@,
            sound == plan_sound(plan@, plan.ordered_n_incoming()),
            incoming@.map_values(|x: usize| x as nat) == plan.ordered_n_incoming(),
            i <= n,
            counts@.len() == i,
            started@.len() == i,
            forall|q: int| 0 <= q < i ==> !started@[q],
            bitset_len(ready) == n,
            forall|b: usize| #[trigger] bitset_ones(ready).contains(b) <==> (b < i && counts@[b as int] == 0),
            sound ==> forall|p: int| 0 <= p < i ==> (#[trigger] counts@[p]) == preds(pv, p).len(),
        decreases n - i,
    {
        let c: usize = if i < incoming.len() { incoming[i] } else { 0 };
        proof {
            if sound {
                assert(incoming@.map_values(|x: usize| x as nat)[i as int] == incoming@[i as int] as nat);
                assert(preds(pv, i as int).len() == plan.ordered_n_incoming()[i as int]);
            }
        }
        counts.push(c);
        started.push(false);
        if c == 0 {
            bitset_insert(&mut ready, i);
        }
        i = i + 1;
    }
    proof {
        if sound {
            assert forall|p: int| 0 <= p < n implies
                (#[trigger] waiting(pv, started@, p)).finite() && counts@[p] == waiting(pv, started@, p).len() by {
                assert(waiting(pv, started@, p) =~= preds(pv, p));
            }
        }
        assert(started_set(started@) =~= Set::<int>::empty());
    }
    let mut rounds: Vec<Vec<usize>> = Vec::new();
    let mut n_started: usize = 0;
    let mut go = true;
    while go && n_started < n
        invariant
            n == plan@.order.len(),
            pv == plan@,
            sound == plan_sound(plan@, plan.ordered_n_incoming()),
            counts@.len() == n,
            started@.len() == n,
            n_started <= n,
            bitset_len(ready) == n,
            forall|b: usize| #[trigger] bitset_ones(ready).contains(b) ==> b < n,
            forall|a: int, b: int| 0 <= a < rounds@.len() && 0 <= b < rounds@[a]@.len()
                ==> #[trigger] rounds@[a]@[b] < n,
            forall|x: int, a: int, b: int| 0 <= x < rounds@.len() && 0 <= a < b < rounds@[x]@.len()
                ==> #[trigger] rounds@[x]@[a] < #[trigger] rounds@[x]@[b],
            forall|i1: int, a: int, i2: int, b: int| 0 <= i1 < rounds@.len() && 0 <= a < rounds@[i1]@.len()
                && 0 <= i2 < rounds@.len() && 0 <= b < rounds@[i2]@.len() && (i1 != i2 || a != b)
                ==> #[trigger] rounds@[i1]@[a] != #[trigger] rounds@[i2]@[b],
            forall|x: int, a: int| 0 <= x < rounds@.len() && 0 <= a < rounds@[x]@.len()
                ==> started@[#[trigger] rounds@[x]@[a] as int],
            forall|p: int| 0 <= p < n && #[trigger] started@[p] ==> exists|x: int, a: int|
                0 <= x < rounds@.len() && 0 <= a < rounds@[x]@.len() && rounds@[x]@[a] == p,
            sound ==> forall|p: int| 0 <= p < n ==> (#[trigger] waiting(pv, started@, p)).finite()
                && counts@[p] == waiting(pv, started@, p).len(),
            sound ==> forall|b: usize| #[trigger] bitset_ones(ready).contains(b) ==> counts@[b as int] == 0,
            sound ==> forall|p: int| 0 <= p < n && !started@[p] && #[trigger] counts@[p] == 0
                ==> bitset_ones(ready).contains(p as usize),
            sound ==> forall|x: int, a: int, q: int| 0 <= x < rounds@.len() && 0 <= a < rounds@[x]@.len()
                && #[trigger] is_pred(pv, q, rounds@[x]@[a] as int) ==> in_rounds_before(rounds_view(rounds@), x, q),
            started_set(started@).finite(),
            started_set(started@).len() == n_started,
            !go ==> (sound ==> forall|p: int| 0 <= p < n ==> #[trigger] started@[p]),
        decreases n - n_started, (if go { 1int } else { 0int }),
    {
        let ghost n0 = n_started;
        let ghost started0 = started@;
        let ghost counts0 = counts@;
        let ghost ready0 = bitset_ones(ready);
        let ghost rounds0 = rounds@;
        let ones = bitset_ones_vec(&ready);
        assert forall|j: int| 0 <= j < ones@.len() implies #[trigger] ones@[j] < n by {
            assert(ones@.contains(ones@[j]));
            assert(bitset_ones(ready).contains(ones@[j]));
        }
        let mut positions: Vec<usize> = Vec::new();
        let mut k: usize = 0;
        while k < ones.len()
            invariant
                n == plan@.order.len(),
                started@.len() == n,
                counts@ == counts0,
                k <= ones@.len(),
                n_started <= n,
                n_started == n0 + positions@.len(),
                bitset_len(ready) == n,
                forall|b: usize| #[trigger] bitset_ones(ready).contains(b) ==> b < n,
                forall|b: usize| #[trigger] bitset_ones(ready).contains(b)
                    ==> ready0.contains(b) && !ones@.take(k as int).contains(b),
                forall|b: usize| ready0.contains(b) <==> ones@.contains(b),
                forall|j: int| 0 <= j < ones@.len() ==> #[trigger] ones@[j] < n,
                forall|a: int, b: int| 0 <= a < b < ones@.len() ==> ones@[a] < ones@[b],
                forall|j: int| 0 <= j < positions@.len() ==> #[trigger] positions@[j] < n,
                forall|a: int, b: int| 0 <= a < b < positions@.len()
                    ==> #[trigger] positions@[a] < #[trigger] positions@[b],
                forall|j: int| 0 <= j < positions@.len() ==> exists|q: int| 0 <= q < k && ones@[q] == #[trigger] positions@[j],
                forall|j: int| 0 <= j < positions@.len() ==> !started0[#[trigger] positions@[j] as int],
                forall|p: int| 0 <= p < n ==> #[trigger] started@[p] == (started0[p] || positions@.contains(p as usize)),
                forall|j: int| 0 <= j < k ==> started@[#[trigger] ones@[j] as int],
                started0.len() == n,
                started_set(started@).finite(),
                started_set(started@).len() == n_started,
            decreases ones@.len() - k,
        {
            let p = ones[k];
            bitset_set(&mut ready, p, false);
            proof {
                assert(ones@.take(k + 1) =~= ones@.take(k as int).push(p));
            }
            if !started[p] {
                proof {
                    vstd::set_lib::lemma_int_range(0, n as int);
                    assert(started_set(started@).insert(p as int).subset_of(vstd::set_lib::set_int_range(0, n as int)));
                    vstd::set_lib::lemma_len_subset(started_set(started@).insert(p as int), vstd::set_lib::set_int_range(0, n as int));
                    assert(!started_set(started@).contains(p as int));
                    assert(n_started < n);
                    assert forall|j: int| 0 <= j < positions@.len() implies #[trigger] positions@[j] < p by {
                        let q = choose|q: int| 0 <= q < k && ones@[q] == positions@[j];
                    }
                }
                let ghost before = started@;
                let ghost pos_before = positions@;
                started.set(p, true);
                n_started = n_started + 1;
                positions.push(p);
                proof {
                    assert(started_set(started@) =~= started_set(before).insert(p as int));
                    assert forall|x: int| 0 <= x < n implies #[trigger] started@[x] == (started0[x] || positions@.contains(x as usize)) by {
                        if x as usize == p {
                            assert(positions@[positions@.len() - 1] == p);
                        } else {
                            assert(positions@.contains(x as usize) == pos_before.contains(x as usize)) by {
                                if positions@.contains(x as usize) {
                                    let j = choose|j: int| 0 <= j < positions@.len() && positions@[j] == x as usize;
                                    assert(j < pos_before.len());
                                    assert(pos_before[j] == x as usize);
                                }
                                if pos_before.contains(x as usize) {
                                    let j = choose|j: int| 0 <= j < pos_before.len() && pos_before[j] == x as usize;
                                    assert(positions@[j] == x as usize);
                                }
                            }
                        }
                    }
                    assert(!started0[p as int]) by {
                        if started0[p as int] {
                            assert(before[p as int]);
                        } else {
                        }
                    }
                }
            }
            k = k + 1;
        }
        proof {
            assert(ones@.take(ones@.len() as int) =~= ones@);
            assert forall|b: usize| !bitset_ones(ready).contains(b) by {
                if bitset_ones(ready).contains(b) {
                    assert(ready0.contains(b));
                    assert(ones@.contains(b));
                }
            }
        }
        let ghost started1 = started@;
        let had = positions.len();
        if had > 0 {
            rounds.push(copy_positions(&positions));
        }
        proof {
            let rv = rounds_view(rounds@);
            let rv0 = rounds_view(rounds0);
            let m = rounds0.len() as int;
            if had > 0 {
                assert(rounds@ == rounds0.push(rounds@[m]));
                assert(rounds@[m]@ == positions@);
            } else {
                assert(rounds@ == rounds0);
            }
            assert forall|x: int| 0 <= x < m implies #[trigger] rounds@[x] == rounds0[x] by {}
            assert forall|a: int, b: int| 0 <= a < rounds@.len() && 0 <= b < rounds@[a]@.len()
                implies #[trigger] rounds@[a]@[b] < n by {}
            assert forall|x: int, a: int, b: int| 0 <= x < rounds@.len() && 0 <= a < b < rounds@[x]@.len()
                implies #[trigger] rounds@[x]@[a] < #[trigger] rounds@[x]@[b] by {}
            assert forall|x: int, a: int| 0 <= x < rounds@.len() && 0 <= a < rounds@[x]@.len()
                implies started@[#[trigger] rounds@[x]@[a] as int] by {
                if x < m {
                    assert(started0[rounds0[x]@[a] as int]);
                } else {
                    assert(positions@.contains(positions@[a]));
                }
            }
            assert forall|i1: int, a: int, i2: int, b: int| 0 <= i1 < rounds@.len() && 0 <= a < rounds@[i1]@.len()
                && 0 <= i2 < rounds@.len() && 0 <= b < rounds@[i2]@.len() && (i1 != i2 || a != b)
                implies #[trigger] rounds@[i1]@[a] != #[trigger] rounds@[i2]@[b] by {
                if i1 < m && i2 >= m {
                    assert(started0[rounds0[i1]@[a] as int]);
                    assert(!started0[positions@[b] as int]);
                } else if i1 >= m && i2 < m {
                    assert(started0[rounds0[i2]@[b] as int]);
                    assert(!started0[positions@[a] as int]);
                } else if i1 >= m && i2 >= m {
                    if a < b {
                        assert(positions@[a] < positions@[b]);
                    } else {
                        assert(positions@[b] < positions@[a]);
                    }
                }
            }
            assert forall|p: int| 0 <= p < n && #[trigger] started@[p] implies exists|x: int, a: int|
                0 <= x < rounds@.len() && 0 <= a < rounds@[x]@.len() && rounds@[x]@[a] == p by {
                if started0[p] {
                    let (x, a) = choose|x: int, a: int| 0 <= x < rounds0.len() && 0 <= a < rounds0[x]@.len()
                        && rounds0[x]@[a] == p;
                    assert(rounds@[x] == rounds0[x]);
                } else {
                    assert(positions@.contains(p as usize));
                    let a = choose|a: int| 0 <= a < positions@.len() && positions@[a] == p as usize;
                    assert(rounds@[m]@[a] == p);
                }
            }
            if sound {
                assert forall|x: int, a: int, q: int| 0 <= x < rounds@.len() && 0 <= a < rounds@[x]@.len()
                    && #[trigger] is_pred(pv, q, rounds@[x]@[a] as int) implies in_rounds_before(rv, x, q) by {
                    if x < m {
                        assert(in_rounds_before(rounds_view(rounds0), x, q));
                        let (x2, b) = choose|x2: int, b: int| 0 <= x2 < x && 0 <= b < rounds_view(rounds0)[x2].len()
                            && rounds_view(rounds0)[x2][b] == q;
                        assert(rv[x2] == rounds_view(rounds0)[x2]);
                    } else {
                        let p = positions@[a];
                        let j = choose|j: int| 0 <= j < ones@.len() && ones@[j] == p;
                        assert(ones@.contains(p));
                        assert(ready0.contains(p));
                        assert(counts0[p as int] == 0);
                        lemma_len_zero(waiting(pv, started0, p as int), q);
                        assert(started0[q]);
                        let (x2, b) = choose|x2: int, b: int| 0 <= x2 < rounds0.len() && 0 <= b < rounds0[x2]@.len()
                            && rounds0[x2]@[b] == q;
                        assert(rv[x2] == rounds0[x2]@);
                    }
                }
            }
        }
        proof {
            if sound {
                assert(positions@.take(0) =~= Seq::<usize>::empty());
                assert forall|p: int| 0 <= p < n implies
                    #[trigger] waiting(pv, done_of(started0, positions@, 0), p) == waiting(pv, started0, p) by {
                    assert(waiting(pv, done_of(started0, positions@, 0), p) =~= waiting(pv, started0, p));
                }
            }
        }
        let mut j: usize = 0;
        while j < positions.len()
            invariant
                n == plan@.order.len(),
                pv == plan@,
                sound == plan_sound(plan@, plan.ordered_n_incoming()),
                counts@.len() == n,
                started@.len() == n,
                started@ == started1,
                started0.len() == n,
                j <= positions@.len(),
                forall|q: int| 0 <= q < positions@.len() ==> #[trigger] positions@[q] < n,
                forall|a: int, b: int| 0 <= a < b < positions@.len()
                    ==> #[trigger] positions@[a] < #[trigger] positions@[b],
                forall|q: int| 0 <= q < positions@.len() ==> !started0[#[trigger] positions@[q] as int],
                forall|p: int| 0 <= p < n ==> #[trigger] started1[p] == (started0[p] || positions@.contains(p as usize)),
                n_started == n0 + had,
                n_started <= n,
                bitset_len(ready) == n,
                forall|b: usize| #[trigger] bitset_ones(ready).contains(b) ==> b < n,
                sound ==> forall|p: int| 0 <= p < n ==> (#[trigger] waiting(pv, done_of(started0, positions@, j as int), p)).finite()
                    && counts@[p] == waiting(pv, done_of(started0, positions@, j as int), p).len(),
                sound ==> forall|b: usize| #[trigger] bitset_ones(ready).contains(b) ==> counts@[b as int] == 0,
                sound ==> forall|p: int| 0 <= p < n && !started@[p] && #[trigger] counts@[p] == 0
                    ==> bitset_ones(ready).contains(p as usize),
            decreases positions@.len() - j,
        {
            let pos = positions[j];
            let ghost d = done_of(started0, positions@, j as int);
            let ghost d1 = done_of(started0, positions@, j + 1);
            let ghost c_before = counts@;
            proof {
                assert(!d[pos as int]) by {
                    if positions@.take(j as int).contains(pos) {
                        let q = choose|q: int| 0 <= q < j && positions@.take(j as int)[q] == pos;
                        assert(positions@[q] < positions@[j as int]);
                    }
                }
                if sound {
                    assert forall|p: int| #[trigger] is_pred(pv, pos as int, p) implies counts@[p] > 0 by {
                        assert(waiting(pv, d, p).contains(pos as int));
                        lemma_len_zero(waiting(pv, d, p), pos as int);
                    }
                }
            }
            complete(plan, pos, &mut counts, &started, &mut ready);
            proof {
                assert(positions@.take(j + 1) =~= positions@.take(j as int).push(pos));
                if sound {
                    assert forall|p: int| 0 <= p < n implies (#[trigger] waiting(pv, d1, p)).finite()
                        && counts@[p] == waiting(pv, d1, p).len() by {
                        let w = waiting(pv, d, p);
                        lemma_len_zero(w, pos as int);
                        assert forall|q: int| 0 <= q < n implies #[trigger] d1[q] == (d[q] || q == pos as int) by {
                            let t0 = positions@.take(j as int);
                            let t1 = positions@.take(j + 1);
                            assert(t1 == t0.push(pos));
                            if t1.contains(q as usize) {
                                let z = choose|z: int| 0 <= z < t1.len() && t1[z] == q as usize;
                                if z < t0.len() {
                                    assert(t0[z] == q as usize);
                                }
                            }
                            if t0.contains(q as usize) {
                                let z = choose|z: int| 0 <= z < t0.len() && t0[z] == q as usize;
                                assert(t1[z] == q as usize);
                            }
                            if q == pos as int {
                                assert(t1[j as int] == pos);
                            }
                        }
                        if is_pred(pv, pos as int, p) {
                            assert(waiting(pv, d1, p) =~= w.remove(pos as int));
                        } else {
                            assert(waiting(pv, d1, p) =~= w);
                        }
                    }
                    assert forall|b: usize| #[trigger] bitset_ones(ready).contains(b) implies counts@[b as int] == 0 by {
                        if is_pred(pv, pos as int, b as int) && c_before[b as int] == 0 {
                            assert(waiting(pv, d, b as int).contains(pos as int));
                            lemma_len_zero(waiting(pv, d, b as int), pos as int);
                        }
                    }
                }
            }
            j = j + 1;
        }
        proof {
            if sound {
                let dn = done_of(started0, positions@, positions@.len() as int);
                assert(positions@.take(positions@.len() as int) =~= positions@);
                assert forall|p: int| 0 <= p < n implies #[trigger] waiting(pv, started@, p) == waiting(pv, dn, p) by {
                    assert(waiting(pv, started@, p) =~= waiting(pv, dn, p));
                }
            }
            if had == 0 && sound {
                assert forall|p: int| 0 <= p < n implies #[trigger] started@[p] by {
                    if !started@[p] {
                        assert(positions@.len() == 0);
                        assert(!started0[p]);
                        let mm = lemma_first_unstarted(started0, p);
                        assert forall|q: int| #[trigger] is_pred(pv, q, mm) implies started0[q] by {
                            assert(q < mm);
                        }
                        assert(waiting(pv, started0, mm) =~= Set::<int>::empty());
                        assert(counts0[mm] == 0);
                        assert(ready0.contains(mm as usize));
                        assert(ones@.contains(mm as usize));
                        let jj = choose|jj: int| 0 <= jj < ones@.len() && ones@[jj] == mm as usize;
                        assert(started1[ones@[jj] as int]);
                        assert(!started1[mm]);
                    }
                }
            }
        }
        go = had > 0;
    }
    proof {
        if sound && go {
            vstd::set_lib::lemma_int_range(0, n as int);
            assert(started_set(started@).subset_of(vstd::set_lib::set_int_range(0, n as int)));
            vstd::set_lib::lemma_subset_equality(started_set(started@), vstd::set_lib::set_int_range(0, n as int));
            assert forall|p: int| 0 <= p < n implies #[trigger] started@[p] by {
                assert(vstd::set_lib::set_int_range(0, n as int).contains(p));
            }
        }
        if sound {
            assert forall|p: int| 0 <= p < n implies
                #[trigger] in_rounds_before(rounds_view(rounds@), rounds@.len() as int, p) by {
                assert(started@[p]);
                let (x, a) = choose|x: int, a: int|
                    0 <= x < rounds@.len() && 0 <= a < rounds@[x]@.len() && rounds@[x]@[a] == p;
                assert(rounds_view(rounds@)[x] == rounds@[x]@);
            }
        }
    }
    rounds
}

/// What is done after `j` systems of the round completed: those started
/// before the round and the first `j` of it.
spec fn done_of(started0: Seq<bool>, positions: Seq<usize>, j: int) -> Seq<bool> {
    Seq::new(started0.len(), |x: int| started0[x] || positions.take(j).contains(x as usize))
}

} // verus!
