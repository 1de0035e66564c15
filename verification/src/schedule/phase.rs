//! Phases group systems within a schedule and order them.  Phases form a
//! preorder of their own; each phase is bracketed by a first and a last
//! marker system.

use vstd::prelude::*;

use crate::schedule::preorder::{
    NodeId, NodeView, Preorder, arrow_between, cyclic_at, ids_of, with_arrow, lemma_with_arrow, lemma_push_node,
    same_weights, acyclic, sorted_in_rounds, node_ids,
};
use crate::system::system::SystemId;
use crate::util::label::{type_id_of, LabelKey, find_label_key};

verus! {

/// A label that systems can be placed in.  A phase is identified by its type.
pub trait Phase: 'static {
    fn phase_key(&self) -> LabelKey {
        LabelKey::of::<Self>(0)
    }
}

/// The phase of systems that name none.
#[derive(Copy, Clone, Debug, PartialEq, Eq, Hash)]
pub struct DefaultPhase;

impl Phase for DefaultPhase {}

#[derive(Copy, Clone, Debug, PartialEq, Eq, Hash)]
pub struct PhaseId(pub usize);

impl PhaseId {
    pub fn index(&self) -> (r: usize)
        ensures
            r == self.0,
    {
        self.0
    }

    pub(crate) fn zero() -> (r: PhaseId)
        ensures
            r.0 == 0,
    {
        PhaseId(0)
    }
}

/// A phase's place in the schedule: its first and last marker systems, once
/// they exist.
#[derive(Copy, Clone, Debug)]
pub struct PhaseItem {
    pub id: PhaseId,
    pub first_id: Option<SystemId>,
    pub last_id: Option<SystemId>,
}

impl PhaseItem {
    pub(crate) fn first(&self) -> (r: SystemId)
        requires
            self.first_id is Some,
        ensures
            r == self.first_id->0,
    {
        self.first_id.unwrap()
    }

    pub(crate) fn last(&self) -> (r: SystemId)
        requires
            self.last_id is Some,
        ensures
            r == self.last_id->0,
    {
        self.last_id.unwrap()
    }

    pub(crate) fn set_systems(&mut self, first_id: SystemId, last_id: SystemId)
        requires
            old(self).first_id is None,
            old(self).last_id is None,
        ensures
            *final(self) == (PhaseItem { first_id: Some(first_id), last_id: Some(last_id), ..*old(self) }),
    {
        self.first_id = Some(first_id);
        self.last_id = Some(last_id);
    }
}

/// One phase to add to a schedule.
pub struct PhaseConfig {
    pub key: LabelKey,
}

impl PhaseConfig {
    pub fn new(phase: Box<dyn Phase>) -> (r: PhaseConfig) {
        PhaseConfig { key: phase.phase_key() }
    }
}

/// Several phases to add, in order, optionally chained one after the other.
pub struct PhaseConfigs {
    pub phases: Vec<PhaseConfig>,
    pub is_chained: bool,
}

impl PhaseConfigs {
    pub(crate) fn new() -> (r: PhaseConfigs)
        ensures
            r.phases@.len() == 0,
            !r.is_chained,
    {
        PhaseConfigs { phases: Vec::new(), is_chained: false }
    }

    pub(crate) fn add(&mut self, config: PhaseConfig)
        ensures
            final(self).phases@ == old(self).phases@.push(config),
            final(self).is_chained == old(self).is_chained,
    {
        self.phases.push(config);
    }

    pub fn chained(self) -> (r: PhaseConfigs)
        ensures
            r.phases@ == self.phases@,
            r.is_chained,
    {
        let mut this = self;
        this.is_chained = true;
        this
    }
}

pub trait IntoPhaseConfig {
    fn into_config(self) -> PhaseConfig;
}

pub trait IntoPhaseConfigs: Sized {
    fn into_config(self) -> PhaseConfigs;

    fn chain(self) -> PhaseConfigs {
        self.into_config().chained()
    }
}

impl IntoPhaseConfig for PhaseConfig {
    fn into_config(self) -> PhaseConfig {
        self
    }
}

impl<T: Phase> IntoPhaseConfig for T {
    fn into_config(self) -> PhaseConfig {
        PhaseConfig { key: self.phase_key() }
    }
}

impl IntoPhaseConfig for Box<dyn Phase> {
    fn into_config(self) -> PhaseConfig {
        PhaseConfig::new(self)
    }
}

impl IntoPhaseConfigs for PhaseConfigs {
    fn into_config(self) -> PhaseConfigs {
        self
    }
}

impl<P1: IntoPhaseConfig> IntoPhaseConfigs for (P1,) {
    fn into_config(self) -> (r: PhaseConfigs)
        ensures
            r.phases@.len() == 1,
            !r.is_chained,
    {
        let mut config = PhaseConfigs::new();
        config.add(self.0.into_config());
        config
    }
}

impl<P1: IntoPhaseConfig, P2: IntoPhaseConfig> IntoPhaseConfigs for (P1, P2) {
    fn into_config(self) -> (r: PhaseConfigs)
        ensures
            r.phases@.len() == 2,
            !r.is_chained,
    {
        let mut config = PhaseConfigs::new();
        let (p1, p2) = self;
        config.add(p1.into_config());
        config.add(p2.into_config());
        config
    }
}

impl<P1: IntoPhaseConfig, P2: IntoPhaseConfig, P3: IntoPhaseConfig> IntoPhaseConfigs for (P1, P2, P3) {
    fn into_config(self) -> (r: PhaseConfigs)
        ensures
            r.phases@.len() == 3,
            !r.is_chained,
    {
        let mut config = PhaseConfigs::new();
        let (p1, p2, p3) = self;
        config.add(p1.into_config());
        config.add(p2.into_config());
        config.add(p3.into_config());
        config
    }
}

impl<P1: IntoPhaseConfig, P2: IntoPhaseConfig, P3: IntoPhaseConfig, P4: IntoPhaseConfig>
    IntoPhaseConfigs for (P1, P2, P3, P4) {
    fn into_config(self) -> (r: PhaseConfigs)
        ensures
            r.phases@.len() == 4,
            !r.is_chained,
    {
        let mut config = PhaseConfigs::new();
        let (p1, p2, p3, p4) = self;
        config.add(p1.into_config());
        config.add(p2.into_config());
        config.add(p3.into_config());
        config.add(p4.into_config());
        config
    }
}

/// The phases of a schedule: a key per phase, what is known of its marker
/// systems, and the arrows between phases.
pub struct PhasePreorder {
    keys: Vec<LabelKey>,
    phases: Vec<PhaseItem>,
    preorder: Preorder,
}

/// The ids in `r`, in order.
pub open spec fn phase_ids(r: Seq<PhaseId>) -> Seq<usize> {
    r.map_values(|p: PhaseId| p.0)
}

/// `order` lists each node of `g` once, and every arrow of `g` into a node
/// that is not on a cycle points forward in it.
pub open spec fn acyclic_arrows_forward(g: Seq<NodeView>, order: Seq<usize>) -> bool {
    &&& order.len() == g.len()
    &&& order.no_duplicates()
    &&& forall|k: int| 0 <= k < order.len() ==> #[trigger] order[k] < g.len()
    &&& forall|i: int, j: int| 0 <= i < order.len() && 0 <= j < order.len()
        && #[trigger] arrow_between(g, order[j], order[i]) && !cyclic_at(g, order[i]) ==> j < i
}

impl PhasePreorder {
    pub closed spec fn keys(&self) -> Seq<LabelKey> {
        self.keys@
    }

    pub closed spec fn items(&self) -> Seq<PhaseItem> {
        self.phases@
    }

    pub closed spec fn graph(&self) -> Seq<NodeView> {
        self.preorder@
    }

    /// One key, one item and one node per phase; phase `i` sits at index `i`;
    /// no key twice.
    pub closed spec fn wf(&self) -> bool {
        &&& self.keys@.len() == self.phases@.len()
        &&& self.phases@.len() == self.preorder@.len()
        &&& forall|i: int| 0 <= i < self.phases@.len() ==> (#[trigger] self.phases@[i]).id.0 == i
        &&& self.keys@.no_duplicates()
        &&& self.preorder.wf()
    }

    pub proof fn lemma_wf(&self)
        requires
            self.wf(),
        ensures
            self.keys().len() == self.items().len(),
            self.items().len() == self.graph().len(),
            forall|i: int| 0 <= i < self.items().len() ==> (#[trigger] self.items()[i]).id.0 == i,
            self.keys().no_duplicates(),
            crate::schedule::preorder::graph_wf(self.graph()),
    {
        self.preorder.lemma_wf();
    }

    /// A preorder holding only the default phase.
    pub fn new() -> (r: PhasePreorder)
        ensures
            r.wf(),
            r.keys().len() == 1,
            r.items() == seq![PhaseItem { id: PhaseId(0), first_id: None, last_id: None }],
            r.graph() == seq![NodeView { weight: 0, incoming: Seq::empty(), outgoing: Seq::empty() }],
    {
        let mut r = PhasePreorder { keys: Vec::new(), phases: Vec::new(), preorder: Preorder::new() };
        let key = LabelKey::of::<DefaultPhase>(0);
        r.add_node(key);
        proof {
            assert(r.items() =~= seq![PhaseItem { id: PhaseId(0), first_id: None, last_id: None }]);
            assert(r.graph() =~= seq![NodeView { weight: 0, incoming: Seq::empty(), outgoing: Seq::empty() }]);
        }
        r
    }

    pub fn len(&self) -> (r: usize)
        requires
            self.wf(),
        ensures
            r == self.items().len(),
    {
        self.phases.len()
    }

    /// The phase of `key`, added as a new node without arrows if it is new.
    fn add_node(&mut self, key: LabelKey) -> (id: PhaseId)
        requires
            old(self).wf(),
            old(self).items().len() < usize::MAX,
        ensures
            final(self).wf(),
            added_phase(*old(self), *final(self), key, id),
    {
        match find_label_key(&self.keys, &key) {
            Some(i) => PhaseId(i),
            None => {
                let node_id = self.preorder.add_node(0);
                let id = PhaseId(node_id.index());
                self.keys.push(key);
                self.phases.push(PhaseItem { id, first_id: None, last_id: None });
                proof {
                    assert(self.keys@.no_duplicates()) by {
                        let k = self.keys@;
                        assert forall|i: int, j: int| 0 <= i < k.len() && 0 <= j < k.len() && i != j
                            implies k[i] != k[j] by {
                            if i == k.len() - 1 {
                                assert(k[j] == old(self).keys@[j]);
                                assert(old(self).keys@.contains(k[j]));
                            } else if j == k.len() - 1 {
                                assert(k[i] == old(self).keys@[i]);
                                assert(old(self).keys@.contains(k[i]));
                            }
                        }
                    }
                }
                id
            },
        }
    }

    pub fn add_phase(&mut self, config: PhaseConfig) -> (id: PhaseId)
        requires
            old(self).wf(),
            old(self).items().len() < usize::MAX,
        ensures
            final(self).wf(),
            added_phase(*old(self), *final(self), config.key, id),
    {
        self.add_node(config.key)
    }

    pub fn add_box_phase(&mut self, phase: &Box<dyn Phase>) -> (id: PhaseId)
        requires
            old(self).wf(),
            old(self).items().len() < usize::MAX,
        ensures
            final(self).wf(),
            id.0 < final(self).keys().len(),
            added_phase(*old(self), *final(self), final(self).keys()[id.0 as int], id),
    {
        let key = phase.phase_key();
        self.add_node(key)
    }

    /// Adds each phase; chained phases get an arrow from each to the next.
    pub fn add_phases(&mut self, config: PhaseConfigs)
        requires
            old(self).wf(),
            old(self).items().len() + config.phases@.len() < usize::MAX,
            config.is_chained ==> forall|i: int| 0 <= i < config.phases@.len() - 1
                ==> (#[trigger] config.phases@[i]).key != config.phases@[i + 1].key,
        ensures
            final(self).wf(),
            old(self).keys().is_prefix_of(final(self).keys()),
            old(self).items().is_prefix_of(final(self).items()),
            forall|i: int| 0 <= i < config.phases@.len()
                ==> final(self).keys().contains(#[trigger] config.phases@[i].key),
            forall|k: int| old(self).keys().len() <= k < final(self).keys().len()
                ==> exists|i: int| 0 <= i < config.phases@.len()
                    && #[trigger] final(self).keys()[k] == config.phases@[i].key,
            forall|k: int| old(self).items().len() <= k < final(self).items().len()
                ==> (#[trigger] final(self).items()[k]).first_id is None && final(self).items()[k].last_id is None,
            same_weights(final(self).graph(), with_len(old(self).graph(), final(self).graph().len())),
            forall|a: usize, b: usize| #[trigger] arrow_between(final(self).graph(), a, b) <==> (
                arrow_between(old(self).graph(), a, b)
                || (config.is_chained && chained_pair(final(self).keys(), config.phases@, a, b))),
    {
        let ghost s0 = *self;
        proof { self.lemma_wf(); }
        let PhaseConfigs { phases, is_chained } = config;
        let ghost cfg = phases@;
        let mut i: usize = 0;
        let mut prev: usize = 0;
        let ghost mut ids: Seq<usize> = Seq::empty();
        while i < phases.len()
            invariant
                self.wf(),
                cfg == phases@,
                i <= cfg.len(),
                s0.wf(),
                s0.items().len() + cfg.len() < usize::MAX,
                is_chained ==> forall|j: int| 0 <= j < cfg.len() - 1
                    ==> (#[trigger] cfg[j]).key != cfg[j + 1].key,
                self.items().len() <= s0.items().len() + i,
                s0.keys().is_prefix_of(self.keys()),
                s0.items().is_prefix_of(self.items()),
                ids.len() == i,
                forall|j: int| 0 <= j < i ==> #[trigger] ids[j] < self.keys().len()
                    && self.keys()[ids[j] as int] == cfg[j].key,
                forall|k: int| s0.keys().len() <= k < self.keys().len()
                    ==> exists|j: int| 0 <= j < i && #[trigger] self.keys()[k] == cfg[j].key,
                forall|k: int| s0.items().len() <= k < self.items().len()
                    ==> (#[trigger] self.items()[k]).first_id is None && self.items()[k].last_id is None,
                same_weights(self.graph(), with_len(s0.graph(), self.graph().len())),
                i > 0 ==> prev == ids[i - 1],
                forall|a: usize, b: usize| #[trigger] arrow_between(self.graph(), a, b) <==> (
                    arrow_between(s0.graph(), a, b)
                    || (is_chained && exists|j: int| 0 <= j < i - 1 && a == ids[j] && b == #[trigger] ids[j + 1])),
            decreases cfg.len() - i,
        {
            let ghost before = *self;
            proof { self.lemma_wf(); }
            proof { before.lemma_wf(); }
            let id = self.add_node(phases[i].key);
            proof {
                self.lemma_wf();
                if !before.keys().contains(cfg[i as int].key) {
                    lemma_push_node(before.graph(), 0);
                }
                assert forall|a: usize, b: usize| #[trigger] arrow_between(self.graph(), a, b)
                    <==> arrow_between(before.graph(), a, b) by {
                    if !before.keys().contains(cfg[i as int].key) {
                        assert(arrow_between(before.graph().push(
                            NodeView { weight: 0, incoming: Seq::empty(), outgoing: Seq::empty() }), a, b)
                            <==> arrow_between(before.graph(), a, b));
                    }
                }
                assert(self.keys()[id.0 as int] == cfg[i as int].key);
                assert forall|j: int| 0 <= j < i implies #[trigger] ids[j] < self.keys().len()
                    && self.keys()[ids[j] as int] == cfg[j].key by {
                    assert(before.keys().is_prefix_of(self.keys()));
                }
                assert forall|k: int| s0.keys().len() <= k < self.keys().len()
                    implies exists|j: int| 0 <= j < i + 1 && #[trigger] self.keys()[k] == cfg[j].key by {
                    if k < before.keys().len() {
                        let j = choose|j: int| 0 <= j < i && #[trigger] before.keys()[k] == cfg[j].key;
                        assert(self.keys()[k] == cfg[j].key);
                    } else {
                        assert(self.keys()[k] == cfg[i as int].key);
                    }
                }
                assert(same_weights(self.graph(), with_len(s0.graph(), self.graph().len())));
            }
            if is_chained && i > 0 {
                proof {
                    assert(self.keys()[prev as int] == cfg[i - 1].key);
                    assert(cfg[i - 1].key != cfg[i as int].key);
                    lemma_with_arrow(self.graph(), prev, id.0);
                }
                let ghost before_arrow = self.graph();
                self.preorder.add_arrow(NodeId(prev), NodeId(id.index()));
                proof {
                    let nids = ids.push(id.0);
                    assert forall|a: usize, b: usize| #[trigger] arrow_between(self.graph(), a, b) <==> (
                        arrow_between(s0.graph(), a, b)
                        || (is_chained && exists|j: int| 0 <= j < i && a == nids[j] && b == #[trigger] nids[j + 1])) by {
                        if a == prev && b == id.0 {
                            assert(a == nids[i - 1] && b == nids[(i - 1) + 1]);
                        }
                        if exists|j: int| 0 <= j < i && a == nids[j] && b == #[trigger] nids[j + 1] {
                            let j = choose|j: int| 0 <= j < i && a == nids[j] && b == #[trigger] nids[j + 1];
                            if j < i - 1 {
                                assert(a == ids[j] && b == ids[j + 1]);
                            }
                        }
                        if exists|j: int| 0 <= j < i - 1 && a == ids[j] && b == #[trigger] ids[j + 1] {
                            let j = choose|j: int| 0 <= j < i - 1 && a == ids[j] && b == #[trigger] ids[j + 1];
                            assert(a == nids[j] && b == nids[j + 1]);
                        }
                    }
                }
            } else {
                proof {
                    let nids = ids.push(id.0);
                    assert forall|a: usize, b: usize| #[trigger] arrow_between(self.graph(), a, b) <==> (
                        arrow_between(s0.graph(), a, b)
                        || (is_chained && exists|j: int| 0 <= j < i && a == nids[j] && b == #[trigger] nids[j + 1])) by {
                        if is_chained && exists|j: int| 0 <= j < i - 1 && a == ids[j] && b == #[trigger] ids[j + 1] {
                            let j = choose|j: int| 0 <= j < i - 1 && a == ids[j] && b == #[trigger] ids[j + 1];
                            assert(a == nids[j] && b == nids[j + 1]);
                        }
                        if is_chained && exists|j: int| 0 <= j < i && a == nids[j] && b == #[trigger] nids[j + 1] {
                            let j = choose|j: int| 0 <= j < i && a == nids[j] && b == #[trigger] nids[j + 1];
                            assert(a == ids[j] && b == ids[j + 1]);
                        }
                    }
                }
            }
            proof { ids = ids.push(id.0); }
            prev = id.index();
            i = i + 1;
        }
        proof {
            self.lemma_wf();
            assert forall|j: int| 0 <= j < cfg.len() implies self.keys().contains(#[trigger] cfg[j].key) by {
                assert(self.keys()[ids[j] as int] == cfg[j].key);
            }
            assert forall|a: usize, b: usize| #[trigger] arrow_between(self.graph(), a, b) <==> (
                arrow_between(s0.graph(), a, b)
                || (is_chained && chained_pair(self.keys(), cfg, a, b))) by {
                if is_chained && exists|j: int| 0 <= j < cfg.len() - 1 && a == ids[j] && b == #[trigger] ids[j + 1] {
                    let j = choose|j: int| 0 <= j < cfg.len() - 1 && a == ids[j] && b == #[trigger] ids[j + 1];
                    assert(self.keys()[a as int] == cfg[j].key);
                    assert(self.keys()[b as int] == cfg[j + 1].key);
                }
                if is_chained && chained_pair(self.keys(), cfg, a, b) {
                    let j = choose|j: int| 0 <= j < cfg.len() - 1
                        && self.keys()[a as int] == #[trigger] cfg[j].key
                        && self.keys()[b as int] == cfg[j + 1].key;
                    assert(self.keys()[ids[j] as int] == cfg[j].key);
                    assert(self.keys()[ids[j + 1] as int] == cfg[j + 1].key);
                    assert(a == ids[j]);
                    assert(b == ids[j + 1]);
                }
            }
        }
    }
}

impl PhasePreorder {
    /// The phases that have no marker systems yet, in order.
    pub(crate) fn uninit_phases(&self) -> (r: Vec<PhaseId>)
        requires
            self.wf(),
        ensures
            phase_ids(r@) == uninit_of(self.items(), self.items().len() as int),
    {
        proof { self.lemma_wf(); }
        let mut r: Vec<PhaseId> = Vec::new();
        let mut i: usize = 0;
        while i < self.phases.len()
            invariant
                self.wf(),
                i <= self.items().len(),
                phase_ids(r@) == uninit_of(self.items(), i as int),
            decreases self.items().len() - i,
        {
            proof { self.lemma_wf(); }
            if self.phases[i].first_id.is_none() {
                r.push(self.phases[i].id);
            }
            proof {
                assert(phase_ids(r@) =~= uninit_of(self.items(), i + 1));
            }
            i = i + 1;
        }
        r
    }

    /// The phases in an order where each comes after the phases with arrows
    /// into it, except where arrows form a cycle.
    pub(crate) fn sort(&self) -> (r: Vec<PhaseId>)
        requires
            self.wf(),
        ensures
            acyclic_arrows_forward(self.graph(), phase_ids(r@)),
            acyclic(self.graph()) ==> exists|bounds: Seq<int>|
                #[trigger] sorted_in_rounds(self.graph(), node_ids(phase_ids(r@)), bounds),
    {
        let mut preorder = self.preorder.clone();
        let ghost g0 = preorder@;
        let order = preorder.sort();
        let ghost g1 = preorder@;
        let mut r: Vec<PhaseId> = Vec::new();
        let mut i: usize = 0;
        while i < order.len()
            invariant
                i <= order@.len(),
                phase_ids(r@) == ids_of(order@).take(i as int),
            decreases order@.len() - i,
        {
            let ghost r0 = r@;
            r.push(PhaseId(order[i].index()));
            proof {
                assert(phase_ids(r0).len() == i);
                assert forall|k: int| 0 <= k < i + 1 implies phase_ids(r@)[k] == ids_of(order@).take(i + 1)[k] by {
                    if k < i {
                        assert(phase_ids(r0)[k] == ids_of(order@).take(i as int)[k]);
                    }
                }
                assert(phase_ids(r@) =~= ids_of(order@).take(i + 1));
            }
            i = i + 1;
        }
        proof {
            assert(phase_ids(r@) =~= ids_of(order@));
            let o = ids_of(order@);
            assert forall|x: int, y: int| 0 <= x < o.len() && 0 <= y < o.len()
                && #[trigger] arrow_between(g0, o[y], o[x]) && !cyclic_at(g0, o[x]) implies y < x by {
                assert(arrow_between(g1, order@[y].0, order@[x].0));
            }
            assert forall|k: int| 0 <= k < o.len() implies #[trigger] o[k] < g0.len() by {
                assert(order@[k].0 < g1.len());
            }
            assert(node_ids(phase_ids(r@)) =~= order@);
        }
        r
    }

    /// The phase of a system placed in the given phases: none names the
    /// default phase.
    pub(crate) fn add_phase_group(&self, phase_ids: Vec<PhaseId>) -> (r: PhaseId)
        requires
            phase_ids@.len() <= 1,
        ensures
            phase_ids@.len() == 0 ==> r.0 == 0,
            phase_ids@.len() == 1 ==> r == phase_ids@[0],
    {
        if phase_ids.len() == 0 {
            PhaseId::zero()
        } else {
            phase_ids[0]
        }
    }

    /// The last marker systems of the phases with arrows into `phase_id`.
    pub(crate) fn incoming_systems(&self, phase_id: PhaseId) -> (r: Vec<SystemId>)
        requires
            self.wf(),
            phase_id.0 < self.items().len(),
            forall|k: int| 0 <= k < self.graph()[phase_id.0 as int].incoming.len()
                ==> (#[trigger] self.items()[self.graph()[phase_id.0 as int].incoming[k] as int]).last_id is Some,
        ensures
            r@.len() == self.graph()[phase_id.0 as int].incoming.len(),
            forall|k: int| 0 <= k < r@.len() ==> #[trigger] r@[k]
                == self.items()[self.graph()[phase_id.0 as int].incoming[k] as int].last_id->0,
    {
        proof { self.lemma_wf(); }
        let incoming = self.preorder.incoming(NodeId(phase_id.index()));
        let ghost inc = self.graph()[phase_id.0 as int].incoming;
        let mut r: Vec<SystemId> = Vec::new();
        let mut i: usize = 0;
        while i < incoming.len()
            invariant
                self.wf(),
                ids_of(incoming@) == inc,
                inc == self.graph()[phase_id.0 as int].incoming,
                phase_id.0 < self.items().len(),
                forall|k: int| 0 <= k < inc.len()
                    ==> (#[trigger] self.items()[inc[k] as int]).last_id is Some,
                i <= incoming@.len(),
                r@.len() == i,
                forall|k: int| 0 <= k < i ==> #[trigger] r@[k] == self.items()[inc[k] as int].last_id->0,
            decreases incoming@.len() - i,
        {
            proof {
                self.lemma_wf();
                assert(inc[i as int] == incoming@[i as int].0);
                assert(inc[i as int] < self.graph().len());
            }
            let n = incoming[i].index();
            r.push(self.phases[n].last());
            i = i + 1;
        }
        r
    }

    pub(crate) fn item(&self, id: PhaseId) -> (r: &PhaseItem)
        requires
            self.wf(),
            id.0 < self.items().len(),
        ensures
            *r == self.items()[id.0 as int],
    {
        &self.phases[id.index()]
    }

    /// Records the marker systems of a phase that had none.
    pub(crate) fn set_systems(&mut self, id: PhaseId, first_id: SystemId, last_id: SystemId)
        requires
            old(self).wf(),
            id.0 < old(self).items().len(),
            old(self).items()[id.0 as int].first_id is None,
            old(self).items()[id.0 as int].last_id is None,
        ensures
            final(self).wf(),
            final(self).keys() == old(self).keys(),
            final(self).graph() == old(self).graph(),
            final(self).items() == old(self).items().update(id.0 as int,
                PhaseItem { id, first_id: Some(first_id), last_id: Some(last_id) }),
    {
        let i = id.index();
        let mut item = self.phases[i];
        item.set_systems(first_id, last_id);
        self.phases.set(i, item);
        proof {
            assert(self.items() =~= old(self).items().update(id.0 as int,
                PhaseItem { id, first_id: Some(first_id), last_id: Some(last_id) }));
        }
    }
}

/// The ids of the phases among the first `n` items that have no markers yet.
pub open spec fn uninit_of(items: Seq<PhaseItem>, n: int) -> Seq<usize>
    decreases n,
{
    if n <= 0 {
        Seq::empty()
    } else if items[n - 1].first_id is None {
        uninit_of(items, n - 1).push(items[n - 1].id.0)
    } else {
        uninit_of(items, n - 1)
    }
}

/// Phases `a` and `b` come from consecutive entries of `cfg`.
pub open spec fn chained_pair(keys: Seq<LabelKey>, cfg: Seq<PhaseConfig>, a: usize, b: usize) -> bool {
    &&& a < keys.len()
    &&& b < keys.len()
    &&& exists|i: int| 0 <= i < cfg.len() - 1
        && keys[a as int] == #[trigger] cfg[i].key
        && keys[b as int] == cfg[i + 1].key
}

/// `g` with new nodes of weight zero and no arrows up to length `n`.
pub open spec fn with_len(g: Seq<NodeView>, n: nat) -> Seq<NodeView> {
    Seq::new(n, |i: int| if i < g.len() { g[i] } else {
        NodeView { weight: 0, incoming: Seq::empty(), outgoing: Seq::empty() }
    })
}

/// `new` is `old` after looking `key` up: the phase it had, or a new phase
/// without markers or arrows.
pub open spec fn added_phase(old: PhasePreorder, new: PhasePreorder, key: LabelKey, id: PhaseId) -> bool {
    if old.keys().contains(key) {
        &&& new.keys() == old.keys()
        &&& new.items() == old.items()
        &&& new.graph() == old.graph()
        &&& id.0 < old.keys().len()
        &&& old.keys()[id.0 as int] == key
    } else {
        &&& id.0 == old.keys().len()
        &&& new.keys() == old.keys().push(key)
        &&& new.items() == old.items().push(PhaseItem { id, first_id: None, last_id: None })
        &&& new.graph() == old.graph().push(NodeView { weight: 0, incoming: Seq::empty(), outgoing: Seq::empty() })
    }
}

} // verus!

verus! {

/// The phases without markers are listed in increasing order, each once.
pub proof fn lemma_uninit_of(items: Seq<PhaseItem>, n: int)
    requires
        0 <= n <= items.len(),
        forall|i: int| 0 <= i < items.len() ==> (#[trigger] items[i]).id.0 == i,
    ensures
        forall|k: int| 0 <= k < uninit_of(items, n).len() ==> {
            &&& #[trigger] uninit_of(items, n)[k] < n
            &&& items[uninit_of(items, n)[k] as int].first_id is None
        },
        forall|a: int, b: int| 0 <= a < b < uninit_of(items, n).len()
            ==> #[trigger] uninit_of(items, n)[a] < #[trigger] uninit_of(items, n)[b],
        forall|p: int| 0 <= p < n && (#[trigger] items[p]).first_id is None
            ==> uninit_of(items, n).contains(p as usize),
    decreases n,
{
    if n > 0 {
        lemma_uninit_of(items, n - 1);
        let u = uninit_of(items, n - 1);
        if items[n - 1].first_id is None {
            assert forall|p: int| 0 <= p < n && (#[trigger] items[p]).first_id is None
                implies uninit_of(items, n).contains(p as usize) by {
                if p == n - 1 {
                    assert(uninit_of(items, n)[u.len() as int] == p as usize);
                } else {
                    let k = u.index_of(p as usize);
                    assert(uninit_of(items, n)[k] == p as usize);
                }
            }
        }
    }
}

} // verus!
