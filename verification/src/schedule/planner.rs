//! The planner orders a schedule's systems: systems in a phase run between
//! the phase's markers, phases run in their order, writers of a resource or
//! component run before its readers, and an exclusive system runs apart
//! from all others.

use vstd::prelude::*;

use crate::entity::store::ComponentId;
use crate::resource::ResourceId;
use crate::schedule::phase::{PhaseId, PhaseItem, PhasePreorder, PhaseConfig, PhaseConfigs, Phase, acyclic_arrows_forward, phase_ids};
use crate::system::system::SystemId;
use crate::schedule::preorder::{NodeId, NodeView, Preorder, arrow_between, same_weights, lemma_with_arrow, cyclic_at, ids_of, graph_wf, lemma_permutation_covers, is_topological, arrows_subset, only_cycles_broken};
use crate::schedule::plan::{Plan, plan_of, plan_sound};

verus! {

/// A system's priority; higher values are preferred.
#[derive(Copy, Clone, Debug, PartialEq, PartialOrd)]
pub struct Priority(pub u32);

impl Priority {
    pub fn high() -> (r: Priority)
        ensures
            r.0 == 2000,
    {
        Priority(2000)
    }

    pub fn low() -> (r: Priority)
        ensures
            r.0 == 500,
    {
        Priority(500)
    }

    pub fn value(&self) -> (r: u32)
        ensures
            r == self.0,
    {
        self.0
    }

    pub fn add(&self, value: u32) -> (r: Priority)
        requires
            self.0 + value <= u32::MAX,
        ensures
            r.0 == self.0 + value,
    {
        Priority(self.0 + value)
    }

    pub fn sub(&self, value: u32) -> (r: Priority)
        requires
            value <= self.0,
        ensures
            r.0 == self.0 - value,
    {
        Priority(self.0 - value)
    }
}

impl Default for Priority {
    fn default() -> (r: Priority)
        ensures
            r.0 == 1000,
    {
        Priority(1000)
    }
}

impl From<u32> for Priority {
    fn from(value: u32) -> (r: Priority) {
        Priority(value)
    }
}

impl vstd::std_specs::convert::FromSpecImpl<u32> for Priority {
    open spec fn obeys_from_spec() -> bool {
        true
    }

    open spec fn from_spec(v: u32) -> Priority {
        Priority(v)
    }
}

/// Strictly increasing.
pub open spec fn sorted_set(s: Seq<usize>) -> bool {
    forall|i: int, j: int| 0 <= i < j < s.len() ==> s[i] < s[j]
}

/// `s` with `x` added in its sorted place, unless it is there already.
pub open spec fn set_insert(s: Seq<usize>, x: usize) -> Seq<usize> {
    if s.contains(x) {
        s
    } else {
        let k = count_below(s, x);
        s.take(k).push(x) + s.skip(k)
    }
}

/// How many elements of `s` are below `x`.
pub open spec fn count_below(s: Seq<usize>, x: usize) -> int
    decreases s.len(),
{
    if s.len() == 0 {
        0
    } else if s[0] < x {
        1 + count_below(s.drop_first(), x)
    } else {
        0
    }
}

proof fn lemma_count_below(s: Seq<usize>, x: usize)
    requires
        sorted_set(s),
    ensures
        0 <= count_below(s, x) <= s.len(),
        forall|i: int| 0 <= i < count_below(s, x) ==> s[i] < x,
        forall|i: int| count_below(s, x) <= i < s.len() ==> s[i] >= x,
    decreases s.len(),
{
    if s.len() > 0 && s[0] < x {
        let t = s.drop_first();
        assert(sorted_set(t));
        lemma_count_below(t, x);
        assert forall|i: int| 0 <= i < count_below(s, x) implies s[i] < x by {
            if i > 0 {
                assert(s[i] == t[i - 1]);
            }
        }
        assert forall|i: int| count_below(s, x) <= i < s.len() implies s[i] >= x by {
            assert(s[i] == t[i - 1]);
        }
    } else if s.len() > 0 {
        assert forall|i: int| 0 <= i < s.len() implies s[i] >= x by {
            if i > 0 {
                assert(s[0] < s[i]);
            }
        }
    }
}

/// Adds `x` to the strictly increasing `v`.
pub(crate) fn insert_sorted(v: &mut Vec<usize>, x: usize)
    requires
        sorted_set(old(v)@),
    ensures
        final(v)@ == set_insert(old(v)@, x),
        sorted_set(final(v)@),
        final(v)@.to_set() == old(v)@.to_set().insert(x),
{
    let ghost s = v@;
    proof { lemma_count_below(s, x); }
    let mut k: usize = 0;
    while k < v.len() && v[k] < x
        invariant
            v@ == s,
            sorted_set(s),
            k <= s.len(),
            k <= count_below(s, x),
            forall|i: int| 0 <= i < k ==> s[i] < x,
            0 <= count_below(s, x) <= s.len(),
            forall|i: int| 0 <= i < count_below(s, x) ==> s[i] < x,
            forall|i: int| count_below(s, x) <= i < s.len() ==> s[i] >= x,
        decreases s.len() - k,
    {
        k = k + 1;
    }
    assert(k == count_below(s, x));
    if k < v.len() && v[k] == x {
        assert(s.contains(x));
        assert(s.to_set().insert(x) =~= s.to_set());
    } else {
        assert(!s.contains(x)) by {
            if s.contains(x) {
                let j = s.index_of(x);
                assert(s[j] == x);
            }
        }
        v.insert(k, x);
        proof {
            assert(v@ =~= s.take(k as int).push(x) + s.skip(k as int));
            assert forall|i: int, j: int| 0 <= i < j < v@.len() implies v@[i] < v@[j] by {
                if j < k {
                } else if j == k {
                } else if i < k {
                    assert(v@[j] == s[j - 1]);
                } else if i == k {
                    assert(v@[j] == s[j - 1]);
                } else {
                    assert(v@[i] == s[i - 1] && v@[j] == s[j - 1]);
                }
            }
            assert forall|y: usize| v@.to_set().contains(y) <==> s.to_set().insert(x).contains(y) by {
                if v@.contains(y) {
                    let j = v@.index_of(y);
                    if j < k { assert(s[j] == y); } else if j > k { assert(s[j - 1] == y); }
                }
                if s.contains(y) {
                    let j = s.index_of(y);
                    if j < k { assert(v@[j] == y); } else { assert(v@[j + 1] == y); }
                }
                if y == x {
                    assert(v@[k as int] == x);
                }
            }
            assert(v@.to_set() =~= s.to_set().insert(x));
        }
    }
}

/// What the planner knows of a system: its phase, priority, whether it is
/// exclusive or a phase marker, and which resources and components it reads
/// and writes (each a strictly increasing sequence of ids).
pub struct MetaView {
    pub id: usize,
    pub phase: usize,
    pub priority: u32,
    pub exclusive: bool,
    pub marker: bool,
    pub res: Seq<usize>,
    pub mut_res: Seq<usize>,
    pub comp: Seq<usize>,
    pub mut_comp: Seq<usize>,
}

pub struct SystemMeta {
    id: SystemId,
    name: String,
    phase_id: PhaseId,
    priority: Priority,
    is_exclusive: bool,
    is_marker: bool,
    resources: Vec<usize>,
    mut_resources: Vec<usize>,
    components: Vec<usize>,
    mut_components: Vec<usize>,
}

impl View for SystemMeta {
    type V = MetaView;

    closed spec fn view(&self) -> MetaView {
        MetaView {
            id: self.id.0,
            phase: self.phase_id.0,
            priority: self.priority.0,
            exclusive: self.is_exclusive,
            marker: self.is_marker,
            res: self.resources@,
            mut_res: self.mut_resources@,
            comp: self.components@,
            mut_comp: self.mut_components@,
        }
    }
}

/// The access sets of a meta are strictly increasing.
pub open spec fn meta_wf(m: MetaView) -> bool {
    &&& sorted_set(m.res)
    &&& sorted_set(m.mut_res)
    &&& sorted_set(m.comp)
    &&& sorted_set(m.mut_comp)
}

impl SystemMeta {
    #[verifier::type_invariant]
    spec fn inv(self) -> bool {
        meta_wf(self@)
    }

    /// A meta's access sets are strictly increasing.
    pub fn check_wf(&self)
        ensures
            meta_wf(self@),
    {
        proof { use_type_invariant(self); }
    }

    pub(crate) fn new(id: SystemId, name: String, phase_id: PhaseId) -> (r: SystemMeta)
        ensures
            meta_wf(r@),
            r@ == (MetaView {
                id: id.0, phase: phase_id.0, priority: 1000, exclusive: false, marker: false,
                res: Seq::empty(), mut_res: Seq::empty(), comp: Seq::empty(), mut_comp: Seq::empty(),
            }),
    {
        let r = SystemMeta {
            id,
            name,
            phase_id,
            priority: Priority::default(),
            is_exclusive: false,
            is_marker: false,
            resources: Vec::new(),
            mut_resources: Vec::new(),
            components: Vec::new(),
            mut_components: Vec::new(),
        };
        proof {
            assert(r@.res =~= Seq::<usize>::empty());
            assert(r@.mut_res =~= Seq::<usize>::empty());
            assert(r@.comp =~= Seq::<usize>::empty());
            assert(r@.mut_comp =~= Seq::<usize>::empty());
        }
        r
    }

    pub fn empty() -> (r: SystemMeta)
        ensures
            meta_wf(r@),
            r@ == (MetaView {
                id: 0, phase: 0, priority: 1000, exclusive: false, marker: false,
                res: Seq::empty(), mut_res: Seq::empty(), comp: Seq::empty(), mut_comp: Seq::empty(),
            }),
    {
        SystemMeta::new(SystemId(0), "empty".to_string(), PhaseId::zero())
    }

    pub fn id(&self) -> (r: SystemId)
        ensures
            r.0 == self@.id,
    {
        self.id
    }

    pub fn name(&self) -> (r: &String) {
        &self.name
    }

    pub(crate) fn phase_id(&self) -> (r: PhaseId)
        ensures
            r.0 == self@.phase,
    {
        self.phase_id
    }

    pub fn set_exclusive(&mut self)
        ensures
            final(self)@ == (MetaView { exclusive: true, ..old(self)@ }),
    {
        proof { use_type_invariant(&*self); }
        self.is_exclusive = true;
    }

    pub fn is_exclusive(&self) -> (r: bool)
        ensures
            r == self@.exclusive,
    {
        self.is_exclusive
    }

    pub(crate) fn set_marker(&mut self)
        ensures
            final(self)@ == (MetaView { marker: true, ..old(self)@ }),
    {
        proof { use_type_invariant(&*self); }
        self.is_marker = true;
    }

    pub(crate) fn is_marker(&self) -> (r: bool)
        ensures
            r == self@.marker,
    {
        self.is_marker
    }

    pub fn priority(&self) -> (r: Priority)
        ensures
            r.0 == self@.priority,
    {
        self.priority
    }

    pub fn set_priority(&mut self, priority: Priority)
        ensures
            final(self)@ == (MetaView { priority: priority.0, ..old(self)@ }),
    {
        proof { use_type_invariant(&*self); }
        self.priority = priority;
    }

    pub fn add_priority(&mut self, delta: u32)
        requires
            old(self)@.priority + delta <= u32::MAX,
        ensures
            final(self)@ == (MetaView { priority: (old(self)@.priority + delta) as u32, ..old(self)@ }),
    {
        proof { use_type_invariant(&*self); }
        self.priority = self.priority.add(delta);
    }

    pub fn sub_priority(&mut self, delta: u32)
        requires
            delta <= old(self)@.priority,
        ensures
            final(self)@ == (MetaView { priority: (old(self)@.priority - delta) as u32, ..old(self)@ }),
    {
        proof { use_type_invariant(&*self); }
        self.priority = self.priority.sub(delta);
    }

    pub fn insert_resource(&mut self, id: ResourceId)
        ensures
            meta_wf(final(self)@),
            final(self)@ == (MetaView { res: set_insert(old(self)@.res, id.0), ..old(self)@ }),
    {
        proof { use_type_invariant(&*self); }
        let mut v: Vec<usize> = Vec::new();
        std::mem::swap(&mut self.resources, &mut v);
        insert_sorted(&mut v, id.0);
        self.resources = v;
    }

    pub fn insert_resource_mut(&mut self, id: ResourceId)
        ensures
            meta_wf(final(self)@),
            final(self)@ == (MetaView { mut_res: set_insert(old(self)@.mut_res, id.0), ..old(self)@ }),
    {
        proof { use_type_invariant(&*self); }
        let mut v: Vec<usize> = Vec::new();
        std::mem::swap(&mut self.mut_resources, &mut v);
        insert_sorted(&mut v, id.0);
        self.mut_resources = v;
    }

    pub fn insert_component(&mut self, id: ComponentId)
        ensures
            meta_wf(final(self)@),
            final(self)@ == (MetaView { comp: set_insert(old(self)@.comp, id.0), ..old(self)@ }),
    {
        proof { use_type_invariant(&*self); }
        let mut v: Vec<usize> = Vec::new();
        std::mem::swap(&mut self.components, &mut v);
        insert_sorted(&mut v, id.0);
        self.components = v;
    }

    pub fn insert_component_mut(&mut self, id: ComponentId)
        ensures
            meta_wf(final(self)@),
            final(self)@ == (MetaView { mut_comp: set_insert(old(self)@.mut_comp, id.0), ..old(self)@ }),
    {
        proof { use_type_invariant(&*self); }
        let mut v: Vec<usize> = Vec::new();
        std::mem::swap(&mut self.mut_components, &mut v);
        insert_sorted(&mut v, id.0);
        self.mut_components = v;
    }
}

} // verus!

verus! {

/// What decides which systems share an access group.
pub struct AccessSig {
    pub phase: usize,
    pub exclusive: bool,
    pub marker: bool,
    pub res: Seq<usize>,
    pub mut_res: Seq<usize>,
    pub comp: Seq<usize>,
    pub mut_comp: Seq<usize>,
}

pub open spec fn sig_of(m: MetaView) -> AccessSig {
    AccessSig {
        phase: m.phase,
        exclusive: m.exclusive,
        marker: m.marker,
        res: m.res,
        mut_res: m.mut_res,
        comp: m.comp,
        mut_comp: m.mut_comp,
    }
}

/// A group writes when it is exclusive or writes a resource or component.
pub open spec fn is_write(s: AccessSig) -> bool {
    s.exclusive || s.mut_res.len() > 0 || s.mut_comp.len() > 0
}

/// An access group: its signature, its systems in order, and, for a writing
/// group once ordered, its first and last system.
pub struct GroupView {
    pub sig: AccessSig,
    pub systems: Seq<usize>,
    pub first: Option<usize>,
    pub last: Option<usize>,
}

pub open spec fn sigs_of(gs: Seq<GroupView>) -> Seq<AccessSig> {
    gs.map_values(|g: GroupView| g.sig)
}

/// The index of the first signature equal to `s`, or the length when there
/// is none.
pub open spec fn find_sig(sigs: Seq<AccessSig>, s: AccessSig) -> int
    decreases sigs.len(),
{
    if sigs.len() == 0 {
        0
    } else {
        let k = find_sig(sigs.drop_last(), s);
        if k < sigs.len() - 1 {
            k
        } else if sigs.last() == s {
            sigs.len() - 1
        } else {
            sigs.len() as int
        }
    }
}

proof fn lemma_find_sig(sigs: Seq<AccessSig>, s: AccessSig, i: int)
    requires
        0 <= i <= sigs.len(),
        forall|j: int| 0 <= j < i ==> sigs[j] != s,
        i < sigs.len() ==> sigs[i] == s,
    ensures
        find_sig(sigs, s) == i,
    decreases sigs.len(),
{
    if sigs.len() > 0 {
        if i < sigs.len() - 1 {
            lemma_find_sig(sigs.drop_last(), s, i);
        } else {
            lemma_find_sig(sigs.drop_last(), s, sigs.len() - 1);
        }
    }
}

/// Systems grouped by signature, groups in the order their first system
/// appears.
pub open spec fn grouping(ms: Seq<MetaView>) -> Seq<GroupView>
    decreases ms.len(),
{
    if ms.len() == 0 {
        Seq::empty()
    } else {
        let gs = grouping(ms.drop_last());
        let m = ms.last();
        let k = find_sig(sigs_of(gs), sig_of(m));
        if k < gs.len() {
            gs.update(k, GroupView { systems: gs[k].systems.push(m.id), ..gs[k] })
        } else {
            gs.push(GroupView { sig: sig_of(m), systems: seq![m.id], first: None, last: None })
        }
    }
}

/// The first group that is exclusive and not a marker group.
pub open spec fn first_exclusive(sigs: Seq<AccessSig>) -> Option<int>
    decreases sigs.len(),
{
    if sigs.len() == 0 {
        None
    } else {
        match first_exclusive(sigs.drop_last()) {
            Some(k) => Some(k),
            None => if !sigs.last().marker && sigs.last().exclusive {
                Some(sigs.len() - 1)
            } else {
                None
            },
        }
    }
}

#[derive(Copy, Clone, Debug, PartialEq, Eq, Hash)]
pub struct AccessGroupId(pub usize);

impl AccessGroupId {
    fn i(&self) -> (r: usize)
        ensures
            r == self.0,
    {
        self.0
    }
}

/// Systems with the same phase and the same accesses.
pub struct AccessGroup {
    id: AccessGroupId,
    phase_id: PhaseId,
    is_exclusive: bool,
    is_marker: bool,
    resources: Vec<usize>,
    mut_resources: Vec<usize>,
    components: Vec<usize>,
    mut_components: Vec<usize>,
    systems: Vec<SystemId>,
    first: Option<SystemId>,
    last: Option<SystemId>,
}

pub open spec fn sys_ids(s: Seq<SystemId>) -> Seq<usize> {
    s.map_values(|x: SystemId| x.0)
}

pub open spec fn opt_id(o: Option<SystemId>) -> Option<usize> {
    match o {
        Some(s) => Some(s.0),
        None => None,
    }
}

impl View for AccessGroup {
    type V = GroupView;

    closed spec fn view(&self) -> GroupView {
        GroupView {
            sig: AccessSig {
                phase: self.phase_id.0,
                exclusive: self.is_exclusive,
                marker: self.is_marker,
                res: self.resources@,
                mut_res: self.mut_resources@,
                comp: self.components@,
                mut_comp: self.mut_components@,
            },
            systems: sys_ids(self.systems@),
            first: opt_id(self.first),
            last: opt_id(self.last),
        }
    }
}

fn copy_ids(v: &Vec<usize>) -> (r: Vec<usize>)
    ensures
        r@ == v@,
{
    let r = v.clone();
    assert(r@ =~= v@);
    r
}

pub(crate) fn same_ids(a: &Vec<usize>, b: &Vec<usize>) -> (r: bool)
    ensures
        r == (a@ == b@),
{
    if a.len() != b.len() {
        return false;
    }
    let mut i: usize = 0;
    while i < a.len()
        invariant
            a@.len() == b@.len(),
            i <= a@.len(),
            forall|k: int| 0 <= k < i ==> a@[k] == b@[k],
        decreases a@.len() - i,
    {
        if a[i] != b[i] {
            return false;
        }
        i = i + 1;
    }
    assert(a@ =~= b@);
    true
}

impl AccessGroup {
    /// A group holding no system yet, with the accesses of `meta`.
    fn from_meta(meta: &SystemMeta, id: AccessGroupId) -> (r: AccessGroup)
        ensures
            r@ == (GroupView { sig: sig_of(meta@), systems: Seq::empty(), first: None, last: None }),
            r.id == id,
    {
        let r = AccessGroup {
            id,
            phase_id: meta.phase_id,
            is_exclusive: meta.is_exclusive,
            is_marker: meta.is_marker,
            resources: copy_ids(&meta.resources),
            mut_resources: copy_ids(&meta.mut_resources),
            components: copy_ids(&meta.components),
            mut_components: copy_ids(&meta.mut_components),
            systems: Vec::new(),
            first: None,
            last: None,
        };
        assert(sys_ids(r.systems@) =~= Seq::<usize>::empty());
        r
    }

    fn same_sig(&self, meta: &SystemMeta) -> (r: bool)
        ensures
            r == (self@.sig == sig_of(meta@)),
    {
        self.phase_id.0 == meta.phase_id.0
            && self.is_exclusive == meta.is_exclusive
            && self.is_marker == meta.is_marker
            && same_ids(&self.resources, &meta.resources)
            && same_ids(&self.mut_resources, &meta.mut_resources)
            && same_ids(&self.components, &meta.components)
            && same_ids(&self.mut_components, &meta.mut_components)
    }

    fn is_write(&self) -> (r: bool)
        ensures
            r == is_write(self@.sig),
    {
        self.is_exclusive || self.mut_resources.len() > 0 || self.mut_components.len() > 0
    }

    fn push_system(&mut self, id: SystemId)
        ensures
            final(self)@ == (GroupView { systems: old(self)@.systems.push(id.0), ..old(self)@ }),
            final(self).id == old(self).id,
    {
        self.systems.push(id);
        assert(sys_ids(self.systems@) =~= sys_ids(old(self).systems@).push(id.0));
    }
}

} // verus!

verus! {

pub open spec fn metas_view(ms: Seq<SystemMeta>) -> Seq<MetaView> {
    ms.map_values(|m: SystemMeta| m@)
}

pub open spec fn groups_view(gs: Seq<AccessGroup>) -> Seq<GroupView> {
    gs.map_values(|g: AccessGroup| g@)
}

pub open spec fn opt_group(o: Option<AccessGroupId>) -> Option<int> {
    match o {
        Some(g) => Some(g.0 as int),
        None => None,
    }
}

/// The plan of one scheduling pass: the access groups of the systems and
/// the first exclusive group.
pub struct PhasePlan {
    groups: Vec<AccessGroup>,
    exclusive: Option<AccessGroupId>,
}

impl PhasePlan {
    pub closed spec fn view_groups(&self) -> Seq<GroupView> {
        groups_view(self.groups@)
    }

    pub closed spec fn wf(&self) -> bool {
        &&& forall|k: int| 0 <= k < self.groups@.len() ==> (#[trigger] self.groups@[k]).id.0 == k
        &&& opt_group(self.exclusive) == first_exclusive(sigs_of(self.view_groups()))
    }

    fn empty() -> (r: PhasePlan)
        ensures
            r.wf(),
            r.view_groups() == Seq::<GroupView>::empty(),
    {
        let r = PhasePlan { groups: Vec::new(), exclusive: None };
        assert(r.view_groups() =~= Seq::<GroupView>::empty());
        assert(sigs_of(r.view_groups()) =~= Seq::<AccessSig>::empty());
        r
    }

    /// Puts each system into the group of its signature, creating groups as
    /// new signatures appear.
    fn add_systems(&mut self, metas: &Vec<SystemMeta>)
        requires
            old(self).wf(),
            old(self).view_groups() == Seq::<GroupView>::empty(),
        ensures
            final(self).wf(),
            final(self).view_groups() == grouping(metas_view(metas@)),
    {
        let ghost mv = metas_view(metas@);
        let mut i: usize = 0;
        proof {
            assert(mv.take(0) =~= Seq::<MetaView>::empty());
        }
        while i < metas.len()
            invariant
                self.wf(),
                mv == metas_view(metas@),
                i <= metas@.len(),
                self.view_groups() == grouping(mv.take(i as int)),
            decreases metas@.len() - i,
        {
            let meta = &metas[i];
            let ghost gv = self.view_groups();
            let ghost s = sig_of(meta@);
            let mut k: usize = 0;
            while k < self.groups.len()
                invariant
                    gv == self.view_groups(),
                    k <= self.groups@.len(),
                    s == sig_of(meta@),
                    forall|j: int| 0 <= j < k ==> (#[trigger] sigs_of(gv)[j]) != s,
                ensures
                    k <= self.groups@.len(),
                    forall|j: int| 0 <= j < k ==> (#[trigger] sigs_of(gv)[j]) != s,
                    k < self.groups@.len() ==> sigs_of(gv)[k as int] == s,
                decreases self.groups@.len() - k,
            {
                if self.groups[k].same_sig(meta) {
                    break;
                }
                k = k + 1;
            }
            proof {
                assert(mv.take(i + 1).drop_last() =~= mv.take(i as int));
                assert(mv.take(i + 1).last() == meta@);
                lemma_find_sig(sigs_of(gv), s, k as int);
            }
            if k < self.groups.len() {
                self.groups[k].push_system(meta.id);
                proof {
                    assert(self.view_groups() =~= gv.update(k as int,
                        GroupView { systems: gv[k as int].systems.push(meta@.id), ..gv[k as int] }));
                    assert(sigs_of(self.view_groups()) =~= sigs_of(gv));
                }
            } else {
                let len = self.groups.len();
                let mut group = AccessGroup::from_meta(meta, AccessGroupId(len));
                if self.exclusive.is_none() && !meta.is_marker && meta.is_exclusive {
                    self.exclusive = Some(AccessGroupId(len));
                }
                group.push_system(meta.id);
                self.groups.push(group);
                proof {
                    assert(self.view_groups() =~= gv.push(
                        GroupView { sig: s, systems: seq![meta@.id], first: None, last: None }));
                    assert(sigs_of(self.view_groups()).drop_last() =~= sigs_of(gv));
                }
            }
            i = i + 1;
        }
        proof {
            assert(mv.take(metas@.len() as int) =~= mv);
        }
    }
}

} // verus!

verus! {

/// The systems of a group are in increasing order, below `n`, and there is at
/// least one.
pub open spec fn systems_ok(systems: Seq<usize>, n: nat) -> bool {
    &&& systems.len() > 0
    &&& sorted_set(systems)
    &&& forall|j: int| 0 <= j < systems.len() ==> #[trigger] systems[j] < n
}

/// `b` follows `a` directly in a writing group.
pub open spec fn consecutive_in(g: GroupView, a: usize, b: usize) -> bool {
    &&& is_write(g.sig)
    &&& exists|j: int| 0 <= j < g.systems.len() - 1 && a == g.systems[j] && b == #[trigger] g.systems[j + 1]
}

/// A writing group once ordered knows its first and last system.
pub open spec fn with_ends(g: GroupView) -> GroupView {
    if is_write(g.sig) {
        GroupView { first: Some(g.systems[0]), last: Some(g.systems.last()), ..g }
    } else {
        g
    }
}

impl AccessGroup {
    /// Orders the systems of a writing group one after the other.
    fn internal_arrows(&mut self, preorder: &mut Preorder)
        requires
            old(preorder).wf(),
            systems_ok(old(self)@.systems, old(preorder)@.len()),
        ensures
            final(preorder).wf(),
            final(self)@ == with_ends(old(self)@),
            final(self).id == old(self).id,
            final(preorder)@.len() == old(preorder)@.len(),
            same_weights(final(preorder)@, old(preorder)@),
            forall|a: usize, b: usize| #[trigger] arrow_between(final(preorder)@, a, b)
                <==> (arrow_between(old(preorder)@, a, b) || consecutive_in(old(self)@, a, b)),
    {
        let ghost g = self@;
        if self.is_write() {
            let ghost g0 = preorder@;
            let n = self.systems.len();
            let mut j: usize = 1;
            while j < n
                invariant
                    preorder.wf(),
                    g == self@,
                    n == self.systems@.len(),
                    g.systems == sys_ids(self.systems@),
                    systems_ok(g.systems, g0.len()),
                    is_write(g.sig),
                    1 <= j <= n,
                    preorder@.len() == g0.len(),
                    same_weights(preorder@, g0),
                    forall|a: usize, b: usize| #[trigger] arrow_between(preorder@, a, b)
                        <==> (arrow_between(g0, a, b) || exists|x: int| 0 <= x < j - 1
                            && a == g.systems[x] && b == #[trigger] g.systems[x + 1]),
                decreases n - j,
            {
                let prev = self.systems[j - 1];
                let next = self.systems[j];
                proof {
                    assert(g.systems[j - 1] == prev.0 && g.systems[j as int] == next.0);
                    assert(prev.0 < next.0);
                    lemma_with_arrow(preorder@, prev.0, next.0);
                }
                let ghost before = preorder@;
                preorder.add_arrow(NodeId(prev.0), NodeId(next.0));
                proof {
                    assert forall|a: usize, b: usize| #[trigger] arrow_between(preorder@, a, b)
                        <==> (arrow_between(g0, a, b) || exists|x: int| 0 <= x < j
                            && a == g.systems[x] && b == #[trigger] g.systems[x + 1]) by {
                        if a == prev.0 && b == next.0 {
                            assert(a == g.systems[j - 1] && b == g.systems[(j - 1) + 1]);
                        }
                        if exists|x: int| 0 <= x < j && a == g.systems[x] && b == #[trigger] g.systems[x + 1] {
                            let x = choose|x: int| 0 <= x < j && a == g.systems[x] && b == #[trigger] g.systems[x + 1];
                            if x < j - 1 {
                                assert(arrow_between(before, a, b));
                            }
                        }
                    }
                }
                j = j + 1;
            }
            self.first = Some(self.systems[0]);
            self.last = Some(self.systems[n - 1]);
        } else {
            proof {
                assert forall|a: usize, b: usize| #[trigger] arrow_between(preorder@, a, b)
                    <==> (arrow_between(old(preorder)@, a, b) || consecutive_in(g, a, b)) by {}
            }
        }
    }

    /// Arrows from `tail` to each system of the group.
    fn arrows_from_tail(&self, preorder: &mut Preorder, tail: SystemId)
        requires
            old(preorder).wf(),
            systems_ok(self@.systems, old(preorder)@.len()),
            tail.0 < old(preorder)@.len(),
            !self@.systems.contains(tail.0),
        ensures
            final(preorder).wf(),
            final(preorder)@.len() == old(preorder)@.len(),
            same_weights(final(preorder)@, old(preorder)@),
            forall|a: usize, b: usize| #[trigger] arrow_between(final(preorder)@, a, b)
                <==> (arrow_between(old(preorder)@, a, b) || (a == tail.0 && self@.systems.contains(b))),
    {
        let ghost g0 = preorder@;
        let ghost sys = self@.systems;
        let mut j: usize = 0;
        while j < self.systems.len()
            invariant
                preorder.wf(),
                sys == self@.systems,
                sys == sys_ids(self.systems@),
                systems_ok(sys, g0.len()),
                tail.0 < g0.len(),
                !sys.contains(tail.0),
                j <= sys.len(),
                preorder@.len() == g0.len(),
                same_weights(preorder@, g0),
                forall|a: usize, b: usize| #[trigger] arrow_between(preorder@, a, b)
                    <==> (arrow_between(g0, a, b) || (a == tail.0 && sys.take(j as int).contains(b))),
            decreases sys.len() - j,
        {
            let id = self.systems[j];
            proof {
                assert(sys[j as int] == id.0);
                assert(id.0 != tail.0);
                lemma_with_arrow(preorder@, tail.0, id.0);
            }
            let ghost before = preorder@;
            preorder.add_arrow(NodeId(tail.0), NodeId(id.0));
            proof {
                assert(sys.take(j + 1) =~= sys.take(j as int).push(id.0));
                assert forall|a: usize, b: usize| #[trigger] arrow_between(preorder@, a, b)
                    <==> (arrow_between(g0, a, b) || (a == tail.0 && sys.take(j + 1).contains(b))) by {
                    crate::schedule::preorder::lemma_push_contains(sys.take(j as int), id.0, b);
                }
            }
            j = j + 1;
        }
        proof {
            assert(sys.take(sys.len() as int) =~= sys);
        }
    }
}

} // verus!

verus! {

/// Systems of different groups differ.
pub open spec fn groups_disjoint(gs: Seq<GroupView>) -> bool {
    forall|k1: int, k2: int, i: int, j: int|
        0 <= k1 < gs.len() && 0 <= k2 < gs.len() && k1 != k2
        && 0 <= i < gs[k1].systems.len() && 0 <= j < gs[k2].systems.len()
        ==> #[trigger] gs[k1].systems[i] != #[trigger] gs[k2].systems[j]
}

pub open spec fn groups_ok(gs: Seq<GroupView>, n: nat) -> bool {
    &&& forall|k: int| 0 <= k < gs.len() ==> systems_ok(#[trigger] gs[k].systems, n)
    &&& groups_disjoint(gs)
}

pub open spec fn ended(gs: Seq<GroupView>) -> Seq<GroupView> {
    gs.map_values(|g: GroupView| with_ends(g))
}

/// Group `g` writes resource `r` (or component `r`, when `comp`).
pub open spec fn writes(g: GroupView, r: usize, comp: bool) -> bool {
    &&& !g.sig.marker
    &&& !g.sig.exclusive
    &&& if comp { g.sig.mut_comp.contains(r) } else { g.sig.mut_res.contains(r) }
}

/// The last group before `bound` that writes `r`.
pub open spec fn last_writer(gs: Seq<GroupView>, r: usize, comp: bool, bound: int) -> Option<int>
    decreases bound,
{
    if bound <= 0 {
        None
    } else if writes(gs[bound - 1], r, comp) {
        Some(bound - 1)
    } else {
        last_writer(gs, r, comp, bound - 1)
    }
}

proof fn lemma_last_writer(gs: Seq<GroupView>, r: usize, comp: bool, bound: int)
    requires
        bound <= gs.len(),
    ensures
        match last_writer(gs, r, comp, bound) {
            Some(w) => 0 <= w < bound && writes(gs[w], r, comp),
            None => true,
        },
    decreases bound,
{
    if bound > 0 && !writes(gs[bound - 1], r, comp) {
        lemma_last_writer(gs, r, comp, bound - 1);
    }
}

/// The last system of a group.
pub open spec fn tail_of(g: GroupView) -> usize {
    g.systems.last()
}

/// An arrow from the last writer before `bound` of one of `ids` to a system
/// of group `k`.
pub open spec fn writer_arrow(
    gs: Seq<GroupView>, k: int, ids: Seq<usize>, comp: bool, bound: int, a: usize, b: usize,
) -> bool {
    exists|x: int| 0 <= x < ids.len() && match #[trigger] last_writer(gs, ids[x], comp, bound) {
        Some(w) => a == tail_of(gs[w]) && gs[k].systems.contains(b),
        None => false,
    }
}

/// An arrow from the last system of the first exclusive group to group `k`:
/// to its first system if it writes, to each of its systems otherwise.
pub open spec fn world_arrow(gs: Seq<GroupView>, k: int, a: usize, b: usize) -> bool {
    match first_exclusive(sigs_of(gs)) {
        Some(e) => a == tail_of(gs[e]) && if is_write(gs[k].sig) {
            b == gs[k].systems[0]
        } else {
            gs[k].systems.contains(b)
        },
        None => false,
    }
}

/// The arrows into non-exclusive group `k`: writers of what it reads before
/// it, earlier writers of what it writes before it, and the exclusive group
/// before it.
pub open spec fn group_arrow(gs: Seq<GroupView>, k: int, a: usize, b: usize) -> bool {
    &&& !gs[k].sig.exclusive
    &&& {
        ||| writer_arrow(gs, k, gs[k].sig.res, false, gs.len() as int, a, b)
        ||| writer_arrow(gs, k, gs[k].sig.mut_res, false, k, a, b)
        ||| writer_arrow(gs, k, gs[k].sig.comp, true, gs.len() as int, a, b)
        ||| world_arrow(gs, k, a, b)
    }
}

/// No group would order itself after itself: none reads a resource or
/// component of which it is the last writer.
pub open spec fn no_self_reads(gs: Seq<GroupView>) -> bool {
    forall|k: int| 0 <= k < gs.len() && !gs[k].sig.exclusive ==> {
        &&& forall|x: int| 0 <= x < gs[k].sig.res.len()
            ==> #[trigger] last_writer(gs, gs[k].sig.res[x], false, gs.len() as int) != Some(k)
        &&& forall|x: int| 0 <= x < gs[k].sig.comp.len()
            ==> #[trigger] last_writer(gs, gs[k].sig.comp[x], true, gs.len() as int) != Some(k)
    }
}

impl PhasePlan {
    /// Orders the systems within each writing group.
    fn internal_arrows(&mut self, preorder: &mut Preorder)
        requires
            old(self).wf(),
            old(preorder).wf(),
            groups_ok(old(self).view_groups(), old(preorder)@.len()),
        ensures
            final(self).wf(),
            final(self).view_groups() == ended(old(self).view_groups()),
            final(preorder).wf(),
            final(preorder)@.len() == old(preorder)@.len(),
            same_weights(final(preorder)@, old(preorder)@),
            forall|a: usize, b: usize| #[trigger] arrow_between(final(preorder)@, a, b)
                <==> (arrow_between(old(preorder)@, a, b) || exists|k: int| 0 <= k < old(self).view_groups().len()
                    && #[trigger] consecutive_in(old(self).view_groups()[k], a, b)),
    {
        let ghost gv = self.view_groups();
        let ghost g0 = preorder@;
        let mut k: usize = 0;
        while k < self.groups.len()
            invariant
                self.groups@.len() == gv.len(),
                forall|j: int| 0 <= j < self.groups@.len() ==> (#[trigger] self.groups@[j]).id.0 == j,
                opt_group(self.exclusive) == first_exclusive(sigs_of(gv)),
                groups_ok(gv, g0.len()),
                k <= gv.len(),
                forall|j: int| 0 <= j < k ==> #[trigger] self.view_groups()[j] == with_ends(gv[j]),
                forall|j: int| k <= j < gv.len() ==> #[trigger] self.view_groups()[j] == gv[j],
                preorder.wf(),
                preorder@.len() == g0.len(),
                same_weights(preorder@, g0),
                forall|a: usize, b: usize| #[trigger] arrow_between(preorder@, a, b)
                    <==> (arrow_between(g0, a, b) || exists|j: int| 0 <= j < k
                        && #[trigger] consecutive_in(gv[j], a, b)),
            decreases gv.len() - k,
        {
            let ghost before = preorder@;
            assert(self.view_groups()[k as int] == gv[k as int]);
            assert(systems_ok(gv[k as int].systems, g0.len()));
            let ghost gs_before = self.groups@;
            let ghost vg_before = self.view_groups();
            self.groups[k].internal_arrows(preorder);
            proof {
                assert forall|j: int| 0 <= j < gv.len() && j != k implies self.groups@[j] == gs_before[j] by {}
                assert forall|j: int| 0 <= j < k + 1 implies #[trigger] self.view_groups()[j] == with_ends(gv[j]) by {
                    if j < k {
                        assert(self.view_groups()[j] == self.groups@[j]@);
                        assert(vg_before[j] == gs_before[j]@);
                    }
                }
                assert forall|j: int| k + 1 <= j < gv.len() implies #[trigger] self.view_groups()[j] == gv[j] by {
                    assert(self.view_groups()[j] == self.groups@[j]@);
                    assert(vg_before[j] == gs_before[j]@);
                }
                assert forall|a: usize, b: usize| #[trigger] arrow_between(preorder@, a, b)
                    <==> (arrow_between(g0, a, b) || exists|j: int| 0 <= j < k + 1
                        && #[trigger] consecutive_in(gv[j], a, b)) by {
                    if exists|j: int| 0 <= j < k + 1 && #[trigger] consecutive_in(gv[j], a, b) {
                        let j = choose|j: int| 0 <= j < k + 1 && #[trigger] consecutive_in(gv[j], a, b);
                        if j < k {
                            assert(arrow_between(before, a, b));
                        }
                    }
                }
            }
            k = k + 1;
        }
        proof {
            assert(self.view_groups() =~= ended(gv));
            assert(sigs_of(ended(gv)) =~= sigs_of(gv));
        }
    }
}

} // verus!

verus! {

pub open spec fn ends_set(gs: Seq<GroupView>) -> bool {
    forall|k: int| 0 <= k < gs.len() ==> #[trigger] gs[k] == with_ends(gs[k])
}

impl PhasePlan {
    fn last_writer_idx(&self, r: usize, comp: bool, bound: usize) -> (w: Option<usize>)
        requires
            bound <= self.view_groups().len(),
        ensures
            match w {
                Some(w) => last_writer(self.view_groups(), r, comp, bound as int) == Some(w as int),
                None => last_writer(self.view_groups(), r, comp, bound as int) is None,
            },
    {
        let ghost gs = self.view_groups();
        let mut i: usize = bound;
        while i > 0
            invariant
                gs == self.view_groups(),
                i <= bound <= gs.len(),
                last_writer(gs, r, comp, bound as int) == last_writer(gs, r, comp, i as int),
            decreases i,
        {
            let g = &self.groups[i - 1];
            assert(gs[i - 1] == g@);
            let hit = !g.is_marker && !g.is_exclusive && if comp {
                contains_id(&g.mut_components, r)
            } else {
                contains_id(&g.mut_resources, r)
            };
            if hit {
                return Some(i - 1);
            }
            i = i - 1;
        }
        None
    }

    /// Arrows from the last writer before `bound` of each of `ids` to the
    /// systems of group `k`.
    fn writer_arrows(&self, preorder: &mut Preorder, k: usize, ids: &Vec<usize>, comp: bool, bound: usize)
        requires
            old(preorder).wf(),
            k < self.view_groups().len(),
            bound <= self.view_groups().len(),
            groups_ok(self.view_groups(), old(preorder)@.len()),
            ends_set(self.view_groups()),
            forall|x: int| 0 <= x < ids@.len()
                ==> #[trigger] last_writer(self.view_groups(), ids@[x], comp, bound as int) != Some(k as int),
        ensures
            final(preorder).wf(),
            final(preorder)@.len() == old(preorder)@.len(),
            same_weights(final(preorder)@, old(preorder)@),
            forall|a: usize, b: usize| #[trigger] arrow_between(final(preorder)@, a, b)
                <==> (arrow_between(old(preorder)@, a, b)
                    || writer_arrow(self.view_groups(), k as int, ids@, comp, bound as int, a, b)),
    {
        let ghost gs = self.view_groups();
        let ghost g0 = preorder@;
        let mut x: usize = 0;
        while x < ids.len()
            invariant
                gs == self.view_groups(),
                k < gs.len(),
                bound <= gs.len(),
                groups_ok(gs, g0.len()),
                ends_set(gs),
                forall|y: int| 0 <= y < ids@.len()
                    ==> #[trigger] last_writer(gs, ids@[y], comp, bound as int) != Some(k as int),
                x <= ids@.len(),
                preorder.wf(),
                preorder@.len() == g0.len(),
                same_weights(preorder@, g0),
                forall|a: usize, b: usize| #[trigger] arrow_between(preorder@, a, b)
                    <==> (arrow_between(g0, a, b) || writer_arrow(gs, k as int, ids@.take(x as int), comp, bound as int, a, b)),
            decreases ids@.len() - x,
        {
            let r = ids[x];
            let ghost before = preorder@;
            proof {
                lemma_last_writer(gs, r, comp, bound as int);
                assert(ids@.take(x + 1) =~= ids@.take(x as int).push(r));
            }
            match self.last_writer_idx(r, comp, bound) {
                Some(w) => {
                    let ghost gw = gs[w as int];
                    assert(gs[w as int] == self.groups@[w as int]@);
                    assert(gs[k as int] == self.groups@[k as int]@);
                    proof {
                        assert(gw == with_ends(gw));
                        assert(is_write(gw.sig)) by {
                            if comp {
                                assert(gw.sig.mut_comp.len() > 0);
                            } else {
                                assert(gw.sig.mut_res.len() > 0);
                            }
                        }
                        assert(systems_ok(gw.systems, g0.len()));
                        assert(w != k);
                        assert(!gs[k as int].systems.contains(tail_of(gw))) by {
                            if gs[k as int].systems.contains(tail_of(gw)) {
                                let j = gs[k as int].systems.index_of(tail_of(gw));
                                assert(gs[k as int].systems[j] == gw.systems[gw.systems.len() - 1]);
                            }
                        }
                    }
                    let tail = self.groups[w].last.unwrap();
                    self.groups[k].arrows_from_tail(preorder, tail);
                    proof {
                        assert forall|a: usize, b: usize| #[trigger] arrow_between(preorder@, a, b)
                            <==> (arrow_between(g0, a, b) || writer_arrow(gs, k as int, ids@.take(x + 1), comp, bound as int, a, b)) by {
                            let t = ids@.take(x + 1);
                            if a == tail.0 && gs[k as int].systems.contains(b) {
                                assert(t[x as int] == r);
                                assert(last_writer(gs, t[x as int], comp, bound as int) == Some(w as int));
                            }
                            if writer_arrow(gs, k as int, t, comp, bound as int, a, b) {
                                let y = choose|y: int| 0 <= y < t.len() && match #[trigger] last_writer(gs, t[y], comp, bound as int) {
                                    Some(w) => a == tail_of(gs[w]) && gs[k as int].systems.contains(b),
                                    None => false,
                                };
                                if y < x {
                                    assert(ids@.take(x as int)[y] == t[y]);
                                    assert(writer_arrow(gs, k as int, ids@.take(x as int), comp, bound as int, a, b));
                                }
                            }
                            if writer_arrow(gs, k as int, ids@.take(x as int), comp, bound as int, a, b) {
                                let y = choose|y: int| 0 <= y < ids@.take(x as int).len() && match #[trigger] last_writer(gs, ids@.take(x as int)[y], comp, bound as int) {
                                    Some(w) => a == tail_of(gs[w]) && gs[k as int].systems.contains(b),
                                    None => false,
                                };
                                assert(t[y] == ids@.take(x as int)[y]);
                            }
                        }
                    }
                },
                None => {
                    proof {
                        assert forall|a: usize, b: usize| #[trigger] arrow_between(preorder@, a, b)
                            <==> (arrow_between(g0, a, b) || writer_arrow(gs, k as int, ids@.take(x + 1), comp, bound as int, a, b)) by {
                            let t = ids@.take(x + 1);
                            if writer_arrow(gs, k as int, t, comp, bound as int, a, b) {
                                let y = choose|y: int| 0 <= y < t.len() && match #[trigger] last_writer(gs, t[y], comp, bound as int) {
                                    Some(w) => a == tail_of(gs[w]) && gs[k as int].systems.contains(b),
                                    None => false,
                                };
                                assert(y != x);
                                assert(ids@.take(x as int)[y] == t[y]);
                                assert(writer_arrow(gs, k as int, ids@.take(x as int), comp, bound as int, a, b));
                            }
                            if writer_arrow(gs, k as int, ids@.take(x as int), comp, bound as int, a, b) {
                                let y = choose|y: int| 0 <= y < ids@.take(x as int).len() && match #[trigger] last_writer(gs, ids@.take(x as int)[y], comp, bound as int) {
                                    Some(w) => a == tail_of(gs[w]) && gs[k as int].systems.contains(b),
                                    None => false,
                                };
                                assert(t[y] == ids@.take(x as int)[y]);
                            }
                        }
                    }
                },
            }
            x = x + 1;
        }
        proof {
            assert(ids@.take(ids@.len() as int) =~= ids@);
        }
    }
}

pub(crate) fn contains_id(v: &Vec<usize>, x: usize) -> (r: bool)
    ensures
        r == v@.contains(x),
{
    let mut i: usize = 0;
    while i < v.len()
        invariant
            i <= v@.len(),
            forall|k: int| 0 <= k < i ==> v@[k] != x,
        decreases v@.len() - i,
    {
        if v[i] == x {
            return true;
        }
        i = i + 1;
    }
    proof {
        if v@.contains(x) {
            let k = v@.index_of(x);
            assert(v@[k] == x);
        }
    }
    false
}

} // verus!

verus! {

impl PhasePlan {
    /// Arrows from the exclusive group, if any, to group `k`.
    fn world_arrows(&self, preorder: &mut Preorder, k: usize)
        requires
            self.wf(),
            old(preorder).wf(),
            k < self.view_groups().len(),
            !self.view_groups()[k as int].sig.exclusive,
            groups_ok(self.view_groups(), old(preorder)@.len()),
            ends_set(self.view_groups()),
        ensures
            final(preorder).wf(),
            final(preorder)@.len() == old(preorder)@.len(),
            same_weights(final(preorder)@, old(preorder)@),
            forall|a: usize, b: usize| #[trigger] arrow_between(final(preorder)@, a, b)
                <==> (arrow_between(old(preorder)@, a, b) || world_arrow(self.view_groups(), k as int, a, b)),
    {
        let ghost gs = self.view_groups();
        match self.exclusive {
            Some(e) => {
                let ghost ge = gs[e.0 as int];
                let ghost gk = gs[k as int];
                proof {
                    lemma_first_exclusive(sigs_of(gs));
                    assert(sigs_of(gs).len() == gs.len());
                    assert(gs[e.0 as int] == self.groups@[e.0 as int]@);
                    assert(gs[k as int] == self.groups@[k as int]@);
                    assert(sigs_of(gs)[e.0 as int] == ge.sig);
                    assert(ge == with_ends(ge));
                    assert(gk == with_ends(gk));
                    assert(e.0 != k);
                    assert(systems_ok(ge.systems, preorder@.len()));
                    assert(systems_ok(gk.systems, preorder@.len()));
                    assert(!gk.systems.contains(tail_of(ge))) by {
                        if gk.systems.contains(tail_of(ge)) {
                            let j = gk.systems.index_of(tail_of(ge));
                            assert(gk.systems[j] == ge.systems[ge.systems.len() - 1]);
                        }
                    }
                }
                let tail = self.groups[e.0].last.unwrap();
                if self.groups[k].is_write() {
                    let first = self.groups[k].first.unwrap();
                    proof {
                        assert(first.0 == gk.systems[0]);
                        assert(tail.0 != first.0);
                        lemma_with_arrow(preorder@, tail.0, first.0);
                    }
                    preorder.add_arrow(NodeId(tail.0), NodeId(first.0));
                } else {
                    self.groups[k].arrows_from_tail(preorder, tail);
                }
            },
            None => {},
        }
    }

    /// Arrows into each non-exclusive group from the groups it must follow.
    fn group_arrows(&self, preorder: &mut Preorder)
        requires
            self.wf(),
            old(preorder).wf(),
            groups_ok(self.view_groups(), old(preorder)@.len()),
            ends_set(self.view_groups()),
            no_self_reads(self.view_groups()),
        ensures
            final(preorder).wf(),
            final(preorder)@.len() == old(preorder)@.len(),
            same_weights(final(preorder)@, old(preorder)@),
            forall|a: usize, b: usize| #[trigger] arrow_between(final(preorder)@, a, b)
                <==> (arrow_between(old(preorder)@, a, b) || exists|k: int| 0 <= k < self.view_groups().len()
                    && #[trigger] group_arrow(self.view_groups(), k, a, b)),
    {
        let ghost gs = self.view_groups();
        let ghost g0 = preorder@;
        let n = self.groups.len();
        let mut k: usize = 0;
        while k < n
            invariant
                self.wf(),
                gs == self.view_groups(),
                n == gs.len(),
                groups_ok(gs, g0.len()),
                ends_set(gs),
                no_self_reads(gs),
                k <= n,
                preorder.wf(),
                preorder@.len() == g0.len(),
                same_weights(preorder@, g0),
                forall|a: usize, b: usize| #[trigger] arrow_between(preorder@, a, b)
                    <==> (arrow_between(g0, a, b) || exists|j: int| 0 <= j < k
                        && #[trigger] group_arrow(gs, j, a, b)),
            decreases n - k,
        {
            let ghost p0 = preorder@;
            let ghost gk = gs[k as int];
            assert(gs[k as int] == self.groups@[k as int]@);
            if !self.groups[k].is_exclusive {
                proof {
                    assert forall|x: int| 0 <= x < gk.sig.mut_res.len()
                        implies #[trigger] last_writer(gs, gk.sig.mut_res[x], false, k as int) != Some(k as int) by {
                        lemma_last_writer(gs, gk.sig.mut_res[x], false, k as int);
                    }
                    assert forall|x: int| 0 <= x < gk.sig.res.len()
                        implies #[trigger] last_writer(gs, gk.sig.res[x], false, n as int) != Some(k as int) by {
                        assert(last_writer(gs, gs[k as int].sig.res[x], false, gs.len() as int) != Some(k as int));
                    }
                    assert forall|x: int| 0 <= x < gk.sig.comp.len()
                        implies #[trigger] last_writer(gs, gk.sig.comp[x], true, n as int) != Some(k as int) by {
                        assert(last_writer(gs, gs[k as int].sig.comp[x], true, gs.len() as int) != Some(k as int));
                    }
                }
                self.writer_arrows(preorder, k, &self.groups[k].resources, false, n);
                let ghost p1 = preorder@;
                self.writer_arrows(preorder, k, &self.groups[k].mut_resources, false, k);
                let ghost p2 = preorder@;
                self.writer_arrows(preorder, k, &self.groups[k].components, true, n);
                let ghost p3 = preorder@;
                self.world_arrows(preorder, k);
                proof {
                    assert forall|a: usize, b: usize| #[trigger] arrow_between(preorder@, a, b)
                        <==> (arrow_between(g0, a, b) || exists|j: int| 0 <= j < k + 1
                            && #[trigger] group_arrow(gs, j, a, b)) by {
                        assert(arrow_between(preorder@, a, b) <==> (arrow_between(p0, a, b) || group_arrow(gs, k as int, a, b)));
                        if exists|j: int| 0 <= j < k + 1 && #[trigger] group_arrow(gs, j, a, b) {
                            let j = choose|j: int| 0 <= j < k + 1 && #[trigger] group_arrow(gs, j, a, b);
                            if j < k {
                                assert(arrow_between(p0, a, b));
                            }
                        }
                    }
                }
            } else {
                proof {
                    assert forall|a: usize, b: usize| #[trigger] arrow_between(preorder@, a, b)
                        <==> (arrow_between(g0, a, b) || exists|j: int| 0 <= j < k + 1
                            && #[trigger] group_arrow(gs, j, a, b)) by {
                        if exists|j: int| 0 <= j < k + 1 && #[trigger] group_arrow(gs, j, a, b) {
                            let j = choose|j: int| 0 <= j < k + 1 && #[trigger] group_arrow(gs, j, a, b);
                            assert(j != k);
                        }
                    }
                }
            }
            k = k + 1;
        }
    }
}

proof fn lemma_first_exclusive(sigs: Seq<AccessSig>)
    ensures
        match first_exclusive(sigs) {
            Some(e) => 0 <= e < sigs.len() && sigs[e].exclusive && !sigs[e].marker,
            None => true,
        },
    decreases sigs.len(),
{
    if sigs.len() > 0 {
        lemma_first_exclusive(sigs.drop_last());
    }
}

} // verus!

verus! {

/// Grouping systems numbered in order gives non-empty, ordered, disjoint
/// groups, none yet with ends.
pub proof fn lemma_grouping(ms: Seq<MetaView>)
    requires
        forall|i: int| 0 <= i < ms.len() ==> (#[trigger] ms[i]).id == i,
    ensures
        groups_ok(grouping(ms), ms.len()),
        forall|k: int| 0 <= k < grouping(ms).len() ==> (#[trigger] grouping(ms)[k]).first is None
            && grouping(ms)[k].last is None,
        grouping(ms).len() <= ms.len(),
    decreases ms.len(),
{
    if ms.len() > 0 {
        let pre = ms.drop_last();
        assert forall|i: int| 0 <= i < pre.len() implies (#[trigger] pre[i]).id == i by {
            assert(pre[i] == ms[i]);
        }
        lemma_grouping(pre);
        let gs = grouping(pre);
        let m = ms.last();
        let n = (ms.len() - 1) as usize;
        assert(m.id == n);
        let k = find_sig(sigs_of(gs), sig_of(m));
        lemma_find_sig_bound(sigs_of(gs), sig_of(m));
        let h = grouping(ms);
        if k < gs.len() {
            assert(h == gs.update(k, GroupView { systems: gs[k].systems.push(m.id), ..gs[k] }));
            assert forall|q: int| 0 <= q < h.len() implies systems_ok(#[trigger] h[q].systems, ms.len()) by {
                if q == k {
                    let s = gs[k].systems;
                    assert(systems_ok(s, pre.len()));
                    assert forall|i: int, j: int| 0 <= i < j < h[q].systems.len() implies h[q].systems[i] < h[q].systems[j] by {
                        if j == s.len() {
                            assert(s[i] < n);
                        }
                    }
                } else {
                    assert(systems_ok(gs[q].systems, pre.len()));
                }
            }
            assert forall|k1: int, k2: int, i: int, j: int|
                0 <= k1 < h.len() && 0 <= k2 < h.len() && k1 != k2
                && 0 <= i < h[k1].systems.len() && 0 <= j < h[k2].systems.len()
                implies #[trigger] h[k1].systems[i] != #[trigger] h[k2].systems[j] by {
                assert(systems_ok(gs[k1].systems, pre.len()));
                assert(systems_ok(gs[k2].systems, pre.len()));
                if k1 == k && i == gs[k].systems.len() {
                    assert(h[k2].systems[j] == gs[k2].systems[j]);
                } else if k2 == k && j == gs[k].systems.len() {
                    assert(h[k1].systems[i] == gs[k1].systems[i]);
                } else {
                    assert(h[k1].systems[i] == gs[k1].systems[i]);
                    assert(h[k2].systems[j] == gs[k2].systems[j]);
                }
            }
        } else {
            let g = GroupView { sig: sig_of(m), systems: seq![m.id], first: None, last: None };
            assert(h == gs.push(g));
            assert forall|q: int| 0 <= q < h.len() implies systems_ok(#[trigger] h[q].systems, ms.len()) by {
                if q < gs.len() {
                    assert(systems_ok(gs[q].systems, pre.len()));
                }
            }
            assert forall|k1: int, k2: int, i: int, j: int|
                0 <= k1 < h.len() && 0 <= k2 < h.len() && k1 != k2
                && 0 <= i < h[k1].systems.len() && 0 <= j < h[k2].systems.len()
                implies #[trigger] h[k1].systems[i] != #[trigger] h[k2].systems[j] by {
                if k1 == gs.len() {
                    assert(systems_ok(gs[k2].systems, pre.len()));
                } else if k2 == gs.len() {
                    assert(systems_ok(gs[k1].systems, pre.len()));
                } else {
                    assert(h[k1] == gs[k1] && h[k2] == gs[k2]);
                }
            }
        }
    }
}

proof fn lemma_find_sig_bound(sigs: Seq<AccessSig>, s: AccessSig)
    ensures
        0 <= find_sig(sigs, s) <= sigs.len(),
        find_sig(sigs, s) < sigs.len() ==> sigs[find_sig(sigs, s)] == s,
    decreases sigs.len(),
{
    if sigs.len() > 0 {
        lemma_find_sig_bound(sigs.drop_last(), s);
    }
}

} // verus!

verus! {

pub open spec fn empty_node() -> NodeView {
    NodeView { weight: 0, incoming: Seq::empty(), outgoing: Seq::empty() }
}

/// The access groups of `ms`, each writing group ordered.
pub open spec fn planned_groups(ms: Seq<MetaView>) -> Seq<GroupView> {
    ended(grouping(ms))
}

/// Arrows from access: writers within a group one after the other, and into
/// each group from the groups it must follow.
pub open spec fn access_arrow(ms: Seq<MetaView>, a: usize, b: usize) -> bool {
    let gs = grouping(ms);
    ||| exists|k: int| 0 <= k < gs.len() && #[trigger] consecutive_in(gs[k], a, b)
    ||| exists|k: int| 0 <= k < gs.len() && #[trigger] group_arrow(ended(gs), k, a, b)
}

pub open spec fn first_of(item: PhaseItem) -> usize {
    (item.first_id->0).0
}

pub open spec fn last_of(item: PhaseItem) -> usize {
    (item.last_id->0).0
}

/// Arrows placing each system that is not a marker between the markers of
/// its phase.
pub open spec fn system_phase_arrow(ms: Seq<MetaView>, items: Seq<PhaseItem>, a: usize, b: usize) -> bool {
    ||| b < ms.len() && !ms[b as int].marker && a == first_of(items[ms[b as int].phase as int])
    ||| a < ms.len() && !ms[a as int].marker && b == last_of(items[ms[a as int].phase as int])
}

/// Arrows from the last marker of each phase to the first marker of each
/// phase that follows it.
pub open spec fn phase_arrow(items: Seq<PhaseItem>, pg: Seq<NodeView>, a: usize, b: usize) -> bool {
    exists|q: usize, p: usize| #[trigger] arrow_between(pg, q, p)
        && a == last_of(items[q as int]) && b == first_of(items[p as int])
}

/// Every arrow the planner draws between systems.
pub open spec fn planned_arrow(
    ms: Seq<MetaView>, items: Seq<PhaseItem>, pg: Seq<NodeView>, a: usize, b: usize,
) -> bool {
    ||| access_arrow(ms, a, b)
    ||| system_phase_arrow(ms, items, a, b)
    ||| phase_arrow(items, pg, a, b)
}

/// `g` has a node of weight zero per system and exactly the planned arrows.
pub open spec fn planned_graph(
    g: Seq<NodeView>, ms: Seq<MetaView>, items: Seq<PhaseItem>, pg: Seq<NodeView>,
) -> bool {
    &&& g.len() == ms.len()
    &&& forall|i: int| 0 <= i < g.len() ==> (#[trigger] g[i]).weight == 0
    &&& forall|a: usize, b: usize| #[trigger] arrow_between(g, a, b) <==> planned_arrow(ms, items, pg, a, b)
}

/// Every phase has two marker systems of its own, and every other system
/// names an existing phase.
pub open spec fn phases_ready(ms: Seq<MetaView>, items: Seq<PhaseItem>) -> bool {
    &&& forall|p: int| 0 <= p < items.len() ==> {
        &&& (#[trigger] items[p]).first_id is Some
        &&& items[p].last_id is Some
        &&& first_of(items[p]) < ms.len()
        &&& last_of(items[p]) < ms.len()
        &&& ms[first_of(items[p]) as int].marker
        &&& ms[last_of(items[p]) as int].marker
        &&& first_of(items[p]) != last_of(items[p])
    }
    &&& forall|p: int, q: int| 0 <= p < items.len() && 0 <= q < items.len() && p != q
        ==> last_of(#[trigger] items[q]) != first_of(#[trigger] items[p])
    &&& forall|s: int| 0 <= s < ms.len() && !(#[trigger] ms[s]).marker ==> ms[s].phase < items.len()
}

/// The systems can be planned: phases are ready and no group reads what it
/// is itself the last writer of.
pub open spec fn plannable(ms: Seq<MetaView>, items: Seq<PhaseItem>) -> bool {
    &&& phases_ready(ms, items)
    &&& no_self_reads(planned_groups(ms))
}

impl PhasePlan {
    /// Adds the access arrows of `metas` to `preorder`.
    fn plan(metas: &Vec<SystemMeta>, preorder: Preorder) -> (r: Preorder)
        requires
            preorder.wf(),
            preorder@.len() == metas@.len(),
            forall|i: int| 0 <= i < metas@.len() ==> (#[trigger] metas@[i])@.id == i,
            no_self_reads(planned_groups(metas_view(metas@))),
        ensures
            r.wf(),
            r@.len() == preorder@.len(),
            same_weights(r@, preorder@),
            forall|a: usize, b: usize| #[trigger] arrow_between(r@, a, b)
                <==> (arrow_between(preorder@, a, b) || access_arrow(metas_view(metas@), a, b)),
    {
        let ghost ms = metas_view(metas@);
        let mut preorder = preorder;
        let ghost g0 = preorder@;
        let mut phase_plan = PhasePlan::empty();
        phase_plan.add_systems(metas);
        let ghost gs = grouping(ms);
        proof {
            assert forall|i: int| 0 <= i < ms.len() implies (#[trigger] ms[i]).id == i by {
                assert(ms[i] == metas@[i]@);
            }
            lemma_grouping(ms);
        }
        phase_plan.internal_arrows(&mut preorder);
        let ghost g1 = preorder@;
        proof {
            let eg = ended(gs);
            assert(phase_plan.view_groups() == eg);
            assert forall|k: int| 0 <= k < eg.len() implies #[trigger] eg[k] == with_ends(eg[k]) by {}
            assert forall|k: int| 0 <= k < eg.len() implies systems_ok(#[trigger] eg[k].systems, g0.len()) by {
                assert(eg[k].systems == gs[k].systems);
            }
            assert forall|k1: int, k2: int, i: int, j: int|
                0 <= k1 < eg.len() && 0 <= k2 < eg.len() && k1 != k2
                && 0 <= i < eg[k1].systems.len() && 0 <= j < eg[k2].systems.len()
                implies #[trigger] eg[k1].systems[i] != #[trigger] eg[k2].systems[j] by {
                assert(eg[k1].systems == gs[k1].systems);
                assert(eg[k2].systems == gs[k2].systems);
            }
        }
        phase_plan.group_arrows(&mut preorder);
        proof {
            assert forall|a: usize, b: usize| #[trigger] arrow_between(preorder@, a, b)
                <==> (arrow_between(g0, a, b) || access_arrow(ms, a, b)) by {
                assert(arrow_between(g1, a, b) <==> (arrow_between(g0, a, b)
                    || exists|k: int| 0 <= k < gs.len() && #[trigger] consecutive_in(gs[k], a, b)));
            }
        }
        preorder
    }
}

} // verus!

verus! {

/// Orders the systems of a schedule.
pub struct Planner {
    phases: PhasePreorder,
    systems: Vec<SystemMeta>,
    preorder: Preorder,
    order: Vec<SystemId>,
}

impl Planner {
    pub closed spec fn metas(&self) -> Seq<MetaView> {
        metas_view(self.systems@)
    }

    pub closed spec fn phase_set(&self) -> PhasePreorder {
        self.phases
    }

    pub closed spec fn phase_keys(&self) -> Seq<crate::util::label::LabelKey> {
        self.phases.keys()
    }

    /// The phase keys and items are those of the phase set.
    pub proof fn lemma_phase_keys(&self)
        ensures
            self.phase_keys() == self.phase_set().keys(),
            self.phase_items() == self.phase_set().items(),
    {
    }

    pub closed spec fn phase_items(&self) -> Seq<PhaseItem> {
        self.phases.items()
    }

    pub closed spec fn phase_graph(&self) -> Seq<NodeView> {
        self.phases.graph()
    }

    /// The order of the last sort.
    pub closed spec fn order(&self) -> Seq<usize> {
        sys_ids(self.order@)
    }

    /// System `i` has id `i` and a node without arrows; the phases are well
    /// formed.
    pub closed spec fn wf(&self) -> bool {
        &&& self.preorder.wf()
        &&& self.preorder@.len() == self.systems@.len()
        &&& forall|i: int| 0 <= i < self.preorder@.len() ==> #[trigger] self.preorder@[i] == empty_node()
        &&& forall|i: int| 0 <= i < self.systems@.len() ==> (#[trigger] self.systems@[i])@.id == i
        &&& self.phases.wf()
    }

    pub proof fn lemma_wf(&self)
        requires
            self.wf(),
        ensures
            forall|i: int| 0 <= i < self.metas().len() ==> (#[trigger] self.metas()[i]).id == i,
            self.phase_keys().len() == self.phase_items().len(),
            self.phase_items().len() == self.phase_graph().len(),
            forall|i: int| 0 <= i < self.phase_items().len() ==> (#[trigger] self.phase_items()[i]).id.0 == i,
            graph_wf(self.phase_graph()),
    {
        self.phases.lemma_wf();
        assert forall|i: int| 0 <= i < self.metas().len() implies (#[trigger] self.metas()[i]).id == i by {
            assert(self.metas()[i] == self.systems@[i]@);
        }
    }

    pub(crate) fn new() -> (r: Planner)
        ensures
            r.wf(),
            r.metas() == Seq::<MetaView>::empty(),
            r.phase_keys().len() == 1,
            r.phase_items() == seq![PhaseItem { id: PhaseId(0), first_id: None, last_id: None }],
            r.phase_graph() == seq![empty_node()],
            r.order() == Seq::<usize>::empty(),
    {
        let r = Planner {
            phases: PhasePreorder::new(),
            systems: Vec::new(),
            preorder: Preorder::new(),
            order: Vec::new(),
        };
        assert(r.metas() =~= Seq::<MetaView>::empty());
        assert(r.order() =~= Seq::<usize>::empty());
        r
    }

    pub(crate) fn len(&self) -> (r: usize)
        requires
            self.wf(),
        ensures
            r == self.metas().len(),
    {
        self.systems.len()
    }

    /// Adds system `id`, the next in order, to `phase_id`.
    pub(crate) fn add(&mut self, id: SystemId, name: String, phase_id: PhaseId) -> (r: SystemId)
        requires
            old(self).wf(),
            id.0 == old(self).metas().len(),
            old(self).metas().len() < usize::MAX,
        ensures
            final(self).wf(),
            r == id,
            final(self).metas() == old(self).metas().push(MetaView {
                id: id.0, phase: phase_id.0, priority: 1000, exclusive: false, marker: false,
                res: Seq::empty(), mut_res: Seq::empty(), comp: Seq::empty(), mut_comp: Seq::empty(),
            }),
            final(self).phase_set() == old(self).phase_set(),
            final(self).phase_items() == old(self).phase_items(),
            final(self).phase_keys() == old(self).phase_keys(),
            final(self).phase_graph() == old(self).phase_graph(),
    {
        let node_id = self.preorder.add_node(0);
        self.systems.push(SystemMeta::new(id, name, phase_id));
        proof {
            assert(self.metas() =~= old(self).metas().push(MetaView {
                id: id.0, phase: phase_id.0, priority: 1000, exclusive: false, marker: false,
                res: Seq::empty(), mut_res: Seq::empty(), comp: Seq::empty(), mut_comp: Seq::empty(),
            }));
            assert forall|i: int| 0 <= i < self.preorder@.len() implies #[trigger] self.preorder@[i] == empty_node() by {
                if i < old(self).preorder@.len() {
                    assert(self.preorder@[i] == old(self).preorder@[i]);
                } else {
                    assert(self.preorder@[i].incoming =~= Seq::<usize>::empty());
                }
            }
        }
        id
    }

    pub(crate) fn meta(&self, id: SystemId) -> (r: &SystemMeta)
        requires
            id.0 < self.metas().len(),
        ensures
            r@ == self.metas()[id.0 as int],
    {
        &self.systems[id.index()]
    }

    /// A copy of the meta of system `id`, for its system to fill in.
    pub(crate) fn meta_copy(&self, id: SystemId) -> (r: SystemMeta)
        requires
            id.0 < self.metas().len(),
        ensures
            r@ == self.metas()[id.0 as int],
    {
        let m = &self.systems[id.index()];
        proof { use_type_invariant(m); }
        SystemMeta {
            id: m.id,
            name: m.name.clone(),
            phase_id: m.phase_id,
            priority: m.priority,
            is_exclusive: m.is_exclusive,
            is_marker: m.is_marker,
            resources: copy_ids(&m.resources),
            mut_resources: copy_ids(&m.mut_resources),
            components: copy_ids(&m.components),
            mut_components: copy_ids(&m.mut_components),
        }
    }

    /// Takes back what a system recorded in the meta of system `id`: its
    /// priority, whether it is exclusive, and its accesses.  The id, phase
    /// and marker flag stay as the planner set them.
    pub(crate) fn restore_meta(&mut self, id: SystemId, meta: SystemMeta)
        requires
            old(self).wf(),
            id.0 < old(self).metas().len(),
        ensures
            final(self).wf(),
            final(self).phase_set() == old(self).phase_set(),
            final(self).phase_items() == old(self).phase_items(),
            final(self).phase_keys() == old(self).phase_keys(),
            final(self).phase_graph() == old(self).phase_graph(),
            final(self).metas() == old(self).metas().update(id.0 as int, MetaView {
                id: old(self).metas()[id.0 as int].id,
                phase: old(self).metas()[id.0 as int].phase,
                marker: old(self).metas()[id.0 as int].marker,
                ..meta@
            }),
    {
        proof { use_type_invariant(&meta); }
        let i = id.index();
        let old_meta = &self.systems[i];
        let m = SystemMeta {
            id: old_meta.id,
            name: meta.name,
            phase_id: old_meta.phase_id,
            priority: meta.priority,
            is_exclusive: meta.is_exclusive,
            is_marker: old_meta.is_marker,
            resources: meta.resources,
            mut_resources: meta.mut_resources,
            components: meta.components,
            mut_components: meta.mut_components,
        };
        self.systems.set(i, m);
        proof {
            assert(self.metas() =~= old(self).metas().update(id.0 as int, MetaView {
                id: old(self).metas()[id.0 as int].id,
                phase: old(self).metas()[id.0 as int].phase,
                marker: old(self).metas()[id.0 as int].marker,
                ..meta@
            }));
        }
    }

    /// Marks system `id` as a phase marker.
    pub(crate) fn set_marker(&mut self, id: SystemId)
        requires
            old(self).wf(),
            id.0 < old(self).metas().len(),
        ensures
            final(self).wf(),
            final(self).phase_set() == old(self).phase_set(),
            final(self).phase_items() == old(self).phase_items(),
            final(self).phase_keys() == old(self).phase_keys(),
            final(self).phase_graph() == old(self).phase_graph(),
            final(self).metas() == old(self).metas().update(id.0 as int,
                MetaView { marker: true, ..old(self).metas()[id.0 as int] }),
    {
        let i = id.index();
        let mut m = self.meta_copy(id);
        m.set_marker();
        self.systems.set(i, m);
        proof {
            assert(self.metas() =~= old(self).metas().update(id.0 as int,
                MetaView { marker: true, ..old(self).metas()[id.0 as int] }));
        }
    }

    pub(crate) fn n_phases(&self) -> (r: usize)
        requires
            self.wf(),
        ensures
            r == self.phase_items().len(),
    {
        self.phases.len()
    }

    /// The phases without marker systems, in order.
    pub(crate) fn uninit_phases(&self) -> (r: Vec<PhaseId>)
        requires
            self.wf(),
        ensures
            phase_ids(r@) == crate::schedule::phase::uninit_of(self.phase_items(), self.phase_items().len() as int),
    {
        self.phases.uninit_phases()
    }

    pub(crate) fn phases(&self) -> (r: &PhasePreorder)
        ensures
            *r == self.phase_set(),
    {
        &self.phases
    }

    pub(crate) fn add_phase(&mut self, phase: &Box<dyn Phase>) -> (r: PhaseId)
        requires
            old(self).wf(),
            old(self).phase_items().len() < usize::MAX,
        ensures
            final(self).wf(),
            final(self).metas() == old(self).metas(),
            r.0 < final(self).phase_keys().len(),
            crate::schedule::phase::added_phase(old(self).phase_set(), final(self).phase_set(),
                final(self).phase_keys()[r.0 as int], r),
    {
        self.phases.add_box_phase(phase)
    }

    pub(crate) fn add_phase_config(&mut self, config: PhaseConfig) -> (r: PhaseId)
        requires
            old(self).wf(),
            old(self).phase_items().len() < usize::MAX,
        ensures
            final(self).wf(),
            final(self).metas() == old(self).metas(),
            crate::schedule::phase::added_phase(old(self).phase_set(), final(self).phase_set(), config.key, r),
            r.0 < final(self).phase_items().len(),
            old(self).phase_items().is_prefix_of(final(self).phase_items()),
            forall|k: int| old(self).phase_items().len() <= k < final(self).phase_items().len()
                ==> (#[trigger] final(self).phase_items()[k]).first_id is None
                    && final(self).phase_items()[k].last_id is None,
    {
        let r = self.phases.add_phase(config);
        proof { self.phases.lemma_wf(); }
        r
    }

    pub(crate) fn add_phase_configs(&mut self, configs: PhaseConfigs)
        requires
            old(self).wf(),
            old(self).phase_items().len() + configs.phases@.len() < usize::MAX,
            configs.is_chained ==> forall|i: int| 0 <= i < configs.phases@.len() - 1
                ==> (#[trigger] configs.phases@[i]).key != configs.phases@[i + 1].key,
        ensures
            final(self).wf(),
            final(self).metas() == old(self).metas(),
            old(self).phase_items().is_prefix_of(final(self).phase_items()),
            forall|k: int| old(self).phase_items().len() <= k < final(self).phase_items().len()
                ==> (#[trigger] final(self).phase_items()[k]).first_id is None,
            forall|k: int| old(self).phase_items().len() <= k < final(self).phase_items().len()
                ==> (#[trigger] final(self).phase_items()[k]).last_id is None,
            old(self).phase_keys().is_prefix_of(final(self).phase_keys()),
            forall|i: int| 0 <= i < configs.phases@.len()
                ==> final(self).phase_keys().contains(#[trigger] configs.phases@[i].key),
    {
        self.phases.add_phases(configs)
    }

    pub(crate) fn set_phase_systems(&mut self, id: PhaseId, first_id: SystemId, last_id: SystemId)
        requires
            old(self).wf(),
            id.0 < old(self).phase_items().len(),
            old(self).phase_items()[id.0 as int].first_id is None,
            old(self).phase_items()[id.0 as int].last_id is None,
        ensures
            final(self).wf(),
            final(self).metas() == old(self).metas(),
            final(self).phase_keys() == old(self).phase_keys(),
            final(self).phase_graph() == old(self).phase_graph(),
            final(self).phase_items() == old(self).phase_items().update(id.0 as int,
                PhaseItem { id, first_id: Some(first_id), last_id: Some(last_id) }),
    {
        self.phases.set_systems(id, first_id, last_id)
    }
}

} // verus!

verus! {

impl Planner {
    /// Places system `s` between the markers of its phase:
    /// `phase.first -> s -> phase.last`.
    fn add_system_phase_arrows(&self, preorder: &mut Preorder, s: usize)
        requires
            self.wf(),
            phases_ready(self.metas(), self.phase_items()),
            s < self.metas().len(),
            !self.metas()[s as int].marker,
            old(preorder).wf(),
            old(preorder)@.len() == self.metas().len(),
        ensures
            final(preorder).wf(),
            final(preorder)@.len() == old(preorder)@.len(),
            same_weights(final(preorder)@, old(preorder)@),
            forall|a: usize, b: usize| #[trigger] arrow_between(final(preorder)@, a, b)
                <==> (arrow_between(old(preorder)@, a, b)
                    || (b == s && a == first_of(self.phase_items()[self.metas()[s as int].phase as int]))
                    || (a == s && b == last_of(self.phase_items()[self.metas()[s as int].phase as int]))),
    {
        let ghost ms = self.metas();
        let ghost items = self.phase_items();
        let ghost g0 = preorder@;
        proof { self.lemma_wf(); }
        let meta = &self.systems[s];
        assert(meta@ == ms[s as int]);
        let phase_id = meta.phase_id();
        let item = self.phases.item(phase_id);
        let first = item.first();
        let last = item.last();
        proof {
            assert(items[phase_id.0 as int] == *item);
            assert(ms[first.0 as int].marker);
            assert(ms[last.0 as int].marker);
            lemma_with_arrow(preorder@, first.0, s);
        }
        preorder.add_arrow(NodeId(first.0), NodeId(s));
        let ghost g1 = preorder@;
        proof { lemma_with_arrow(preorder@, s, last.0); }
        preorder.add_arrow(NodeId(s), NodeId(last.0));
    }

    /// Arrows from the last marker of each phase with an arrow into phase `p`
    /// to the first marker of `p`.
    fn add_phase_arrows(&self, preorder: &mut Preorder, p: PhaseId)
        requires
            self.wf(),
            phases_ready(self.metas(), self.phase_items()),
            p.0 < self.phase_items().len(),
            old(preorder).wf(),
            old(preorder)@.len() == self.metas().len(),
        ensures
            final(preorder).wf(),
            final(preorder)@.len() == old(preorder)@.len(),
            same_weights(final(preorder)@, old(preorder)@),
            forall|a: usize, b: usize| #[trigger] arrow_between(final(preorder)@, a, b)
                <==> (arrow_between(old(preorder)@, a, b)
                    || exists|q: usize| #[trigger] arrow_between(self.phase_graph(), q, p.0)
                        && a == last_of(self.phase_items()[q as int])
                        && b == first_of(self.phase_items()[p.0 as int])),
    {
        let ghost ms = self.metas();
        let ghost items = self.phase_items();
        let ghost pg = self.phase_graph();
        let ghost g0 = preorder@;
        proof { self.lemma_wf(); }
        let ghost inc = pg[p.0 as int].incoming;
        proof {
            assert forall|k: int| 0 <= k < inc.len() implies (#[trigger] items[inc[k] as int]).last_id is Some by {
                assert(inc[k] < pg.len());
            }
        }
        let target = self.phases.item(p).first();
        let lasts = self.phases.incoming_systems(p);
        let mut k: usize = 0;
        while k < lasts.len()
            invariant
                self.wf(),
                phases_ready(ms, items),
                ms == self.metas(),
                items == self.phase_items(),
                pg == self.phase_graph(),
                graph_wf(pg),
                items.len() == pg.len(),
                p.0 < items.len(),
                inc == pg[p.0 as int].incoming,
                target.0 == first_of(items[p.0 as int]),
                lasts@.len() == inc.len(),
                forall|j: int| 0 <= j < lasts@.len() ==> #[trigger] lasts@[j] == items[inc[j] as int].last_id->0,
                k <= lasts@.len(),
                preorder.wf(),
                preorder@.len() == g0.len(),
                g0.len() == ms.len(),
                same_weights(preorder@, g0),
                forall|a: usize, b: usize| #[trigger] arrow_between(preorder@, a, b)
                    <==> (arrow_between(g0, a, b) || (b == target.0
                        && exists|j: int| 0 <= j < k && a == last_of(items[#[trigger] inc[j] as int]))),
            decreases lasts@.len() - k,
        {
            let last = lasts[k];
            proof {
                let q = inc[k as int];
                assert(q < pg.len());
                assert(pg[p.0 as int].incoming.contains(q));
                assert(q != p.0) by {
                    assert(pg[q as int].outgoing.contains(p.0));
                }
                assert(last.0 == last_of(items[q as int]));
                assert(last.0 != target.0);
                lemma_with_arrow(preorder@, last.0, target.0);
            }
            let ghost before = preorder@;
            preorder.add_arrow(NodeId(last.0), NodeId(target.0));
            proof {
                assert forall|a: usize, b: usize| #[trigger] arrow_between(preorder@, a, b)
                    <==> (arrow_between(g0, a, b) || (b == target.0
                        && exists|j: int| 0 <= j < k + 1 && a == last_of(items[#[trigger] inc[j] as int]))) by {
                    if a == last.0 && b == target.0 {
                        assert(a == last_of(items[inc[k as int] as int]));
                    }
                    if b == target.0 && exists|j: int| 0 <= j < k + 1 && a == last_of(items[#[trigger] inc[j] as int]) {
                        let j = choose|j: int| 0 <= j < k + 1 && a == last_of(items[#[trigger] inc[j] as int]);
                        if j < k {
                            assert(arrow_between(before, a, b));
                        }
                    }
                }
            }
            k = k + 1;
        }
        proof {
            assert forall|a: usize, b: usize| #[trigger] arrow_between(preorder@, a, b)
                <==> (arrow_between(g0, a, b)
                    || exists|q: usize| #[trigger] arrow_between(pg, q, p.0)
                        && a == last_of(items[q as int])
                        && b == first_of(items[p.0 as int])) by {
                if b == target.0 && exists|j: int| 0 <= j < inc.len() && a == last_of(items[#[trigger] inc[j] as int]) {
                    let j = choose|j: int| 0 <= j < inc.len() && a == last_of(items[#[trigger] inc[j] as int]);
                    let q = inc[j];
                    assert(q < pg.len());
                    assert(pg[p.0 as int].incoming.contains(q));
                    assert(arrow_between(pg, q, p.0));
                }
                if exists|q: usize| #[trigger] arrow_between(pg, q, p.0)
                    && a == last_of(items[q as int]) && b == first_of(items[p.0 as int]) {
                    let q = choose|q: usize| #[trigger] arrow_between(pg, q, p.0)
                        && a == last_of(items[q as int]) && b == first_of(items[p.0 as int]);
                    assert(pg[p.0 as int].incoming.contains(q));
                    let j = inc.index_of(q);
                    assert(inc[j] == q);
                }
            }
        }
    }
}

} // verus!

verus! {

impl Planner {
    /// The graph of all planned arrows between the systems.
    fn create_preorder(&self) -> (r: Preorder)
        requires
            self.wf(),
            plannable(self.metas(), self.phase_items()),
        ensures
            r.wf(),
            planned_graph(r@, self.metas(), self.phase_items(), self.phase_graph()),
    {
        let ghost ms = self.metas();
        let ghost items = self.phase_items();
        let ghost pg = self.phase_graph();
        proof { self.lemma_wf(); }
        let base = self.preorder.clone();
        let ghost g0 = base@;
        proof {
            assert forall|i: int| 0 <= i < self.systems@.len() implies (#[trigger] self.systems@[i])@.id == i by {}
        }
        let mut preorder = PhasePlan::plan(&self.systems, base);
        proof {
            assert forall|a: usize, b: usize| !#[trigger] arrow_between(g0, a, b) by {
                if arrow_between(g0, a, b) {
                    assert(g0[a as int] == empty_node());
                }
            }
        }
        let n = self.systems.len();
        let mut s: usize = 0;
        while s < n
            invariant
                self.wf(),
                plannable(ms, items),
                ms == self.metas(),
                items == self.phase_items(),
                pg == self.phase_graph(),
                n == ms.len(),
                s <= n,
                preorder.wf(),
                preorder@.len() == n,
                forall|i: int| 0 <= i < n ==> (#[trigger] preorder@[i]).weight == 0,
                forall|a: usize, b: usize| #[trigger] arrow_between(preorder@, a, b)
                    <==> (access_arrow(ms, a, b)
                        || (b < s && !ms[b as int].marker && a == first_of(items[ms[b as int].phase as int]))
                        || (a < s && !ms[a as int].marker && b == last_of(items[ms[a as int].phase as int]))),
            decreases n - s,
        {
            assert(self.systems@[s as int]@ == ms[s as int]);
            if !self.systems[s].is_marker() {
                self.add_system_phase_arrows(&mut preorder, s);
            }
            s = s + 1;
        }
        let order = self.phases.sort();
        let ghost ord = phase_ids(order@);
        let mut x: usize = 0;
        while x < order.len()
            invariant
                self.wf(),
                plannable(ms, items),
                ms == self.metas(),
                items == self.phase_items(),
                pg == self.phase_graph(),
                items.len() == pg.len(),
                n == ms.len(),
                ord == phase_ids(order@),
                acyclic_arrows_forward(pg, ord),
                x <= ord.len(),
                preorder.wf(),
                preorder@.len() == n,
                forall|i: int| 0 <= i < n ==> (#[trigger] preorder@[i]).weight == 0,
                forall|a: usize, b: usize| #[trigger] arrow_between(preorder@, a, b)
                    <==> (access_arrow(ms, a, b) || system_phase_arrow(ms, items, a, b)
                        || exists|y: int, q: usize| 0 <= y < x && #[trigger] arrow_between(pg, q, ord[y])
                            && a == last_of(items[q as int]) && b == first_of(items[ord[y] as int])),
            decreases ord.len() - x,
        {
            let p = order[x];
            assert(ord[x as int] == p.0);
            let ghost before = preorder@;
            self.add_phase_arrows(&mut preorder, p);
            proof {
                assert forall|a: usize, b: usize| #[trigger] arrow_between(preorder@, a, b)
                    <==> (access_arrow(ms, a, b) || system_phase_arrow(ms, items, a, b)
                        || exists|y: int, q: usize| 0 <= y < x + 1 && #[trigger] arrow_between(pg, q, ord[y])
                            && a == last_of(items[q as int]) && b == first_of(items[ord[y] as int])) by {
                    if exists|q: usize| #[trigger] arrow_between(pg, q, p.0)
                        && a == last_of(items[q as int]) && b == first_of(items[p.0 as int]) {
                        let q = choose|q: usize| #[trigger] arrow_between(pg, q, p.0)
                            && a == last_of(items[q as int]) && b == first_of(items[p.0 as int]);
                        assert(arrow_between(pg, q, ord[x as int]));
                    }
                    if exists|y: int, q: usize| 0 <= y < x + 1 && #[trigger] arrow_between(pg, q, ord[y])
                        && a == last_of(items[q as int]) && b == first_of(items[ord[y] as int]) {
                        let (y, q) = choose|y: int, q: usize| 0 <= y < x + 1 && #[trigger] arrow_between(pg, q, ord[y])
                            && a == last_of(items[q as int]) && b == first_of(items[ord[y] as int]);
                        if y < x {
                            assert(arrow_between(before, a, b));
                        } else {
                            assert(arrow_between(pg, q, p.0));
                        }
                    }
                }
            }
            x = x + 1;
        }
        proof {
            assert forall|a: usize, b: usize| #[trigger] arrow_between(preorder@, a, b)
                <==> planned_arrow(ms, items, pg, a, b) by {
                if phase_arrow(items, pg, a, b) {
                    let (q, p) = choose|q: usize, p: usize| #[trigger] arrow_between(pg, q, p)
                        && a == last_of(items[q as int]) && b == first_of(items[p as int]);
                    lemma_permutation_covers(ord, pg.len(), p);
                    let y = ord.index_of(p);
                    assert(arrow_between(pg, q, ord[y]));
                }
                if exists|y: int, q: usize| 0 <= y < ord.len() && #[trigger] arrow_between(pg, q, ord[y])
                    && a == last_of(items[q as int]) && b == first_of(items[ord[y] as int]) {
                    let (y, q) = choose|y: int, q: usize| 0 <= y < ord.len() && #[trigger] arrow_between(pg, q, ord[y])
                        && a == last_of(items[q as int]) && b == first_of(items[ord[y] as int]);
                    assert(phase_arrow(items, pg, a, b));
                }
            }
        }
        preorder
    }

    /// Sorts the systems by the planned arrows.
    pub(crate) fn sort(&mut self)
        requires
            old(self).wf(),
            plannable(old(self).metas(), old(self).phase_items()),
        ensures
            final(self).wf(),
            final(self).metas() == old(self).metas(),
            final(self).phase_set() == old(self).phase_set(),
            final(self).phase_items() == old(self).phase_items(),
            final(self).phase_keys() == old(self).phase_keys(),
            final(self).phase_graph() == old(self).phase_graph(),
            exists|g: Seq<NodeView>, h: Seq<NodeView>|
                planned_graph(g, final(self).metas(), final(self).phase_items(), final(self).phase_graph())
                && arrows_subset(h, g) && only_cycles_broken(h, g)
                && is_topological(h, final(self).order().map_values(|i: usize| NodeId(i))),
    {
        let mut preorder = self.create_preorder();
        let ghost g = preorder@;
        let sorted = preorder.sort();
        let ghost h = preorder@;
        let mut order: Vec<SystemId> = Vec::new();
        let mut i: usize = 0;
        while i < sorted.len()
            invariant
                i <= sorted@.len(),
                sys_ids(order@) == ids_of(sorted@).take(i as int),
            decreases sorted@.len() - i,
        {
            let ghost o0 = order@;
            order.push(SystemId(sorted[i].index()));
            proof {
                assert(sys_ids(o0).len() == i);
                assert forall|k: int| 0 <= k < i + 1 implies sys_ids(order@)[k] == ids_of(sorted@).take(i + 1)[k] by {
                    if k < i {
                        assert(sys_ids(o0)[k] == ids_of(sorted@).take(i as int)[k]);
                    }
                }
                assert(sys_ids(order@) =~= ids_of(sorted@).take(i + 1));
            }
            i = i + 1;
        }
        self.order = order;
        proof {
            assert(ids_of(sorted@).take(sorted@.len() as int) =~= ids_of(sorted@));
            assert(self.order().map_values(|i: usize| NodeId(i)) =~= sorted@);
            assert(planned_graph(g, self.metas(), self.phase_items(), self.phase_graph())
                && arrows_subset(h, g) && only_cycles_broken(h, g)
                && is_topological(h, self.order().map_values(|i: usize| NodeId(i))));
        }
    }

    /// The execution plan: the planned graph, sorted.
    pub(crate) fn plan(&self) -> (r: Plan)
        requires
            self.wf(),
            plannable(self.metas(), self.phase_items()),
        ensures
            exists|g: Seq<NodeView>, h: Seq<NodeView>|
                planned_graph(g, self.metas(), self.phase_items(), self.phase_graph())
                && same_weights(h, g) && arrows_subset(h, g) && only_cycles_broken(h, g)
                && is_topological(h, r@.order.map_values(|i: usize| NodeId(i)))
                && r@ == plan_of(h, r@.order),
            plan_sound(r@, r.ordered_n_incoming()),
            r@.order.len() == self.metas().len(),
    {
        let mut preorder = self.create_preorder();
        let ghost g = preorder@;
        let r = Plan::new(&mut preorder);
        let ghost h = preorder@;
        assert(planned_graph(g, self.metas(), self.phase_items(), self.phase_graph())
            && same_weights(h, g) && arrows_subset(h, g) && only_cycles_broken(h, g)
            && is_topological(h, r@.order.map_values(|i: usize| NodeId(i)))
            && r@ == plan_of(h, r@.order));
        assert(r@.order.len() == self.metas().len()) by {
            assert(r@.order.map_values(|i: usize| NodeId(i)).len() == h.len());
        }
        r
    }
}

impl Default for Planner {
    fn default() -> (r: Planner)
        ensures
            r.wf(),
            r.metas() == Seq::<MetaView>::empty(),
    {
        Planner::new()
    }
}

} // verus!

verus! {

impl PhasePlan {
    /// Whether a non-exclusive group reads an id of which it is itself the
    /// last writer.
    fn self_reads(&self) -> (r: bool)
        ensures
            r == !no_self_reads(self.view_groups()),
    {
        let ghost gs = self.view_groups();
        let n = self.groups.len();
        let mut k: usize = 0;
        while k < n
            invariant
                gs == self.view_groups(),
                n == gs.len(),
                k <= n,
                forall|j: int| 0 <= j < k && !gs[j].sig.exclusive ==> {
                    &&& forall|x: int| 0 <= x < gs[j].sig.res.len()
                        ==> #[trigger] last_writer(gs, gs[j].sig.res[x], false, gs.len() as int) != Some(j)
                    &&& forall|x: int| 0 <= x < gs[j].sig.comp.len()
                        ==> #[trigger] last_writer(gs, gs[j].sig.comp[x], true, gs.len() as int) != Some(j)
                },
            decreases n - k,
        {
            let g = &self.groups[k];
            assert(gs[k as int] == g@);
            if !g.is_exclusive {
                let mut x: usize = 0;
                while x < g.resources.len()
                    invariant
                        gs == self.view_groups(),
                        n == gs.len(),
                        k < n,
                        gs[k as int] == g@,
                        !g@.sig.exclusive,
                        x <= g@.sig.res.len(),
                        forall|y: int| 0 <= y < x
                            ==> #[trigger] last_writer(gs, gs[k as int].sig.res[y], false, gs.len() as int) != Some(k as int),
                    decreases g@.sig.res.len() - x,
                {
                    if self.last_writer_idx(g.resources[x], false, n) == Some(k) {
                        assert(!no_self_reads(gs)) by {
                            assert(!gs[k as int].sig.exclusive);
                            assert(last_writer(gs, gs[k as int].sig.res[x as int], false, gs.len() as int) == Some(k as int));
                            if no_self_reads(gs) {
                                assert(0 <= k < gs.len() && !gs[k as int].sig.exclusive);
                                assert(last_writer(gs, gs[k as int].sig.res[x as int], false, gs.len() as int) != Some(k as int));
                            }
                        }
                        return true;
                    }
                    x = x + 1;
                }
                let mut x: usize = 0;
                while x < g.components.len()
                    invariant
                        gs == self.view_groups(),
                        n == gs.len(),
                        k < n,
                        gs[k as int] == g@,
                        !g@.sig.exclusive,
                        x <= g@.sig.comp.len(),
                        forall|y: int| 0 <= y < x
                            ==> #[trigger] last_writer(gs, gs[k as int].sig.comp[y], true, gs.len() as int) != Some(k as int),
                    decreases g@.sig.comp.len() - x,
                {
                    if self.last_writer_idx(g.components[x], true, n) == Some(k) {
                        assert(!no_self_reads(gs)) by {
                            assert(!gs[k as int].sig.exclusive);
                            assert(last_writer(gs, gs[k as int].sig.comp[x as int], true, gs.len() as int) == Some(k as int));
                            if no_self_reads(gs) {
                                assert(0 <= k < gs.len() && !gs[k as int].sig.exclusive);
                                assert(last_writer(gs, gs[k as int].sig.comp[x as int], true, gs.len() as int) != Some(k as int));
                            }
                        }
                        return true;
                    }
                    x = x + 1;
                }
            }
            k = k + 1;
        }
        false
    }
}

impl Planner {
    /// Whether some access group would have to follow itself: the planner
    /// cannot plan such systems.
    pub(crate) fn self_reads(&self) -> (r: bool)
        requires
            self.wf(),
        ensures
            r == !no_self_reads(planned_groups(self.metas())),
    {
        proof { self.lemma_wf(); }
        let mut scratch = self.preorder.clone();
        let mut phase_plan = PhasePlan::empty();
        phase_plan.add_systems(&self.systems);
        proof {
            assert forall|i: int| 0 <= i < self.metas().len() implies (#[trigger] self.metas()[i]).id == i by {}
            lemma_grouping(self.metas());
        }
        phase_plan.internal_arrows(&mut scratch);
        phase_plan.self_reads()
    }
}

} // verus!
