//! The entity store: entities, their components, and the tables that hold
//! them.

use vstd::prelude::*;
use std::marker::PhantomData;

use crate::entity::column::{Column, RowId, StoreColumn, is_free_gen};
use crate::entity::entity::{EntityAlloc, EntityId};
use crate::entity::meta::{ColumnId, StoreMeta, TableId, ViewId, ViewTableId, ViewType, col_ids};
use crate::entity::table::{RowView, Table, TableRow, TableState, table_inv, table_get};
use crate::schedule::planner::sorted_set;
use crate::entity::view::{QueryView, ViewBuilder, ViewCursor, ViewIterator, ViewPlan, view_table_of, view_row_live, pos_before};
use crate::util::any::{AnyBox, any_new, any_ref, any_mut};

verus! {

/// A component type, by the index of its column.
#[derive(Copy, Clone, Debug, PartialEq, Eq, Hash, PartialOrd, Ord)]
pub struct ComponentId(pub usize);

impl ComponentId {
    pub fn index(&self) -> (r: usize)
        ensures
            r == self.0,
    {
        self.0
    }
}

/// A type that can be an entity's component.
pub trait Component: 'static {}

/// What an entity is spawned with: one component, or a pair of them.
pub trait Bundle: 'static {
    fn spawn_bundle(self, store: &mut EntityStore) -> (r: Option<EntityId>)
        requires
            old(store).wf(),
        ensures
            final(store).wf(),
            match r {
                Some(id) => {
                    &&& final(store).live(id)
                    &&& !old(store).live(id)
                    &&& reused_or_new(*old(store), id)
                    &&& forall|other: EntityId| other != id ==> final(store).live(other) == old(store).live(other)
                },
                None => forall|other: EntityId| final(store).live(other) == old(store).live(other),
            },
    ;
}

impl<C: Component> Bundle for C {
    fn spawn_bundle(self, store: &mut EntityStore) -> (r: Option<EntityId>) {
        store.spawn_component(self)
    }
}

impl<A: Component, B: Component> Bundle for (A, B) {
    fn spawn_bundle(self, store: &mut EntityStore) -> (r: Option<EntityId>) {
        let (a, b) = self;
        store.spawn_pair(a, b)
    }
}

/// Drops the value of a row of a column whose value type only the remover
/// knows.
pub trait RowRemover {
    fn remove_row(&self, col: &mut AnyBox, row: RowId);
}

/// The remover of a column of `T`s.
pub struct TypedRemover<T> {
    marker: PhantomData<T>,
}

impl<T: 'static> RowRemover for TypedRemover<T> {
    fn remove_row(&self, col: &mut AnyBox, row: RowId) {
        match any_mut::<StoreColumn<T>>(col) {
            Some(c) => c.remove(row),
            None => {},
        }
    }
}

/// The removers of the store's columns, column by column.
struct RemoverNode {
    remover: Box<dyn RowRemover>,
    next: Option<Box<RemoverNode>>,
}

spec fn remover_len(o: Option<Box<RemoverNode>>) -> nat
    decreases o,
{
    match o {
        Some(n) => 1 + remover_len(n.next),
        None => 0,
    }
}

fn push_remover(o: &mut Option<Box<RemoverNode>>, remover: Box<dyn RowRemover>)
    ensures
        remover_len(*final(o)) == remover_len(*old(o)) + 1,
    decreases remover_len(*old(o)),
{
    match o {
        Some(n) => {
            push_remover(&mut n.next, remover);
        },
        None => {
            *o = Some(Box::new(RemoverNode { remover, next: None }));
        },
    }
}

/// Drops the value of `row` in `col` with the remover of column `i`.
fn remove_with(o: &Option<Box<RemoverNode>>, i: usize, col: &mut AnyBox, row: RowId)
    decreases i,
{
    match o {
        Some(n) => {
            if i == 0 {
                n.remover.remove_row(col, row);
            } else {
                remove_with(&n.next, i - 1, col, row);
            }
        },
        None => {},
    }
}

/// The position in `view`'s columns of each of `columns`; `None` if one is
/// not among them.
fn column_positions(view: &ViewType, columns: &Vec<ColumnId>) -> (r: Option<Vec<usize>>)
    ensures
        r matches Some(cols) ==> {
            &&& cols@.len() == columns@.len()
            &&& forall|q: int| 0 <= q < columns@.len() ==> {
                &&& #[trigger] cols@[q] < view@.cols.len()
                &&& view@.cols[cols@[q] as int] == columns@[q].0
            }
        },
        (forall|q: int| 0 <= q < columns@.len() ==> view@.cols.contains(#[trigger] columns@[q].0)) ==> r is Some,
{
    let mut cols: Vec<usize> = Vec::new();
    let mut k: usize = 0;
    while k < columns.len()
        invariant
            k <= columns@.len(),
            cols@.len() == k,
            forall|q: int| 0 <= q < k ==> {
                &&& #[trigger] cols@[q] < view@.cols.len()
                &&& view@.cols[cols@[q] as int] == columns@[q].0
            },
        decreases columns@.len() - k,
    {
        match view.column_position(columns[k]) {
            Some(pos) => cols.push(pos),
            None => return None,
        }
        k = k + 1;
    }
    Some(cols)
}

/// Where an entity is: its id, and its table and row while it is live.
pub struct Entity {
    id: EntityId,
    place: Option<(TableId, RowId)>,
}

pub struct EntityStore {
    meta: StoreMeta,
    columns: Vec<AnyBox>,
    removers: Option<Box<RemoverNode>>,
    tables: Vec<Table>,
    entities: Vec<Entity>,
    alloc: EntityAlloc,
}

pub struct EntityView {
    pub id: EntityId,
    pub place: Option<(TableId, RowId)>,
}

impl View for Entity {
    type V = EntityView;

    closed spec fn view(&self) -> EntityView {
        EntityView { id: self.id, place: self.place }
    }
}

/// The views of the entities.
pub open spec fn entity_views(es: Seq<Entity>) -> Seq<EntityView> {
    es.map_values(|e: Entity| e@)
}

/// The states of the tables.
pub open spec fn table_states(tables: Seq<Table>) -> Seq<TableState> {
    tables.map_values(|t: Table| t@)
}

/// A sorted list of columns whose set is one column is that column alone.
proof fn lemma_single_column(s: Seq<usize>, c: usize)
    requires
        sorted_set(s),
        s.to_set().contains(c),
        forall|x: usize| #[trigger] s.to_set().contains(x) ==> x == c,
    ensures
        s.len() == 1,
        s[0] == c,
{
    assert(s.contains(c));
    if s.len() >= 2 {
        assert(s.to_set().contains(s[0]));
        assert(s.to_set().contains(s[1]));
        assert(s[0] < s[1]);
    }
    assert(s.to_set().contains(s[0]));
}

/// `id` is the next generation of a despawned entity's slot, or a new
/// index with the first generation.
pub open spec fn reused_or_new(old_store: EntityStore, id: EntityId) -> bool {
    if (id.0 as int) < old_store.n_entities() {
        &&& is_free_gen(old_store.entity_slot(id.0 as int).1)
        &&& id.1 == old_store.entity_slot(id.0 as int).1 & !0x8000_0000u32
    } else {
        &&& id.0 == old_store.n_entities()
        &&& id.1 == 0
    }
}

/// Entity `i` knows its index, and a placed entity is live and owns the
/// live row it names.
spec fn entity_ok(es: Seq<Entity>, ts: Seq<Table>, i: int) -> bool {
    let e = es[i];
    &&& e.id.0 == i
    &&& match e.place {
        Some((t, r)) => {
            &&& !is_free_gen(e.id.1)
            &&& t.0 < ts.len()
            &&& table_get(ts[t.0 as int]@, r) matches Some(row)
            &&& row.entity == e.id
        },
        None => is_free_gen(e.id.1),
    }
}

/// A live row of table `t` belongs to the entity it names, which is placed
/// at that row.
spec fn row_owned(es: Seq<Entity>, t: int, row: RowView) -> bool {
    &&& (row.entity.0 as int) < es.len()
    &&& es[row.entity.0 as int].id == row.entity
    &&& es[row.entity.0 as int].place == Some((TableId(t as usize), row.row))
}

/// Every live row of every table belongs to its entity.
spec fn rows_owned(es: Seq<Entity>, ts: Seq<Table>) -> bool {
    forall|t: int, j: int| 0 <= t < ts.len() && 0 <= j < ts[t]@.rows.len()
        && !is_free_gen(#[trigger] ts[t]@.rows[j].row.1)
        ==> row_owned(es, t, ts[t]@.rows[j])
}

impl EntityStore {
    pub closed spec fn n_entities(&self) -> nat {
        self.entities@.len()
    }

    pub closed spec fn meta_view(&self) -> StoreMeta {
        self.meta
    }

    pub closed spec fn entities_view(&self) -> Seq<EntityView> {
        entity_views(self.entities@)
    }

    pub closed spec fn alloc_view(&self) -> EntityAlloc {
        self.alloc
    }

    pub closed spec fn n_columns(&self) -> nat {
        self.columns@.len()
    }

    pub closed spec fn tables_view(&self) -> Seq<TableState> {
        table_states(self.tables@)
    }

    /// The id last given out at `index`, freed if its entity was despawned.
    pub closed spec fn entity_slot(&self, index: int) -> EntityId {
        self.entities@[index].id
    }

    /// `id` names a spawned entity that is not despawned.
    pub closed spec fn live(&self, id: EntityId) -> bool {
        &&& (id.0 as int) < self.entities@.len()
        &&& self.entities@[id.0 as int].id == id
        &&& self.entities@[id.0 as int].place is Some
    }

    /// The table of a live entity.
    pub closed spec fn table_of(&self, id: EntityId) -> usize {
        match self.entities@[id.0 as int].place {
            Some((t, _)) => t.0,
            None => 0,
        }
    }

    pub closed spec fn wf(&self) -> bool {
        &&& self.meta.wf()
        &&& self.columns@.len() == self.meta.cols().len()
        &&& remover_len(self.removers) == self.columns@.len()
        &&& self.tables@.len() == self.meta.tabs().len()
        &&& self.tables@.len() >= 1
        &&& self.meta.tabs()[0].columns.len() == 0
        &&& forall|t: int| #![trigger self.tables@[t]] 0 <= t < self.tables@.len() ==> {
            &&& table_inv(self.tables@[t]@)
            &&& self.tables@[t]@.id == t
            &&& forall|j: int| 0 <= j < self.tables@[t]@.rows.len()
                ==> (#[trigger] self.tables@[t]@.rows[j]).columns.len() == self.meta.tabs()[t].columns.len()
        }
        &&& self.alloc.wf()
        &&& self.entities@.len() == self.alloc.capacity()
        &&& forall|i: int| 0 <= i < self.entities@.len() ==> #[trigger] entity_ok(self.entities@, self.tables@, i)
        &&& rows_owned(self.entities@, self.tables@)
        &&& self.alloc.free_ids().no_duplicates()
        &&& forall|k: int| 0 <= k < self.alloc.free_ids().len() ==> {
            let f = #[trigger] self.alloc.free_ids()[k];
            &&& (f.0 as int) < self.entities@.len()
            &&& self.entities@[f.0 as int].id == f
            &&& self.entities@[f.0 as int].place is None
        }
    }

    pub fn new() -> (r: EntityStore)
        ensures
            r.wf(),
            r.n_entities() == 0,
    {
        let mut meta = StoreMeta::new();
        let t = meta.add_table(Vec::new());
        proof {
            assert(col_ids(Seq::<ColumnId>::empty()).to_set() =~= Set::<usize>::empty());
            let cs = meta.tabs()[t.0 as int].columns;
            if cs.len() > 0 {
                assert(cs.to_set().contains(cs[0]));
            }
        }
        let mut tables: Vec<Table> = Vec::new();
        tables.push(Table::new(t));
        let r = EntityStore {
            meta,
            columns: Vec::new(),
            removers: None,
            tables,
            entities: Vec::new(),
            alloc: EntityAlloc::new(),
        };
        r
    }

    /// The number of entity indices handed out, live or despawned.
    pub fn len(&self) -> (r: usize)
        ensures
            r == self.n_entities(),
    {
        self.entities.len()
    }

    /// The column of `T`, added with an empty store column if it is new.
    pub fn add_column<T: 'static>(&mut self) -> (r: ColumnId)
        requires
            old(self).wf(),
        ensures
            final(self).wf(),
            r.0 < final(self).meta_view().cols().len(),
            final(self).meta_view().cols().len() >= old(self).meta_view().cols().len(),
            final(self).entities_view() == old(self).entities_view(),
            final(self).tables_view() == old(self).tables_view(),
            final(self).alloc_view() == old(self).alloc_view(),
            final(self).meta_view().tabs() == old(self).meta_view().tabs(),
            final(self).meta_view().views_v() == old(self).meta_view().views_v(),
            final(self).meta_view().vts() == old(self).meta_view().vts(),
            forall|other: EntityId| final(self).live(other) == old(self).live(other),
            final(self).n_entities() == old(self).n_entities(),
            forall|i: int| #[trigger] final(self).entity_slot(i) == old(self).entity_slot(i),
    {
        let id = self.meta.add_column::<T>();
        if id.0 < self.columns.len() {
            proof { self.lemma_same_tables(*old(self)); }
            return id;
        }
        assert(self.meta.cols().len() == old(self).meta.cols().len() + 1);
        let col = Column::<T>::with_id(id);
        self.columns.push(any_new(StoreColumn::new(col)));
        push_remover(&mut self.removers, Box::new(TypedRemover::<T> { marker: PhantomData }));
        proof { self.lemma_same_tables(*old(self)); }
        id
    }

    /// The table of the given set of columns, added if it is new; `None`
    /// when the store has no room for more tables.
    pub fn add_table(&mut self, columns: Vec<ColumnId>) -> (r: Option<TableId>)
        requires
            old(self).wf(),
            forall|j: int| 0 <= j < columns@.len() ==> #[trigger] columns@[j].0 < old(self).meta_view().cols().len(),
        ensures
            final(self).wf(),
            final(self).entities_view() == old(self).entities_view(),
            final(self).alloc_view() == old(self).alloc_view(),
            final(self).n_columns() == old(self).n_columns(),
            old(self).tables_view().is_prefix_of(final(self).tables_view()),
            old(self).meta_view().tabs().is_prefix_of(final(self).meta_view().tabs()),
            final(self).meta_view().cols().len() == old(self).meta_view().cols().len(),
            forall|other: EntityId| final(self).live(other) == old(self).live(other),
            final(self).n_entities() == old(self).n_entities(),
            forall|i: int| #[trigger] final(self).entity_slot(i) == old(self).entity_slot(i),
            (r is Some) <== (old(self).meta_view().tabs().len() < usize::MAX
                && old(self).meta_view().vts().len() < usize::MAX - old(self).meta_view().views_v().len()),
            r is None ==> *final(self) == *old(self),
            r matches Some(t) ==> {
                &&& t.0 < final(self).tables_view().len()
                &&& sorted_set(final(self).meta_view().tabs()[t.0 as int].columns)
                &&& final(self).meta_view().tabs()[t.0 as int].columns.to_set() == col_ids(columns@).to_set()
            },
    {
        let n_tables = self.meta.n_tables();
        let n_views = self.meta.n_views();
        let n_vts = self.meta.n_view_tables();
        if n_tables == usize::MAX || n_vts >= usize::MAX - n_views {
            return None;
        }
        let ghost tables0 = self.tables@;
        let t = self.meta.add_table(columns);
        if t.0 < self.tables.len() {
            proof {
                assert(table_states(self.tables@) == table_states(tables0));
                self.lemma_same_tables(*old(self));
            }
            return Some(t);
        }
        self.tables.push(Table::new(t));
        proof {
            assert(table_states(tables0).is_prefix_of(table_states(self.tables@)));
            assert forall|tt: int| #![trigger self.tables@[tt]] 0 <= tt < self.tables@.len() implies {
                &&& table_inv(self.tables@[tt]@)
                &&& self.tables@[tt]@.id == tt
                &&& forall|j: int| 0 <= j < self.tables@[tt]@.rows.len()
                    ==> (#[trigger] self.tables@[tt]@.rows[j]).columns.len() == self.meta.tabs()[tt].columns.len()
            } by {
                if tt < tables0.len() {
                    assert(tables0[tt] == self.tables@[tt]);
                    assert(old(self).meta.tabs()[tt] == self.meta.tabs()[tt]);
                }
            }
            assert forall|i: int| 0 <= i < self.entities@.len() implies #[trigger] entity_ok(self.entities@, self.tables@, i) by {
                assert(entity_ok(old(self).entities@, old(self).tables@, i));
                match self.entities@[i].place {
                    Some((tt, rr)) => {
                        assert(self.tables@[tt.0 as int] == tables0[tt.0 as int]);
                    },
                    None => {},
                }
            }
        }
        Some(t)
    }

    /// The entity a live row names is live.
    proof fn lemma_live_row(&self, t: int, j: int)
        requires
            self.wf(),
            0 <= t < self.tables_view().len(),
            0 <= j < self.tables_view()[t].rows.len(),
            !is_free_gen(self.tables_view()[t].rows[j].row.1),
        ensures
            self.live(self.tables_view()[t].rows[j].entity),
    {
        assert(self.tables_view()[t] == self.tables@[t]@);
        assert(row_owned(self.entities@, t, self.tables@[t]@.rows[j]));
    }

    /// Two stores with the same slots give out the same next ids.
    proof fn lemma_same_slots(&self, other: EntityStore)
        requires
            self.n_entities() == other.n_entities(),
            forall|i: int| #[trigger] self.entity_slot(i) == other.entity_slot(i),
        ensures
            forall|id: EntityId| reused_or_new(*self, id) == reused_or_new(other, id),
    {
    }

    /// A store that differs from a well-formed one only in what its columns
    /// hold is well formed.
    proof fn lemma_columns_only(&self, old_store: EntityStore)
        requires
            old_store.wf(),
            self.meta == old_store.meta,
            self.tables == old_store.tables,
            self.entities == old_store.entities,
            self.alloc == old_store.alloc,
            self.removers == old_store.removers,
            self.columns@.len() == old_store.columns@.len(),
        ensures
            self.wf(),
    {
        assert forall|i: int| 0 <= i < self.entities@.len() implies #[trigger] entity_ok(self.entities@, self.tables@, i) by {
            assert(entity_ok(old_store.entities@, old_store.tables@, i));
        }
    }

    /// With the same tables, entities and allocation, a store is well
    /// formed when its meta keeps the same tables and is well formed.
    proof fn lemma_same_tables(&self, old_store: EntityStore)
        requires
            old_store.wf(),
            self.meta.wf(),
            self.columns@.len() == self.meta.cols().len(),
            remover_len(self.removers) == self.columns@.len(),
            self.meta.tabs() == old_store.meta.tabs(),
            self.tables == old_store.tables,
            self.entities == old_store.entities,
            self.alloc == old_store.alloc,
        ensures
            self.wf(),
    {
        assert forall|i: int| 0 <= i < self.entities@.len() implies #[trigger] entity_ok(self.entities@, self.tables@, i) by {
            assert(entity_ok(old_store.entities@, old_store.tables@, i));
        }
    }

    /// Places a new entity in table `t`, with `cols` its rows in the
    /// table's columns.
    fn place_new(&mut self, t: TableId, cols: Vec<RowId>) -> (r: EntityId)
        requires
            old(self).wf(),
            t.0 < old(self).tables@.len(),
            cols@.len() == old(self).meta.tabs()[t.0 as int].columns.len(),
            old(self).tables@[t.0 as int]@.free.len() > 0 || old(self).tables@[t.0 as int]@.rows.len() < u32::MAX,
            old(self).alloc.free_ids().len() > 0 || old(self).alloc.capacity() < u32::MAX,
        ensures
            final(self).wf(),
            final(self).live(r),
            !old(self).live(r),
            final(self).table_of(r) == t.0,
            forall|other: EntityId| other != r ==> final(self).live(other) == old(self).live(other),
            final(self).meta == old(self).meta,
            final(self).columns == old(self).columns,
            final(self).removers == old(self).removers,
            final(self).entities@.len() == old(self).entities@.len()
                || final(self).entities@.len() == old(self).entities@.len() + 1,
            reused_or_new(*old(self), r),
    {
        let ghost es0 = self.entities@;
        let ghost free0 = self.alloc.free_ids();
        let ghost tables0 = self.tables@;
        let ghost ti = t.0 as int;
        let ghost tab0 = tables0[ti]@;
        let id = match self.alloc.allocate() {
            Some(id) => id,
            None => {
                assert(false);
                EntityId(0, 0)
            },
        };
        let ghost cv = cols@;
        let mut table = Table::new(t);
        std::mem::swap(&mut table, &mut self.tables[t.index()]);
        assert(table@ == tab0);
        let row = table.push(id, cols);
        let ghost tab1 = table@;
        self.tables.set(t.index(), table);
        let i = id.index();
        let ghost was_free = free0.len() > 0;
        let ghost tab_free = tab0.free.len() > 0;
        if i < self.entities.len() {
            self.entities.set(i, Entity { id, place: Some((t, row)) });
        } else {
            self.entities.push(Entity { id, place: Some((t, row)) });
        }
        proof {
            let es = self.entities@;
            let ts = self.tables@;
            assert(ts == tables0.update(ti, ts[ti]));
            assert(ts[ti]@ == tab1);
            if was_free {
                let f = free0.last();
                assert(free0[free0.len() - 1] == f);
                assert(es0[f.0 as int].id == f);
                assert(i == f.0);
                assert(es == es0.update(i as int, Entity { id, place: Some((t, row)) }));
            } else {
                assert(i == es0.len());
                assert(es == es0.push(Entity { id, place: Some((t, row)) }));
            }
            // the other entities keep their rows
            assert forall|j: int| 0 <= j < es.len() implies #[trigger] entity_ok(self.entities@, self.tables@, j) by {
                if j != i {
                    assert(es[j] == es0[j]);
                    assert(entity_ok(old(self).entities@, old(self).tables@, j));
                    match es[j].place {
                        Some((tt, rr)) => {
                            if tt.0 == t.0 {
                                let old_row = table_get(tab0, rr);
                                assert(old_row is Some);
                                if tab_free {
                                    let fr = tab0.free.last();
                                    assert(tab0.free[tab0.free.len() - 1] == fr);
                                    assert(tab0.rows[fr.0 as int].row == fr);
                                    assert(rr.0 != fr.0);
                                    assert(tab1.rows[rr.0 as int] == tab0.rows[rr.0 as int]);
                                } else {
                                    assert(tab1.rows[rr.0 as int] == tab0.rows[rr.0 as int]);
                                }
                            } else {
                                assert(ts[tt.0 as int] == tables0[tt.0 as int]);
                            }
                        },
                        None => {},
                    }
                }
            }
            assert forall|tt: int| #![trigger self.tables@[tt]] 0 <= tt < self.tables@.len() implies {
                &&& table_inv(self.tables@[tt]@)
                &&& self.tables@[tt]@.id == tt
                &&& forall|j: int| 0 <= j < self.tables@[tt]@.rows.len()
                    ==> (#[trigger] self.tables@[tt]@.rows[j]).columns.len() == self.meta.tabs()[tt].columns.len()
            } by {
                if tt != ti {
                    assert(ts[tt] == tables0[tt]);
                } else {
                    assert forall|j: int| 0 <= j < tab1.rows.len()
                        implies (#[trigger] tab1.rows[j]).columns.len() == self.meta.tabs()[tt].columns.len() by {
                        if tab_free {
                            let fr = tab0.free.last();
                            if j != fr.0 {
                                assert(tab1.rows[j] == tab0.rows[j]);
                            }
                        } else if j < tab0.rows.len() {
                            assert(tab1.rows[j] == tab0.rows[j]);
                        }
                    }
                }
            }
            let free1 = self.alloc.free_ids();
            if was_free {
                assert(free1 =~= free0.drop_last());
                assert forall|a: int, b: int| 0 <= a < free1.len() && 0 <= b < free1.len() && a != b
                    implies free1[a] != free1[b] by {
                    assert(free1[a] == free0[a]);
                    assert(free1[b] == free0[b]);
                }
                assert forall|k: int| 0 <= k < free1.len() implies {
                    let f = #[trigger] free1[k];
                    &&& (f.0 as int) < es.len()
                    &&& es[f.0 as int].id == f
                    &&& es[f.0 as int].place is None
                } by {
                    let f = free1[k];
                    assert(f == free0[k]);
                    assert(es0[f.0 as int].id == f);
                    let last = free0[free0.len() - 1];
                    assert(es0[last.0 as int].id == last);
                    assert(f != last);
                    assert(f.0 != last.0);
                }
            } else {
                assert forall|k: int| 0 <= k < free1.len() implies {
                    let f = #[trigger] free1[k];
                    &&& (f.0 as int) < es.len()
                    &&& es[f.0 as int].id == f
                    &&& es[f.0 as int].place is None
                } by {
                    assert(false);
                }
            }
            // the new id was not live before
            if i < es0.len() {
                assert(es0[i as int].place is None);
            }
            if was_free {
                let f = free0.last();
                assert(free0[free0.len() - 1] == f);
                old(self).alloc.lemma_free_ids();
                assert(old(self).alloc.free_ids()[free0.len() - 1].0 < old(self).alloc.capacity());
                assert(is_free_gen(f.1));
                assert(es0[f.0 as int].id == f);
            }
        }
        id
    }

    /// A new entity holding the component `value`; `None` when the store
    /// has no room for it or its column's values are not of type `T`.
    pub(crate) fn spawn_component<T: 'static>(&mut self, value: T) -> (r: Option<EntityId>)
        requires
            old(self).wf(),
        ensures
            final(self).wf(),
            match r {
                Some(id) => {
                    &&& final(self).live(id)
                    &&& !old(self).live(id)
                    &&& reused_or_new(*old(self), id)
                    &&& forall|other: EntityId| other != id ==> final(self).live(other) == old(self).live(other)
                },
                None => forall|other: EntityId| final(self).live(other) == old(self).live(other),
            },
            final(self).n_entities() == old(self).n_entities()
                || final(self).n_entities() == old(self).n_entities() + 1,
    {
        let c = self.add_column::<T>();
        let ghost s1 = *self;
        let mut cols: Vec<ColumnId> = Vec::new();
        cols.push(c);
        let t = match self.add_table(cols) {
            Some(t) => t,
            None => return None,
        };
        let ghost s2 = *self;
        proof {
            assert forall|i: int| #[trigger] s2.entity_slot(i) == old(self).entity_slot(i) by {
                assert(s1.entity_slot(i) == old(self).entity_slot(i));
            }
            let ts = self.meta.tabs()[t.0 as int].columns;
            let one = col_ids(seq![c]);
            assert(one =~= seq![c.0]);
            assert(one[0] == c.0);
            assert(one.to_set().contains(c.0));
            assert forall|x: usize| #[trigger] ts.to_set().contains(x) implies x == c.0 by {
                assert(one.to_set().contains(x));
                assert(one.contains(x));
            }
            lemma_single_column(ts, c.0);
        }
        if !self.tables[t.index()].can_push() || !self.alloc.can_allocate() {
            return None;
        }
        let ghost before = *self;
        let row = match any_mut::<StoreColumn<T>>(&mut self.columns[c.index()]) {
            Some(col) => col.push(value),
            None => None,
        };
        proof {
            assert(self.columns@.len() == before.columns@.len());
            self.lemma_columns_only(before);
        }
        match row {
            Some(row) => {
                let mut rows: Vec<RowId> = Vec::new();
                rows.push(row);
                proof {
                    assert forall|i: int| #[trigger] self.entity_slot(i) == old(self).entity_slot(i) by {
                        assert(s2.entity_slot(i) == old(self).entity_slot(i));
                    }
                    self.lemma_same_slots(*old(self));
                }
                Some(self.place_new(t, rows))
            },
            None => None,
        }
    }

    /// A new entity holding the components `a` and `b`, of two types;
    /// `None` when the two types are one, when the store has no room, or
    /// when a column's values are not of its type.
    pub(crate) fn spawn_pair<A: 'static, B: 'static>(&mut self, a: A, b: B) -> (r: Option<EntityId>)
        requires
            old(self).wf(),
        ensures
            final(self).wf(),
            match r {
                Some(id) => {
                    &&& final(self).live(id)
                    &&& !old(self).live(id)
                    &&& reused_or_new(*old(self), id)
                    &&& forall|other: EntityId| other != id ==> final(self).live(other) == old(self).live(other)
                },
                None => forall|other: EntityId| final(self).live(other) == old(self).live(other),
            },
            final(self).n_entities() == old(self).n_entities()
                || final(self).n_entities() == old(self).n_entities() + 1,
    {
        let ca = self.add_column::<A>();
        let ghost s1 = *self;
        let cb = self.add_column::<B>();
        let ghost s2 = *self;
        if ca.0 == cb.0 {
            return None;
        }
        let mut cols: Vec<ColumnId> = Vec::new();
        cols.push(ca);
        cols.push(cb);
        let t = match self.add_table(cols) {
            Some(t) => t,
            None => return None,
        };
        let ghost s3 = *self;
        proof {
            assert forall|i: int| #[trigger] s3.entity_slot(i) == old(self).entity_slot(i) by {
                assert(s1.entity_slot(i) == old(self).entity_slot(i));
                assert(s2.entity_slot(i) == s1.entity_slot(i));
            }
        }
        let tcols = self.meta.table(t).columns();
        if tcols.len() != 2 {
            return None;
        }
        let first_is_a = tcols[0].0 == ca.0;
        if !self.tables[t.index()].can_push() || !self.alloc.can_allocate() {
            return None;
        }
        let ghost before = *self;
        let ra = match any_mut::<StoreColumn<A>>(&mut self.columns[ca.index()]) {
            Some(col) => col.push(a),
            None => None,
        };
        proof {
            assert(self.columns@.len() == before.columns@.len());
            self.lemma_columns_only(before);
        }
        let ra = match ra {
            Some(ra) => ra,
            None => return None,
        };
        let ghost before = *self;
        let rb = match any_mut::<StoreColumn<B>>(&mut self.columns[cb.index()]) {
            Some(col) => col.push(b),
            None => None,
        };
        proof {
            assert(self.columns@.len() == before.columns@.len());
            self.lemma_columns_only(before);
        }
        let rb = match rb {
            Some(rb) => rb,
            None => {
                let ghost before = *self;
                match any_mut::<StoreColumn<A>>(&mut self.columns[ca.index()]) {
                    Some(col) => col.remove(ra),
                    None => {},
                }
                proof {
                    assert(self.columns@.len() == before.columns@.len());
                    self.lemma_columns_only(before);
                }
                return None;
            },
        };
        proof {
            assert forall|i: int| #[trigger] self.entity_slot(i) == old(self).entity_slot(i) by {
                assert(s3.entity_slot(i) == old(self).entity_slot(i));
            }
            self.lemma_same_slots(*old(self));
        }
        let mut rows: Vec<RowId> = Vec::new();
        if first_is_a {
            rows.push(ra);
            rows.push(rb);
        } else {
            rows.push(rb);
            rows.push(ra);
        }
        Some(self.place_new(t, rows))
    }

    /// A new entity holding `bundle`'s components.
    pub fn spawn<T: Bundle>(&mut self, bundle: T) -> (r: Option<EntityId>)
        requires
            old(self).wf(),
        ensures
            final(self).wf(),
            match r {
                Some(id) => {
                    &&& final(self).live(id)
                    &&& !old(self).live(id)
                    &&& reused_or_new(*old(self), id)
                    &&& forall|other: EntityId| other != id ==> final(self).live(other) == old(self).live(other)
                },
                None => forall|other: EntityId| final(self).live(other) == old(self).live(other),
            },
    {
        bundle.spawn_bundle(self)
    }

    /// `id`, when its index is one the store has handed out.
    pub fn get_entity(&self, id: EntityId) -> (r: Option<EntityId>)
        ensures
            r is Some <==> (id.0 as int) < self.n_entities(),
            r matches Some(x) ==> x == id,
    {
        if id.index() < self.entities.len() {
            Some(id)
        } else {
            None
        }
    }

    /// A new entity without components, in the table without columns.
    pub fn spawn_empty(&mut self) -> (r: Option<EntityId>)
        requires
            old(self).wf(),
        ensures
            final(self).wf(),
            match r {
                Some(id) => {
                    &&& final(self).live(id)
                    &&& !old(self).live(id)
                    &&& final(self).table_of(id) == 0
                    &&& forall|other: EntityId| other != id ==> final(self).live(other) == old(self).live(other)
                },
                None => *final(self) == *old(self),
            },
            (r is Some) == ((old(self).tables_view()[0].free.len() > 0 || old(self).tables_view()[0].rows.len() < u32::MAX)
                && (old(self).alloc_view().free_ids().len() > 0 || old(self).alloc_view().capacity() < u32::MAX)),
    {
        proof { assert(self.tables_view()[0] == self.tables@[0]@); }
        if !self.tables[0].can_push() || !self.alloc.can_allocate() {
            return None;
        }
        Some(self.place_new(TableId(0), Vec::new()))
    }

    /// The column row of entity `id` in the column of `T`, and that column:
    /// `None` unless `id` is live and its table has the column.
    fn find_row<T: 'static>(&self, id: EntityId) -> (r: Option<(ColumnId, RowId)>)
        requires
            self.wf(),
        ensures
            r matches Some((c, _)) ==> self.live(id) && c.0 < self.columns@.len(),
    {
        let i = id.index();
        if i >= self.entities.len() {
            return None;
        }
        let e = &self.entities[i];
        if e.id != id {
            return None;
        }
        match e.place {
            None => None,
            Some((t, row_id)) => {
                proof { assert(entity_ok(self.entities@, self.tables@, i as int)); }
                let c = match self.meta.get_column::<T>() {
                    Some(c) => c,
                    None => return None,
                };
                let row = match self.tables[t.index()].get(row_id) {
                    Some(row) => row,
                    None => return None,
                };
                match self.meta.table(t).position(c) {
                    Some(pos) => {
                        proof {
                            assert(self.tables@[t.0 as int]@.rows[row_id.0 as int] == row@);
                        }
                        Some((c, row.column(pos)))
                    },
                    None => None,
                }
            },
        }
    }

    /// The `T` of entity `id`: `None` unless `id` is live and has one.
    pub fn get<T: 'static>(&self, id: EntityId) -> (r: Option<&T>)
        requires
            self.wf(),
        ensures
            r is Some ==> self.live(id),
    {
        match self.find_row::<T>(id) {
            Some((c, row)) => match any_ref::<StoreColumn<T>>(&self.columns[c.index()]) {
                Some(col) => col.get(row),
                None => None,
            },
            None => None,
        }
    }

    /// The `T` of entity `id`, to change in place: `None` unless `id` is
    /// live and has one.  Only the component changes.
    pub fn get_mut<T: 'static>(&mut self, id: EntityId) -> (r: Option<&mut T>)
        requires
            old(self).wf(),
        ensures
            final(self).wf(),
            r is Some ==> old(self).live(id),
            forall|other: EntityId| final(self).live(other) == old(self).live(other),
            final(self).n_entities() == old(self).n_entities(),
            forall|i: int| #[trigger] final(self).entity_slot(i) == old(self).entity_slot(i),
            final(self).meta_view() == old(self).meta_view(),
            final(self).tables_view() == old(self).tables_view(),
    {
        match self.find_row::<T>(id) {
            Some((c, row)) => {
                match any_mut::<StoreColumn<T>>(&mut self.columns[c.index()]) {
                    Some(col) => col.get_mut(row),
                    None => None,
                }
            },
            None => None,
        }
    }

    /// Despawns entity `id`: drops its components, frees its row and its id.
    /// False when `id` is not live.
    pub fn despawn(&mut self, id: EntityId) -> (r: bool)
        requires
            old(self).wf(),
        ensures
            final(self).wf(),
            r == old(self).live(id),
            !final(self).live(id),
            r ==> final(self).entity_slot(id.0 as int) == EntityId(id.0, (id.1 + 1) as u32 | 0x8000_0000u32),
            forall|other: EntityId| other != id ==> final(self).live(other) == old(self).live(other),
            final(self).n_entities() == old(self).n_entities(),
    {
        let i = id.index();
        if i >= self.entities.len() || self.entities[i].id != id {
            return false;
        }
        let (t, row_id) = match self.entities[i].place {
            Some(p) => p,
            None => return false,
        };
        proof { assert(entity_ok(self.entities@, self.tables@, i as int)); }
        let ghost s0 = *self;
        let n = self.meta.table(t).columns().len();
        let mut k: usize = 0;
        while k < n
            invariant
                s0.wf(),
                self.meta == s0.meta,
                self.tables == s0.tables,
                self.entities == s0.entities,
                self.alloc == s0.alloc,
                self.removers == s0.removers,
                self.columns@.len() == s0.columns@.len(),
                t.0 < s0.tables@.len(),
                n == s0.meta.tabs()[t.0 as int].columns.len(),
                table_get(s0.tables@[t.0 as int]@, row_id) is Some,
                k <= n,
            decreases n - k,
        {
            let tcols = self.meta.table(t).columns();
            let c = tcols[k];
            proof {
                assert(col_ids(tcols@)[k as int] == c.0);
                assert(s0.meta.tabs()[t.0 as int].columns[k as int] < s0.meta.cols().len());
            }
            let cr = match self.tables[t.index()].get(row_id) {
                Some(row) => {
                    proof { assert(s0.tables@[t.0 as int]@.rows[row_id.0 as int] == row@); }
                    row.column(k)
                },
                None => RowId(0, 0),
            };
            remove_with(&self.removers, c.index(), &mut self.columns[c.index()], cr);
            k = k + 1;
        }
        proof { self.lemma_columns_only(s0); }
        let ghost s1 = *self;
        let ghost tab0 = s1.tables@[t.0 as int]@;
        let mut table = Table::new(t);
        std::mem::swap(&mut table, &mut self.tables[t.index()]);
        table.remove(row_id);
        let ghost tab1 = table@;
        self.tables.set(t.index(), table);
        let freed = id.free();
        self.entities.set(i, Entity { id: freed, place: None });
        self.alloc.free(freed);
        proof {
            let es0 = s1.entities@;
            let es = self.entities@;
            let ts = self.tables@;
            let free0 = s1.alloc.free_ids();
            let free1 = self.alloc.free_ids();
            assert(ts == s1.tables@.update(t.0 as int, ts[t.0 as int]));
            assert(ts[t.0 as int]@ == tab1);
            let g = id.1;
            assert((g + 1) as u32 | 0x8000_0000u32 != g) by (bit_vector)
                requires g & 0x8000_0000u32 == 0;
            assert forall|j: int| 0 <= j < es.len() implies #[trigger] entity_ok(self.entities@, self.tables@, j) by {
                if j != i {
                    assert(es[j] == es0[j]);
                    assert(entity_ok(s1.entities@, s1.tables@, j));
                    match es[j].place {
                        Some((tt, rr)) => {
                            if tt.0 == t.0 {
                                assert(table_get(tab0, rr) is Some);
                                if rr.0 == row_id.0 {
                                    assert(rr == row_id);
                                    assert(es0[j].id == id);
                                }
                                assert(tab1.rows[rr.0 as int] == tab0.rows[rr.0 as int]);
                            } else {
                                assert(ts[tt.0 as int] == s1.tables@[tt.0 as int]);
                            }
                        },
                        None => {},
                    }
                }
            }
            assert forall|tt: int| #![trigger self.tables@[tt]] 0 <= tt < self.tables@.len() implies {
                &&& table_inv(self.tables@[tt]@)
                &&& self.tables@[tt]@.id == tt
                &&& forall|j: int| 0 <= j < self.tables@[tt]@.rows.len()
                    ==> (#[trigger] self.tables@[tt]@.rows[j]).columns.len() == self.meta.tabs()[tt].columns.len()
            } by {
                if tt != t.0 {
                    assert(ts[tt] == s1.tables@[tt]);
                } else {
                    assert forall|j: int| 0 <= j < tab1.rows.len()
                        implies (#[trigger] tab1.rows[j]).columns.len() == self.meta.tabs()[tt].columns.len() by {
                        assert(tab1.rows[j].columns == tab0.rows[j].columns);
                    }
                }
            }
            assert forall|tt: int, j: int| 0 <= tt < ts.len() && 0 <= j < ts[tt]@.rows.len()
                && !is_free_gen(#[trigger] ts[tt]@.rows[j].row.1)
                implies row_owned(es, tt, ts[tt]@.rows[j]) by {
                if tt == t.0 {
                    assert(j != row_id.0) by {
                        if j == row_id.0 {
                            let rg = row_id.1;
                            assert(tab1.rows[j].row == RowId(row_id.0, (rg + 1) as u32 | 0x8000_0000u32));
                            assert(((rg + 1) as u32 | 0x8000_0000u32) & 0x8000_0000u32 != 0) by (bit_vector);
                        }
                    }
                    assert(tab1.rows[j] == tab0.rows[j]);
                } else {
                    assert(ts[tt] == s1.tables@[tt]);
                }
                let row = ts[tt]@.rows[j];
                assert(row_owned(es0, tt, row));
                if row.entity.0 == i {
                    assert(es0[i as int].place == Some((t, row_id)));
                    assert(tab0.rows[j].row.0 == j);
                }
            }
            assert(!free0.contains(freed)) by {
                if free0.contains(freed) {
                    let k2 = free0.index_of(freed);
                    assert(es0[freed.0 as int].place is None);
                }
            }
            assert forall|a: int, b: int| 0 <= a < free1.len() && 0 <= b < free1.len() && a != b
                implies free1[a] != free1[b] by {
                if a == free0.len() {
                    assert(free0.contains(free1[b]));
                } else if b == free0.len() {
                    assert(free0.contains(free1[a]));
                }
            }
            assert forall|k2: int| 0 <= k2 < free1.len() implies {
                let f = #[trigger] free1[k2];
                &&& (f.0 as int) < es.len()
                &&& es[f.0 as int].id == f
                &&& es[f.0 as int].place is None
            } by {
                if k2 < free0.len() {
                    let f = free1[k2];
                    assert(f == free0[k2]);
                    assert(es0[f.0 as int].place is None);
                    assert(f.0 != i);
                }
            }
        }
        true
    }

    /// A store whose entities look like those of `old_store` has the same
    /// entities.
    proof fn lemma_same_entities(&self, old_store: EntityStore)
        requires
            self.entities_view() == old_store.entities_view(),
            self.n_entities() == old_store.n_entities(),
        ensures
            forall|other: EntityId| self.live(other) == old_store.live(other),
            forall|other: EntityId| old_store.live(other)
                ==> #[trigger] self.table_of(other) == old_store.table_of(other),
            forall|j: int| 0 <= j < self.entities@.len() ==> #[trigger] self.entities@[j] == old_store.entities@[j],
    {
        assert forall|j: int| 0 <= j < self.entities@.len() implies #[trigger] self.entities@[j] == old_store.entities@[j] by {
            assert(entity_views(self.entities@)[j] == entity_views(old_store.entities@)[j]);
        }
        assert forall|other: EntityId| self.live(other) == old_store.live(other) by {
            if (other.0 as int) < self.entities@.len() {
                assert(self.entities@[other.0 as int] == old_store.entities@[other.0 as int]);
            }
        }
        assert forall|other: EntityId| old_store.live(other)
            implies #[trigger] self.table_of(other) == old_store.table_of(other) by {
            assert(self.entities@[other.0 as int] == old_store.entities@[other.0 as int]);
        }
    }

    /// Moves live entity `i`, at row `row_id` of table `t`, to a new row of
    /// table `t2` whose column rows are `rows`; its components stay where
    /// they are in the columns.
    fn move_row(&mut self, i: usize, t: TableId, row_id: RowId, t2: TableId, rows: Vec<RowId>)
        requires
            old(self).wf(),
            i < old(self).entities@.len(),
            old(self).entities@[i as int].place == Some((t, row_id)),
            t2.0 < old(self).tables@.len(),
            t2.0 != t.0,
            rows@.len() == old(self).meta.tabs()[t2.0 as int].columns.len(),
            old(self).tables@[t2.0 as int]@.free.len() > 0 || old(self).tables@[t2.0 as int]@.rows.len() < u32::MAX,
        ensures
            final(self).wf(),
            final(self).meta == old(self).meta,
            final(self).columns == old(self).columns,
            final(self).removers == old(self).removers,
            final(self).alloc == old(self).alloc,
            final(self).entities@.len() == old(self).entities@.len(),
            final(self).entities@[i as int].id == old(self).entities@[i as int].id,
            forall|j: int| 0 <= j < final(self).entities@.len() && j != i
                ==> #[trigger] final(self).entities@[j] == old(self).entities@[j],
            final(self).entities@[i as int].place matches Some((tt, _)) && tt == t2,
    {
        let ghost s0 = *self;
        proof { assert(entity_ok(self.entities@, self.tables@, i as int)); }
        let id = self.entities[i].id;
        let ghost ti = t.0 as int;
        let ghost t2i = t2.0 as int;
        let ghost tab0 = s0.tables@[ti]@;
        let ghost tab20 = s0.tables@[t2i]@;
        let mut table = Table::new(t);
        std::mem::swap(&mut table, &mut self.tables[t.index()]);
        assert(table@ == tab0);
        table.remove(row_id);
        let ghost tab1 = table@;
        self.tables.set(t.index(), table);
        let ghost ts1 = self.tables@;
        let mut table2 = Table::new(t2);
        std::mem::swap(&mut table2, &mut self.tables[t2.index()]);
        assert(table2@ == tab20);
        let ghost rv = rows@;
        let row2 = table2.push(id, rows);
        let ghost tab21 = table2@;
        self.tables.set(t2.index(), table2);
        self.entities.set(i, Entity { id, place: Some((t2, row2)) });
        proof {
            let es0 = s0.entities@;
            let es = self.entities@;
            let ts = self.tables@;
            assert(ts1 == s0.tables@.update(ti, ts1[ti]));
            assert(ts == ts1.update(t2i, ts[t2i]));
            assert(ts[ti]@ == tab1);
            assert(ts[t2i]@ == tab21);
            assert(table_get(tab20, row2) is None) by {
                if tab20.free.len() > 0 {
                    let f = tab20.free.last();
                    assert(tab20.free[tab20.free.len() - 1] == f);
                    assert(tab20.rows[f.0 as int].row == f);
                }
            }
            assert forall|j: int| 0 <= j < es.len() implies #[trigger] entity_ok(self.entities@, self.tables@, j) by {
                if j != i {
                    assert(es[j] == es0[j]);
                    assert(entity_ok(s0.entities@, s0.tables@, j));
                    match es[j].place {
                        Some((tt, rr)) => {
                            if tt.0 == t.0 {
                                if rr == row_id {
                                    assert(es0[j].id == id);
                                }
                                assert(table_get(tab1, rr) == table_get(tab0, rr));
                            } else if tt.0 == t2.0 {
                                assert(rr != row2);
                                assert(table_get(tab21, rr) == table_get(tab20, rr));
                            } else {
                                assert(ts[tt.0 as int] == s0.tables@[tt.0 as int]);
                            }
                        },
                        None => {},
                    }
                } else {
                    assert(entity_ok(s0.entities@, s0.tables@, i as int));
                }
            }
            assert forall|tt: int| #![trigger self.tables@[tt]] 0 <= tt < self.tables@.len() implies {
                &&& table_inv(self.tables@[tt]@)
                &&& self.tables@[tt]@.id == tt
                &&& forall|j: int| 0 <= j < self.tables@[tt]@.rows.len()
                    ==> (#[trigger] self.tables@[tt]@.rows[j]).columns.len() == self.meta.tabs()[tt].columns.len()
            } by {
                if tt == ti {
                    assert forall|j: int| 0 <= j < tab1.rows.len()
                        implies (#[trigger] tab1.rows[j]).columns.len() == self.meta.tabs()[tt].columns.len() by {
                        assert(tab1.rows[j].columns == tab0.rows[j].columns);
                    }
                } else if tt == t2i {
                    assert forall|j: int| 0 <= j < tab21.rows.len()
                        implies (#[trigger] tab21.rows[j]).columns.len() == self.meta.tabs()[tt].columns.len() by {
                        if tab20.free.len() > 0 {
                            let f = tab20.free.last();
                            if j != f.0 {
                                assert(tab21.rows[j] == tab20.rows[j]);
                            }
                        } else if j < tab20.rows.len() {
                            assert(tab21.rows[j] == tab20.rows[j]);
                        }
                    }
                } else {
                    assert(ts[tt] == s0.tables@[tt]);
                }
            }
            assert forall|tt: int, j: int| 0 <= tt < ts.len() && 0 <= j < ts[tt]@.rows.len()
                && !is_free_gen(#[trigger] ts[tt]@.rows[j].row.1)
                implies row_owned(es, tt, ts[tt]@.rows[j]) by {
                if tt == t2i && j == row2.0 {
                    assert(tab21.rows[j] == RowView { entity: id, row: row2, columns: rv });
                } else {
                    if tt == ti {
                        assert(j != row_id.0) by {
                            if j == row_id.0 {
                                assert(tab1.rows[j].row == RowId(row_id.0, (row_id.1 + 1) as u32 | 0x8000_0000u32));
                                let g = row_id.1;
                                assert(((g + 1) as u32 | 0x8000_0000u32) & 0x8000_0000u32 != 0) by (bit_vector);
                            }
                        }
                        assert(tab1.rows[j] == tab0.rows[j]);
                    } else if tt == t2i {
                        if tab20.free.len() > 0 {
                            let f = tab20.free.last();
                            assert(j != f.0);
                        }
                        assert(tab21.rows[j] == tab20.rows[j]);
                    } else {
                        assert(ts[tt] == s0.tables@[tt]);
                    }
                    let row = ts[tt]@.rows[j];
                    assert(row_owned(es0, tt, row));
                    if row.entity.0 == i {
                        assert(es0[i as int].place == Some((t, row_id)));
                        assert(tab0.rows[row_id.0 as int].row.0 == row_id.0);
                    }
                }
            }
            let free0 = s0.alloc.free_ids();
            assert forall|k: int| 0 <= k < free0.len() implies {
                let f = #[trigger] free0[k];
                &&& (f.0 as int) < es.len()
                &&& es[f.0 as int].id == f
                &&& es[f.0 as int].place is None
            } by {
                let f = free0[k];
                assert(es0[f.0 as int].place is None);
                assert(f.0 != i);
            }
        }
    }

    /// Adds the component `value` to the live entity `id`, replacing the
    /// `T` it has.  An entity without a `T` moves to the table of its
    /// columns and the column of `T`; its other components stay.  False,
    /// with no entity changed, when `id` is not live, when the store has no
    /// room, or when the column of `T` holds another type.
    pub fn extend<T: 'static>(&mut self, id: EntityId, value: T) -> (r: bool)
        requires
            old(self).wf(),
        ensures
            final(self).wf(),
            forall|other: EntityId| final(self).live(other) == old(self).live(other),
            final(self).n_entities() == old(self).n_entities(),
            forall|j: int| 0 <= j < final(self).n_entities() ==> #[trigger] final(self).entity_slot(j) == old(self).entity_slot(j),
            forall|other: EntityId| other != id && old(self).live(other)
                ==> #[trigger] final(self).table_of(other) == old(self).table_of(other),
            r ==> old(self).live(id),
            r ==> exists|c: usize| c < final(self).meta_view().cols().len()
                && #[trigger] final(self).meta_view().tabs()[final(self).table_of(id) as int].columns.to_set()
                    == old(self).meta_view().tabs()[old(self).table_of(id) as int].columns.to_set().insert(c),
    {
        let i = id.index();
        if i >= self.entities.len() || self.entities[i].id != id {
            return false;
        }
        let (t, row_id) = match self.entities[i].place {
            Some(p) => p,
            None => return false,
        };
        proof { assert(entity_ok(self.entities@, self.tables@, i as int)); }
        let c = self.add_column::<T>();
        let ghost s1 = *self;
        proof {
            assert(self.entities@[i as int] == old(self).entities@[i as int]) by {
                assert(entity_views(self.entities@)[i as int] == entity_views(old(self).entities@)[i as int]);
            }
            assert(self.tables@[t.0 as int]@ == old(self).tables@[t.0 as int]@) by {
                assert(table_states(self.tables@)[t.0 as int] == table_states(old(self).tables@)[t.0 as int]);
            }
        }
        match self.meta.table(t).position(c) {
            Some(pos) => {
                let cr = match self.tables[t.index()].get(row_id) {
                    Some(row) => {
                        proof {
                            assert(entity_ok(self.entities@, self.tables@, i as int));
                            assert(self.tables@[t.0 as int]@.rows[row_id.0 as int] == row@);
                        }
                        row.column(pos)
                    },
                    None => return false,
                };
                let ghost before = *self;
                let done = match any_mut::<StoreColumn<T>>(&mut self.columns[c.index()]) {
                    Some(col) => match col.get_mut(cr) {
                        Some(v) => {
                            *v = value;
                            true
                        },
                        None => false,
                    },
                    None => false,
                };
                proof {
                    assert(self.columns@.len() == before.columns@.len());
                    self.lemma_columns_only(before);
                    let cs = self.meta.tabs()[t.0 as int].columns;
                    assert(cs.to_set().contains(c.0)) by { assert(cs[pos as int] == c.0); }
                    assert(cs.to_set().insert(c.0) =~= cs.to_set());
                    assert(old(self).meta.tabs() == self.meta.tabs());
                    self.lemma_same_entities(*old(self));
                    assert forall|j: int| #[trigger] self.entity_slot(j) == old(self).entity_slot(j) by {
                        assert(s1.entity_slot(j) == old(self).entity_slot(j));
                    }
                    assert(self.table_of(id) == t.0);
                    assert(old(self).table_of(id) == t.0);
                    assert(self.meta_view().tabs()[self.table_of(id) as int].columns.to_set()
                        == old(self).meta_view().tabs()[old(self).table_of(id) as int].columns.to_set().insert(c.0));
                }
                return done;
            },
            None => {},
        }
        // the columns of the new table: those of `t`, and `c`
        let tcols = self.meta.table(t).columns();
        let mut cols: Vec<ColumnId> = Vec::new();
        let mut k: usize = 0;
        while k < tcols.len()
            invariant
                k <= tcols@.len(),
                cols@ == tcols@.take(k as int),
            decreases tcols@.len() - k,
        {
            cols.push(tcols[k]);
            k = k + 1;
            assert(cols@ =~= tcols@.take(k as int));
        }
        assert(cols@ =~= tcols@);
        let ghost tcv = tcols@;
        cols.push(c);
        let ghost cols_v = cols@;
        proof {
            assert forall|j: int| 0 <= j < cols@.len() implies #[trigger] cols@[j].0 < self.meta_view().cols().len() by {
                if j < tcols@.len() {
                    assert(col_ids(tcols@)[j] == cols@[j].0);
                    assert(self.meta.tabs()[t.0 as int].columns[j] < self.meta.cols().len());
                }
            }
        }
        let t2 = match self.add_table(cols) {
            Some(t2) => t2,
            None => {
                proof {
                    self.lemma_same_entities(*old(self));
                    assert forall|j: int| #[trigger] self.entity_slot(j) == old(self).entity_slot(j) by {
                        assert(s1.entity_slot(j) == old(self).entity_slot(j));
                    }
                }
                return false;
            },
        };
        let ghost s2 = *self;
        proof {
            self.lemma_same_entities(*old(self));
            assert forall|j: int| #[trigger] self.entity_slot(j) == old(self).entity_slot(j) by {
                assert(s1.entity_slot(j) == old(self).entity_slot(j));
            }
            assert(self.entities@[i as int] == old(self).entities@[i as int]);
        }
        if t2.0 == t.0 || !self.tables[t2.index()].can_push() {
            return false;
        }
        // the entity's rows in the columns of `t2`, with `c`'s left to fill
        let n2 = self.meta.table(t2).columns().len();
        let mut rows: Vec<RowId> = Vec::new();
        let mut cpos: usize = n2;
        let mut ok = true;
        let mut k: usize = 0;
        while k < n2
            invariant
                *self == s2,
                s2.wf(),
                t.0 < s2.tables@.len(),
                t2.0 < s2.tables@.len(),
                i < s2.entities@.len(),
                s2.entities@[i as int].place == Some((t, row_id)),
                k <= n2,
                n2 == self.meta.tabs()[t2.0 as int].columns.len(),
                rows@.len() == k,
                cpos == n2 || cpos < k,
            decreases n2 - k,
        {
            let col = self.meta.table(t2).columns()[k];
            if col.0 == c.0 {
                rows.push(RowId(0, 0));
                cpos = k;
            } else {
                let cr = match self.meta.table(t).position(col) {
                    Some(p) => match self.tables[t.index()].get(row_id) {
                        Some(row) => {
                            proof {
                                assert(self.tables@[t.0 as int]@.rows[row_id.0 as int] == row@);
                            }
                            row.column(p)
                        },
                        None => {
                            ok = false;
                            RowId(0, 0)
                        },
                    },
                    None => {
                        ok = false;
                        RowId(0, 0)
                    },
                };
                rows.push(cr);
            }
            k = k + 1;
        }
        if !ok || cpos >= n2 {
            return false;
        }
        let ghost before = *self;
        let rc = match any_mut::<StoreColumn<T>>(&mut self.columns[c.index()]) {
            Some(col) => col.push(value),
            None => None,
        };
        proof {
            assert(self.columns@.len() == before.columns@.len());
            self.lemma_columns_only(before);
        }
        let rc = match rc {
            Some(rc) => rc,
            None => return false,
        };
        rows.set(cpos, rc);
        let ghost s3 = *self;
        self.move_row(i, t, row_id, t2, rows);
        proof {
            let es = self.entities@;
            let es3 = s3.entities@;
            assert forall|j: int| 0 <= j < es.len() implies #[trigger] self.entity_slot(j) == old(self).entity_slot(j) by {
                if j != i {
                    assert(es[j] == es3[j]);
                }
            }
            assert forall|other: EntityId| self.live(other) == old(self).live(other) by {
                if (other.0 as int) < es.len() && other.0 != i {
                    assert(es[other.0 as int] == es3[other.0 as int]);
                }
            }
            assert forall|other: EntityId| other != id && old(self).live(other)
                implies #[trigger] self.table_of(other) == old(self).table_of(other) by {
                assert(other.0 != i);
                assert(es[other.0 as int] == es3[other.0 as int]);
            }
            assert(self.table_of(id) == t2.0);
            assert(old(self).table_of(id) == t.0);
            let tc = self.meta.tabs()[t.0 as int].columns;
            assert(s1.meta.tabs()[t.0 as int].columns == col_ids(tcv));
            assert(s2.meta.tabs()[t.0 as int] == s1.meta.tabs()[t.0 as int]) by {
                assert(s1.meta.tabs() == s2.meta.tabs().subrange(0, s1.meta.tabs().len() as int));
            }
            assert(cols_v =~= tcv.push(c));
            assert(col_ids(cols_v) =~= tc.push(c.0));
            tc.lemma_push_to_set_commute(c.0);
            assert(self.meta_view().tabs()[self.table_of(id) as int].columns.to_set()
                == old(self).meta_view().tabs()[old(self).table_of(id) as int].columns.to_set().insert(c.0));
        }
        true
    }

    /// The view of `columns`, added if it is new; `None` when the store has
    /// no room for more views.
    pub fn add_view(&mut self, columns: &Vec<ColumnId>) -> (r: Option<ViewId>)
        requires
            old(self).wf(),
            forall|j: int| 0 <= j < columns@.len() ==> #[trigger] columns@[j].0 < old(self).meta_view().cols().len(),
        ensures
            final(self).wf(),
            forall|other: EntityId| final(self).live(other) == old(self).live(other),
            final(self).n_entities() == old(self).n_entities(),
            forall|i: int| #[trigger] final(self).entity_slot(i) == old(self).entity_slot(i),
            final(self).tables_view() == old(self).tables_view(),
            final(self).meta_view().cols().len() == old(self).meta_view().cols().len(),
            r matches Some(v) ==> {
                &&& v.0 < final(self).meta_view().views_v().len()
                &&& final(self).meta_view().views_v()[v.0 as int].cols == col_ids(columns@)
            },
            (r is Some) <== (old(self).meta_view().views_v().len() < usize::MAX
                && old(self).meta_view().vts().len() < usize::MAX - old(self).meta_view().tabs().len()),
            r is None ==> *final(self) == *old(self),
    {
        let n_views = self.meta.n_views();
        let n_tables = self.meta.n_tables();
        let n_vts = self.meta.n_view_tables();
        if n_views == usize::MAX || n_vts >= usize::MAX - n_tables {
            return None;
        }
        let v = self.meta.add_view(columns);
        proof {
            self.lemma_same_tables(*old(self));
        }
        Some(v)
    }

    /// The plan for reading `columns`, in that order, through their view.
    pub fn view_plan(&mut self, columns: &Vec<ColumnId>) -> (r: Option<ViewPlan>)
        requires
            old(self).wf(),
            forall|j: int| 0 <= j < columns@.len() ==> #[trigger] columns@[j].0 < old(self).meta_view().cols().len(),
        ensures
            (r is Some) <== (old(self).meta_view().views_v().len() < usize::MAX
                && old(self).meta_view().vts().len() < usize::MAX - old(self).meta_view().tabs().len()),
            r matches Some(p) ==> p.components@ == columns@ && p.mut_components@.len() == 0,
            final(self).wf(),
            forall|other: EntityId| final(self).live(other) == old(self).live(other),
            final(self).n_entities() == old(self).n_entities(),
            forall|i: int| #[trigger] final(self).entity_slot(i) == old(self).entity_slot(i),
            final(self).tables_view() == old(self).tables_view(),
            final(self).meta_view().cols().len() == old(self).meta_view().cols().len(),
            r matches Some(p) ==> {
                &&& p.view.0 < final(self).meta_view().views_v().len()
                &&& p.cols@.len() == columns@.len()
                &&& forall|k: int| 0 <= k < columns@.len() ==> {
                    &&& #[trigger] p.cols@[k] < final(self).meta_view().views_v()[p.view.0 as int].cols.len()
                    &&& final(self).meta_view().views_v()[p.view.0 as int].cols[p.cols@[k] as int] == columns@[k].0
                }
            },
    {
        let v = match self.add_view(columns) {
            Some(v) => v,
            None => return None,
        };
        let view = self.meta.view(v);
        proof {
            assert forall|q: int| 0 <= q < columns@.len() implies view@.cols.contains(#[trigger] columns@[q].0) by {
                assert(col_ids(columns@)[q] == columns@[q].0);
            }
        }
        match column_positions(view, columns) {
            Some(cols) => {
                let mut components: Vec<ColumnId> = Vec::new();
                let mut k: usize = 0;
                while k < columns.len()
                    invariant
                        k <= columns@.len(),
                        components@ == columns@.take(k as int),
                    decreases columns@.len() - k,
                {
                    components.push(columns[k]);
                    k = k + 1;
                    assert(components@ =~= columns@.take(k as int));
                }
                Some(ViewPlan { view: v, cols, components, mut_components: Vec::new() })
            },
            None => None,
        }
    }

    /// The value of the plan's `k`-th column in `row`, a row of the table of
    /// view table `vt`: `None` when any of these does not fit the others.
    pub fn view_value<T: 'static>(&self, plan: &ViewPlan, vt: ViewTableId, row: &TableRow, k: usize) -> (r: Option<&T>)
        requires
            self.wf(),
    {
        if vt.0 >= self.meta.n_view_tables() || k >= plan.cols.len() {
            return None;
        }
        let view_table = self.meta.view_table(vt);
        let map = view_table.index_map();
        let i = plan.cols[k];
        if i >= map.len() {
            return None;
        }
        let p = map[i];
        let t = view_table.table_id();
        proof {
            assert(self.meta.vts()[vt.0 as int].table_id < self.meta.tabs().len());
        }
        let tcols = self.meta.table(t).columns();
        if p >= tcols.len() || p >= row.columns().len() {
            return None;
        }
        let c = tcols[p];
        proof {
            assert(col_ids(tcols@)[p as int] == c.0);
            assert(self.meta.tabs()[t.0 as int].columns[p as int] < self.meta.cols().len());
        }
        match any_ref::<StoreColumn<T>>(&self.columns[c.index()]) {
            Some(col) => col.get(row.column(p)),
            None => None,
        }
    }

    /// The values of column `k` of the plan, over the live rows of the
    /// plan's view, in the view's order.
    pub fn view_column<T: 'static>(&self, plan: &ViewPlan, k: usize) -> (r: Vec<&T>)
        requires
            self.wf(),
            plan.view.0 < self.meta_view().views_v().len(),
    {
        let mut out: Vec<&T> = Vec::new();
        let mut it = ViewIterator::new(plan.view);
        proof { self.lemma_wf(); }
        loop
            invariant_except_break
                0 <= it.cursor().0 <= self.meta_view().views_v()[plan.view.0 as int].view_tables.len(),
                0 <= it.cursor().1 <= 0x1_0000_0000,
            invariant
                self.wf(),
                it.view_id() == plan.view.0,
                plan.view.0 < self.meta_view().views_v().len(),
            decreases
                self.meta_view().views_v()[plan.view.0 as int].view_tables.len() - it.cursor().0,
                0x1_0000_0000 - it.cursor().1,
        {
            match it.next(self) {
                Some((vt, row)) => {
                    proof {
                        self.lemma_wf();
                        let meta = self.meta_view();
                        let v = plan.view.0 as int;
                        let kk = it.cursor().0;
                        let t = view_table_of(meta, v, kk) as int;
                        assert(meta.views_v()[v].view_tables[kk] < meta.vts().len());
                        assert(t < self.tables_view().len());
                        assert(table_inv(self.tables_view()[t]));
                    }
                    match self.view_value::<T>(plan, vt, row, k) {
                        Some(value) => out.push(value),
                        None => {},
                    }
                },
                None => break,
            }
        }
        out
    }

    /// The pairs of values of columns 0 and 1 of the plan, over the live
    /// rows of the plan's view, in the view's order.
    pub fn view_column_pairs<A: 'static, B: 'static>(&self, plan: &ViewPlan) -> (r: Vec<(&A, &B)>)
        requires
            self.wf(),
            plan.view.0 < self.meta_view().views_v().len(),
    {
        let mut out: Vec<(&A, &B)> = Vec::new();
        let mut it = ViewIterator::new(plan.view);
        proof { self.lemma_wf(); }
        loop
            invariant_except_break
                0 <= it.cursor().0 <= self.meta_view().views_v()[plan.view.0 as int].view_tables.len(),
                0 <= it.cursor().1 <= 0x1_0000_0000,
            invariant
                self.wf(),
                it.view_id() == plan.view.0,
                plan.view.0 < self.meta_view().views_v().len(),
            decreases
                self.meta_view().views_v()[plan.view.0 as int].view_tables.len() - it.cursor().0,
                0x1_0000_0000 - it.cursor().1,
        {
            match it.next(self) {
                Some((vt, row)) => {
                    proof {
                        self.lemma_wf();
                        let meta = self.meta_view();
                        let v = plan.view.0 as int;
                        let kk = it.cursor().0;
                        let t = view_table_of(meta, v, kk) as int;
                        assert(meta.views_v()[v].view_tables[kk] < meta.vts().len());
                        assert(t < self.tables_view().len());
                        assert(table_inv(self.tables_view()[t]));
                    }
                    match (self.view_value::<A>(plan, vt, row, 0), self.view_value::<B>(plan, vt, row, 1)) {
                        (Some(a), Some(b)) => out.push((a, b)),
                        _ => {},
                    }
                },
                None => break,
            }
        }
        out
    }

    /// The plan of the view over the columns of `cols`' types.
    fn plan_of(&mut self, columns: Vec<ColumnId>) -> (r: Option<ViewPlan>)
        requires
            old(self).wf(),
            forall|j: int| 0 <= j < columns@.len() ==> #[trigger] columns@[j].0 < old(self).meta_view().cols().len(),
        ensures
            final(self).wf(),
            forall|other: EntityId| final(self).live(other) == old(self).live(other),
            final(self).n_entities() == old(self).n_entities(),
            forall|i: int| #[trigger] final(self).entity_slot(i) == old(self).entity_slot(i),
            r matches Some(p) ==> p.view.0 < final(self).meta_view().views_v().len(),
    {
        self.view_plan(&columns)
    }

    /// The `T`s of the live entities that have one, in view order.
    pub fn view_values<T: 'static>(&mut self) -> (r: Vec<&T>)
        requires
            old(self).wf(),
        ensures
            final(self).wf(),
    {
        let c = self.add_column::<T>();
        let mut cols: Vec<ColumnId> = Vec::new();
        cols.push(c);
        match self.plan_of(cols) {
            Some(plan) => self.view_column::<T>(&plan, 0),
            None => Vec::new(),
        }
    }

    /// The live entities that have a `T`, in view order.
    pub fn view_ids<T: 'static>(&mut self) -> (r: Vec<EntityId>)
        requires
            old(self).wf(),
        ensures
            final(self).wf(),
            forall|k: int| 0 <= k < r@.len() ==> final(self).live(#[trigger] r@[k]),
            forall|other: EntityId| final(self).live(other) == old(self).live(other),
            final(self).n_entities() == old(self).n_entities(),
            forall|i: int| #[trigger] final(self).entity_slot(i) == old(self).entity_slot(i),
    {
        let c = self.add_column::<T>();
        let mut cols: Vec<ColumnId> = Vec::new();
        cols.push(c);
        match self.plan_of(cols) {
            Some(plan) => self.view_entities(&plan),
            None => Vec::new(),
        }
    }

    /// The pairs of an `A` and a `B` of the live entities that have both, in
    /// view order.
    pub fn view_pairs<A: 'static, B: 'static>(&mut self) -> (r: Vec<(&A, &B)>)
        requires
            old(self).wf(),
        ensures
            final(self).wf(),
    {
        let ca = self.add_column::<A>();
        let cb = self.add_column::<B>();
        let mut cols: Vec<ColumnId> = Vec::new();
        cols.push(ca);
        cols.push(cb);
        match self.plan_of(cols) {
            Some(plan) => self.view_column_pairs::<A, B>(&plan),
            None => Vec::new(),
        }
    }

    /// What `V` gives of each live row of the plan's view, in the view's
    /// order; rows whose columns do not fit `V` give nothing.
    pub fn view_items<V: QueryView>(&self, plan: &ViewPlan) -> (r: Vec<V::Item<'_>>)
        requires
            self.wf(),
            plan.view.0 < self.meta_view().views_v().len(),
    {
        let mut out: Vec<V::Item<'_>> = Vec::new();
        let mut it = ViewIterator::new(plan.view);
        proof { self.lemma_wf(); }
        loop
            invariant_except_break
                0 <= it.cursor().0 <= self.meta_view().views_v()[plan.view.0 as int].view_tables.len(),
                0 <= it.cursor().1 <= 0x1_0000_0000,
            invariant
                self.wf(),
                it.view_id() == plan.view.0,
                plan.view.0 < self.meta_view().views_v().len(),
            decreases
                self.meta_view().views_v()[plan.view.0 as int].view_tables.len() - it.cursor().0,
                0x1_0000_0000 - it.cursor().1,
        {
            match it.next(self) {
                Some((vt, row)) => {
                    proof {
                        self.lemma_wf();
                        let meta = self.meta_view();
                        let v = plan.view.0 as int;
                        let kk = it.cursor().0;
                        let t = view_table_of(meta, v, kk) as int;
                        assert(meta.views_v()[v].view_tables[kk] < meta.vts().len());
                        assert(t < self.tables_view().len());
                        assert(table_inv(self.tables_view()[t]));
                    }
                    let mut cursor = ViewCursor::new(self, plan, vt, row);
                    match V::deref(&mut cursor) {
                        Some(item) => out.push(item),
                        None => {},
                    }
                },
                None => break,
            }
        }
        out
    }

    /// The plan of view `V`: its columns, added if they are new, and what
    /// it reads and writes.
    pub fn view_plan_of<V: QueryView>(&mut self) -> (r: Option<ViewPlan>)
        requires
            old(self).wf(),
        ensures
            final(self).wf(),
            r matches Some(p) ==> p.view.0 < final(self).meta_view().views_v().len(),
            (r is Some) <== (old(self).meta_view().views_v().len() < usize::MAX
                && old(self).meta_view().vts().len() < usize::MAX - old(self).meta_view().tabs().len()),
    {
        let mut builder = ViewBuilder::new(self);
        V::build(&mut builder);
        builder.build()
    }

    /// What `V` gives of each live entity whose table holds `V`'s columns,
    /// in view order.
    pub fn iter_view<V: QueryView>(&mut self) -> (r: Vec<V::Item<'_>>)
        requires
            old(self).wf(),
        ensures
            final(self).wf(),
    {
        match self.view_plan_of::<V>() {
            Some(plan) => self.view_items::<V>(&plan),
            None => Vec::new(),
        }
    }

    /// The entities of the live rows of the plan's view, in the view's order.
    pub fn view_entities(&self, plan: &ViewPlan) -> (r: Vec<EntityId>)
        requires
            self.wf(),
            plan.view.0 < self.meta_view().views_v().len(),
        ensures
            forall|k: int| 0 <= k < r@.len() ==> self.live(#[trigger] r@[k]),
            forall|k: int, j: int| #[trigger] view_row_live(self.meta_view(), self.tables_view(), plan.view.0 as int, k, j)
                ==> r@.contains(self.tables_view()[view_table_of(self.meta_view(), plan.view.0 as int, k) as int].rows[j].entity),
    {
        let ghost meta = self.meta_view();
        let ghost tables = self.tables_view();
        let ghost v = plan.view.0 as int;
        let mut out: Vec<EntityId> = Vec::new();
        let mut it = ViewIterator::new(plan.view);
        proof { self.lemma_wf(); }
        loop
            invariant_except_break
                0 <= it.cursor().0 <= self.meta_view().views_v()[plan.view.0 as int].view_tables.len(),
                0 <= it.cursor().1 <= 0x1_0000_0000,
            invariant
                self.wf(),
                meta == self.meta_view(),
                tables == self.tables_view(),
                v == plan.view.0,
                forall|k: int| 0 <= k < out@.len() ==> self.live(#[trigger] out@[k]),
                it.view_id() == plan.view.0,
                plan.view.0 < self.meta_view().views_v().len(),
                forall|k2: int, j2: int| #[trigger] view_row_live(meta, tables, v, k2, j2)
                    && pos_before(k2, j2, it.cursor().0, it.cursor().1)
                    ==> out@.contains(tables[view_table_of(meta, v, k2) as int].rows[j2].entity),
            ensures
                forall|k2: int, j2: int| #[trigger] view_row_live(meta, tables, v, k2, j2)
                    ==> out@.contains(tables[view_table_of(meta, v, k2) as int].rows[j2].entity),
            decreases
                self.meta_view().views_v()[plan.view.0 as int].view_tables.len() - it.cursor().0,
                0x1_0000_0000 - it.cursor().1,
        {
            let ghost c0 = it.cursor();
            let ghost out0 = out@;
            match it.next(self) {
                Some((vt, row)) => {
                    proof {
                        self.lemma_wf();
                        let kk = it.cursor().0;
                        let t = view_table_of(meta, v, kk) as int;
                        assert(meta.views_v()[v].view_tables[kk] < meta.vts().len());
                        assert(t < self.tables_view().len());
                        assert(table_inv(self.tables_view()[t]));
                        self.lemma_live_row(t, it.cursor().1 - 1);
                    }
                    out.push(row.entity_id());
                    proof {
                        let (k, j1) = it.cursor();
                        let j = j1 - 1;
                        assert forall|k2: int, j2: int| #[trigger] view_row_live(meta, tables, v, k2, j2)
                            && pos_before(k2, j2, k, j1)
                            implies out@.contains(tables[view_table_of(meta, v, k2) as int].rows[j2].entity) by {
                            if pos_before(k2, j2, c0.0, c0.1) {
                                let e = tables[view_table_of(meta, v, k2) as int].rows[j2].entity;
                                let q = choose|q: int| 0 <= q < out0.len() && out0[q] == e;
                                assert(out@[q] == e);
                            } else if k2 == k && j2 == j {
                                assert(out@[out@.len() - 1] == row@.entity);
                            } else {
                                assert(pos_before(k2, j2, k, j));
                            }
                        }
                    }
                },
                None => break,
            }
        }
        out
    }

    /// The table `t`.
    pub fn table(&self, t: TableId) -> (r: &Table)
        requires
            t.0 < self.tables_view().len(),
        ensures
            r@ == self.tables_view()[t.0 as int],
    {
        &self.tables[t.index()]
    }

    /// What a well-formed store promises of its meta and tables.
    pub proof fn lemma_wf(&self)
        requires
            self.wf(),
        ensures
            self.meta_view().wf(),
            self.tables_view().len() == self.meta_view().tabs().len(),
            self.n_columns() == self.meta_view().cols().len(),
            forall|t: int| 0 <= t < self.tables_view().len() ==> {
                &&& table_inv(#[trigger] self.tables_view()[t])
                &&& self.tables_view()[t].id == t
                &&& forall|j: int| 0 <= j < self.tables_view()[t].rows.len()
                    ==> (#[trigger] self.tables_view()[t].rows[j]).columns.len()
                        == self.meta_view().tabs()[t].columns.len()
            },
    {
        assert forall|t: int| 0 <= t < self.tables_view().len() implies {
            &&& table_inv(#[trigger] self.tables_view()[t])
            &&& self.tables_view()[t].id == t
            &&& forall|j: int| 0 <= j < self.tables_view()[t].rows.len()
                ==> (#[trigger] self.tables_view()[t].rows[j]).columns.len()
                    == self.meta_view().tabs()[t].columns.len()
        } by {
            assert(self.tables_view()[t] == self.tables@[t]@);
        }
    }

    pub fn meta(&self) -> (r: &StoreMeta)
        ensures
            *r == self.meta_view(),
    {
        &self.meta
    }

}

} // verus!
