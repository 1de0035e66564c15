//! Walking a view: the live rows of the tables that hold the view's
//! columns, table by table in the order the view matched them, and row by
//! row within a table.

use vstd::prelude::*;

use crate::entity::column::is_free_gen;
use crate::entity::meta::{ColumnId, StoreMeta, ViewId, ViewTableId};
use crate::entity::store::{Component, EntityStore};
use crate::entity::table::{TableRow, TableState, table_inv};

verus! {

/// The view's columns a query reads, by their positions in the view.
pub struct ViewPlan {
    pub view: ViewId,
    pub cols: Vec<usize>,
    /// The columns the plan reads.
    pub components: Vec<ColumnId>,
    /// The columns the plan writes.
    pub mut_components: Vec<ColumnId>,
}

impl ViewPlan {
    pub fn components(&self) -> (r: &Vec<ColumnId>)
        ensures
            r@ == self.components@,
    {
        &self.components
    }

    pub fn mut_components(&self) -> (r: &Vec<ColumnId>)
        ensures
            r@ == self.mut_components@,
    {
        &self.mut_components
    }
}

/// The table that view `v`'s `k`-th view table matches.
pub open spec fn view_table_of(meta: StoreMeta, v: int, k: int) -> usize {
    meta.vts()[meta.views_v()[v].view_tables[k] as int].table_id
}

/// Row `j` of the table that view `v`'s `k`-th view table matches is live.
pub open spec fn view_row_live(meta: StoreMeta, tables: Seq<TableState>, v: int, k: int, j: int) -> bool {
    let t = view_table_of(meta, v, k) as int;
    &&& 0 <= k < meta.views_v()[v].view_tables.len()
    &&& 0 <= j < tables[t].rows.len()
    &&& !is_free_gen(tables[t].rows[j].row.1)
}

/// Position `(k1, j1)` comes before `(k2, j2)`: an earlier view table, or
/// an earlier row of the same one.
pub open spec fn pos_before(k1: int, j1: int, k2: int, j2: int) -> bool {
    k1 < k2 || (k1 == k2 && j1 < j2)
}

/// A cursor over the rows of a view.
pub struct ViewIterator {
    view: ViewId,
    vt_index: usize,
    row_index: usize,
}

impl ViewIterator {
    pub closed spec fn view_id(&self) -> usize {
        self.view.0
    }

    /// The view table and row the cursor looks at next.
    pub closed spec fn cursor(&self) -> (int, int) {
        (self.vt_index as int, self.row_index as int)
    }

    pub fn new(view: ViewId) -> (r: ViewIterator)
        ensures
            r.view_id() == view.0,
            r.cursor() == (0int, 0int),
    {
        ViewIterator { view, vt_index: 0, row_index: 0 }
    }

    /// The next live row of the view, with its view table: the first live
    /// row at or after the cursor.  The cursor moves just past it.
    pub fn next<'a>(&mut self, store: &'a EntityStore) -> (r: Option<(ViewTableId, &'a TableRow)>)
        requires
            store.wf(),
            old(self).view_id() < store.meta_view().views_v().len(),
        ensures
            final(self).view_id() == old(self).view_id(),
            ({
                let meta = store.meta_view();
                let tables = store.tables_view();
                let v = old(self).view_id() as int;
                let (k0, j0) = old(self).cursor();
                match r {
                    Some((vt, row)) => {
                        let (k, j1) = final(self).cursor();
                        let j = j1 - 1;
                        &&& !pos_before(k, j, k0, j0)
                        &&& view_row_live(meta, tables, v, k, j)
                        &&& vt.0 == meta.views_v()[v].view_tables[k]
                        &&& row@ == tables[view_table_of(meta, v, k) as int].rows[j]
                        &&& forall|k2: int, j2: int| !pos_before(k2, j2, k0, j0) && pos_before(k2, j2, k, j)
                            ==> !#[trigger] view_row_live(meta, tables, v, k2, j2)
                    },
                    None => forall|k2: int, j2: int| !pos_before(k2, j2, k0, j0)
                        ==> !#[trigger] view_row_live(meta, tables, v, k2, j2),
                }
            }),
    {
        let ghost meta = store.meta_view();
        let ghost tables = store.tables_view();
        let ghost v = self.view.0 as int;
        let ghost k0 = self.vt_index as int;
        let ghost j0 = self.row_index as int;
        proof {
            store.lemma_wf();
            assert forall|t: int| 0 <= t < tables.len() implies table_inv_rows(#[trigger] tables[t]) by {
                assert(table_inv(tables[t]));
            }
        }
        let view = store.meta().view(self.view);
        let n_vt = view.view_tables().len();
        while self.vt_index < n_vt
            invariant
                store.wf(),
                meta == store.meta_view(),
                tables == store.tables_view(),
                meta.wf(),
                tables.len() == meta.tabs().len(),
                forall|t: int| 0 <= t < tables.len() ==> table_inv_rows(#[trigger] tables[t]),
                v == self.view.0,
                self.view == old(self).view,
                k0 == old(self).cursor().0,
                j0 == old(self).cursor().1,
                v < meta.views_v().len(),
                view@ == meta.views_v()[v],
                n_vt == meta.views_v()[v].view_tables.len(),
                !pos_before(self.vt_index as int, self.row_index as int, k0, j0),
                forall|k2: int, j2: int| !pos_before(k2, j2, k0, j0)
                    && pos_before(k2, j2, self.vt_index as int, self.row_index as int)
                    ==> !#[trigger] view_row_live(meta, tables, v, k2, j2),
            decreases n_vt - self.vt_index, 0x1_0000_0000int - self.row_index,
        {
            let ghost k = self.vt_index as int;
            let vt_id = view.view_tables()[self.vt_index];
            proof {
                assert(meta.views_v()[v].view_tables[k] == vt_id.0);
                assert(vt_id.0 < meta.vts().len());
            }
            let vt = store.meta().view_table(vt_id);
            let t = vt.table_id();
            proof {
                assert(t.0 == view_table_of(meta, v, k));
                assert(t.0 < meta.tabs().len());
            }
            let table = store.table(t);
            if self.row_index < table.len() {
                let ghost j = self.row_index as int;
                let row = match table.get_by_index(self.row_index) {
                    Some(row) => row,
                    None => {
                        assert(false);
                        return None;
                    },
                };
                proof {
                    assert(table_inv_rows(tables[t.0 as int]));
                }
                self.row_index = self.row_index + 1;
                if row.is_alloc() {
                    return Some((vt_id, row));
                }
                proof {
                    assert(!view_row_live(meta, tables, v, k, j));
                }
            } else {
                proof {
                    assert forall|j2: int| j2 >= self.row_index implies !view_row_live(meta, tables, v, k, j2) by {}
                }
                self.vt_index = self.vt_index + 1;
                self.row_index = 0;
            }
        }
        None
    }
}

/// What a query reads of each entity: its type says which columns, in
/// which order, and what each row gives.
pub trait QueryView {
    /// What a row gives.
    type Item<'t>;

    /// Adds the view's columns to `builder`, in order.
    fn build(builder: &mut ViewBuilder)
        requires
            old(builder).wf(),
        ensures
            final(builder).wf(),
            *final(final(builder).store) == *final(old(builder).store),
            old(builder).spec_columns().is_prefix_of(final(builder).spec_columns()),
            final(builder).spec_columns().len() > old(builder).spec_columns().len(),
            (*final(builder).store).meta_view().tabs() == (*old(builder).store).meta_view().tabs(),
            (*final(builder).store).meta_view().views_v() == (*old(builder).store).meta_view().views_v(),
            (*final(builder).store).meta_view().vts() == (*old(builder).store).meta_view().vts(),
    ;

    /// What the row under `cursor` gives, reading the cursor's columns from
    /// where it stands; `None` when a column does not fit.
    fn deref<'a, 't>(cursor: &mut ViewCursor<'a, 't>) -> (r: Option<Self::Item<'t>>)
        requires
            old(cursor).wf(),
        ensures
            final(cursor).wf(),
    ;
}

impl<T: Component> QueryView for &T {
    type Item<'t> = &'t T;

    fn build(builder: &mut ViewBuilder) {
        builder.add_ref::<T>();
    }

    fn deref<'a, 't>(cursor: &mut ViewCursor<'a, 't>) -> Option<&'t T> {
        cursor.deref::<T>()
    }
}

impl<P1: QueryView, P2: QueryView> QueryView for (P1, P2) {
    type Item<'t> = (P1::Item<'t>, P2::Item<'t>);

    fn build(builder: &mut ViewBuilder) {
        P1::build(builder);
        P2::build(builder);
    }

    fn deref<'a, 't>(cursor: &mut ViewCursor<'a, 't>) -> Option<(P1::Item<'t>, P2::Item<'t>)> {
        let p1 = P1::deref(cursor);
        let p2 = P2::deref(cursor);
        match (p1, p2) {
            (Some(a), Some(b)) => Some((a, b)),
            _ => None,
        }
    }
}

impl<P1: QueryView, P2: QueryView, P3: QueryView> QueryView for (P1, P2, P3) {
    type Item<'t> = (P1::Item<'t>, P2::Item<'t>, P3::Item<'t>);

    fn build(builder: &mut ViewBuilder) {
        P1::build(builder);
        P2::build(builder);
        P3::build(builder);
    }

    fn deref<'a, 't>(cursor: &mut ViewCursor<'a, 't>) -> Option<(P1::Item<'t>, P2::Item<'t>, P3::Item<'t>)> {
        let p1 = P1::deref(cursor);
        let p2 = P2::deref(cursor);
        let p3 = P3::deref(cursor);
        match (p1, p2, p3) {
            (Some(a), Some(b), Some(c)) => Some((a, b, c)),
            _ => None,
        }
    }
}

/// Gathers the columns of a view, and which of them are read and which
/// written.
pub struct ViewBuilder<'a> {
    /// The store whose columns the view reads.
    pub store: &'a mut EntityStore,
    /// The columns gathered, in order.
    pub columns: Vec<ColumnId>,
    /// The columns read.
    pub components: Vec<ColumnId>,
    /// The columns written.
    pub mut_components: Vec<ColumnId>,
}

impl<'a> ViewBuilder<'a> {
    pub closed spec fn wf(&self) -> bool {
        &&& (*self.store).wf()
        &&& forall|j: int| 0 <= j < self.columns@.len()
            ==> #[trigger] self.columns@[j].0 < (*self.store).meta_view().cols().len()
    }

    /// The store as it stands now.
    pub open spec fn store_view(&self) -> EntityStore {
        *self.store
    }

    /// The columns gathered, in order.
    pub closed spec fn spec_columns(&self) -> Seq<ColumnId> {
        self.columns@
    }

    pub closed spec fn spec_components(&self) -> Seq<ColumnId> {
        self.components@
    }

    pub closed spec fn spec_mut_components(&self) -> Seq<ColumnId> {
        self.mut_components@
    }

    pub fn new(store: &'a mut EntityStore) -> (r: ViewBuilder<'a>)
        requires
            old(store).wf(),
        ensures
            r.wf(),
            *final(r.store) == *final(store),
            r.store_view() == *old(store),
            r.spec_columns() == Seq::<ColumnId>::empty(),
            r.spec_components() == Seq::<ColumnId>::empty(),
            r.spec_mut_components() == Seq::<ColumnId>::empty(),
    {
        ViewBuilder { store, columns: Vec::new(), components: Vec::new(), mut_components: Vec::new() }
    }

    /// Adds the column of `T`, read.
    pub fn add_ref<T: 'static>(&mut self)
        requires
            old(self).wf(),
        ensures
            final(self).wf(),
            final(self).spec_columns().len() == old(self).spec_columns().len() + 1,
            final(self).spec_columns().drop_last() == old(self).spec_columns(),
            final(self).spec_components() == old(self).spec_components().push(final(self).spec_columns().last()),
            final(self).spec_mut_components() == old(self).spec_mut_components(),
            *final(final(self).store) == *final(old(self).store),
            (*final(self).store).meta_view().tabs() == (*old(self).store).meta_view().tabs(),
            (*final(self).store).meta_view().views_v() == (*old(self).store).meta_view().views_v(),
            (*final(self).store).meta_view().vts() == (*old(self).store).meta_view().vts(),
    {
        let c = self.store.add_column::<T>();
        self.columns.push(c);
        self.components.push(c);
        proof { assert(self.columns@.drop_last() =~= old(self).columns@); }
    }

    /// Adds the column of `T`, written.
    pub fn add_mut<T: 'static>(&mut self)
        requires
            old(self).wf(),
        ensures
            final(self).wf(),
            final(self).spec_columns().len() == old(self).spec_columns().len() + 1,
            final(self).spec_columns().drop_last() == old(self).spec_columns(),
            final(self).spec_mut_components() == old(self).spec_mut_components().push(final(self).spec_columns().last()),
            final(self).spec_components() == old(self).spec_components(),
            *final(final(self).store) == *final(old(self).store),
            (*final(self).store).meta_view().tabs() == (*old(self).store).meta_view().tabs(),
            (*final(self).store).meta_view().views_v() == (*old(self).store).meta_view().views_v(),
            (*final(self).store).meta_view().vts() == (*old(self).store).meta_view().vts(),
    {
        let c = self.store.add_column::<T>();
        self.columns.push(c);
        self.mut_components.push(c);
        proof { assert(self.columns@.drop_last() =~= old(self).columns@); }
    }

    /// The plan of the gathered columns, with what it reads and writes;
    /// `None` when the store has no room for the view.
    pub fn build(self) -> (r: Option<ViewPlan>)
        requires
            self.wf(),
        ensures
            (*final(self.store)).wf(),
            (r is Some) <== (self.store_view().meta_view().views_v().len() < usize::MAX
                && self.store_view().meta_view().vts().len() < usize::MAX - self.store_view().meta_view().tabs().len()),
            r matches Some(p) ==> p.view.0 < (*final(self.store)).meta_view().views_v().len(),
            r matches Some(p) ==> p.components@ == self.spec_components()
                && p.mut_components@ == self.spec_mut_components()
                && p.cols@.len() == self.spec_columns().len(),
    {
        let ViewBuilder { store, columns, components, mut_components } = self;
        match store.view_plan(&columns) {
            Some(plan) => Some(ViewPlan { view: plan.view, cols: plan.cols, components, mut_components }),
            None => None,
        }
    }
}

/// A row of a view being read, column by column.
pub struct ViewCursor<'a, 't> {
    store: &'t EntityStore,
    plan: &'a ViewPlan,
    vt: ViewTableId,
    row: &'t TableRow,
    index: usize,
}

impl<'a, 't> ViewCursor<'a, 't> {
    pub closed spec fn wf(&self) -> bool {
        self.store.wf()
    }

    /// The column the cursor reads next, by its position in the plan.
    pub closed spec fn index(&self) -> usize {
        self.index
    }

    pub fn new(store: &'t EntityStore, plan: &'a ViewPlan, vt: ViewTableId, row: &'t TableRow) -> (r: ViewCursor<'a, 't>)
        requires
            store.wf(),
        ensures
            r.wf(),
            r.index() == 0,
    {
        ViewCursor { store, plan, vt, row, index: 0 }
    }

    /// The row's `T` in the plan's column at the cursor; the cursor moves to
    /// the next column.
    pub fn deref<T: 'static>(&mut self) -> (r: Option<&'t T>)
        requires
            old(self).wf(),
        ensures
            final(self).wf(),
            final(self).index() == if old(self).index() < usize::MAX { (old(self).index() + 1) as usize } else { old(self).index() },
    {
        let value = self.store.view_value::<T>(self.plan, self.vt, self.row, self.index);
        if self.index < usize::MAX {
            self.index = self.index + 1;
        }
        value
    }
}

/// A table has no more than `u32::MAX` rows.
pub open spec fn table_inv_rows(t: TableState) -> bool {
    t.rows.len() <= u32::MAX
}

} // verus!
