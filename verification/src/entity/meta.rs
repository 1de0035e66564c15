//! What the store knows of its types: columns (one per component type),
//! tables (one per set of columns), views (queries over columns), and the
//! view tables that match each view to each table holding its columns.

use vstd::prelude::*;
use std::any::TypeId;
use std::alloc::Layout;

use crate::schedule::planner::{insert_sorted, sorted_set, set_insert};
use crate::util::label::{type_id_of, find_type_id};

verus! {

#[derive(Copy, Clone, Debug, PartialEq, Eq, Hash, PartialOrd, Ord)]
pub struct ColumnId(pub usize);

#[derive(Copy, Clone, Debug, PartialEq, Eq, Hash, PartialOrd)]
pub struct TableId(pub usize);

#[derive(Copy, Clone, Debug, PartialEq, Eq, Hash)]
pub struct ViewId(pub usize);

#[derive(Copy, Clone, Debug, PartialEq, Eq, Hash)]
pub struct ViewTableId(pub usize);

impl ColumnId {
    pub fn index(&self) -> (r: usize)
        ensures
            r == self.0,
    {
        self.0
    }
}

impl TableId {
    pub fn index(&self) -> (r: usize)
        ensures
            r == self.0,
    {
        self.0
    }
}

impl ViewId {
    pub fn index(&self) -> (r: usize)
        ensures
            r == self.0,
    {
        self.0
    }
}

impl ViewTableId {
    pub fn index(&self) -> (r: usize)
        ensures
            r == self.0,
    {
        self.0
    }
}

pub open spec fn col_ids(s: Seq<ColumnId>) -> Seq<usize> {
    s.map_values(|c: ColumnId| c.0)
}

pub open spec fn table_ids(s: Seq<TableId>) -> Seq<usize> {
    s.map_values(|c: TableId| c.0)
}

pub open spec fn view_ids(s: Seq<ViewId>) -> Seq<usize> {
    s.map_values(|c: ViewId| c.0)
}

pub open spec fn view_table_ids(s: Seq<ViewTableId>) -> Seq<usize> {
    s.map_values(|c: ViewTableId| c.0)
}

#[verifier::external_type_specification]
#[verifier::external_body]
pub struct ExLayout(Layout);

/// Calls `Layout::from_size_align` and unwraps it; a valid size and
/// alignment never fail.
#[verifier::external_body]
fn layout_from_size_align(size: usize, align: usize) -> (r: Layout)
    requires
        vstd::layout::valid_layout(size, align),
{
    Layout::from_size_align(size, align).unwrap()
}

/// A column: one component type, its size and alignment, and the tables and
/// views that use it.
pub struct ColumnType {
    id: ColumnId,
    type_id: TypeId,
    name: String,
    size: usize,
    align: usize,
    tables: Vec<TableId>,
    views: Vec<ViewId>,
}

pub struct ColumnView {
    pub id: usize,
    pub type_id: TypeId,
    pub size: usize,
    pub align: usize,
    pub tables: Seq<usize>,
    pub views: Seq<usize>,
}

impl View for ColumnType {
    type V = ColumnView;

    closed spec fn view(&self) -> ColumnView {
        ColumnView {
            id: self.id.0,
            type_id: self.type_id,
            size: self.size,
            align: self.align,
            tables: table_ids(self.tables@),
            views: view_ids(self.views@),
        }
    }
}

impl ColumnType {
    pub fn id(&self) -> (r: ColumnId)
        ensures
            r.0 == self@.id,
    {
        self.id
    }

    pub fn name(&self) -> (r: &String) {
        &self.name
    }

    /// The size of a value of the column's type.
    pub fn _size(&self) -> (r: usize)
        ensures
            r == self@.size,
    {
        self.size
    }

    /// The layout of one element of an array of the column's type: a size
    /// is always a multiple of the alignment, so no padding is added.
    pub fn layout_padded(&self) -> (r: Layout)
        requires
            vstd::layout::valid_layout(self@.size, self@.align),
    {
        layout_from_size_align(self.size, self.align)
    }

    pub fn size_padded(&self) -> (r: usize)
        ensures
            r == self@.size,
    {
        self.size
    }

    pub fn tables(&self) -> (r: &Vec<TableId>)
        ensures
            table_ids(r@) == self@.tables,
    {
        &self.tables
    }

    pub fn views(&self) -> (r: &Vec<ViewId>)
        ensures
            view_ids(r@) == self@.views,
    {
        &self.views
    }
}

/// A table: a set of columns, held in increasing order.
pub struct TableMeta {
    id: TableId,
    columns: Vec<ColumnId>,
}

pub struct TableView {
    pub id: usize,
    pub columns: Seq<usize>,
}

impl View for TableMeta {
    type V = TableView;

    closed spec fn view(&self) -> TableView {
        TableView { id: self.id.0, columns: col_ids(self.columns@) }
    }
}

/// The position of `c` in `cols`, if it is there.
fn position_of(cols: &Vec<ColumnId>, c: ColumnId) -> (r: Option<usize>)
    ensures
        match r {
            Some(i) => i < cols@.len() && cols@[i as int].0 == c.0
                && forall|k: int| 0 <= k < i ==> cols@[k].0 != c.0,
            None => !col_ids(cols@).contains(c.0),
        },
{
    let mut i: usize = 0;
    while i < cols.len()
        invariant
            i <= cols@.len(),
            forall|k: int| 0 <= k < i ==> cols@[k].0 != c.0,
        decreases cols@.len() - i,
    {
        if cols[i].0 == c.0 {
            return Some(i);
        }
        i = i + 1;
    }
    proof {
        if col_ids(cols@).contains(c.0) {
            let k = col_ids(cols@).index_of(c.0);
            assert(cols@[k].0 == c.0);
        }
    }
    None
}

/// Every column of `view_cols` is among `table_cols`.
pub open spec fn contains_all(table_cols: Seq<usize>, view_cols: Seq<usize>) -> bool {
    forall|j: int| 0 <= j < view_cols.len() ==> table_cols.contains(#[trigger] view_cols[j])
}

impl TableMeta {
    pub fn id(&self) -> (r: TableId)
        ensures
            r.0 == self@.id,
    {
        self.id
    }

    pub fn columns(&self) -> (r: &Vec<ColumnId>)
        ensures
            col_ids(r@) == self@.columns,
    {
        &self.columns
    }

    pub fn find_column(&self, id: ColumnId) -> (r: Option<&ColumnId>)
        ensures
            match r {
                Some(c) => c.0 == id.0 && self@.columns.contains(id.0),
                None => !self@.columns.contains(id.0),
            },
    {
        match position_of(&self.columns, id) {
            Some(i) => {
                assert(col_ids(self.columns@)[i as int] == id.0);
                Some(&self.columns[i])
            },
            None => None,
        }
    }

    pub fn position(&self, id: ColumnId) -> (r: Option<usize>)
        ensures
            match r {
                Some(i) => i < self@.columns.len() && self@.columns[i as int] == id.0
                    && forall|k: int| 0 <= k < i ==> self@.columns[k] != id.0,
                None => !self@.columns.contains(id.0),
            },
    {
        position_of(&self.columns, id)
    }

    fn contains_columns(&self, cols: &Vec<ColumnId>) -> (r: bool)
        ensures
            r == contains_all(self@.columns, col_ids(cols@)),
    {
        let mut i: usize = 0;
        while i < cols.len()
            invariant
                i <= cols@.len(),
                forall|j: int| 0 <= j < i ==> self@.columns.contains(#[trigger] col_ids(cols@)[j]),
            decreases cols@.len() - i,
        {
            if self.find_column(cols[i]).is_none() {
                assert(!self@.columns.contains(col_ids(cols@)[i as int]));
                return false;
            }
            i = i + 1;
        }
        true
    }
}

/// A view: a list of columns that a query reads, and its view tables.
pub struct ViewType {
    id: ViewId,
    cols: Vec<ColumnId>,
    view_tables: Vec<ViewTableId>,
}

pub struct ViewTypeView {
    pub id: usize,
    pub cols: Seq<usize>,
    pub view_tables: Seq<usize>,
}

impl View for ViewType {
    type V = ViewTypeView;

    closed spec fn view(&self) -> ViewTypeView {
        ViewTypeView { id: self.id.0, cols: col_ids(self.cols@), view_tables: view_table_ids(self.view_tables@) }
    }
}

impl ViewType {
    pub fn id(&self) -> (r: ViewId)
        ensures
            r.0 == self@.id,
    {
        self.id
    }

    pub fn cols(&self) -> (r: &Vec<ColumnId>)
        ensures
            col_ids(r@) == self@.cols,
    {
        &self.cols
    }

    pub(crate) fn column_position(&self, col_id: ColumnId) -> (r: Option<usize>)
        ensures
            match r {
                Some(i) => i < self@.cols.len() && self@.cols[i as int] == col_id.0
                    && forall|k: int| 0 <= k < i ==> self@.cols[k] != col_id.0,
                None => !self@.cols.contains(col_id.0),
            },
    {
        position_of(&self.cols, col_id)
    }

    pub fn view_tables(&self) -> (r: &Vec<ViewTableId>)
        ensures
            view_table_ids(r@) == self@.view_tables,
    {
        &self.view_tables
    }
}

/// A view matched to a table: for each column of the view, its position in
/// the table.
pub struct ViewTableType {
    id: ViewTableId,
    view_id: ViewId,
    table_id: TableId,
    index_map: Vec<usize>,
}

pub struct ViewTableView {
    pub id: usize,
    pub view_id: usize,
    pub table_id: usize,
    pub index_map: Seq<usize>,
}

impl View for ViewTableType {
    type V = ViewTableView;

    closed spec fn view(&self) -> ViewTableView {
        ViewTableView {
            id: self.id.0,
            view_id: self.view_id.0,
            table_id: self.table_id.0,
            index_map: self.index_map@,
        }
    }
}

/// The position of the first occurrence of `x` in `s`.
pub open spec fn first_index(s: Seq<usize>, x: usize) -> int
    decreases s.len(),
{
    if s.len() == 0 || s[0] == x {
        0
    } else {
        1 + first_index(s.drop_first(), x)
    }
}

proof fn lemma_first_index(s: Seq<usize>, x: usize, i: int)
    requires
        0 <= i < s.len(),
        s[i] == x,
        forall|k: int| 0 <= k < i ==> s[k] != x,
    ensures
        first_index(s, x) == i,
    decreases i,
{
    if i > 0 {
        assert(s[0] != x);
        let t = s.drop_first();
        assert forall|k: int| 0 <= k < i - 1 implies t[k] != x by {
            assert(t[k] == s[k + 1]);
        }
        lemma_first_index(t, x, i - 1);
    }
}

/// For each column of the view, the position of its first occurrence in
/// the table.
pub open spec fn index_map_of(table_cols: Seq<usize>, view_cols: Seq<usize>) -> Seq<usize> {
    view_cols.map_values(|c: usize| first_index(table_cols, c) as usize)
}

impl ViewTableType {
    pub fn new(id: ViewTableId, table: &TableMeta, view: &ViewType) -> (r: ViewTableType)
        requires
            contains_all(table@.columns, view@.cols),
        ensures
            r@ == (ViewTableView {
                id: id.0,
                view_id: view@.id,
                table_id: table@.id,
                index_map: index_map_of(table@.columns, view@.cols),
            }),
    {
        let mut index_map: Vec<usize> = Vec::new();
        let mut i: usize = 0;
        while i < view.cols.len()
            invariant
                contains_all(table@.columns, view@.cols),
                i <= view@.cols.len(),
                index_map@ == index_map_of(table@.columns, view@.cols).take(i as int),
            decreases view@.cols.len() - i,
        {
            let c = view.cols[i];
            assert(view@.cols[i as int] == c.0);
            assert(table@.columns.contains(c.0));
            let index = table.position(c).unwrap();
            proof {
                lemma_first_index(table@.columns, c.0, index as int);
            }
            index_map.push(index);
            proof {
                assert(index_map@ =~= index_map_of(table@.columns, view@.cols).take(i + 1));
            }
            i = i + 1;
        }
        proof {
            assert(index_map@ =~= index_map_of(table@.columns, view@.cols));
        }
        ViewTableType { id, view_id: view.id, table_id: table.id, index_map }
    }

    pub fn _id(&self) -> (r: ViewTableId)
        ensures
            r.0 == self@.id,
    {
        self.id
    }

    pub fn _view_id(&self) -> (r: ViewId)
        ensures
            r.0 == self@.view_id,
    {
        self.view_id
    }

    pub fn table_id(&self) -> (r: TableId)
        ensures
            r.0 == self@.table_id,
    {
        self.table_id
    }

    pub fn index_map(&self) -> (r: &Vec<usize>)
        ensures
            r@ == self@.index_map,
    {
        &self.index_map
    }
}

} // verus!

verus! {

/// What the store knows of its types.
pub struct StoreMeta {
    column_keys: Vec<TypeId>,
    columns: Vec<ColumnType>,
    tables: Vec<TableMeta>,
    views: Vec<ViewType>,
    view_tables: Vec<ViewTableType>,
}

pub open spec fn columns_view(s: Seq<ColumnType>) -> Seq<ColumnView> {
    s.map_values(|c: ColumnType| c@)
}

pub open spec fn tables_view(s: Seq<TableMeta>) -> Seq<TableView> {
    s.map_values(|c: TableMeta| c@)
}

pub open spec fn views_view(s: Seq<ViewType>) -> Seq<ViewTypeView> {
    s.map_values(|c: ViewType| c@)
}

pub open spec fn view_tables_view(s: Seq<ViewTableType>) -> Seq<ViewTableView> {
    s.map_values(|c: ViewTableType| c@)
}

/// The invariant of the store's type information, over plain values.
pub open spec fn meta_inv(
    keys: Seq<TypeId>,
    cols: Seq<ColumnView>,
    tables: Seq<TableView>,
    views: Seq<ViewTypeView>,
    vts: Seq<ViewTableView>,
) -> bool {
    &&& keys.len() == cols.len()
    &&& keys.no_duplicates()
    &&& forall|c: int| #![trigger cols[c]] 0 <= c < cols.len() ==> {
        &&& cols[c].id == c
        &&& cols[c].type_id == keys[c]
        &&& forall|j: int| 0 <= j < cols[c].tables.len() ==> #[trigger] cols[c].tables[j] < tables.len()
        &&& forall|j: int| 0 <= j < cols[c].views.len() ==> #[trigger] cols[c].views[j] < views.len()
    }
    &&& forall|t: int| #![trigger tables[t]] 0 <= t < tables.len() ==> {
        &&& tables[t].id == t
        &&& sorted_set(tables[t].columns)
        &&& forall|j: int| 0 <= j < tables[t].columns.len() ==> #[trigger] tables[t].columns[j] < cols.len()
    }
    &&& forall|t1: int, t2: int| 0 <= t1 < tables.len() && 0 <= t2 < tables.len() && t1 != t2
        ==> #[trigger] tables[t1].columns != #[trigger] tables[t2].columns
    &&& forall|v: int| #![trigger views[v]] 0 <= v < views.len() ==> {
        &&& views[v].id == v
        &&& forall|j: int| 0 <= j < views[v].cols.len() ==> #[trigger] views[v].cols[j] < cols.len()
        &&& forall|j: int| 0 <= j < views[v].view_tables.len() ==> #[trigger] views[v].view_tables[j] < vts.len()
    }
    &&& forall|v1: int, v2: int| 0 <= v1 < views.len() && 0 <= v2 < views.len() && v1 != v2
        ==> #[trigger] views[v1].cols != #[trigger] views[v2].cols
    &&& forall|i: int| #![trigger vts[i]] 0 <= i < vts.len() ==> {
        &&& vts[i].id == i
        &&& vts[i].view_id < views.len()
        &&& vts[i].table_id < tables.len()
        &&& contains_all(tables[vts[i].table_id as int].columns, views[vts[i].view_id as int].cols)
        &&& vts[i].index_map == index_map_of(tables[vts[i].table_id as int].columns, views[vts[i].view_id as int].cols)
    }
    &&& forall|i1: int, i2: int| 0 <= i1 < vts.len() && 0 <= i2 < vts.len() && i1 != i2
        ==> !(#[trigger] vts[i1].view_id == #[trigger] vts[i2].view_id && vts[i1].table_id == vts[i2].table_id)
}

/// View `v` and table `t` have a view table if the table holds the view's
/// columns.
pub open spec fn matched(tables: Seq<TableView>, views: Seq<ViewTypeView>, vts: Seq<ViewTableView>, v: usize, t: usize) -> bool {
    contains_all(tables[t as int].columns, views[v as int].cols)
        ==> exists|i: int| 0 <= i < vts.len() && #[trigger] vts[i].view_id == v && vts[i].table_id == t
}

/// Every view is matched to every table that holds its columns.
pub open spec fn complete(tables: Seq<TableView>, views: Seq<ViewTypeView>, vts: Seq<ViewTableView>) -> bool {
    forall|v: usize, t: usize| v < views.len() && t < tables.len() ==> #[trigger] matched(tables, views, vts, v, t)
}

impl StoreMeta {
    pub closed spec fn keys(&self) -> Seq<TypeId> {
        self.column_keys@
    }

    pub closed spec fn cols(&self) -> Seq<ColumnView> {
        columns_view(self.columns@)
    }

    pub closed spec fn tabs(&self) -> Seq<TableView> {
        tables_view(self.tables@)
    }

    pub closed spec fn views_v(&self) -> Seq<ViewTypeView> {
        views_view(self.views@)
    }

    pub closed spec fn vts(&self) -> Seq<ViewTableView> {
        view_tables_view(self.view_tables@)
    }

    pub open spec fn base(&self) -> bool {
        meta_inv(self.keys(), self.cols(), self.tabs(), self.views_v(), self.vts())
    }

    pub open spec fn wf(&self) -> bool {
        &&& self.base()
        &&& complete(self.tabs(), self.views_v(), self.vts())
    }

    pub fn new() -> (r: StoreMeta)
        ensures
            r.wf(),
            r.keys().len() == 0,
            r.cols().len() == 0,
            r.tabs().len() == 0,
            r.views_v().len() == 0,
            r.vts().len() == 0,
    {
        StoreMeta {
            column_keys: Vec::new(),
            columns: Vec::new(),
            tables: Vec::new(),
            views: Vec::new(),
            view_tables: Vec::new(),
        }
    }

    pub fn column(&self, id: ColumnId) -> (r: &ColumnType)
        requires
            id.0 < self.cols().len(),
        ensures
            r@ == self.cols()[id.0 as int],
    {
        &self.columns[id.index()]
    }

    /// The column of `T`, if it has one.
    pub fn get_column<T: 'static>(&self) -> (r: Option<ColumnId>)
        requires
            self.wf(),
        ensures
            match r {
                Some(c) => c.0 < self.keys().len(),
                None => true,
            },
    {
        let key = type_id_of::<T>();
        match find_type_id(&self.column_keys, &key) {
            Some(i) => Some(ColumnId(i)),
            None => None,
        }
    }

    /// The column of `T`, added without tables or views if it is new.
    pub fn add_column<T: 'static>(&mut self) -> (r: ColumnId)
        requires
            old(self).wf(),
        ensures
            final(self).wf(),
            r.0 < final(self).keys().len(),
            final(self).tabs() == old(self).tabs(),
            final(self).views_v() == old(self).views_v(),
            final(self).vts() == old(self).vts(),
            if old(self).keys().contains(final(self).keys()[r.0 as int]) {
                &&& final(self).keys() == old(self).keys()
                &&& final(self).cols() == old(self).cols()
            } else {
                &&& r.0 == old(self).keys().len()
                &&& final(self).keys() == old(self).keys().push(final(self).keys()[r.0 as int])
                &&& final(self).cols() == old(self).cols().push(ColumnView {
                    id: r.0,
                    type_id: final(self).keys()[r.0 as int],
                    size: vstd::layout::size_of::<T>() as usize,
                    align: vstd::layout::align_of::<T>() as usize,
                    tables: Seq::empty(),
                    views: Seq::empty(),
                })
            },
    {
        let key = type_id_of::<T>();
        match find_type_id(&self.column_keys, &key) {
            Some(i) => ColumnId(i),
            None => {
                let ghost cs = self.cols();
                let id = ColumnId(self.columns.len());
                let ct = ColumnType {
                    id,
                    type_id: key,
                    name: String::new(),
                    size: core::mem::size_of::<T>(),
                    align: core::mem::align_of::<T>(),
                    tables: Vec::new(),
                    views: Vec::new(),
                };
                proof {
                    assert(table_ids(ct.tables@) =~= Seq::<usize>::empty());
                    assert(view_ids(ct.views@) =~= Seq::<usize>::empty());
                }
                self.columns.push(ct);
                self.column_keys.push(key);
                proof {
                    assert(self.cols() =~= cs.push(ct@));
                    let k = self.keys();
                    assert forall|i: int, j: int| 0 <= i < k.len() && 0 <= j < k.len() && i != j
                        implies k[i] != k[j] by {
                        if i == k.len() - 1 {
                            assert(old(self).keys().contains(k[j]));
                        } else if j == k.len() - 1 {
                            assert(old(self).keys().contains(k[i]));
                        }
                    }
                    assert(self.wf());
                }
                id
            },
        }
    }
}

} // verus!

verus! {

impl StoreMeta {
    pub fn table(&self, id: TableId) -> (r: &TableMeta)
        requires
            id.0 < self.tabs().len(),
        ensures
            r@ == self.tabs()[id.0 as int],
    {
        &self.tables[id.index()]
    }

    pub fn view(&self, id: ViewId) -> (r: &ViewType)
        requires
            id.0 < self.views_v().len(),
        ensures
            r@ == self.views_v()[id.0 as int],
    {
        &self.views[id.index()]
    }

    pub fn view_table(&self, id: ViewTableId) -> (r: &ViewTableType)
        requires
            id.0 < self.vts().len(),
        ensures
            r@ == self.vts()[id.0 as int],
    {
        &self.view_tables[id.index()]
    }

    fn find_view_table(&self, table_id: TableId, view_id: ViewId) -> (r: Option<usize>)
        ensures
            match r {
                Some(i) => i < self.vts().len() && self.vts()[i as int].view_id == view_id.0
                    && self.vts()[i as int].table_id == table_id.0,
                None => forall|i: int| 0 <= i < self.vts().len()
                    ==> !(#[trigger] self.vts()[i].view_id == view_id.0 && self.vts()[i].table_id == table_id.0),
            },
    {
        let mut i: usize = 0;
        while i < self.view_tables.len()
            invariant
                i <= self.vts().len(),
                forall|k: int| 0 <= k < i
                    ==> !(#[trigger] self.vts()[k].view_id == view_id.0 && self.vts()[k].table_id == table_id.0),
            decreases self.vts().len() - i,
        {
            let vt = &self.view_tables[i];
            assert(self.vts()[i as int] == vt@);
            if vt.view_id.0 == view_id.0 && vt.table_id.0 == table_id.0 {
                return Some(i);
            }
            i = i + 1;
        }
        None
    }

    /// The view table matching `view_id` to `table_id`, added if it is new.
    pub fn add_view_table(&mut self, table_id: TableId, view_id: ViewId) -> (r: ViewTableId)
        requires
            old(self).base(),
            table_id.0 < old(self).tabs().len(),
            view_id.0 < old(self).views_v().len(),
            contains_all(old(self).tabs()[table_id.0 as int].columns, old(self).views_v()[view_id.0 as int].cols),
            old(self).vts().len() < usize::MAX,
        ensures
            final(self).base(),
            forall|v: usize, t: usize| v < old(self).views_v().len() && t < old(self).tabs().len()
                && #[trigger] matched(old(self).tabs(), old(self).views_v(), old(self).vts(), v, t)
                ==> matched(final(self).tabs(), final(self).views_v(), final(self).vts(), v, t),
            matched(final(self).tabs(), final(self).views_v(), final(self).vts(), view_id.0, table_id.0),
            final(self).keys() == old(self).keys(),
            final(self).cols() == old(self).cols(),
            final(self).tabs() == old(self).tabs(),
            r.0 < final(self).vts().len(),
            final(self).vts()[r.0 as int].view_id == view_id.0,
            final(self).vts()[r.0 as int].table_id == table_id.0,
            (exists|i: int| 0 <= i < old(self).vts().len() && #[trigger] old(self).vts()[i].view_id == view_id.0
                && old(self).vts()[i].table_id == table_id.0) ==> {
                &&& final(self).vts() == old(self).vts()
                &&& final(self).views_v() == old(self).views_v()
            },
            !(exists|i: int| 0 <= i < old(self).vts().len() && #[trigger] old(self).vts()[i].view_id == view_id.0
                && old(self).vts()[i].table_id == table_id.0) ==> {
                &&& r.0 == old(self).vts().len()
                &&& final(self).vts() == old(self).vts().push(ViewTableView {
                    id: r.0,
                    view_id: view_id.0,
                    table_id: table_id.0,
                    index_map: index_map_of(old(self).tabs()[table_id.0 as int].columns,
                        old(self).views_v()[view_id.0 as int].cols),
                })
                &&& final(self).views_v() == old(self).views_v().update(view_id.0 as int, ViewTypeView {
                    view_tables: old(self).views_v()[view_id.0 as int].view_tables.push(r.0),
                    ..old(self).views_v()[view_id.0 as int]
                })
            },
    {
        match self.find_view_table(table_id, view_id) {
            Some(i) => ViewTableId(i),
            None => {
                let id = ViewTableId(self.view_tables.len());
                let ghost vts0 = self.vts();
                let ghost views0 = self.views_v();
                let vt = ViewTableType::new(id, &self.tables[table_id.index()], &self.views[view_id.index()]);
                self.view_tables.push(vt);
                self.views[view_id.index()].view_tables.push(id);
                proof {
                    assert(self.vts() =~= vts0.push(vt@));
                    let nv = ViewTypeView {
                        view_tables: views0[view_id.0 as int].view_tables.push(id.0),
                        ..views0[view_id.0 as int]
                    };
                    assert(view_table_ids(self.views@[view_id.0 as int].view_tables@)
                        =~= views0[view_id.0 as int].view_tables.push(id.0));
                    assert(self.views_v() =~= views0.update(view_id.0 as int, nv));
                    assert(self.base());
                    assert forall|v: usize, t: usize| v < old(self).views_v().len() && t < old(self).tabs().len()
                        && #[trigger] matched(old(self).tabs(), old(self).views_v(), old(self).vts(), v, t)
                        implies matched(self.tabs(), self.views_v(), self.vts(), v, t) by {
                        assert(self.views_v()[v as int].cols == views0[v as int].cols);
                        if contains_all(self.tabs()[t as int].columns, self.views_v()[v as int].cols) {
                            let i = choose|i: int| 0 <= i < vts0.len() && #[trigger] vts0[i].view_id == v && vts0[i].table_id == t;
                            assert(self.vts()[i] == vts0[i]);
                        }
                    }
                    assert(self.vts()[id.0 as int].view_id == view_id.0);
                }
                id
            },
        }
    }
}

} // verus!

verus! {

/// Whether `v` holds the same ids as `cols`.
fn same_cols(a: &Vec<ColumnId>, b: &Vec<ColumnId>) -> (r: bool)
    ensures
        r == (col_ids(a@) == col_ids(b@)),
{
    if a.len() != b.len() {
        proof {
            if col_ids(a@) == col_ids(b@) {
                assert(col_ids(a@).len() == col_ids(b@).len());
            }
        }
        return false;
    }
    let mut i: usize = 0;
    while i < a.len()
        invariant
            a@.len() == b@.len(),
            i <= a@.len(),
            forall|k: int| 0 <= k < i ==> a@[k].0 == b@[k].0,
        decreases a@.len() - i,
    {
        if a[i].0 != b[i].0 {
            proof {
                if col_ids(a@) == col_ids(b@) {
                    assert(col_ids(a@)[i as int] == col_ids(b@)[i as int]);
                }
            }
            return false;
        }
        i = i + 1;
    }
    assert(col_ids(a@) =~= col_ids(b@));
    true
}

/// The ids of `columns`, increasing and without repeats.
/// Two sorted lists without repeats that hold the same elements are equal.
proof fn lemma_sorted_set_eq(a: Seq<usize>, b: Seq<usize>)
    requires
        sorted_set(a),
        sorted_set(b),
        a.to_set() == b.to_set(),
    ensures
        a == b,
    decreases a.len(),
{
    if a.len() == 0 {
        if b.len() > 0 {
            assert(b.to_set().contains(b[0]));
            assert(a.to_set().contains(b[0]));
        }
        assert(a =~= b);
    } else {
        if b.len() == 0 {
            assert(a.to_set().contains(a[0]));
            assert(b.to_set().contains(a[0]));
        }
        assert(a.to_set().contains(a[0]));
        assert(b.contains(a[0]));
        assert(b.to_set().contains(b[0]));
        assert(a.contains(b[0]));
        let ja = choose|j: int| 0 <= j < b.len() && b[j] == a[0];
        let jb = choose|j: int| 0 <= j < a.len() && a[j] == b[0];
        if ja > 0 {
            assert(b[0] < b[ja]);
        }
        if jb > 0 {
            assert(a[0] < a[jb]);
        }
        assert(a[0] == b[0]);
        let a1 = a.drop_first();
        let b1 = b.drop_first();
        assert forall|x: usize| a1.to_set().contains(x) <==> b1.to_set().contains(x) by {
            if a1.to_set().contains(x) {
                assert(a1.contains(x));
                let i = choose|i: int| 0 <= i < a1.len() && a1[i] == x;
                assert(a[i + 1] == x);
                assert(a.to_set().contains(x));
                assert(b.contains(x));
                let j = choose|j: int| 0 <= j < b.len() && b[j] == x;
                assert(a[0] < a[i + 1]);
                assert(j != 0);
                assert(b1[j - 1] == x);
                assert(b1.contains(x));
            }
            if b1.to_set().contains(x) {
                assert(b1.contains(x));
                let i = choose|i: int| 0 <= i < b1.len() && b1[i] == x;
                assert(b[i + 1] == x);
                assert(b.to_set().contains(x));
                assert(a.contains(x));
                let j = choose|j: int| 0 <= j < a.len() && a[j] == x;
                assert(b[0] < b[i + 1]);
                assert(j != 0);
                assert(a1[j - 1] == x);
                assert(a1.contains(x));
            }
        }
        assert(a1.to_set() =~= b1.to_set());
        lemma_sorted_set_eq(a1, b1);
        assert(a =~= b) by {
            assert forall|i: int| 0 <= i < a.len() implies a[i] == b[i] by {
                if i > 0 {
                    assert(a[i] == a1[i - 1]);
                    assert(b[i] == b1[i - 1]);
                }
            }
        }
    }
}

fn sorted_columns(columns: &Vec<ColumnId>) -> (r: Vec<ColumnId>)
    ensures
        sorted_set(col_ids(r@)),
        col_ids(r@).to_set() == col_ids(columns@).to_set(),
{
    let mut ids: Vec<usize> = Vec::new();
    let mut i: usize = 0;
    while i < columns.len()
        invariant
            i <= columns@.len(),
            sorted_set(ids@),
            ids@.to_set() == col_ids(columns@).take(i as int).to_set(),
        decreases columns@.len() - i,
    {
        insert_sorted(&mut ids, columns[i].0);
        proof {
            let a = col_ids(columns@).take(i as int);
            let x = columns@[i as int].0;
            assert(col_ids(columns@).take(i + 1) =~= a.push(x));
            assert forall|y: usize| a.push(x).to_set().contains(y) <==> a.to_set().insert(x).contains(y) by {
                crate::schedule::preorder::lemma_push_contains(a, x, y);
            }
            assert(col_ids(columns@).take(i + 1).to_set() =~= a.to_set().insert(x));
        }
        i = i + 1;
    }
    proof {
        assert(col_ids(columns@).take(columns@.len() as int) =~= col_ids(columns@));
    }
    let mut r: Vec<ColumnId> = Vec::new();
    let mut j: usize = 0;
    while j < ids.len()
        invariant
            j <= ids@.len(),
            col_ids(r@) == ids@.take(j as int),
        decreases ids@.len() - j,
    {
        let ghost r0 = r@;
        r.push(ColumnId(ids[j]));
        proof {
            assert(col_ids(r0).len() == j);
            assert forall|k: int| 0 <= k < j + 1 implies col_ids(r@)[k] == ids@.take(j + 1)[k] by {
                if k < j {
                    assert(col_ids(r0)[k] == ids@.take(j as int)[k]);
                }
            }
            assert(col_ids(r@) =~= ids@.take(j + 1));
        }
        j = j + 1;
    }
    proof {
        assert(ids@.take(ids@.len() as int) =~= ids@);
    }
    r
}

impl StoreMeta {
    /// Adds a view table for each view whose columns table `table_id` holds.
    fn add_view_tables_from_table(&mut self, table_id: TableId)
        requires
            old(self).base(),
            table_id.0 < old(self).tabs().len(),
            old(self).vts().len() + old(self).views_v().len() < usize::MAX,
            forall|v: usize, t: usize| v < old(self).views_v().len() && t < old(self).tabs().len() && t != table_id.0
                ==> #[trigger] matched(old(self).tabs(), old(self).views_v(), old(self).vts(), v, t),
        ensures
            final(self).wf(),
            final(self).keys() == old(self).keys(),
            final(self).cols() == old(self).cols(),
            final(self).tabs() == old(self).tabs(),
            final(self).views_v().len() == old(self).views_v().len(),
            old(self).vts().is_prefix_of(final(self).vts()),
            forall|k: int| old(self).vts().len() <= k < final(self).vts().len()
                ==> #[trigger] final(self).vts()[k].table_id == table_id.0,
    {
        let mut v: usize = 0;
        let n = self.views.len();
        while v < n
            invariant
                self.base(),
                n == self.views_v().len(),
                v <= n,
                table_id.0 < self.tabs().len(),
                self.keys() == old(self).keys(),
                self.cols() == old(self).cols(),
                self.tabs() == old(self).tabs(),
                old(self).vts().is_prefix_of(self.vts()),
                self.vts().len() <= old(self).vts().len() + v,
                old(self).vts().len() + n < usize::MAX,
                forall|k: int| old(self).vts().len() <= k < self.vts().len()
                    ==> #[trigger] self.vts()[k].table_id == table_id.0,
                forall|w: usize, t: usize| w < n && t < self.tabs().len() && (t != table_id.0 || w < v)
                    ==> #[trigger] matched(self.tabs(), self.views_v(), self.vts(), w, t),
            decreases n - v,
        {
            let ghost before = self.vts();
            let matches = self.tables[table_id.index()].contains_columns(&self.views[v].cols);
            proof {
                assert(self.tabs()[table_id.0 as int] == self.tables@[table_id.0 as int]@);
                assert(self.views_v()[v as int] == self.views@[v as int]@);
            }
            let ghost s0 = *self;
            if matches {
                self.add_view_table(table_id, ViewId(v));
                proof {
                    assert forall|w: usize, t: usize| w < n && t < self.tabs().len() && (t != table_id.0 || w < v + 1)
                        implies #[trigger] matched(self.tabs(), self.views_v(), self.vts(), w, t) by {
                        if w != v || t != table_id.0 {
                            assert(matched(s0.tabs(), s0.views_v(), s0.vts(), w, t));
                        }
                    }
                }
            } else {
                assert(matched(self.tabs(), self.views_v(), self.vts(), v, table_id.0));
            }
            v = v + 1;
        }
    }

    /// Adds `table_id` to the table list of each of its columns.
    fn fill_table_columns(&mut self, table_id: TableId)
        requires
            old(self).base(),
            table_id.0 < old(self).tabs().len(),
        ensures
            final(self).base(),
            final(self).keys() == old(self).keys(),
            final(self).tabs() == old(self).tabs(),
            final(self).views_v() == old(self).views_v(),
            final(self).vts() == old(self).vts(),
            final(self).cols().len() == old(self).cols().len(),
            forall|c: int| 0 <= c < old(self).cols().len() ==> #[trigger] final(self).cols()[c] == if old(self).tabs()[table_id.0 as int].columns.contains(c as usize) {
                ColumnView { tables: old(self).cols()[c].tables.push(table_id.0), ..old(self).cols()[c] }
            } else {
                old(self).cols()[c]
            },
    {
        let ghost tcols = self.tabs()[table_id.0 as int].columns;
        let ghost c0 = self.cols();
        let n = self.tables[table_id.index()].columns.len();
        proof {
            assert(self.tabs()[table_id.0 as int] == self.tables@[table_id.0 as int]@);
            assert(self.tabs()[table_id.0 as int].id == table_id.0);
        }
        let mut j: usize = 0;
        while j < n
            invariant
                self.base(),
                table_id.0 < self.tabs().len(),
                tcols == self.tabs()[table_id.0 as int].columns,
                tcols == col_ids(self.tables@[table_id.0 as int].columns@),
                sorted_set(tcols),
                n == tcols.len(),
                j <= n,
                self.keys() == old(self).keys(),
                self.tabs() == old(self).tabs(),
                self.views_v() == old(self).views_v(),
                self.vts() == old(self).vts(),
                self.cols().len() == c0.len(),
                forall|c: int| 0 <= c < c0.len() ==> #[trigger] self.cols()[c] == if tcols.take(j as int).contains(c as usize) {
                    ColumnView { tables: c0[c].tables.push(table_id.0), ..c0[c] }
                } else {
                    c0[c]
                },
            decreases n - j,
        {
            let c = self.tables[table_id.index()].columns[j];
            proof {
                assert(tcols[j as int] == c.0);
                assert(self.tabs()[table_id.0 as int].id == table_id.0);
                assert(c.0 < c0.len());
                assert(!tcols.take(j as int).contains(c.0)) by {
                    if tcols.take(j as int).contains(c.0) {
                        let k = tcols.take(j as int).index_of(c.0);
                        assert(tcols[k] == c.0);
                    }
                }
            }
            let ghost cs = self.cols();
            self.columns[c.index()].tables.push(table_id);
            proof {
                assert(table_ids(self.columns@[c.0 as int].tables@) =~= cs[c.0 as int].tables.push(table_id.0));
                assert(self.cols() =~= cs.update(c.0 as int, ColumnView { tables: cs[c.0 as int].tables.push(table_id.0), ..cs[c.0 as int] }));
                assert(tcols.take(j + 1) =~= tcols.take(j as int).push(c.0));
                assert forall|x: int| 0 <= x < c0.len() implies #[trigger] self.cols()[x] == if tcols.take(j + 1).contains(x as usize) {
                    ColumnView { tables: c0[x].tables.push(table_id.0), ..c0[x] }
                } else {
                    c0[x]
                } by {
                    crate::schedule::preorder::lemma_push_contains(tcols.take(j as int), c.0, x as usize);
                }
            }
            j = j + 1;
        }
        proof {
            assert(tcols.take(n as int) =~= tcols);
        }
    }

    /// The table of the given set of columns, added if it is new.
    pub fn add_table(&mut self, columns: Vec<ColumnId>) -> (r: TableId)
        requires
            old(self).wf(),
            forall|j: int| 0 <= j < columns@.len() ==> #[trigger] columns@[j].0 < old(self).cols().len(),
            old(self).tabs().len() < usize::MAX,
            old(self).vts().len() + old(self).views_v().len() < usize::MAX,
        ensures
            final(self).wf(),
            r.0 < final(self).tabs().len(),
            sorted_set(final(self).tabs()[r.0 as int].columns),
            final(self).tabs()[r.0 as int].columns.to_set() == col_ids(columns@).to_set(),
            final(self).keys() == old(self).keys(),
            old(self).tabs().is_prefix_of(final(self).tabs()),
            (r.0 < old(self).tabs().len()) == exists|t: int| 0 <= t < old(self).tabs().len()
                && (#[trigger] old(self).tabs()[t]).columns.to_set() == col_ids(columns@).to_set(),
            r.0 < old(self).tabs().len() ==> {
                &&& final(self).tabs() == old(self).tabs()
                &&& final(self).cols() == old(self).cols()
                &&& final(self).vts() == old(self).vts()
            },
            r.0 >= old(self).tabs().len() ==> {
                &&& r.0 == old(self).tabs().len()
                &&& final(self).tabs().len() == old(self).tabs().len() + 1
                &&& old(self).vts().is_prefix_of(final(self).vts())
                &&& forall|c: int| 0 <= c < old(self).cols().len() ==> #[trigger] final(self).cols()[c].tables
                    == if final(self).tabs()[r.0 as int].columns.contains(c as usize) {
                        old(self).cols()[c].tables.push(r.0)
                    } else {
                        old(self).cols()[c].tables
                    }
            },
    {
        let cols = sorted_columns(&columns);
        let mut t: usize = 0;
        while t < self.tables.len()
            invariant
                t <= self.tabs().len(),
                forall|k: int| 0 <= k < t ==> #[trigger] self.tabs()[k].columns != col_ids(cols@),
            ensures
                t <= self.tabs().len(),
                forall|k: int| 0 <= k < t ==> #[trigger] self.tabs()[k].columns != col_ids(cols@),
                t < self.tabs().len() ==> self.tabs()[t as int].columns == col_ids(cols@),
            decreases self.tabs().len() - t,
        {
            assert(self.tabs()[t as int] == self.tables@[t as int]@);
            if same_cols(&self.tables[t].columns, &cols) {
                break;
            }
            t = t + 1;
        }
        if t < self.tables.len() {
            return TableId(t);
        }
        proof {
            assert forall|k: int| 0 <= k < old(self).tabs().len()
                implies (#[trigger] old(self).tabs()[k]).columns.to_set() != col_ids(columns@).to_set() by {
                if old(self).tabs()[k].columns.to_set() == col_ids(columns@).to_set() {
                    assert(old(self).tabs()[k] == self.tabs()[k]);
                    lemma_sorted_set_eq(self.tabs()[k].columns, col_ids(cols@));
                }
            }
        }
        let table_id = TableId(self.tables.len());
        let ghost t0 = self.tabs();
        proof {
            assert forall|j: int| 0 <= j < col_ids(cols@).len() implies #[trigger] col_ids(cols@)[j] < self.cols().len() by {
                let c = col_ids(cols@)[j];
                assert(col_ids(cols@).to_set().contains(c));
                assert(col_ids(columns@).to_set().contains(c));
                let k = col_ids(columns@).index_of(c);
                assert(columns@[k].0 == c);
            }
        }
        self.tables.push(TableMeta { id: table_id, columns: cols });
        proof {
            assert(self.tabs() =~= t0.push(self.tables@[table_id.0 as int]@));
            assert(self.base());
            assert forall|v: usize, t: usize| v < self.views_v().len() && t < self.tabs().len() && t != table_id.0
                implies #[trigger] matched(self.tabs(), self.views_v(), self.vts(), v, t) by {
                assert(matched(old(self).tabs(), old(self).views_v(), old(self).vts(), v, t));
                assert(self.tabs()[t as int] == t0[t as int]);
            }
        }
        let ghost before_fill = *self;
        self.fill_table_columns(table_id);
        proof {
            assert forall|v: usize, t: usize| v < self.views_v().len() && t < self.tabs().len() && t != table_id.0
                implies #[trigger] matched(self.tabs(), self.views_v(), self.vts(), v, t) by {
                assert(matched(before_fill.tabs(), before_fill.views_v(), before_fill.vts(), v, t));
            }
        }
        self.add_view_tables_from_table(table_id);
        table_id
    }
}

} // verus!

verus! {

fn copy_columns(v: &Vec<ColumnId>) -> (r: Vec<ColumnId>)
    ensures
        r@ == v@,
{
    let mut r: Vec<ColumnId> = Vec::new();
    let mut i: usize = 0;
    while i < v.len()
        invariant
            i <= v@.len(),
            r@ == v@.take(i as int),
        decreases v@.len() - i,
    {
        r.push(v[i]);
        assert(r@ =~= v@.take(i + 1));
        i = i + 1;
    }
    assert(v@.take(v@.len() as int) =~= v@);
    r
}

impl StoreMeta {
    /// The view of the given columns, if there is one.
    pub(crate) fn _get_view(&self, cols: &Vec<ColumnId>) -> (r: Option<ViewId>)
        ensures
            match r {
                Some(v) => v.0 < self.views_v().len() && self.views_v()[v.0 as int].cols == col_ids(cols@),
                None => forall|v: int| 0 <= v < self.views_v().len() ==> #[trigger] self.views_v()[v].cols != col_ids(cols@),
            },
    {
        let mut v: usize = 0;
        while v < self.views.len()
            invariant
                v <= self.views_v().len(),
                forall|k: int| 0 <= k < v ==> #[trigger] self.views_v()[k].cols != col_ids(cols@),
            decreases self.views_v().len() - v,
        {
            assert(self.views_v()[v as int] == self.views@[v as int]@);
            if same_cols(&self.views[v].cols, cols) {
                return Some(ViewId(v));
            }
            v = v + 1;
        }
        None
    }

    /// Adds view `view_id` to the view list of each of its columns, once per
    /// occurrence.
    fn fill_view_columns(&mut self, view_id: ViewId)
        requires
            old(self).base(),
            view_id.0 < old(self).views_v().len(),
        ensures
            final(self).base(),
            final(self).keys() == old(self).keys(),
            final(self).tabs() == old(self).tabs(),
            final(self).views_v() == old(self).views_v(),
            final(self).vts() == old(self).vts(),
            final(self).cols().len() == old(self).cols().len(),
            forall|c: int| 0 <= c < old(self).cols().len() ==> (#[trigger] final(self).cols()[c]).tables
                == old(self).cols()[c].tables,
            forall|c: int| 0 <= c < old(self).cols().len()
                ==> old(self).cols()[c].views.is_prefix_of(#[trigger] final(self).cols()[c].views),
            forall|j: int| 0 <= j < old(self).views_v()[view_id.0 as int].cols.len()
                ==> final(self).cols()[#[trigger] old(self).views_v()[view_id.0 as int].cols[j] as int].views.contains(view_id.0),
    {
        let n = self.views[view_id.index()].cols.len();
        proof {
            assert(self.views_v()[view_id.0 as int] == self.views@[view_id.0 as int]@);
            assert(self.views_v()[view_id.0 as int].id == view_id.0);
        }
        let ghost c0 = self.cols();
        let mut j: usize = 0;
        while j < n
            invariant
                self.base(),
                view_id.0 < self.views_v().len(),
                n == self.views_v()[view_id.0 as int].cols.len(),
                col_ids(self.views@[view_id.0 as int].cols@) == self.views_v()[view_id.0 as int].cols,
                j <= n,
                self.keys() == old(self).keys(),
                self.tabs() == old(self).tabs(),
                self.views_v() == old(self).views_v(),
                self.vts() == old(self).vts(),
                self.cols().len() == c0.len(),
                forall|c: int| 0 <= c < c0.len() ==> (#[trigger] self.cols()[c]).tables == c0[c].tables,
                forall|c: int| 0 <= c < c0.len() ==> c0[c].views.is_prefix_of(#[trigger] self.cols()[c].views),
                forall|q: int| 0 <= q < j ==> self.cols()[#[trigger] self.views_v()[view_id.0 as int].cols[q] as int].views.contains(view_id.0),
            decreases n - j,
        {
            let c = self.views[view_id.index()].cols[j];
            proof {
                assert(self.views_v()[view_id.0 as int].id == view_id.0);
                assert(col_ids(self.views@[view_id.0 as int].cols@)[j as int] == c.0);
                assert(c.0 < self.cols().len());
            }
            let ghost cs = self.cols();
            self.columns[c.index()].views.push(view_id);
            proof {
                assert(view_ids(self.columns@[c.0 as int].views@) =~= cs[c.0 as int].views.push(view_id.0));
                assert(self.cols() =~= cs.update(c.0 as int, ColumnView { views: cs[c.0 as int].views.push(view_id.0), ..cs[c.0 as int] }));
                let vc = self.views_v()[view_id.0 as int].cols;
                assert(self.cols()[c.0 as int].views[cs[c.0 as int].views.len() as int] == view_id.0);
                assert forall|q: int| 0 <= q < j + 1 implies self.cols()[#[trigger] vc[q] as int].views.contains(view_id.0) by {
                    if vc[q] as int != c.0 as int {
                        assert(self.cols()[vc[q] as int] == cs[vc[q] as int]);
                    }
                }
                assert forall|cc: int| 0 <= cc < c0.len() implies c0[cc].views.is_prefix_of(#[trigger] self.cols()[cc].views) by {
                    if cc == c.0 as int {
                        assert(c0[cc].views.is_prefix_of(cs[cc].views));
                        assert(cs[cc].views.is_prefix_of(self.cols()[cc].views));
                    }
                }
            }
            j = j + 1;
        }
    }

    /// Adds a view table for each table that holds the columns of view
    /// `view_id`.
    fn add_view_tables_from_view(&mut self, view_id: ViewId)
        requires
            old(self).base(),
            view_id.0 < old(self).views_v().len(),
            old(self).vts().len() + old(self).tabs().len() < usize::MAX,
            forall|v: usize, t: usize| v < old(self).views_v().len() && t < old(self).tabs().len() && v != view_id.0
                ==> #[trigger] matched(old(self).tabs(), old(self).views_v(), old(self).vts(), v, t),
        ensures
            final(self).wf(),
            final(self).keys() == old(self).keys(),
            final(self).cols() == old(self).cols(),
            final(self).tabs() == old(self).tabs(),
            final(self).views_v().len() == old(self).views_v().len(),
            forall|v: int| 0 <= v < old(self).views_v().len()
                ==> (#[trigger] final(self).views_v()[v]).cols == old(self).views_v()[v].cols,
            old(self).vts().is_prefix_of(final(self).vts()),
            forall|k: int| old(self).vts().len() <= k < final(self).vts().len()
                ==> #[trigger] final(self).vts()[k].view_id == view_id.0,
    {
        let mut t: usize = 0;
        let n = self.tables.len();
        while t < n
            invariant
                self.base(),
                n == self.tabs().len(),
                t <= n,
                view_id.0 < self.views_v().len(),
                self.views_v().len() == old(self).views_v().len(),
                forall|v: int| 0 <= v < old(self).views_v().len()
                    ==> (#[trigger] self.views_v()[v]).cols == old(self).views_v()[v].cols,
                self.keys() == old(self).keys(),
                self.cols() == old(self).cols(),
                self.tabs() == old(self).tabs(),
                old(self).vts().is_prefix_of(self.vts()),
                self.vts().len() <= old(self).vts().len() + t,
                old(self).vts().len() + n < usize::MAX,
                forall|k: int| old(self).vts().len() <= k < self.vts().len()
                    ==> #[trigger] self.vts()[k].view_id == view_id.0,
                forall|w: usize, u: usize| w < self.views_v().len() && u < n && (w != view_id.0 || u < t)
                    ==> #[trigger] matched(self.tabs(), self.views_v(), self.vts(), w, u),
            decreases n - t,
        {
            let matches = self.tables[t].contains_columns(&self.views[view_id.index()].cols);
            proof {
                assert(self.tabs()[t as int] == self.tables@[t as int]@);
                assert(self.views_v()[view_id.0 as int] == self.views@[view_id.0 as int]@);
            }
            let ghost s0 = *self;
            if matches {
                self.add_view_table(TableId(t), view_id);
                proof {
                    assert forall|v: int| 0 <= v < old(self).views_v().len()
                        implies (#[trigger] self.views_v()[v]).cols == old(self).views_v()[v].cols by {
                        assert(s0.views_v()[v].cols == old(self).views_v()[v].cols);
                    }
                    assert forall|w: usize, u: usize| w < self.views_v().len() && u < n && (w != view_id.0 || u < t + 1)
                        implies #[trigger] matched(self.tabs(), self.views_v(), self.vts(), w, u) by {
                        if w != view_id.0 || u != t {
                            assert(matched(s0.tabs(), s0.views_v(), s0.vts(), w, u));
                        }
                    }
                }
            } else {
                assert(matched(self.tabs(), self.views_v(), self.vts(), view_id.0, t));
            }
            t = t + 1;
        }
    }

    /// The view of the given columns, added if it is new.
    pub fn add_view(&mut self, columns: &Vec<ColumnId>) -> (r: ViewId)
        requires
            old(self).wf(),
            forall|j: int| 0 <= j < columns@.len() ==> #[trigger] columns@[j].0 < old(self).cols().len(),
            old(self).views_v().len() < usize::MAX,
            old(self).vts().len() + old(self).tabs().len() < usize::MAX,
        ensures
            final(self).wf(),
            r.0 < final(self).views_v().len(),
            final(self).views_v()[r.0 as int].cols == col_ids(columns@),
            final(self).keys() == old(self).keys(),
            final(self).tabs() == old(self).tabs(),
            old(self).vts().is_prefix_of(final(self).vts()),
            r.0 < old(self).views_v().len() ==> final(self).views_v() == old(self).views_v()
                && final(self).vts() == old(self).vts() && final(self).cols() == old(self).cols(),
            r.0 >= old(self).views_v().len() ==> r.0 == old(self).views_v().len()
                && final(self).views_v().len() == old(self).views_v().len() + 1,
            (r.0 < old(self).views_v().len()) == exists|v: int| 0 <= v < old(self).views_v().len()
                && (#[trigger] old(self).views_v()[v]).cols == col_ids(columns@),
    {
        match self._get_view(columns) {
            Some(v) => v,
            None => {
                let view_id = ViewId(self.views.len());
                let ghost v0 = self.views_v();
                let vt = ViewType { id: view_id, cols: copy_columns(columns), view_tables: Vec::new() };
                assert(view_table_ids(vt.view_tables@) =~= Seq::<usize>::empty());
                self.views.push(vt);
                proof {
                    assert(self.views_v() =~= v0.push(vt@));
                    assert forall|j: int| 0 <= j < col_ids(columns@).len() implies #[trigger] col_ids(columns@)[j] < self.cols().len() by {
                        assert(columns@[j].0 < self.cols().len());
                    }
                    assert(self.base());
                    assert forall|v: usize, t: usize| v < self.views_v().len() && t < self.tabs().len() && v != view_id.0
                        implies #[trigger] matched(self.tabs(), self.views_v(), self.vts(), v, t) by {
                        assert(matched(old(self).tabs(), old(self).views_v(), old(self).vts(), v, t));
                        assert(self.views_v()[v as int] == v0[v as int]);
                    }
                }
                let ghost s1 = *self;
                self.fill_view_columns(view_id);
                proof {
                    assert forall|v: usize, t: usize| v < self.views_v().len() && t < self.tabs().len() && v != view_id.0
                        implies #[trigger] matched(self.tabs(), self.views_v(), self.vts(), v, t) by {
                        assert(matched(s1.tabs(), s1.views_v(), s1.vts(), v, t));
                    }
                }
                self.add_view_tables_from_view(view_id);
                view_id
            },
        }
    }
}

/// View `v` has a view table for table `t` exactly when the table holds
/// every column of the view, whichever of the two was added first.
pub proof fn lemma_view_table_iff(meta: StoreMeta, v: usize, t: usize)
    requires
        meta.wf(),
        v < meta.views_v().len(),
        t < meta.tabs().len(),
    ensures
        (exists|i: int| 0 <= i < meta.vts().len() && #[trigger] meta.vts()[i].view_id == v
            && meta.vts()[i].table_id == t)
        <==> contains_all(meta.tabs()[t as int].columns, meta.views_v()[v as int].cols),
{
    assert(matched(meta.tabs(), meta.views_v(), meta.vts(), v, t));
    if exists|i: int| 0 <= i < meta.vts().len() && #[trigger] meta.vts()[i].view_id == v
        && meta.vts()[i].table_id == t {
        let i = choose|i: int| 0 <= i < meta.vts().len() && #[trigger] meta.vts()[i].view_id == v
            && meta.vts()[i].table_id == t;
        assert(meta.vts()[i].view_id == v);
    }
}

/// Every view is matched to every table that holds its columns.
pub proof fn lemma_views_matched(meta: StoreMeta, v: usize, t: usize)
    requires
        meta.wf(),
        v < meta.views_v().len(),
        t < meta.tabs().len(),
        contains_all(meta.tabs()[t as int].columns, meta.views_v()[v as int].cols),
    ensures
        exists|i: int| 0 <= i < meta.vts().len() && #[trigger] meta.vts()[i].view_id == v
            && meta.vts()[i].table_id == t,
{
    assert(matched(meta.tabs(), meta.views_v(), meta.vts(), v, t));
}

} // verus!

verus! {

impl StoreMeta {
    pub fn column_mut(&mut self, id: ColumnId) -> (r: &mut ColumnType)
        requires
            id.0 < old(self).cols().len(),
        ensures
            r@ == old(self).cols()[id.0 as int],
            final(self).cols() == old(self).cols().update(id.0 as int, final(r)@),
            final(self).keys() == old(self).keys(),
            final(self).tabs() == old(self).tabs(),
            final(self).views_v() == old(self).views_v(),
            final(self).vts() == old(self).vts(),
    {
        &mut self.columns[id.index()]
    }
}

impl StoreMeta {
    pub fn n_columns(&self) -> (r: usize)
        ensures
            r == self.cols().len(),
    {
        self.columns.len()
    }

    pub fn n_tables(&self) -> (r: usize)
        ensures
            r == self.tabs().len(),
    {
        self.tables.len()
    }

    pub fn n_views(&self) -> (r: usize)
        ensures
            r == self.views_v().len(),
    {
        self.views.len()
    }

    pub fn n_view_tables(&self) -> (r: usize)
        ensures
            r == self.vts().len(),
    {
        self.view_tables.len()
    }
}

} // verus!
