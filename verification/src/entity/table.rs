//! A table: the rows of the entities that have one set of columns.  A row
//! holds its entity and, per column of the table, the entity's row in that
//! column.  Rows are named like column rows, by index and generation.

use vstd::prelude::*;

use crate::entity::column::{RowId, is_free_gen};
use crate::entity::entity::EntityId;
use crate::entity::meta::TableId;

verus! {

#[derive(Debug)]
pub struct TableRow {
    entity_id: EntityId,
    row_id: RowId,
    columns: Vec<RowId>,
}

pub struct RowView {
    pub entity: EntityId,
    pub row: RowId,
    pub columns: Seq<RowId>,
}

impl View for TableRow {
    type V = RowView;

    closed spec fn view(&self) -> RowView {
        RowView { entity: self.entity_id, row: self.row_id, columns: self.columns@ }
    }
}

impl TableRow {
    pub(crate) fn new(entity_id: EntityId, row_id: RowId, columns: Vec<RowId>) -> (r: TableRow)
        ensures
            r@ == (RowView { entity: entity_id, row: row_id, columns: columns@ }),
    {
        TableRow { entity_id, row_id, columns }
    }

    pub fn entity_id(&self) -> (r: EntityId)
        ensures
            r == self@.entity,
    {
        self.entity_id
    }

    pub fn row_id(&self) -> (r: RowId)
        ensures
            r == self@.row,
    {
        self.row_id
    }

    pub fn is_alloc(&self) -> (r: bool)
        ensures
            r == !is_free_gen(self@.row.1),
    {
        self.row_id.is_alloc()
    }

    /// The entity's row in the table's column at `index`.
    pub fn column(&self, index: usize) -> (r: RowId)
        requires
            index < self@.columns.len(),
        ensures
            r == self@.columns[index as int],
    {
        self.columns[index]
    }

    pub fn columns(&self) -> (r: &Vec<RowId>)
        ensures
            r@ == self@.columns,
    {
        &self.columns
    }
}

pub struct Table {
    id: TableId,
    rows: Vec<TableRow>,
    free_list: Vec<RowId>,
}

pub struct TableState {
    pub id: usize,
    pub rows: Seq<RowView>,
    pub free: Seq<RowId>,
}

/// The views of the rows.
pub open spec fn row_views(rows: Seq<TableRow>) -> Seq<RowView> {
    rows.map_values(|r: TableRow| r@)
}

impl View for Table {
    type V = TableState;

    closed spec fn view(&self) -> TableState {
        TableState { id: self.id.0, rows: row_views(self.rows@), free: self.free_list@ }
    }
}

/// Each row knows its index; the freed rows are listed once each, and a row
/// is freed exactly when it is listed.
pub open spec fn table_inv(t: TableState) -> bool {
    &&& forall|i: int| 0 <= i < t.rows.len() ==> (#[trigger] t.rows[i]).row.0 == i
    &&& t.free.no_duplicates()
    &&& forall|k: int| 0 <= k < t.free.len() ==> {
        &&& (#[trigger] t.free[k]).0 < t.rows.len()
        &&& t.rows[t.free[k].0 as int].row == t.free[k]
        &&& is_free_gen(t.free[k].1)
    }
    &&& forall|i: int| 0 <= i < t.rows.len() && is_free_gen((#[trigger] t.rows[i]).row.1)
        ==> t.free.contains(t.rows[i].row)
    &&& t.rows.len() <= u32::MAX
}

/// The row that `row` names, if it is live under that generation.
pub open spec fn table_get(t: TableState, row: RowId) -> Option<RowView> {
    if (row.0 as int) < t.rows.len() && t.rows[row.0 as int].row == row && !is_free_gen(row.1) {
        Some(t.rows[row.0 as int])
    } else {
        None
    }
}

impl Table {
    pub fn new(id: TableId) -> (r: Table)
        ensures
            table_inv(r@),
            r@ == (TableState { id: id.0, rows: Seq::empty(), free: Seq::empty() }),
    {
        let r = Table { id, rows: Vec::new(), free_list: Vec::new() };
        assert(r@.rows =~= Seq::<RowView>::empty());
        r
    }

    pub fn id(&self) -> (r: TableId)
        ensures
            r.0 == self@.id,
    {
        self.id
    }

    pub fn len(&self) -> (r: usize)
        ensures
            r == self@.rows.len(),
    {
        self.rows.len()
    }

    /// Whether `push` has a row to use: a freed one, or a new index.
    pub fn can_push(&self) -> (r: bool)
        ensures
            r == (self@.free.len() > 0 || self@.rows.len() < u32::MAX),
    {
        self.free_list.len() > 0 || self.rows.len() < 0xffff_ffffusize
    }

    /// The row `row_id` names, if it is live under that generation.
    pub fn get(&self, row_id: RowId) -> (r: Option<&TableRow>)
        ensures
            match table_get(self@, row_id) {
                Some(v) => r matches Some(x) && x@ == v,
                None => r is None,
            },
    {
        let i = row_id.index();
        if i < self.rows.len() && self.rows[i].row_id == row_id && row_id.is_alloc() {
            Some(&self.rows[i])
        } else {
            None
        }
    }

    /// The row at `row_index`, live or freed.
    pub fn get_by_index(&self, row_index: usize) -> (r: Option<&TableRow>)
        ensures
            row_index < self@.rows.len() ==> (r matches Some(x) && x@ == self@.rows[row_index as int]),
            row_index >= self@.rows.len() ==> r is None,
    {
        if row_index < self.rows.len() {
            Some(&self.rows[row_index])
        } else {
            None
        }
    }

    /// Stores a row for `entity_id`, in the most recently freed row if
    /// there is one, and returns the row's id.
    pub fn push(&mut self, entity_id: EntityId, columns: Vec<RowId>) -> (r: RowId)
        requires
            table_inv(old(self)@),
            old(self)@.free.len() > 0 || old(self)@.rows.len() < u32::MAX,
        ensures
            table_inv(final(self)@),
            final(self)@.id == old(self)@.id,
            !is_free_gen(r.1),
            table_get(final(self)@, r) == Some(RowView { entity: entity_id, row: r, columns: columns@ }),
            forall|other: RowId| other != r ==> #[trigger] table_get(final(self)@, other) == table_get(old(self)@, other),
            old(self)@.free.len() > 0 ==> {
                let f = old(self)@.free.last();
                &&& r == RowId(f.0, f.1 & !0x8000_0000u32)
                &&& final(self)@.free == old(self)@.free.drop_last()
                &&& final(self)@.rows == old(self)@.rows.update(f.0 as int,
                    RowView { entity: entity_id, row: r, columns: columns@ })
            },
            old(self)@.free.len() == 0 ==> {
                &&& r == RowId(old(self)@.rows.len() as u32, 0)
                &&& final(self)@.free == old(self)@.free
                &&& final(self)@.rows == old(self)@.rows.push(RowView { entity: entity_id, row: r, columns: columns@ })
            },
    {
        let ghost t0 = self@;
        let ghost cv = columns@;
        match self.free_list.pop() {
            Some(freed) => {
                let ghost k = t0.free.len() - 1;
                assert(freed == t0.free[k]);
                assert(t0.free[k].0 < t0.rows.len());
                let row_id = freed.allocate();
                let i = freed.index();
                self.rows.set(i, TableRow::new(entity_id, row_id, columns));
                proof {
                    let t = self@;
                    assert(t.rows =~= t0.rows.update(i as int, RowView { entity: entity_id, row: row_id, columns: cv }));
                    assert(t.free =~= t0.free.drop_last());
                    assert forall|k2: int| 0 <= k2 < t.free.len() implies {
                        &&& (#[trigger] t.free[k2]).0 < t.rows.len()
                        &&& t.rows[t.free[k2].0 as int].row == t.free[k2]
                        &&& is_free_gen(t.free[k2].1)
                    } by {
                        assert(t.free[k2] == t0.free[k2]);
                        assert(t0.free[k2] != t0.free[k]);
                        assert(t0.rows[t0.free[k2].0 as int].row == t0.free[k2]);
                        assert(t0.rows[t0.free[k].0 as int].row == t0.free[k]);
                    }
                    assert forall|j: int| 0 <= j < t.rows.len() && is_free_gen((#[trigger] t.rows[j]).row.1)
                        implies t.free.contains(t.rows[j].row) by {
                        assert(j != i);
                        assert(t0.free.contains(t0.rows[j].row));
                        let q = t0.free.index_of(t0.rows[j].row);
                        assert(q != k);
                        assert(t.free[q] == t0.rows[j].row);
                    }
                }
                row_id
            },
            None => {
                let i = self.rows.len();
                let row_id = RowId::new(i);
                self.rows.push(TableRow::new(entity_id, row_id, columns));
                proof {
                    let t = self@;
                    assert(!is_free_gen(0u32)) by (bit_vector);
                    assert(t.rows =~= t0.rows.push(RowView { entity: entity_id, row: row_id, columns: cv }));
                    assert forall|j: int| 0 <= j < t.rows.len() && is_free_gen((#[trigger] t.rows[j]).row.1)
                        implies t.free.contains(t.rows[j].row) by {
                        assert(j < t0.rows.len());
                    }
                }
                row_id
            },
        }
    }

    /// Frees the row `row_id` names, if it is live.
    pub fn remove(&mut self, row_id: RowId)
        requires
            table_inv(old(self)@),
        ensures
            table_inv(final(self)@),
            final(self)@.id == old(self)@.id,
            final(self)@.rows.len() == old(self)@.rows.len(),
            table_get(final(self)@, row_id) is None,
            forall|other: RowId| other != row_id ==> #[trigger] table_get(final(self)@, other) == table_get(old(self)@, other),
            match table_get(old(self)@, row_id) {
                Some(v) => {
                    let freed = RowId(row_id.0, (row_id.1 + 1) as u32 | 0x8000_0000u32);
                    &&& final(self)@.rows == old(self)@.rows.update(row_id.0 as int, RowView { row: freed, ..v })
                    &&& final(self)@.free == old(self)@.free.push(freed)
                },
                None => final(self)@ == old(self)@,
            },
    {
        let ghost t0 = self@;
        let i = row_id.index();
        if i < self.rows.len() && self.rows[i].row_id == row_id && row_id.is_alloc() {
            let freed = row_id.next_free();
            let mut row = TableRow::new(EntityId(0, 0), freed, Vec::new());
            std::mem::swap(&mut row, &mut self.rows[i]);
            row.row_id = freed;
            let ghost v = row@;
            self.rows.set(i, row);
            self.free_list.push(freed);
            proof {
                let t = self@;
                assert(t.rows =~= t0.rows.update(i as int, v));
                assert(!t0.free.contains(freed)) by {
                    if t0.free.contains(freed) {
                        let k = t0.free.index_of(freed);
                        assert(t0.rows[t0.free[k].0 as int].row == t0.free[k]);
                    }
                }
                assert forall|a: int, b: int| 0 <= a < t.free.len() && 0 <= b < t.free.len() && a != b
                    implies t.free[a] != t.free[b] by {
                    if a == t0.free.len() {
                        assert(t0.free.contains(t.free[b]));
                    } else if b == t0.free.len() {
                        assert(t0.free.contains(t.free[a]));
                    }
                }
                assert forall|k: int| 0 <= k < t.free.len() implies {
                    &&& (#[trigger] t.free[k]).0 < t.rows.len()
                    &&& t.rows[t.free[k].0 as int].row == t.free[k]
                    &&& is_free_gen(t.free[k].1)
                } by {
                    if k < t0.free.len() {
                        assert(t.free[k] == t0.free[k]);
                        assert(t0.rows[t0.free[k].0 as int].row == t0.free[k]);
                        assert(t0.free[k].0 != i) by {
                            assert(is_free_gen(t0.free[k].1));
                            assert(!is_free_gen(t0.rows[i as int].row.1));
                        }
                    }
                }
                assert forall|j: int| 0 <= j < t.rows.len() && is_free_gen((#[trigger] t.rows[j]).row.1)
                    implies t.free.contains(t.rows[j].row) by {
                    if j == i {
                        assert(t.free[t0.free.len() as int] == freed);
                    } else {
                        let q = t0.free.index_of(t0.rows[j].row);
                        assert(t.free[q] == t0.rows[j].row);
                    }
                }
                let g = row_id.1;
                assert((g + 1) as u32 | 0x8000_0000u32 != g) by (bit_vector)
                    requires g & 0x8000_0000u32 == 0;
            }
        }
    }
}

} // verus!
