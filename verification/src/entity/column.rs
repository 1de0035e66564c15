//! A column: the values of one component type, indexed by row.  A row is
//! named by its index and a generation; removing a row frees its index for
//! reuse under a new generation, so a stale row id no longer reaches it.

use vstd::prelude::*;

use crate::entity::meta::{ColumnId, StoreMeta};

verus! {

/// The generation bit of a freed row.
pub const FREE_MASK: u32 = 0x8000_0000;

pub open spec fn is_free_gen(g: u32) -> bool {
    g & 0x8000_0000u32 != 0
}

#[derive(Clone, Copy, Debug, PartialEq, Eq, Structural, Hash, Ord, PartialOrd)]
pub struct RowId(pub u32, pub u32);

impl RowId {
    pub fn new(index: usize) -> (r: RowId)
        ensures
            r == RowId(index as u32, 0),
    {
        RowId(index as u32, 0)
    }

    pub fn index(&self) -> (r: usize)
        ensures
            r == self.0,
        no_unwind
    {
        self.0 as usize
    }

    pub fn gen(&self) -> (r: u32)
        ensures
            r == self.1,
        no_unwind
    {
        self.1
    }

    pub(crate) fn is_alloc(&self) -> (r: bool)
        ensures
            r == !is_free_gen(self.1),
    {
        self.1 & FREE_MASK == 0
    }

    /// The id of this row once freed.
    pub(crate) fn next_free(&self) -> (r: RowId)
        requires
            !is_free_gen(self.1),
        ensures
            r.0 == self.0,
            r.1 == (self.1 + 1) as u32 | 0x8000_0000u32,
            is_free_gen(r.1),
    {
        let g = self.1;
        assert(g & 0x8000_0000u32 == 0 ==> g < 0x8000_0000u32) by (bit_vector);
        let n: u32 = (g + 1) | FREE_MASK;
        assert((n & 0x8000_0000u32) != 0) by (bit_vector)
            requires n == (g + 1) as u32 | 0x8000_0000u32;
        RowId(self.0, n)
    }

    /// The id of this row in its next generation.
    pub(crate) fn next(&self) -> (r: RowId)
        requires
            !is_free_gen(self.1),
        ensures
            r.0 == self.0,
            r.1 == (self.1 + 1) as u32 & !0x8000_0000u32,
            !is_free_gen(r.1),
    {
        let g = self.1;
        assert(g & 0x8000_0000u32 == 0 ==> g < 0x8000_0000u32) by (bit_vector);
        let n: u32 = (g + 1) & !FREE_MASK;
        assert((n & 0x8000_0000u32) == 0) by (bit_vector)
            requires n == (g + 1) as u32 & !0x8000_0000u32;
        RowId(self.0, n)
    }

    /// The id of this freed row, allocated again.
    pub(crate) fn allocate(&self) -> (r: RowId)
        requires
            is_free_gen(self.1),
        ensures
            r.0 == self.0,
            r.1 == self.1 & !0x8000_0000u32,
            !is_free_gen(r.1),
    {
        let g = self.1;
        let n: u32 = g & !FREE_MASK;
        assert((n & 0x8000_0000u32) == 0) by (bit_vector)
            requires n == g & !0x8000_0000u32;
        RowId(self.0, n)
    }
}

} // verus!

verus! {

/// The values of one component type.  A zero-sized type has a single
/// pre-allocated row and no room for more.
pub struct Column<T> {
    id: ColumnId,
    inc: usize,
    pad_size: usize,
    len: usize,
    capacity: usize,
    data: Vec<Option<T>>,
    row_gen: Vec<u32>,
    free_list: Vec<u32>,
}

pub struct ColumnState<T> {
    pub id: usize,
    pub inc: usize,
    pub pad_size: usize,
    pub len: usize,
    pub capacity: usize,
    pub values: Seq<Option<T>>,
    pub gens: Seq<u32>,
    pub free_list: Seq<u32>,
}

impl<T> View for Column<T> {
    type V = ColumnState<T>;

    closed spec fn view(&self) -> ColumnState<T> {
        ColumnState {
            id: self.id.0,
            inc: self.inc,
            pad_size: self.pad_size,
            len: self.len,
            capacity: self.capacity,
            values: self.data@,
            gens: self.row_gen@,
            free_list: self.free_list@,
        }
    }
}

/// The rows of a column: a value and a generation per row, the value
/// present exactly when the generation is not freed, and the freed rows
/// listed once each.
pub open spec fn column_inv<T>(c: ColumnState<T>) -> bool {
    &&& c.values.len() == c.gens.len()
    &&& c.len <= c.capacity
    &&& c.capacity <= usize::MAX
    &&& c.inc >= 1
    &&& (c.pad_size == 0 ==> c.len == 1 && c.capacity == 1 && c.gens.len() == 0)
    &&& (c.pad_size > 0 ==> c.len == c.gens.len())
    &&& forall|i: int| 0 <= i < c.gens.len() ==> (#[trigger] c.values[i] is Some <==> !is_free_gen(c.gens[i]))
    &&& c.free_list.no_duplicates()
    &&& forall|k: int| 0 <= k < c.free_list.len() ==> #[trigger] c.free_list[k] < c.gens.len()
        && is_free_gen(c.gens[c.free_list[k] as int])
    &&& forall|i: int| 0 <= i < c.gens.len() && is_free_gen(#[trigger] c.gens[i]) ==> c.free_list.contains(i as u32)
    &&& c.gens.len() <= u32::MAX
}

/// The value at `row`, when the row is live under that generation.
pub open spec fn column_get<T>(c: ColumnState<T>, row: RowId) -> Option<T> {
    if (row.0 as int) < c.gens.len() && c.gens[row.0 as int] == row.1 {
        c.values[row.0 as int]
    } else {
        None
    }
}

/// The growth step of a column whose values take `size` bytes.
pub open spec fn column_inc(size: int) -> usize {
    if size < 8 { 8usize } else if size < 64 { 4usize } else { 1usize }
}

impl<T: 'static> Column<T> {
    /// The column of `T`, its type added to `metas` if it is new.
    pub fn new(metas: &mut StoreMeta) -> (r: Column<T>)
        requires
            old(metas).wf(),
        ensures
            final(metas).wf(),
            final(metas).tabs() == old(metas).tabs(),
            final(metas).views_v() == old(metas).views_v(),
            final(metas).vts() == old(metas).vts(),
            column_inv(r@),
            r@.id < final(metas).cols().len(),
            r@.pad_size == vstd::layout::size_of::<T>(),
            r@.inc == column_inc(vstd::layout::size_of::<T>() as int),
            r@.len == if r@.pad_size == 0 { 1usize } else { 0usize },
            r@.capacity == r@.len,
            r@.values.len() == 0,
            r@.gens.len() == 0,
            r@.free_list.len() == 0,
    {
        let id = metas.add_column::<T>();
        Column::with_id(id)
    }

    /// An empty column of `T` with the id `id`.
    pub fn with_id(id: ColumnId) -> (r: Column<T>)
        ensures
            column_inv(r@),
            r@.id == id.0,
            r@.pad_size == vstd::layout::size_of::<T>(),
            r@.inc == column_inc(vstd::layout::size_of::<T>() as int),
            r@.len == if r@.pad_size == 0 { 1usize } else { 0usize },
            r@.capacity == r@.len,
            r@.values.len() == 0,
            r@.gens.len() == 0,
            r@.free_list.len() == 0,
    {
        let pad_size = core::mem::size_of::<T>();
        let inc: usize = if pad_size < 8 {
            8
        } else if pad_size < 64 {
            4
        } else {
            1
        };
        let length: usize = if pad_size == 0 { 1 } else { 0 };
        Column {
            id,
            inc,
            pad_size,
            len: length,
            capacity: length,
            data: Vec::new(),
            row_gen: Vec::new(),
            free_list: Vec::new(),
        }
    }
}

impl<T> Column<T> {
    pub fn id(&self) -> (r: ColumnId)
        ensures
            r.0 == self@.id,
    {
        self.id
    }

    pub fn _capacity(&self) -> (r: usize)
        ensures
            r == self@.capacity,
    {
        self.capacity
    }

    pub fn len(&self) -> (r: usize)
        ensures
            r == self@.len,
    {
        self.len
    }

    pub fn _is_empty(&self) -> (r: bool)
        ensures
            r == (self@.len == 0),
    {
        self.len == 0
    }

    pub fn get(&self, row: RowId) -> (r: Option<&T>)
        requires
            column_inv(self@),
            (row.0 as int) < self@.len ==> (row.0 as int) < self@.gens.len(),
        ensures
            r == match column_get(self@, row) {
                Some(v) => Some(&v),
                None => None::<&T>,
            },
    {
        let index = row.index();
        if index < self.len && self.row_gen[index] == row.gen() {
            match &self.data[index] {
                Some(v) => Some(v),
                None => None,
            }
        } else {
            None
        }
    }

    pub fn get_mut(&mut self, row: RowId) -> (r: Option<&mut T>)
        requires
            column_inv(old(self)@),
            (row.0 as int) < old(self)@.len ==> (row.0 as int) < old(self)@.gens.len(),
        ensures
            column_inv(final(self)@),
            final(self)@.gens == old(self)@.gens,
            final(self)@.free_list == old(self)@.free_list,
            final(self)@.len == old(self)@.len,
            final(self)@.capacity == old(self)@.capacity,
            final(self)@.id == old(self)@.id,
            match column_get(old(self)@, row) {
                Some(v) => r is Some && *r->0 == v
                    && final(self)@.values == old(self)@.values.update(row.0 as int, Some(*final(r->0))),
                None => r is None && final(self)@.values == old(self)@.values,
            },
        no_unwind
    {
        let index = row.index();
        if index < self.len && self.row_gen[index] == row.gen() {
            match &mut self.data[index] {
                Some(v) => Some(v),
                None => None,
            }
        } else {
            None
        }
    }
}

} // verus!

verus! {

/// The capacity after making room for `n` more rows.
pub open spec fn reserved_capacity(len: usize, capacity: usize, inc: usize, n: usize) -> int {
    if capacity - len < n {
        len + if inc > n - (capacity - len) { inc as int } else { n - (capacity - len) }
    } else {
        capacity as int
    }
}

impl<T> Column<T> {
    /// Makes room for `n` more rows, growing by at least the column's
    /// increment.
    pub fn reserve(&mut self, n: usize)
        requires
            column_inv(old(self)@),
            old(self)@.capacity - old(self)@.len < n ==> old(self)@.pad_size > 0
                && reserved_capacity(old(self)@.len, old(self)@.capacity, old(self)@.inc, n) > old(self)@.capacity,
            reserved_capacity(old(self)@.len, old(self)@.capacity, old(self)@.inc, n) <= usize::MAX,
        ensures
            column_inv(final(self)@),
            final(self)@ == (ColumnState {
                capacity: reserved_capacity(old(self)@.len, old(self)@.capacity, old(self)@.inc, n) as usize,
                ..old(self)@
            }),
    {
        let avail = self.capacity - self.len;
        if avail < n {
            let need = n - avail;
            let delta = if self.inc > need { self.inc } else { need };
            self.extend(self.len + delta);
        }
    }

    fn extend(&mut self, new_capacity: usize)
        requires
            column_inv(old(self)@),
            old(self)@.pad_size > 0,
            old(self)@.capacity < new_capacity,
        ensures
            column_inv(final(self)@),
            final(self)@ == (ColumnState { capacity: new_capacity, ..old(self)@ }),
    {
        self.capacity = new_capacity;
    }

    /// Stores `value` in a freed row if there is one, else in a new row.
    pub fn push(&mut self, value: T) -> (r: RowId)
        requires
            column_inv(old(self)@),
            old(self)@.free_list.len() > 0 || old(self)@.pad_size > 0,
            old(self)@.free_list.len() == 0 ==> reserved_capacity(old(self)@.len, old(self)@.capacity, old(self)@.inc, 1) <= usize::MAX,
            old(self)@.free_list.len() == 0 ==> old(self)@.gens.len() < u32::MAX,
        ensures
            column_inv(final(self)@),
            final(self)@.id == old(self)@.id,
            final(self)@.inc == old(self)@.inc,
            final(self)@.pad_size == old(self)@.pad_size,
            old(self)@.free_list.len() > 0 ==> {
                let i = old(self)@.free_list.last();
                &&& r == RowId(i, old(self)@.gens[i as int] & !0x8000_0000u32)
                &&& final(self)@.free_list == old(self)@.free_list.drop_last()
                &&& final(self)@.gens == old(self)@.gens.update(i as int, r.1)
                &&& final(self)@.values == old(self)@.values.update(i as int, Some(value))
                &&& final(self)@.len == old(self)@.len
                &&& final(self)@.capacity == old(self)@.capacity
            },
            column_get(final(self)@, r) == Some(value),
            forall|other: RowId| other != r ==> #[trigger] column_get(final(self)@, other) == column_get(old(self)@, other),
            old(self)@.free_list.len() == 0 ==> {
                &&& r == RowId(old(self)@.len as u32, 0)
                &&& final(self)@.free_list == old(self)@.free_list
                &&& final(self)@.gens == old(self)@.gens.push(0)
                &&& final(self)@.values == old(self)@.values.push(Some(value))
                &&& final(self)@.len == old(self)@.len + 1
                &&& final(self)@.capacity == reserved_capacity(old(self)@.len, old(self)@.capacity, old(self)@.inc, 1)
            },
    {
        let ghost c0 = self@;
        match self.free_list.pop() {
            Some(index) => {
                assert(index == c0.free_list.last());
                assert(c0.free_list[c0.free_list.len() - 1] == index);
                let row = RowId(index, self.row_gen[index as usize]).allocate();
                self.row_gen.set(index as usize, row.1);
                self.data.set(index as usize, Some(value));
                proof {
                    let c = self@;
                    assert(c.free_list =~= c0.free_list.drop_last());
                    assert forall|k: int| 0 <= k < c.free_list.len() implies #[trigger] c.free_list[k] < c.gens.len()
                        && is_free_gen(c.gens[c.free_list[k] as int]) by {
                        assert(c.free_list[k] == c0.free_list[k]);
                        assert(c0.free_list[k] != index);
                    }
                    assert forall|i: int| 0 <= i < c.gens.len() && is_free_gen(#[trigger] c.gens[i])
                        implies c.free_list.contains(i as u32) by {
                        assert(i != index);
                        assert(c0.free_list.contains(i as u32));
                        let k = c0.free_list.index_of(i as u32);
                        assert(k != c0.free_list.len() - 1);
                        assert(c.free_list[k] == i as u32);
                    }
                }
                row
            },
            None => {
                self.reserve(1);
                let index = self.len;
                self.data.push(Some(value));
                self.row_gen.push(0);
                self.len = self.len + 1;
                proof {
                    let c = self@;
                    assert(!is_free_gen(0u32)) by (bit_vector);
                    assert forall|i: int| 0 <= i < c.gens.len() && is_free_gen(#[trigger] c.gens[i])
                        implies c.free_list.contains(i as u32) by {
                        assert(i < c0.gens.len());
                    }
                }
                RowId::new(index)
            },
        }
    }

    /// Drops the value of `row`, if the row is live, and frees the row.
    pub fn remove(&mut self, row: RowId)
        requires
            column_inv(old(self)@),
            !is_free_gen(row.1),
            (row.0 as int) < old(self)@.len ==> (row.0 as int) < old(self)@.gens.len(),
        ensures
            column_inv(final(self)@),
            final(self)@.len == old(self)@.len,
            final(self)@.capacity == old(self)@.capacity,
            final(self)@.id == old(self)@.id,
            final(self)@.inc == old(self)@.inc,
            final(self)@.pad_size == old(self)@.pad_size,
            column_get(final(self)@, row) is None,
            forall|other: RowId| other != row ==> #[trigger] column_get(final(self)@, other) == column_get(old(self)@, other),
            if (row.0 as int) < old(self)@.len && old(self)@.gens[row.0 as int] == row.1 {
                &&& final(self)@.gens == old(self)@.gens.update(row.0 as int, (row.1 + 1) as u32 | 0x8000_0000u32)
                &&& final(self)@.values == old(self)@.values.update(row.0 as int, None)
                &&& final(self)@.free_list == old(self)@.free_list.push(row.0)
            } else {
                &&& final(self)@.gens == old(self)@.gens
                &&& final(self)@.values == old(self)@.values
                &&& final(self)@.free_list == old(self)@.free_list
            },
    {
        let ghost c0 = self@;
        let index = row.index();
        if index < self.len && self.row_gen[index] == row.gen() {
            let freed = row.next_free();
            self.row_gen.set(index, freed.1);
            self.free_list.push(row.0);
            self.data.set(index, None);
            proof {
                let c = self@;
                assert(!c0.free_list.contains(row.0)) by {
                    if c0.free_list.contains(row.0) {
                        let k = c0.free_list.index_of(row.0);
                        assert(is_free_gen(c0.gens[c0.free_list[k] as int]));
                    }
                }
                assert forall|a: int, b: int| 0 <= a < c.free_list.len() && 0 <= b < c.free_list.len() && a != b
                    implies c.free_list[a] != c.free_list[b] by {
                    if a == c0.free_list.len() {
                        assert(c.free_list[b] == c0.free_list[b]);
                        assert(c0.free_list.contains(c0.free_list[b]));
                    } else if b == c0.free_list.len() {
                        assert(c.free_list[a] == c0.free_list[a]);
                        assert(c0.free_list.contains(c0.free_list[a]));
                    }
                }
                assert forall|k: int| 0 <= k < c.free_list.len() implies #[trigger] c.free_list[k] < c.gens.len()
                    && is_free_gen(c.gens[c.free_list[k] as int]) by {
                    if k < c0.free_list.len() {
                        assert(c.free_list[k] == c0.free_list[k]);
                    }
                }
                assert forall|i: int| 0 <= i < c.gens.len() && is_free_gen(#[trigger] c.gens[i])
                    implies c.free_list.contains(i as u32) by {
                    if i == index {
                        assert(c.free_list[c0.free_list.len() as int] == row.0);
                    } else {
                        let k = c0.free_list.index_of(i as u32);
                        assert(c.free_list[k] == i as u32);
                    }
                }
                let g = row.1;
                assert((g + 1) as u32 | 0x8000_0000u32 != g) by (bit_vector)
                    requires g & 0x8000_0000u32 == 0;
            }
        }
    }

    /// Replaces the value of a live `row`, giving the row a new generation.
    pub fn insert(&mut self, row: RowId, value: T) -> (r: Option<RowId>)
        requires
            column_inv(old(self)@),
            !is_free_gen(row.1),
            (row.0 as int) < old(self)@.len ==> (row.0 as int) < old(self)@.gens.len(),
        ensures
            column_inv(final(self)@),
            final(self)@.len == old(self)@.len,
            final(self)@.capacity == old(self)@.capacity,
            final(self)@.id == old(self)@.id,
            final(self)@.inc == old(self)@.inc,
            final(self)@.pad_size == old(self)@.pad_size,
            final(self)@.free_list == old(self)@.free_list,
            r matches Some(new_row) ==> {
                &&& column_get(final(self)@, new_row) == Some(value)
                &&& column_get(final(self)@, row) is None
                &&& forall|other: RowId| other != row && other != new_row
                    ==> #[trigger] column_get(final(self)@, other) == column_get(old(self)@, other)
            },
            if (row.0 as int) < old(self)@.len && old(self)@.gens[row.0 as int] == row.1 {
                &&& r == Some(RowId(row.0, (row.1 + 1) as u32 & !0x8000_0000u32))
                &&& final(self)@.gens == old(self)@.gens.update(row.0 as int, (r->0).1)
                &&& final(self)@.values == old(self)@.values.update(row.0 as int, Some(value))
            } else {
                &&& r is None
                &&& final(self)@.gens == old(self)@.gens
                &&& final(self)@.values == old(self)@.values
            },
    {
        let index = row.index();
        if index < self.len && self.row_gen[index] == row.gen() {
            let next = row.next();
            proof {
                let g = row.1;
                assert((g + 1) as u32 & !0x8000_0000u32 != g) by (bit_vector)
                    requires g & 0x8000_0000u32 == 0;
            }
            self.row_gen.set(index, next.1);
            self.data.set(index, Some(value));
            Some(next)
        } else {
            None
        }
    }
}

impl<T> Column<T> {
    /// A column with no rows and no room, standing in while a column is
    /// moved out of its place.
    fn placeholder() -> (r: Column<T>)
        ensures
            column_inv(r@),
    {
        Column {
            id: ColumnId(0),
            inc: 1,
            pad_size: 1,
            len: 0,
            capacity: 0,
            data: Vec::new(),
            row_gen: Vec::new(),
            free_list: Vec::new(),
        }
    }

    /// The number of rows with a generation.
    pub fn n_rows(&self) -> (r: usize)
        ensures
            r == self@.gens.len(),
    {
        self.row_gen.len()
    }

    /// Whether `push` can store one more value: a freed row, or room for a
    /// new one that neither the capacity nor the row index overflows.
    pub fn can_push(&self) -> (r: bool)
        requires
            column_inv(self@),
        ensures
            r == column_can_push(self@),
    {
        if self.free_list.len() > 0 {
            return true;
        }
        if self.pad_size == 0 || self.row_gen.len() >= 0xffff_ffffusize {
            return false;
        }
        self.capacity > self.len || self.len <= usize::MAX - self.inc
    }
}

/// A freed row, or room for a new one that neither the capacity nor the row
/// index overflows.
pub open spec fn column_can_push<T>(c: ColumnState<T>) -> bool {
    ||| c.free_list.len() > 0
    ||| {
        &&& c.pad_size > 0
        &&& reserved_capacity(c.len, c.capacity, c.inc, 1) <= usize::MAX
        &&& c.gens.len() < u32::MAX
    }
}

/// A column as the store keeps it: its rows are always well formed.
pub struct StoreColumn<T> {
    col: Column<T>,
}

impl<T> StoreColumn<T> {
    #[verifier::type_invariant]
    closed spec fn inv(self) -> bool {
        column_inv(self.col@)
    }

    pub closed spec fn state(self) -> ColumnState<T> {
        self.col@
    }

    pub fn new(col: Column<T>) -> (r: StoreColumn<T>)
        requires
            column_inv(col@),
        ensures
            r.state() == col@,
    {
        StoreColumn { col }
    }

    pub fn id(&self) -> (r: ColumnId)
        ensures
            r.0 == self.state().id,
    {
        self.col.id()
    }

    /// The value at `row`, when the row is live under that generation.
    pub fn get(&self, row: RowId) -> (r: Option<&T>)
        ensures
            column_inv(self.state()),
            r == match column_get(self.state(), row) {
                Some(v) => Some(&v),
                None => None::<&T>,
            },
    {
        proof { use_type_invariant(self); }
        if row.index() < self.col.n_rows() {
            self.col.get(row)
        } else {
            None
        }
    }

    /// The value at `row`, to change in place, when the row is live under
    /// that generation.
    pub fn get_mut(&mut self, row: RowId) -> (r: Option<&mut T>)
        ensures
            column_inv(final(self).state()),
            final(self).state().gens == old(self).state().gens,
            final(self).state().id == old(self).state().id,
            match column_get(old(self).state(), row) {
                Some(v) => r is Some && *r->0 == v
                    && final(self).state().values == old(self).state().values.update(row.0 as int, Some(*final(r->0))),
                None => r is None && final(self).state().values == old(self).state().values,
            },
    {
        proof { use_type_invariant(&*self); }
        if row.index() < self.col.n_rows() {
            self.col.get_mut(row)
        } else {
            None
        }
    }

    /// Whether `push` stores a value: there is a freed row, or room for a
    /// new one.
    pub fn can_push(&self) -> (r: bool)
        ensures
            r == column_can_push(self.state()),
    {
        proof { use_type_invariant(self); }
        self.col.can_push()
    }

    /// Stores `value`; `None` when the column has no room for it.
    pub fn push(&mut self, value: T) -> (r: Option<RowId>)
        ensures
            column_inv(final(self).state()),
            r is Some <==> column_can_push(old(self).state()),
            final(self).state().id == old(self).state().id,
            r matches Some(row) ==> column_get(final(self).state(), row) == Some(value)
                && forall|other: RowId| other != row ==> #[trigger] column_get(final(self).state(), other)
                    == column_get(old(self).state(), other),
            r is None ==> final(self).state() == old(self).state(),
    {
        proof { use_type_invariant(&*self); }
        if !self.col.can_push() {
            return None;
        }
        let mut col = Column::placeholder();
        std::mem::swap(&mut col, &mut self.col);
        let row = col.push(value);
        self.col = col;
        Some(row)
    }

    /// Drops the value of `row`, if the row is live, and frees the row.
    pub fn remove(&mut self, row: RowId)
        ensures
            column_inv(final(self).state()),
            final(self).state().id == old(self).state().id,
            column_get(final(self).state(), row) is None,
            forall|other: RowId| other != row ==> #[trigger] column_get(final(self).state(), other)
                == column_get(old(self).state(), other),
    {
        proof { use_type_invariant(&*self); }
        if row.is_alloc() && row.index() < self.col.n_rows() {
            let mut col = Column::placeholder();
            std::mem::swap(&mut col, &mut self.col);
            col.remove(row);
            self.col = col;
        }
    }
}

} // verus!
