use std::alloc::Layout;
use std::mem;

use essay_ecs::entity::meta::{ColumnId, StoreMeta, TableId, ViewId, ViewTableId};

#[test]
fn add_column() {
    let mut meta = StoreMeta::new();

    let col_id = meta.add_column::<TestA>();
    let col_type = meta.column(col_id);
    assert_eq!(col_type.id(), ColumnId(0));
    assert_eq!(col_type._size(), mem::size_of::<usize>());
    assert_eq!(col_type.size_padded(), mem::size_of::<usize>());
    assert_eq!(col_type.layout_padded(), Layout::new::<TestA>().pad_to_align());
    assert_eq!(col_type.tables().len(), 0);
    assert_eq!(col_type.views().len(), 0);

    let col_id = meta.add_column::<TestB>();
    let col_type = meta.column(col_id);
    assert_eq!(col_type.id(), ColumnId(1));
    assert_eq!(col_type._size(), mem::size_of::<usize>());
    assert_eq!(col_type.tables().len(), 0);
    assert_eq!(col_type.views().len(), 0);

    // check double add
    let col_id = meta.add_column::<TestA>();
    assert_eq!(col_id, ColumnId(0));
}

#[test]
fn add_single_row() {
    let mut meta = StoreMeta::new();

    let type_a_id = single_row_type::<TestA>(&mut meta);
    assert_eq!(type_a_id, TableId(0));

    let type_a = meta.table(type_a_id);
    assert_eq!(type_a.id(), TableId(0));
    let cols = type_a.columns();
    assert_eq!(cols.len(), 1);
    assert_eq!(cols[0], ColumnId(0));

    let col_a = meta.column(ColumnId(0));
    assert_eq!(col_a.tables().len(), 1);
    assert_eq!(col_a.tables()[0], TableId(0));
    assert_eq!(col_a.views().len(), 0);

    let type_a_id = single_row_type::<TestA>(&mut meta);
    assert_eq!(type_a_id, TableId(0));

    let type_a = meta.table(type_a_id);
    assert_eq!(type_a.id(), TableId(0));

    let cols = type_a.columns();
    assert_eq!(cols.len(), 1);
    assert_eq!(cols[0], ColumnId(0));

    let col_a = meta.column(ColumnId(0));
    assert_eq!(col_a.tables().len(), 1);
    assert_eq!(col_a.views().len(), 0);

    let type_b_id = single_row_type::<TestB>(&mut meta);
    assert_eq!(type_b_id, TableId(1));

    let type_b = meta.table(type_b_id);
    assert_eq!(type_b.id(), TableId(1));
    let cols = type_b.columns();
    assert_eq!(cols.len(), 1);
    assert_eq!(cols[0], ColumnId(1));

    let col_b = meta.column(ColumnId(1));
    assert_eq!(col_b.tables().len(), 1);
    assert_eq!(col_b.tables()[0], TableId(1));
    assert_eq!(col_b.views().len(), 0);
}

#[test]
fn push_row() {
    let mut meta = StoreMeta::new();

    let type_a_id = single_row_type::<TestA>(&mut meta);
    assert_eq!(type_a_id, TableId(0));

    let type_a = meta.table(type_a_id);
    assert_eq!(type_a.id(), TableId(0));
}

#[test]
fn row_cols() {
    let mut meta = StoreMeta::new();

    let type_a = single_row_type::<TestA>(&mut meta);
    assert_eq!(type_a, TableId(0));

    let col_a = meta.add_column::<TestA>();

    let row_type = meta.table(type_a);
    assert_eq!(row_type.id(), type_a);
    assert_eq!(row_type.columns().len(), 1);
    let cols = row_type.columns();
    assert_eq!(cols.len(), 1);
    assert_eq!(cols[0], col_a);

    let type_b = single_row_type::<TestB>(&mut meta);
    assert_eq!(type_b, TableId(1));

    let _col_b = meta.add_column::<TestB>();
}

#[test]
fn col_rows() {
    let mut meta = StoreMeta::new();

    let type_a = single_row_type::<TestA>(&mut meta);
    assert_eq!(type_a, TableId(0));
}

#[test]
fn row_then_view() {
    let mut meta = StoreMeta::new();

    let row_id_a = single_row_type::<TestA>(&mut meta);
    assert_eq!(row_id_a, TableId(0));

    let view_id_a = add_view_single::<TestA>(&mut meta);
    assert_eq!(view_id_a, ViewId(0));

    let view_a = meta.view(view_id_a);
    assert_eq!(view_a.id(), ViewId(0));
    let cols = view_a.cols();
    assert_eq!(cols.len(), 1);
    assert_eq!(cols[0], ColumnId(0));

    let col_a = meta.column(ColumnId(0));
    assert_eq!(col_a.tables().len(), 1);
    assert_eq!(col_a.tables()[0], TableId(0));
    assert_eq!(col_a.views().len(), 1);
    assert_eq!(col_a.views()[0], ViewId(0));

    let entity_row_a = meta.view_table(ViewTableId(0));
    assert_eq!(entity_row_a._id(), ViewTableId(0));
    assert_eq!(entity_row_a.table_id(), TableId(0));
    assert_eq!(entity_row_a._view_id(), ViewId(0));
}

#[test]
fn view_then_row() {
    let mut meta = StoreMeta::new();

    let entity_id_a = add_view_single::<TestA>(&mut meta);
    assert_eq!(entity_id_a, ViewId(0));

    let row_id_a = single_row_type::<TestA>(&mut meta);
    assert_eq!(row_id_a, TableId(0));

    let entity_a = meta.view(entity_id_a);
    assert_eq!(entity_a.id(), ViewId(0));
    let cols = entity_a.cols();
    assert_eq!(cols.len(), 1);
    assert_eq!(cols[0], ColumnId(0));
    let rows = entity_a.view_tables();
    assert_eq!(rows.len(), 1);
    assert_eq!(rows[0], ViewTableId(0));

    let col_a = meta.column(ColumnId(0));
    assert_eq!(col_a.tables().len(), 1);
    assert_eq!(col_a.tables()[0], TableId(0));
    assert_eq!(col_a.views().len(), 1);
    assert_eq!(col_a.views()[0], ViewId(0));

    let entity_row_a = meta.view_table(ViewTableId(0));
    assert_eq!(entity_row_a._id(), ViewTableId(0));
    assert_eq!(entity_row_a.table_id(), TableId(0));
    assert_eq!(entity_row_a._view_id(), ViewId(0));
}

#[test]
fn view_then_row2() {
    let mut meta = StoreMeta::new();

    let entity_id_a = add_view_single::<TestA>(&mut meta);
    assert_eq!(entity_id_a, ViewId(0));

    let entity_id_b = add_view_single::<TestB>(&mut meta);
    assert_eq!(entity_id_b, ViewId(1));

    let row_id_a = single_row_type::<TestA>(&mut meta);
    assert_eq!(row_id_a, TableId(0));

    let row_id_b = single_row_type::<TestB>(&mut meta);
    assert_eq!(row_id_b, TableId(1));

    let entity_b = meta.view(entity_id_b);
    assert_eq!(entity_b.id(), ViewId(1));
    let cols = entity_b.cols();
    assert_eq!(cols.len(), 1);
    assert_eq!(cols[0], ColumnId(1));
    let rows = entity_b.view_tables();
    assert_eq!(rows.len(), 1);
    assert_eq!(rows[0], ViewTableId(1));

    let col_b = meta.column(ColumnId(1));
    assert_eq!(col_b.tables().len(), 1);
    assert_eq!(col_b.tables()[0], TableId(1));
    assert_eq!(col_b.views().len(), 1);
    assert_eq!(col_b.views()[0], ViewId(1));

    let entity_row_b = meta.view_table(ViewTableId(1));
    assert_eq!(entity_row_b._id(), ViewTableId(1));
    assert_eq!(entity_row_b.table_id(), TableId(1));
    assert_eq!(entity_row_b._view_id(), ViewId(1));
}

#[test]
fn table_columns_sorted_and_deduplicated() {
    let mut meta = StoreMeta::new();

    let a = meta.add_column::<TestA>();
    let b = meta.add_column::<TestB>();

    let t1 = meta.add_table(vec![b, a, b]);
    let cols = meta.table(t1).columns();
    assert_eq!(cols.len(), 2);
    assert_eq!(cols[0], a);
    assert_eq!(cols[1], b);

    // The same set of columns in another order names the same table.
    let t2 = meta.add_table(vec![a, b]);
    assert_eq!(t1, t2);
    assert_eq!(meta.table(t1).position(b), Some(1));
    assert_eq!(meta.table(t1).position(ColumnId(7)), None);
}

#[test]
fn view_matches_tables_with_its_columns() {
    let mut meta = StoreMeta::new();

    let a = meta.add_column::<TestA>();
    let b = meta.add_column::<TestB>();

    let t_a = meta.add_table(vec![a]);
    let t_ab = meta.add_table(vec![a, b]);
    let _t_b = meta.add_table(vec![b]);

    let v = meta.add_view(&vec![a]);
    let vts = meta.view(v).view_tables().clone();
    assert_eq!(vts.len(), 2);
    assert_eq!(meta.view_table(vts[0]).table_id(), t_a);
    assert_eq!(meta.view_table(vts[1]).table_id(), t_ab);
    assert_eq!(meta.view_table(vts[1]).index_map(), &vec![0]);

    let v_ba = meta.add_view(&vec![b, a]);
    let vts = meta.view(v_ba).view_tables().clone();
    assert_eq!(vts.len(), 1);
    assert_eq!(meta.view_table(vts[0]).table_id(), t_ab);
    // The view's columns in its order, found at their positions in the table.
    assert_eq!(meta.view_table(vts[0]).index_map(), &vec![1, 0]);
}

fn single_row_type<T: 'static>(meta: &mut StoreMeta) -> TableId {
    let column_id = meta.add_column::<T>();
    let mut columns = Vec::<ColumnId>::new();
    columns.push(column_id);

    meta.add_table(columns)
}

fn add_view_single<T: 'static>(meta: &mut StoreMeta) -> ViewId {
    let column_id = meta.add_column::<T>();
    let mut columns = Vec::<ColumnId>::new();
    columns.push(column_id);

    meta.add_view(&columns)
}

#[allow(dead_code)]
struct TestA(usize);

#[allow(dead_code)]
struct TestB(usize);
