use essay_ecs::entity::column::RowId;
use essay_ecs::entity::entity::{EntityAlloc, EntityId};
use essay_ecs::entity::meta::TableId;
use essay_ecs::entity::table::Table;

#[test]
fn table_push_get_remove() {
    let mut table = Table::new(TableId(3));
    assert_eq!(table.id(), TableId(3));
    assert_eq!(table.len(), 0);

    let a = table.push(EntityId(0, 0), vec![RowId(5, 0)]);
    let b = table.push(EntityId(1, 0), vec![RowId(6, 0)]);
    assert_eq!(a, RowId(0, 0));
    assert_eq!(b, RowId(1, 0));
    assert_eq!(table.get(a).unwrap().entity_id(), EntityId(0, 0));
    assert_eq!(table.get(b).unwrap().column(0), RowId(6, 0));

    table.remove(a);
    assert!(table.get(a).is_none());
    assert!(!table.get_by_index(0).unwrap().is_alloc());
    assert_eq!(table.get(b).unwrap().entity_id(), EntityId(1, 0));

    // The freed row comes back under its next generation.
    let c = table.push(EntityId(2, 0), vec![RowId(7, 0)]);
    assert_eq!(c, RowId(0, 1));
    assert!(table.get(a).is_none());
    assert_eq!(table.get(c).unwrap().entity_id(), EntityId(2, 0));
    assert_eq!(table.len(), 2);
}

#[test]
fn entity_alloc_reuses_freed_ids() {
    let mut alloc = EntityAlloc::new();
    let a = alloc.allocate().unwrap();
    let b = alloc.allocate().unwrap();
    assert_eq!(a, EntityId(0, 0));
    assert_eq!(b, EntityId(1, 0));
    assert!(a.is_alloc());

    let freed = EntityId(0, 1 | 0x8000_0000);
    assert!(!freed.is_alloc());
    alloc.free(freed);
    assert_eq!(alloc.allocate().unwrap(), EntityId(0, 1));
    assert_eq!(alloc.allocate().unwrap(), EntityId(2, 0));
}
