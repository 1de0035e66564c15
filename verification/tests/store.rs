use essay_ecs::entity::entity::EntityId;
use essay_ecs::entity::store::{Component, EntityStore};
use essay_ecs::entity::view::{ViewIterator, ViewPlan};

#[test]
fn store_spawn() {
    let mut store = EntityStore::new();
    assert_eq!(store.len(), 0);

    store.spawn(TestA(1)).unwrap();
    assert_eq!(store.len(), 1);

    let mut values: Vec<String> = store.view_values::<TestA>().iter().map(|t| format!("{:?}", t)).collect();
    assert_eq!(values.join(","), "TestA(1)");

    store.spawn(TestB(10000)).unwrap();
    assert_eq!(store.len(), 2);

    values = store.view_values::<TestB>().iter().map(|t| format!("{:?}", t)).collect();
    assert_eq!(values.join(","), "TestB(10000)");

    values = store.view_values::<TestA>().iter().map(|t| format!("{:?}", t)).collect();
    assert_eq!(values.join(","), "TestA(1)");

    store.spawn(TestB(100)).unwrap();
    assert_eq!(store.len(), 3);

    values = store.view_values::<TestA>().iter().map(|t| format!("{:?}", t)).collect();
    assert_eq!(values.join(","), "TestA(1)");

    values = store.view_values::<TestB>().iter().map(|t| format!("{:?}", t)).collect();
    assert_eq!(values.join(","), "TestB(10000),TestB(100)");

    for id in store.view_ids::<TestB>() {
        store.get_mut::<TestB>(id).unwrap().0 += 1;
    }

    values = store.view_values::<TestB>().iter().map(|t| format!("{:?}", t)).collect();
    assert_eq!(values.join(","), "TestB(10001),TestB(101)");
}

#[test]
fn entity_get() {
    let mut store = EntityStore::new();
    assert_eq!(store.len(), 0);

    let id_0 = store.spawn(TestA(1000)).unwrap();
    assert_eq!(store.len(), 1);
    assert_eq!(id_0.index(), 0);

    assert_eq!(store.get::<TestA>(id_0), Some(&TestA(1000)));
    assert_eq!(store.get::<TestB>(id_0), None);

    let id_1 = store.spawn(TestB(1001)).unwrap();
    assert_eq!(store.len(), 2);
    assert_eq!(id_1.index(), 1);

    assert_eq!(store.get::<TestA>(id_1), None);
    assert_eq!(store.get::<TestB>(id_1), Some(&TestB(1001)));

    let id_2 = store.spawn(TestA(1002)).unwrap();
    assert_eq!(store.len(), 3);
    assert_eq!(id_2.index(), 2);

    assert_eq!(store.get::<TestA>(id_2), Some(&TestA(1002)));
    assert_eq!(store.get::<TestB>(id_2), None);

    assert_eq!(store.get::<TestA>(id_0), Some(&TestA(1000)));
    assert_eq!(store.get::<TestB>(id_0), None);
}

#[test]
fn push_type() {
    let mut store = EntityStore::new();
    assert_eq!(store.len(), 0);

    store.spawn::<TestA>(TestA(1)).unwrap();
    assert_eq!(store.len(), 1);

    let values: Vec<String> = store.view_values::<TestA>().iter().map(|t| format!("{:?}", t)).collect();
    assert_eq!(values.join(","), "TestA(1)");
}

#[test]
fn push_tuple() {
    let mut store = EntityStore::new();
    assert_eq!(store.len(), 0);

    store.spawn((TestA(1), TestB(2))).unwrap();
    store.spawn((TestB(3), TestA(4))).unwrap();

    assert_eq!(store.len(), 2);

    let mut values: Vec<String> = store.view_values::<TestA>().iter().map(|t| format!("{:?}", t)).collect();
    assert_eq!(values.join(","), "TestA(1),TestA(4)");

    values = store.view_values::<TestB>().iter().map(|t| format!("{:?}", t)).collect();
    assert_eq!(values.join(","), "TestB(2),TestB(3)");

    values = store.view_pairs::<TestA, TestB>().iter().map(|v| format!("{:?}", v)).collect();
    assert_eq!(values.join(","), "(TestA(1), TestB(2)),(TestA(4), TestB(3))");
}

#[test]
fn store_despawn() {
    let mut store = EntityStore::new();
    assert_eq!(store.len(), 0);

    let id_0 = store.spawn::<TestA>(TestA(1)).unwrap();
    store.spawn::<TestA>(TestA(2)).unwrap();
    store.spawn::<TestA>(TestA(3)).unwrap();

    store.despawn(id_0);

    let values: Vec<String> = store.view_values::<TestA>().iter().map(|t| format!("{:?}", t)).collect();
    assert_eq!(values.join(","), "TestA(2),TestA(3)");

    store.spawn::<TestA>(TestA(4)).unwrap();
    store.spawn::<TestA>(TestA(5)).unwrap();

    let values: Vec<String> = store.view_values::<TestA>().iter().map(|t| format!("{:?}", t)).collect();
    assert_eq!(values.join(","), "TestA(4),TestA(2),TestA(3),TestA(5)");
}

#[test]
fn despawn_frees_id_and_value() {
    let mut store = EntityStore::new();
    let a = store.spawn(TestA(7)).unwrap();
    let b = store.spawn(TestA(8)).unwrap();

    assert!(store.despawn(a));
    assert!(!store.despawn(a));
    assert_eq!(store.get::<TestA>(a), None);
    assert_eq!(store.get::<TestA>(b), Some(&TestA(8)));

    // The index comes back under a new generation; the old id stays dead.
    let c = store.spawn(TestA(9)).unwrap();
    assert_eq!(c.index(), a.index());
    assert_ne!(c, a);
    assert_eq!(store.get::<TestA>(c), Some(&TestA(9)));
    assert_eq!(store.get::<TestA>(a), None);
    assert_eq!(store.len(), 2);
}

#[test]
fn spawn_empty_and_unknown_ids() {
    let mut store = EntityStore::new();
    let e = store.spawn_empty().unwrap();
    assert_eq!(e, EntityId(0, 0));
    assert_eq!(store.get::<TestA>(e), None);
    assert_eq!(store.get::<TestA>(EntityId(5, 0)), None);
    assert!(!store.despawn(EntityId(5, 0)));
    assert!(store.despawn(e));
}

#[test]
fn view_iterator_skips_freed_rows() {
    let mut store = EntityStore::new();
    let a = store.spawn(TestA(1)).unwrap();
    let b = store.spawn((TestA(2), TestB(3))).unwrap();
    let _c = store.spawn(TestA(4)).unwrap();
    store.despawn(a);

    let col = store.add_column::<TestA>();
    let plan: ViewPlan = store.view_plan(&vec![col]).unwrap();
    let mut it = ViewIterator::new(plan.view);
    let mut seen = Vec::new();
    while let Some((vt, row)) = it.next(&store) {
        seen.push((row.entity_id(), store.view_value::<TestA>(&plan, vt, row, 0).unwrap().0));
    }
    // Table {A} first (the freed row 0 is skipped), then table {A, B}.
    assert_eq!(seen, vec![(EntityId(2, 0), 4), (b, 2)]);
}

#[test]
fn insert_extend() {
    let mut store = EntityStore::new();
    assert_eq!(store.len(), 0);

    let id = store.spawn(TestA(1)).unwrap();
    store.spawn(TestA(2)).unwrap();
    store.spawn(TestA(3)).unwrap();

    let mut values: Vec<String> = store.view_values::<TestA>().iter().map(|t| format!("{:?}", t)).collect();
    assert_eq!(values.join(","), "TestA(1),TestA(2),TestA(3)");

    store.extend(id, TestB(10));

    values = store.view_values::<TestA>().iter().map(|t| format!("{:?}", t)).collect();
    assert_eq!(values.join(","), "TestA(2),TestA(3),TestA(1)");

    values = store.view_values::<TestB>().iter().map(|t| format!("{:?}", t)).collect();
    assert_eq!(values.join(","), "TestB(10)");

    values = store.view_pairs::<TestA, TestB>().iter().map(|v| format!("{:?}", v)).collect();
    assert_eq!(values.join(","), "(TestA(1), TestB(10))");
}

#[test]
fn extend_replaces_present_component_and_refuses_dead_ids() {
    let mut store = EntityStore::new();

    let id = store.spawn((TestA(1), TestB(2))).unwrap();
    let other = store.spawn(TestA(5)).unwrap();

    assert!(store.extend(id, TestB(20)));
    assert_eq!(store.get::<TestB>(id), Some(&TestB(20)));
    assert_eq!(store.get::<TestA>(id), Some(&TestA(1)));

    assert!(store.extend(other, TestB(50)));
    assert_eq!(store.get::<TestA>(other), Some(&TestA(5)));
    assert_eq!(store.get::<TestB>(other), Some(&TestB(50)));

    assert!(store.despawn(other));
    assert!(!store.extend(other, TestB(60)));
    assert_eq!(store.get::<TestB>(other), None);

    let values: Vec<String> = store.view_pairs::<TestA, TestB>().iter().map(|v| format!("{:?}", v)).collect();
    assert_eq!(values.join(","), "(TestA(1), TestB(20))");
}

#[test]
fn get_entity_by_index() {
    let mut store = EntityStore::new();
    let id = store.spawn(TestA(1)).unwrap();
    assert_eq!(store.get_entity(id), Some(id));
    assert_eq!(store.get_entity(EntityId(1, 0)), None);
}

#[derive(Debug, PartialEq)]
struct TestA(u32);

#[derive(Debug, PartialEq)]
struct TestB(u16);

impl Component for TestA {}
impl Component for TestB {}
