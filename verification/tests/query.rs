use std::sync::{Arc, Mutex};

use essay_ecs::core_app::{Core, CoreApp};
use essay_ecs::entity::store::{Component, EntityStore};
use essay_ecs::param::commands::Commands;
use essay_ecs::param::query::Query;
use essay_ecs::world::world::World;

#[test]
fn query_component() {
    let mut app = CoreApp::new();

    let values = Arc::new(Mutex::new(Vec::<String>::new()));
    let ptr = values.clone();
    app.system(Core, move |q: Query<&TestA>| {
        for t in q.iter() {
            ptr.lock().unwrap().push(format!("{:?}", t));
        }
    });

    app.tick().unwrap();
    assert_eq!(take(&values), "");

    app.run_system(|mut c: Commands| {
        c.spawn(TestA(10));
    });

    app.tick().unwrap();
    assert_eq!(take(&values), "TestA(10)");

    app.tick().unwrap();
    assert_eq!(take(&values), "TestA(10)");

    app.run_system(|mut c: Commands| {
        c.spawn(TestA(20));
    });

    app.tick().unwrap();
    assert_eq!(take(&values), "TestA(10), TestA(20)");
}

#[test]
fn query_pairs_and_commands() {
    let mut app = CoreApp::new();
    app.spawn((TestA(1), TestB(2))).unwrap();
    app.spawn(TestA(3)).unwrap();

    let values = Arc::new(Mutex::new(Vec::<String>::new()));
    let ptr = values.clone();
    app.run_system(move |q: Query<(&TestA, &TestB)>, mut c: Commands| {
        for (a, b) in q.iter() {
            ptr.lock().unwrap().push(format!("{:?} {:?}", a, b));
        }
        c.spawn((TestA(5), TestB(6)));
    });
    assert_eq!(take(&values), "TestA(1) TestB(2)");

    let ptr = values.clone();
    app.run_system(move |q: Query<(&TestA, &TestB)>| {
        for (a, b) in q.iter() {
            ptr.lock().unwrap().push(format!("{:?} {:?}", a, b));
        }
    });
    assert_eq!(take(&values), "TestA(1) TestB(2), TestA(5) TestB(6)");
}

#[test]
fn store_iter_view_tuples() {
    let mut store = EntityStore::new();
    store.spawn((TestA(1), TestB(2))).unwrap();
    store.spawn(TestA(3)).unwrap();
    store.spawn((TestB(4), TestA(5))).unwrap();

    let values: Vec<String> = store.iter_view::<&TestA>().iter().map(|t| format!("{:?}", t)).collect();
    assert_eq!(values.join(","), "TestA(1),TestA(5),TestA(3)");

    let values: Vec<String> = store.iter_view::<(&TestB, &TestA)>().iter().map(|t| format!("{:?}", t)).collect();
    assert_eq!(values.join(","), "(TestB(2), TestA(1)),(TestB(4), TestA(5))");

    let values: Vec<String> = store.iter_view::<(&TestA, &TestB, &TestC)>().iter().map(|t| format!("{:?}", t)).collect();
    assert!(values.is_empty());
}

#[test]
fn world_view_and_store_lending() {
    let mut world = World::new();
    world.spawn(TestA(7)).unwrap();
    let values: Vec<u32> = world.view::<&TestA>().iter().map(|t| t.0).collect();
    assert_eq!(values, vec![7]);

    let store = world.take_store().unwrap();
    assert!(world.take_store().is_none());
    assert!(world.view::<&TestA>().is_empty());
    world.put_store(store);
    let values: Vec<u32> = world.view::<&TestA>().iter().map(|t| t.0).collect();
    assert_eq!(values, vec![7]);
}

fn take(values: &Arc<Mutex<Vec<String>>>) -> String {
    let v: Vec<String> = values.lock().unwrap().drain(..).collect();

    v.join(", ")
}

#[derive(Debug)]
pub struct TestA(u32);

impl Component for TestA {}

#[derive(Debug)]
pub struct TestB(u32);

impl Component for TestB {}

#[derive(Debug)]
pub struct TestC(u32);

impl Component for TestC {}
