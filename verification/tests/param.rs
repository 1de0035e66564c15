use std::sync::{Arc, Mutex};

use essay_ecs::core_app::{Core, CoreApp};
use essay_ecs::entity::store::Component;
use essay_ecs::param::commands::Commands;
use essay_ecs::param::local::Local;
use essay_ecs::param::res::{Res, ResMut};
use essay_ecs::schedule::schedule::Schedule;
use essay_ecs::world::world::World;

#[test]
fn test_local() {
    let mut world = World::new();
    world.insert_resource::<String>("none".to_string());

    let mut schedule = Schedule::new();
    schedule.add_system(local_system);

    schedule.tick(&mut world).unwrap();
    assert_eq!(world.resource::<String>().unwrap(), "local(1)");

    schedule.tick(&mut world).unwrap();
    assert_eq!(world.resource::<String>().unwrap(), "local(2)");
}

fn local_system(local: Local<usize>, mut value: ResMut<String>) {
    *local.0 = *local.0 + 1;
    *value.get_mut() = format!("local({})", local.0);
}

#[test]
fn insert_resource() {
    let mut world = World::new();

    let mut schedule = Schedule::new();
    schedule.add_system(|mut c: Commands| c.insert_resource(TestA(100)));
    let _ = schedule.tick(&mut world);

    assert_eq!(world.resource::<TestA>().unwrap(), &TestA(100));

    let mut schedule = Schedule::new();
    schedule.add_system(|mut c: Commands| c.insert_resource(TestA(1000)));
    let _ = schedule.tick(&mut world);

    assert_eq!(world.resource::<TestA>().unwrap(), &TestA(1000));
}

#[test]
fn schedule_flush() {
    let mut world = World::new();
    let mut schedule = Schedule::new();

    schedule.add_system(move |mut cmd: Commands| {
        cmd.spawn(TestComp(2));
    });

    schedule.tick(&mut world).unwrap();
    assert_eq!(
        world.query::<TestComp>().iter().map(|s| format!("comp{}", s.0)).collect::<Vec<String>>(),
        vec!["comp2"]
    );
}

#[test]
fn add_closure() {
    let mut app = CoreApp::new();

    app.run_system(|mut c: Commands| c.add(|w: &mut World| {
        w.spawn(TestA(100));
    }));

    let values: Vec<TestA> = app.query::<TestA>().iter().map(|t| (*t).clone()).collect();
    assert_eq!(values, vec![TestA(100)]);

    app.run_system(|mut c: Commands| c.add(|w: &mut World| {
        w.spawn(TestA(200));
    }));

    let values: Vec<TestA> = app.query::<TestA>().iter().map(|t| (*t).clone()).collect();
    assert_eq!(values, vec![TestA(100), TestA(200)]);
}

#[test]
fn command_spawn() {
    let mut app = CoreApp::new();

    app.run_system(|mut c: Commands| c.spawn(TestA(100)));

    let values: Vec<TestA> = app.query::<TestA>().iter().map(|t| (*t).clone()).collect();
    assert_eq!(values, vec![TestA(100)]);

    app.run_system(|mut c: Commands| c.spawn(TestA(200)));

    let values: Vec<TestA> = app.query::<TestA>().iter().map(|t| (*t).clone()).collect();
    assert_eq!(values, vec![TestA(100), TestA(200)]);
}

#[test]
fn entity_command_spawn() {
    let mut app = CoreApp::new();

    app.run_system(|mut c: Commands| c.spawn(TestA(100)));

    let values: Vec<TestA> = app.query::<TestA>().iter().map(|t| (*t).clone()).collect();
    assert_eq!(values, vec![TestA(100)]);

    app.run_system(|mut c: Commands| c.spawn(TestA(200)));

    let values: Vec<TestA> = app.query::<TestA>().iter().map(|t| (*t).clone()).collect();
    assert_eq!(values, vec![TestA(100), TestA(200)]);
}

#[test]
fn entity_command_insert() {
    let mut app = CoreApp::new();
    let id = app.spawn(TestA(100)).unwrap();

    app.run_system(move |mut c: Commands| {
        c.entity(id).insert(TestComp(7)).insert(TestComp(8));
    });

    let values: Vec<u32> = app.query::<TestComp>().iter().map(|t| t.0).collect();
    assert_eq!(values, vec![8]);
    let values: Vec<TestA> = app.query::<TestA>().iter().map(|t| (*t).clone()).collect();
    assert_eq!(values, vec![TestA(100)]);
}

#[test]
fn entity_command_despawn() {
    let mut app = CoreApp::new();
    let id = app.spawn(TestA(100)).unwrap();

    app.run_system(move |mut c: Commands| c.entity(id).despawn());

    assert!(app.query::<TestA>().is_empty());
}

#[test]
fn res_params_read_and_write() {
    let mut app = CoreApp::new();
    app.insert_resource(TestA(1));
    app.insert_resource(10u32);

    app.run_system(|a: Res<TestA>, mut n: ResMut<u32>| {
        *n.get_mut() += a.get().0 as u32;
    });
    assert_eq!(app.resource::<u32>(), Some(&11));
    assert_eq!(app.resource::<TestA>(), Some(&TestA(1)));
}

#[test]
fn missing_resource_skips_system() {
    let mut app = CoreApp::new();
    let ran = Arc::new(Mutex::new(false));
    let ptr = Arc::clone(&ran);
    app.run_system(move |_a: Res<TestA>| {
        *ptr.lock().unwrap() = true;
    });
    assert!(!*ran.lock().unwrap());

    let seen = Arc::new(Mutex::new(Vec::<bool>::new()));
    let ptr = Arc::clone(&seen);
    app.run_system(move |a: Option<Res<TestA>>| {
        ptr.lock().unwrap().push(a.is_some());
    });
    assert_eq!(*seen.lock().unwrap(), vec![false]);
}

#[test]
fn each_system_visits_each_entity() {
    let mut app = CoreApp::new();
    app.spawn(TestA(1)).unwrap();
    app.spawn((TestA(3), TestComp(4))).unwrap();
    app.spawn(TestComp(2)).unwrap();

    let values = Arc::new(Mutex::new(Vec::<String>::new()));
    let ptr = Arc::clone(&values);
    app.system(Core, move |t: &TestA| ptr.lock().unwrap().push(format!("{:?}", t)));
    app.system(Core, |t: &mut TestComp| t.0 += 10);

    app.tick().unwrap();
    assert_eq!(values.lock().unwrap().join(", "), "TestA(1), TestA(3)");
    // The view walks the tables in the order they were made: the table of
    // (TestA, TestComp) before the table of TestComp alone.
    let comps: Vec<u32> = app.query::<TestComp>().iter().map(|c| c.0).collect();
    assert_eq!(comps, vec![14, 12]);
}

#[derive(Clone, PartialEq, Debug, Default)]
struct TestA(usize);

impl Component for TestA {}

struct TestComp(u32);

impl Component for TestComp {}
