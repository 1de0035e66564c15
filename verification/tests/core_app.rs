use std::sync::{Arc, Mutex};

use essay_ecs::core_app::{Core, CoreApp};
use essay_ecs::entity::store::Component;
use essay_ecs::schedule::executor::Executors;
use essay_ecs::world::world::World;

#[test]
fn test_schedule() {
    let mut app = CoreApp::new();

    app.system(Core, || println!("tick!"));

    app.tick().unwrap();
}

#[test]
fn core_app_runs_systems_each_tick() {
    let mut app = CoreApp::new();
    let values = Arc::new(Mutex::new(Vec::<String>::new()));

    let ptr = Arc::clone(&values);
    app.system(Core, move || ptr.lock().unwrap().push("core".to_string()));
    app.set_executor(Executors::Single);

    app.tick().unwrap();
    app.tick().unwrap();
    assert_eq!(values.lock().unwrap().join(", "), "core, core");
}

#[test]
fn core_app_empty_has_no_main_schedule() {
    let mut app = CoreApp::empty();
    assert!(app.tick().is_err());
}

#[test]
fn core_app_run_system_and_query() {
    let mut app = CoreApp::new();
    app.insert_resource(3u32);
    app.run_system(|w: &mut World| {
        let n = *w.resource::<u32>().unwrap();
        w.spawn(TestA(n)).unwrap();
    });
    assert_eq!(app.query::<TestA>(), vec![&TestA(3)]);
    assert!(app.contains_resource::<u32>());
    assert!(app.get_mut_schedule(&Core).is_some());
}

#[derive(Debug, PartialEq)]
struct TestA(u32);

impl Component for TestA {}
