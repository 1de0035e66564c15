use std::sync::{Arc, Mutex};

use essay_ecs::base_app::{BaseApp, BasePhases, BaseSchedule};
use essay_ecs::schedule::system::IntoSystemConfig;

#[test]
fn base_app_runs_phases_in_order() {
    let mut app = BaseApp::new();
    let values = Arc::new(Mutex::new(Vec::<String>::new()));

    let ptr = values.clone();
    app.add_system((move || push(&ptr, "last")).phase(BasePhases::Last));
    let ptr = values.clone();
    app.add_system(move || push(&ptr, "main"));
    let ptr = values.clone();
    app.add_system((move || push(&ptr, "first")).phase(BasePhases::First));

    app.tick();
    assert_eq!(take(&values), "first, main, last");

    app.tick().tick();
    assert_eq!(take(&values), "first, main, last, first, main, last");
}

#[test]
fn base_app_resources() {
    let mut app = BaseApp::new();
    assert!(app.get_resource::<u32>().is_none());

    app.insert_resource(7u32);
    assert_eq!(app.get_resource::<u32>(), Some(&7));
    *app.get_mut_resource::<u32>().unwrap() += 1;
    assert_eq!(app.resource::<u32>(), Some(&8));
    *app.resource_mut::<u32>().unwrap() += 1;
    assert_eq!(app.resource::<u32>(), Some(&9));
}

#[test]
fn base_app_empty_has_no_schedule() {
    let mut app = BaseApp::empty();
    let values = Arc::new(Mutex::new(Vec::<String>::new()));

    let ptr = values.clone();
    app.add_system(move || push(&ptr, "main"));
    app.tick();
    assert_eq!(take(&values), "");
    assert!(app.get_mut_schedule(&BaseSchedule::Main).is_none());

    let mut app = BaseApp::default();
    assert!(app.get_mut_schedule(&BaseSchedule::Main).is_some());
    assert!(app.query::<u32>().is_empty());
}

fn push(ptr: &Arc<Mutex<Vec<String>>>, value: &str) {
    ptr.lock().unwrap().push(value.to_string());
}

fn take(ptr: &Arc<Mutex<Vec<String>>>) -> String {
    let values: Vec<String> = ptr.lock().unwrap().drain(..).collect();

    values.join(", ")
}
