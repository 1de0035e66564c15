use std::sync::{Arc, Mutex};

use essay_ecs::base_app::BaseApp;
use essay_ecs::core_app::{Core, CoreApp};
use essay_ecs::schedule::system::IntoSystemConfig;

#[test]
fn run_if() {
    let mut app = BaseApp::new();

    let values = Arc::new(Mutex::new(Vec::<String>::new()));

    let ptr = values.clone();
    app.add_system((move || { push(&ptr, "system-true"); })
        .run_if(run_true)
    );

    let ptr = values.clone();
    app.add_system((move || { push(&ptr, "system-false"); })
        .run_if(run_false)
    );

    app.tick();
    assert_eq!(take(&values), "system-true");

    app.tick();
    assert_eq!(take(&values), "system-true");
}

#[test]
fn run_if_tests_every_condition_each_tick() {
    let mut app = CoreApp::new();

    let values = Arc::new(Mutex::new(Vec::<String>::new()));

    let ptr = values.clone();
    let first = values.clone();
    let second = values.clone();
    app.system(Core, (move || { push(&ptr, "system"); })
        .run_if(move || { push(&first, "cond-a"); false })
        .run_if(move || { push(&second, "cond-b"); true })
    );

    app.tick().unwrap();
    assert_eq!(take(&values), "cond-a,cond-b");

    app.tick().unwrap();
    assert_eq!(take(&values), "cond-a,cond-b");
}

#[test]
fn run_if_all_conditions_hold() {
    let mut app = CoreApp::new();

    let values = Arc::new(Mutex::new(Vec::<String>::new()));

    let ptr = values.clone();
    app.system(Core, (move || { push(&ptr, "system"); })
        .run_if(run_true)
        .run_if(run_true)
    );

    app.tick().unwrap();
    assert_eq!(take(&values), "system");
}

fn push(ptr: &Arc<Mutex<Vec<String>>>, value: &str) {
    ptr.lock().unwrap().push(value.to_string());
}

fn take(ptr: &Arc<Mutex<Vec<String>>>) -> String {
    let values: Vec<String> = ptr.lock().unwrap().drain(..).collect();

    values.join(",")
}

fn run_true() -> bool {
    true
}

fn run_false() -> bool {
    false
}
