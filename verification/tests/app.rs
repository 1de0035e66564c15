use std::sync::{Arc, Mutex};

use essay_ecs::app::app::App;
use essay_ecs::app::main_schedule::{First, Last, PostStartup, PostUpdate, PreStartup, PreUpdate, Startup, Update};
use essay_ecs::app::plugin::Plugin;
use essay_ecs::schedule::schedule::ScheduleLabel;

#[test]
fn app_app_hello() {
    let mut app = App::new();
    let value = Vec::<String>::new();
    let value = Arc::new(Mutex::new(value));

    let ptr = Arc::clone(&value);
    app.system(Update, move || ptr.lock().unwrap().push("update".to_string()));
    assert_eq!(take(&value), "");
    app.tick();
    assert_eq!(take(&value), "update");
    app.tick();
    app.tick();
    assert_eq!(take(&value), "update, update");
}

#[test]
fn app_startup_system() {
    let mut app = App::new();
    let value = Vec::<String>::new();
    let value = Arc::new(Mutex::new(value));

    let ptr = Arc::clone(&value);
    app.system(Startup, move || push(&ptr, "startup"));

    let ptr = Arc::clone(&value);
    app.system(Update, move || push(&ptr, "update"));
    assert_eq!(take(&value), "");
    app.tick();
    assert_eq!(take(&value), "startup, update");
    app.tick();
    app.tick();
    assert_eq!(take(&value), "update, update");
}

#[test]
fn default_run_once() {
    let mut app = App::new();
    let value = Vec::<String>::new();
    let value = Arc::new(Mutex::new(value));

    let ptr = Arc::clone(&value);
    app.system(Startup, move || push(&ptr, "startup"));

    let ptr = Arc::clone(&value);
    app.system(Update, move || push(&ptr, "update"));
    assert_eq!(take(&value), "");

    app.run();
    assert_eq!(take(&value), "startup, update");
}

#[test]
fn run_3() {
    let mut app = App::new();
    let value = Vec::<String>::new();
    let value = Arc::new(Mutex::new(value));

    let ptr = Arc::clone(&value);
    app.system(Startup, move || push(&ptr, "startup"));

    let ptr = Arc::clone(&value);
    app.system(Update, move || push(&ptr, "update"));
    assert_eq!(take(&value), "");

    app.runner(|mut app| {
        for _ in 0..3 {
            app.tick();
        }
    });

    app.run();
    assert_eq!(take(&value), "startup, update, update, update");
}

#[test]
fn app_resource() {
    let mut app = App::new();

    app.insert_resource(TestA(1));
    assert_eq!(app.resource::<TestA>().unwrap(), &TestA(1));

    app.insert_resource(TestB(2));
    assert_eq!(app.resource::<TestA>().unwrap(), &TestA(1));
    assert_eq!(app.resource::<TestB>().unwrap(), &TestB(2));
}

#[test]
fn main_schedule_app_hello() {
    let mut app = App::new();
    let value = Vec::<String>::new();
    let value = Arc::new(Mutex::new(value));

    let ptr = Arc::clone(&value);
    app.system(Update, move || ptr.lock().unwrap().push("update".to_string()));
    assert_eq!(take(&value), "");
    app.tick();
    assert_eq!(take(&value), "update");
    app.tick();
    app.tick();
    assert_eq!(take(&value), "update, update");
}

#[test]
fn main_schedule_startup_system() {
    let mut app = App::new();
    let value = Vec::<String>::new();
    let value = Arc::new(Mutex::new(value));

    let ptr = Arc::clone(&value);
    app.system(Startup, move || push(&ptr, "startup"));

    let ptr = Arc::clone(&value);
    app.system(Update, move || push(&ptr, "update"));
    assert_eq!(take(&value), "");
    app.tick();
    assert_eq!(take(&value), "startup, update");
    app.tick();
    app.tick();
    assert_eq!(take(&value), "update, update");
}

#[test]
fn startup_pre_post() {
    let mut app = App::new();
    let value = Vec::<String>::new();
    let value = Arc::new(Mutex::new(value));

    let ptr = Arc::clone(&value);
    app.system(Startup, move || push(&ptr, "startup"));

    let ptr = Arc::clone(&value);
    app.system(PostStartup, move || push(&ptr, "post-startup"));

    let ptr = Arc::clone(&value);
    app.system(PreStartup, move || push(&ptr, "pre-startup"));

    let ptr = Arc::clone(&value);
    app.system(Update, move || push(&ptr, "update"));
    assert_eq!(take(&value), "");

    app.tick();
    assert_eq!(take(&value), "pre-startup, startup, post-startup, update");
    app.tick();
    app.tick();
    assert_eq!(take(&value), "update, update");
}

#[test]
fn all_schedules() {
    let mut app = App::new();
    let value = Vec::<String>::new();
    let value = Arc::new(Mutex::new(value));

    let ptr = Arc::clone(&value);
    app.system(Startup, move || push(&ptr, "startup"));

    let ptr = Arc::clone(&value);
    app.system(PostStartup, move || push(&ptr, "post-startup"));

    let ptr = Arc::clone(&value);
    app.system(PreStartup, move || push(&ptr, "pre-startup"));

    let ptr = Arc::clone(&value);
    app.system(Update, move || push(&ptr, "update"));

    let ptr = Arc::clone(&value);
    app.system(First, move || push(&ptr, "first"));

    let ptr = Arc::clone(&value);
    app.system(PreUpdate, move || push(&ptr, "pre-update"));

    let ptr = Arc::clone(&value);
    app.system(PostUpdate, move || push(&ptr, "post-update"));

    let ptr = Arc::clone(&value);
    app.system(Last, move || push(&ptr, "last"));

    let ptr = Arc::clone(&value);
    app.system(Bogus, move || push(&ptr, "bogus"));

    assert_eq!(take(&value), "");
    app.tick();
    assert_eq!(
        take(&value),
        "pre-startup, startup, post-startup, first, pre-update, update, post-update, last"
    );
    app.tick();
    assert_eq!(take(&value), "first, pre-update, update, post-update, last");
    app.tick();
    assert_eq!(take(&value), "first, pre-update, update, post-update, last");
}

#[test]
fn add_plugin() {
    let mut app = App::new();

    assert!(!app.contains_plugin::<TestSpawn>());

    app.plugin(TestSpawn::new(TestA(100)));
}

#[test]
fn plugin_is_built_once() {
    let mut app = App::new();
    let value = Arc::new(Mutex::new(Vec::<String>::new()));

    app.plugin(TestPush(Arc::clone(&value)));
    assert!(app.contains_plugin::<TestPush>());
    app.plugin(TestPush(Arc::clone(&value)));

    app.tick();
    assert_eq!(take(&value), "plugin");
}

#[test]
fn app_remove_resource() {
    let mut app = App::new();
    app.insert_resource(TestA(3));
    assert_eq!(app.remove_resource::<TestA>(), Some(TestA(3)));
    assert_eq!(app.remove_resource::<TestA>(), None);
    assert!(app.get_resource::<TestA>().is_none());
}

#[derive(Clone, Copy, Debug, PartialEq, Eq, Hash)]
pub struct Bogus;

impl ScheduleLabel for Bogus {}

#[derive(Debug, Clone, PartialEq)]
struct TestA(u32);

#[derive(Debug, Clone, PartialEq)]
struct TestB(u32);

struct TestSpawn {
    value: TestA,
}

impl TestSpawn {
    fn new(value: TestA) -> Self {
        Self { value }
    }
}

impl Plugin for TestSpawn {
    fn build(&self, app: &mut App) {
        let value = self.value.clone();
        app.insert_resource(value);
    }
}

struct TestPush(Arc<Mutex<Vec<String>>>);

impl Plugin for TestPush {
    fn build(&self, app: &mut App) {
        let ptr = Arc::clone(&self.0);
        app.system(Update, move || push(&ptr, "plugin"));
    }
}

fn take(ptr: &Arc<Mutex<Vec<String>>>) -> String {
    ptr.lock().unwrap().drain(..).collect::<Vec<String>>().join(", ")
}

fn push(ptr: &Arc<Mutex<Vec<String>>>, value: &str) {
    ptr.lock().unwrap().push(value.to_string());
}
