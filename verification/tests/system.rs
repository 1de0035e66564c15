use std::sync::{Arc, Mutex};

use essay_ecs::schedule::planner::SystemMeta;
use essay_ecs::system::system::{IntoSystem, System};
use essay_ecs::world::world::World;

#[test]
fn fun_system_excl_arg_tuples() {
}

#[test]
fn world_fun_system_arg_tuples() {
    let _world = World::new();
}

#[test]
fn world_fun_system_runs_on_the_world() {
    let mut world = World::new();
    world.insert_resource(5u32);

    let mut system = IntoSystem::into_system(|w: &mut World| {
        *w.resource_mut::<u32>().unwrap() += 1;
    });
    let mut meta = SystemMeta::empty();
    system.init(&mut meta, &mut world);
    system.run(&mut world);
    system.run(&mut world);
    assert_eq!(world.resource::<u32>(), Some(&7));
}

#[test]
fn fun_system_runs_its_function() {
    let mut world = World::new();
    let count = Arc::new(Mutex::new(0));
    let ptr = Arc::clone(&count);

    let mut system = IntoSystem::into_system(move || *ptr.lock().unwrap() += 1);
    let mut meta = SystemMeta::empty();
    system.init(&mut meta, &mut world);
    system.run(&mut world);
    system.flush(&mut world);
    assert_eq!(*count.lock().unwrap(), 1);
}

#[test]
fn fun_system_excl_keeps_local_state() {
    let mut world = World::new();

    let mut system = IntoSystem::into_system(|w: &mut World, l: essay_ecs::param::local::Local<u32>| {
        *l.0 += 1;
        w.insert_resource(*l.0);
    });
    let mut meta = SystemMeta::empty();
    system.init(&mut meta, &mut world);
    assert!(meta.is_exclusive());
    system.run(&mut world);
    assert_eq!(world.resource::<u32>(), Some(&1));
    system.run(&mut world);
    assert_eq!(world.resource::<u32>(), Some(&2));
}
