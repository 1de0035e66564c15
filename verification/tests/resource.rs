use essay_ecs::resource::Resources;
use essay_ecs::world::world::World;

#[test]
fn remove() {
    let mut resources = Resources::new();

    resources.insert(TestA(1));
    assert_eq!(resources.get::<TestA>(), Some(&TestA(1)));

    assert_eq!(resources.remove::<TestA>(), Some(TestA(1)));
    assert_eq!(resources.remove::<TestA>(), None);
    assert_eq!(resources.get::<TestA>(), None);
}

#[test]
fn resource_set_get() {
    let mut world = World::new();

    assert_eq!(world.get_resource::<TestB>(), None);
    assert_eq!(world.get_resource_mut::<TestB>(), None);

    world.insert_resource(TestA(1));
    assert_eq!(world.get_resource::<TestA>(), Some(&TestA(1)));
    assert_eq!(world.get_resource_mut::<TestA>(), Some(&mut TestA(1)));
    assert_eq!(world.get_resource::<TestB>(), None);
    assert_eq!(world.get_resource_mut::<TestB>(), None);

    world.get_resource_mut::<TestA>().unwrap().0 += 1;

    assert_eq!(world.get_resource::<TestA>(), Some(&TestA(2)));
    assert_eq!(world.get_resource_mut::<TestA>(), Some(&mut TestA(2)));
    assert_eq!(world.get_resource::<TestB>(), None);
    assert_eq!(world.get_resource_mut::<TestB>(), None);

    world.insert_resource(TestA(1000));
    assert_eq!(world.get_resource::<TestA>(), Some(&TestA(1000)));
    assert_eq!(world.get_resource_mut::<TestA>(), Some(&mut TestA(1000)));
    assert_eq!(world.get_resource::<TestB>(), None);
    assert_eq!(world.get_resource_mut::<TestB>(), None);

    world.insert_resource(TestB(1001));
    assert_eq!(world.get_resource::<TestA>(), Some(&TestA(1000)));
    assert_eq!(world.get_resource_mut::<TestA>(), Some(&mut TestA(1000)));
    assert_eq!(world.get_resource::<TestB>(), Some(&TestB(1001)));
    assert_eq!(world.get_resource_mut::<TestB>(), Some(&mut TestB(1001)));
}

#[test]
fn resources_contains_and_ids() {
    let mut resources = Resources::new();
    assert!(!resources.contains::<TestA>());
    assert!(resources.get_resource_id::<TestA>().is_none());

    resources.insert(TestA(5));
    resources.insert(TestB(6));
    assert!(resources.contains::<TestA>());
    assert!(resources.contains::<TestB>());
    assert_eq!(resources.get_resource_id::<TestA>().unwrap().index(), 0);
    assert_eq!(resources.get_resource_id::<TestB>().unwrap().index(), 1);

    // A removed resource keeps its id; its slot is empty until refilled.
    assert_eq!(resources.remove::<TestA>(), Some(TestA(5)));
    assert!(!resources.contains::<TestA>());
    resources.insert(TestA(7));
    assert_eq!(resources.get_resource_id::<TestA>().unwrap().index(), 0);
    assert_eq!(resources.get::<TestA>(), Some(&TestA(7)));
}

#[test]
fn world_init_resource_keeps_existing() {
    let mut world = World::new();
    world.init_resource::<TestC>();
    assert_eq!(world.resource::<TestC>(), Some(&TestC(0)));

    world.resource_mut::<TestC>().unwrap().0 = 3;
    world.init_resource::<TestC>();
    assert_eq!(world.resource::<TestC>(), Some(&TestC(3)));

    assert_eq!(world.remove_resource::<TestC>(), Some(TestC(3)));
    assert!(!world.contains_resource::<TestC>());
}

#[derive(PartialEq, Debug)]
struct TestA(u32);

#[derive(PartialEq, Debug)]
struct TestB(u32);

#[derive(PartialEq, Debug, Default)]
struct TestC(u32);
