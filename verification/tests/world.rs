use std::cell::RefCell;
use std::rc::Rc;

use essay_ecs::entity::store::Component;
use essay_ecs::schedule::schedule::{Schedule, ScheduleLabel, Schedules};
use essay_ecs::schedule::planner::SystemMeta;
use essay_ecs::system::system::{IntoSystem, System};
use essay_ecs::world::world::World;

#[test]
fn world_spawn() {
    let mut world = World::new();

    let id_a = world.spawn(TestA(1)).unwrap();

    assert_eq!(world.get::<TestA>(id_a), Some(&TestA(1)));
    assert_eq!(world.get::<TestB>(id_a), None);

    let id_b = world.spawn(TestB(10000)).unwrap();

    assert_eq!(world.get::<TestA>(id_a), Some(&TestA(1)));
    assert_eq!(world.get::<TestB>(id_b), Some(&TestB(10000)));

    assert_eq!(world.get::<TestA>(id_b), None);
    assert_eq!(world.get::<TestB>(id_a), None);

    let id_b2 = world.spawn(TestB(100)).unwrap();

    assert_eq!(world.get::<TestA>(id_a), Some(&TestA(1)));
    assert_eq!(world.get::<TestA>(id_b), None);
    assert_eq!(world.get::<TestA>(id_b2), None);

    assert_eq!(world.get::<TestB>(id_b), Some(&TestB(10000)));
    assert_eq!(world.get::<TestB>(id_b2), Some(&TestB(100)));

    world.get_mut::<TestB>(id_b).unwrap().0 += 1;
    world.get_mut::<TestB>(id_b2).unwrap().0 += 1;

    assert_eq!(world.get::<TestB>(id_b), Some(&TestB(10001)));
    assert_eq!(world.get::<TestB>(id_b2), Some(&TestB(101)));
    assert_eq!(world.get::<TestA>(id_a), Some(&TestA(1)));
}

#[test]
fn query() {
    let mut world = World::new();

    assert_eq!(
        world.query::<TestA>().iter().map(|v| format!("{:?}", v)).collect::<Vec<String>>().join(", "),
        ""
    );

    world.spawn(TestA(1001)).unwrap();

    assert_eq!(
        world.query::<TestA>().iter().map(|v| format!("{:?}", v)).collect::<Vec<String>>().join(", "),
        "TestA(1001)"
    );

    world.spawn(TestA(2002)).unwrap();

    assert_eq!(
        world.query::<TestA>().iter().map(|v| format!("{:?}", v)).collect::<Vec<String>>().join(", "),
        "TestA(1001), TestA(2002)"
    );

    for id in world.query_ids::<TestA>() {
        world.get_mut::<TestA>(id).unwrap().0 += 1;
    }

    assert_eq!(
        world.query::<TestA>().iter().map(|v| format!("{:?}", v)).collect::<Vec<String>>().join(", "),
        "TestA(1002), TestA(2003)"
    );
}

#[test]
fn world_despawn() {
    let mut world = World::new();
    let a = world.spawn(TestA(1)).unwrap();
    assert!(world.despawn(a));
    assert_eq!(world.get::<TestA>(a), None);
    assert!(world.query::<TestA>().is_empty());
}

#[test]
fn init_resource() {
    let _world = World::new();
}

#[test]
fn test_each() {
    let mut world = World::new();

    world.spawn(TestA(1)).unwrap();

    let _values = Rc::new(RefCell::new(Vec::<String>::new()));
}

#[test]
fn test_each_ref() {
    let mut world = World::new();

    world.spawn(TestA(1)).unwrap();

    let _values = Rc::new(RefCell::new(Vec::<String>::new()));
}

#[test]
fn test_each_a_b() {
    let _world = World::new();
}

#[test]
fn test_each_tuple() {
    let _world = World::new();
}

#[test]
fn test_each_tuple_rev() {
    let _world = World::new();
}

#[test]
fn test_each_mut() {
}

#[test]
fn test_two_each() {
}

#[test]
fn test_each_res() {
}

#[test]
fn test_each_in() {
}

#[test]
fn world_query_pairs_in_table_order() {
    let mut world = World::new();
    world.spawn(TestA(1)).unwrap();
    world.spawn(TestB(2)).unwrap();
    let ab = world.spawn((TestA(3), TestB(4))).unwrap();
    world.spawn((TestB(5), TestA(6))).unwrap();

    let ids = world.query_ids::<TestA>();
    assert_eq!(ids.len(), 3);
    assert_eq!(ids[1], ab);
    assert_eq!(
        world.query::<TestA>().iter().map(|v| format!("{:?}", v)).collect::<Vec<String>>().join(", "),
        "TestA(1), TestA(3), TestA(6)"
    );
}

#[test]
fn world_entity_handles() {
    let mut world = World::new();
    let id = world.spawn(TestA(3)).unwrap();

    {
        let e = world.get_entity(id).unwrap();
        assert_eq!(e.id(), id);
        assert_eq!(e.get::<TestA>(), Some(&TestA(3)));
        assert_eq!(e.get::<TestB>(), None);
    }
    assert_eq!(world.entity(id).get::<TestA>(), Some(&TestA(3)));

    let unknown = essay_ecs::entity::entity::EntityId(5, 0);
    assert!(world.get_entity(unknown).is_none());
    assert!(world.get_entity_mut(unknown).is_none());

    world.entity_mut(id).despawn();
    assert_eq!(world.get::<TestA>(id), None);
    assert!(world.get_entity(id).is_some());
}

#[test]
fn world_insert_component() {
    let mut world = World::new();
    let id = world.spawn(TestA(1)).unwrap();

    assert!(world.insert(id, TestB(2)));
    assert_eq!(world.get::<TestA>(id), Some(&TestA(1)));
    assert_eq!(world.get::<TestB>(id), Some(&TestB(2)));

    assert!(world.despawn(id));
    assert!(!world.insert(id, TestB(3)));
}

#[test]
fn world_try_eval_schedule() {
    let mut world = World::new();
    world.init_resource::<Schedules>();

    assert!(world.try_eval_schedule(EvalSchedule, |_w, _s| 3).is_err());

    let mut schedule = Schedule::new();
    schedule.add_system(|| {});
    world.add_schedule(EvalSchedule, schedule);

    let n = world.try_eval_schedule(EvalSchedule, |w, s| {
        w.insert_resource(10u32);
        s.len()
    }).unwrap();
    assert!(n >= 1);
    assert_eq!(world.get_resource::<u32>(), Some(&10));

    let again = world.try_eval_schedule(EvalSchedule, |_w, s| s.len()).unwrap();
    assert_eq!(again, n);
}

struct EvalSchedule;

impl ScheduleLabel for EvalSchedule {}

fn run_once<M, S: IntoSystem<M>>(world: &mut World, system: S) {
    let mut system = IntoSystem::into_system(system);
    let mut meta = SystemMeta::empty();
    system.init(&mut meta, world);
    system.run(world);
    system.flush(world);
}

#[test]
fn each_over_tuple_views() {
    let mut world = World::new();
    world.spawn(TestA(1)).unwrap();
    world.spawn(TestB(2)).unwrap();
    world.spawn((TestA(3), TestB(4))).unwrap();
    world.spawn((TestB(5), TestA(6))).unwrap();

    let values = Rc::new(RefCell::new(Vec::<String>::new()));

    let ptr = values.clone();
    run_once(&mut world, move |a: (&TestA, &TestB)| {
        ptr.borrow_mut().push(format!("{:?}", a));
    });
    assert_eq!(take(&values), "(TestA(3), TestB(4)), (TestA(6), TestB(5))");

    let ptr = values.clone();
    run_once(&mut world, move |a: (&TestB, &TestA)| {
        ptr.borrow_mut().push(format!("{:?}", a));
    });
    assert_eq!(take(&values), "(TestB(4), TestA(3)), (TestB(5), TestA(6))");

    let ptr = values.clone();
    run_once(&mut world, move |t: &TestA| {
        ptr.borrow_mut().push(format!("a-{:?}", t));
    });
    assert_eq!(take(&values), "a-TestA(1), a-TestA(3), a-TestA(6)");

    run_once(&mut world, |t: &mut TestA| {
        t.0 += 10;
    });
    let ptr = values.clone();
    run_once(&mut world, move |t: &TestA| {
        ptr.borrow_mut().push(format!("{:?}", t));
    });
    assert_eq!(take(&values), "TestA(11), TestA(13), TestA(16)");
}

fn take(values: &Rc<RefCell<Vec<String>>>) -> String {
    let v: Vec<String> = values.borrow_mut().drain(..).collect();

    v.join(", ")
}

#[derive(Clone, Debug, PartialEq)]
struct TestA(u32);

impl Component for TestA {}

#[derive(Debug, PartialEq)]
struct TestB(u16);

impl Component for TestB {}
