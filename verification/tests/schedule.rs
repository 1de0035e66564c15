use std::sync::{Arc, Mutex};

use essay_ecs::schedule::phase::{IntoPhaseConfigs, Phase};
use essay_ecs::schedule::schedule::{Schedule, ScheduleLabel, Schedules};
use essay_ecs::schedule::system::IntoSystemConfig;
use essay_ecs::util::label::LabelKey;
use essay_ecs::world::world::World;

#[test]
fn schedule_label() {
    assert_eq!(format!("{:?}", TestSchedule::A), "A");
}

#[test]
fn schedule_phase_and_default_order() {
    let values = TestValues::new();

    let mut world = World::new();

    // A, default
    let mut schedule = new_schedule_a_b_c();

    let ptr = values.clone();
    schedule.add_system((move || {
        ptr.push("a");
    }).phase(TestPhase::A));

    let ptr = values.clone();
    schedule.add_system(move || {
        ptr.push("b");
    });

    schedule.tick(&mut world).unwrap();
    assert_eq!(values.take(), "a, b");

    // C, default
    let mut schedule = new_schedule_a_b_c();

    let ptr = values.clone();
    schedule.add_system((move || {
        ptr.push("c");
    }).phase(TestPhase::C));

    let ptr = values.clone();
    schedule.add_system(move || {
        ptr.push("b");
    });

    schedule.tick(&mut world).unwrap();
    assert_eq!(values.take(), "b, c");

    // default, C
    let mut schedule = new_schedule_a_b_c();

    let ptr = values.clone();
    schedule.add_system(move || {
        ptr.push("b");
    });

    let ptr = values.clone();
    schedule.add_system((move || {
        ptr.push("c");
    }).phase(TestPhase::C));

    schedule.tick(&mut world).unwrap();
    assert_eq!(values.take(), "b, c");
}

#[test]
fn schedule_runs_chained_phases_in_order() {
    let values = TestValues::new();
    let mut world = World::new();
    let mut schedule = new_schedule_a_b_c();

    for (name, phase) in [("c", TestPhase::C), ("b", TestPhase::B), ("a", TestPhase::A)] {
        let ptr = values.clone();
        schedule.add_system((move || ptr.push(name)).phase(phase));
    }

    schedule.tick(&mut world).unwrap();
    assert_eq!(values.take(), "a, b, c");
    schedule.tick(&mut world).unwrap();
    assert_eq!(values.take(), "a, b, c");
}

#[test]
fn schedules_by_label() {
    let values = TestValues::new();
    let mut world = World::new();
    let mut schedules = Schedules::new();

    assert!(schedules.get(&TestSchedule::A).is_none());
    assert!(schedules.tick(&TestSchedule::A, &mut world).is_err());

    let mut schedule = Schedule::new();
    let ptr = values.clone();
    schedule.add_system(move || ptr.push("a"));
    assert!(schedules.insert(TestSchedule::A, schedule).is_none());
    assert!(schedules.get(&TestSchedule::A).is_some());
    assert!(schedules.get(&TestSchedule::B).is_none());

    schedules.tick(&TestSchedule::A, &mut world).unwrap();
    assert_eq!(values.take(), "a");

    assert!(schedules.remove(&TestSchedule::A).is_some());
    assert!(schedules.get(&TestSchedule::A).is_none());
}

#[test]
fn schedules_add_system_to_unknown_label_is_refused() {
    let values = TestValues::new();
    let mut world = World::new();
    let mut schedules = Schedules::new();

    let ptr = values.clone();
    assert!(!schedules.add_system(&TestSchedule::A, move || ptr.push("lost")));
    assert!(schedules.get(&TestSchedule::A).is_none());

    assert!(schedules.insert(TestSchedule::A, Schedule::new()).is_none());
    let ptr = values.clone();
    assert!(schedules.add_system(&TestSchedule::A, move || ptr.push("a")));
    schedules.tick(&TestSchedule::A, &mut world).unwrap();
    assert_eq!(values.take(), "a");
}

#[test]
fn schedule_add_configs_counts_each_system() {
    let mut schedule = Schedule::new();
    assert_eq!(schedule.len(), 0);
    let configs = (|| {}).into_config();
    schedule.add_configs(configs);
    assert_eq!(schedule.len(), 1);
    schedule.add_system(|| {});
    assert_eq!(schedule.len(), 2);
}

fn new_schedule_a_b_c() -> Schedule {
    let mut schedule = Schedule::new();
    schedule.add_phases((TestPhase::A, TestPhase::B, TestPhase::C).chain());

    schedule
}

#[derive(PartialEq, Hash, Eq, Clone, Debug)]
enum TestSchedule {
    A,
    B,
}

impl ScheduleLabel for TestSchedule {
    fn label_key(&self) -> LabelKey {
        match self {
            TestSchedule::A => LabelKey::of::<TestSchedule>(0),
            TestSchedule::B => LabelKey::of::<TestSchedule>(1),
        }
    }
}

#[derive(PartialEq, Hash, Eq, Clone, Copy, Debug)]
enum TestPhase {
    A,
    B,
    C,
}

impl Phase for TestPhase {
    fn phase_key(&self) -> LabelKey {
        match self {
            TestPhase::A => LabelKey::of::<TestPhase>(0),
            TestPhase::B => LabelKey::of::<TestPhase>(1),
            TestPhase::C => LabelKey::of::<TestPhase>(2),
        }
    }
}

#[derive(Clone)]
struct TestValues(Arc<Mutex<Vec<String>>>);

impl TestValues {
    fn new() -> Self {
        TestValues(Arc::new(Mutex::new(Vec::new())))
    }

    fn push(&self, value: &str) {
        self.0.lock().unwrap().push(value.to_string());
    }

    fn take(&self) -> String {
        let vec = self.0.lock().unwrap().drain(..).collect::<Vec<String>>();

        vec.join(", ")
    }
}
