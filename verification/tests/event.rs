use std::sync::{Arc, Mutex};

use essay_ecs::app::app::App;
use essay_ecs::app::event::{Event, Events, InEvent, InEventCursor, OutEvent};
use essay_ecs::app::main_schedule::PreUpdate;
use essay_ecs::param::local::Local;
use essay_ecs::param::res::{Res, ResMut};

#[test]
fn events() {
    let mut app = App::new();
    let value = Vec::<String>::new();
    let value = Arc::new(Mutex::new(value));

    app.event::<TestEvent>();

    let mut counter = 1;
    app.system(PreUpdate, move |mut writer: OutEvent<TestEvent>| {
        writer.send(TestEvent(counter));
        counter += 1;
    });

    let ptr = Arc::clone(&value);
    app.system(PreUpdate, move |mut reader: InEvent<TestEvent>| {
        let mut iter = reader.iter();
        while let Some(event) = iter.next() {
            push(&ptr, &format!("{:?}", event));
        }
    });

    app.tick();
    assert_eq!(take(&value), "TestEvent(1)");
    app.tick();
    assert_eq!(take(&value), "TestEvent(2)");
    app.tick();
    assert_eq!(take(&value), "TestEvent(3)");
}

#[test]
fn test_read_no_update() {
    let mut events = Events::<TestEvent>::default();
    let mut cursor = InEventCursor::<TestEvent>::new();

    // no events
    assert_eq!(read(&events, &mut cursor), "");

    // event read once
    events.send(TestEvent(1));
    assert_eq!(read(&events, &mut cursor), "TestEvent(1)");
    assert_eq!(read(&events, &mut cursor), "");

    // multiple events
    events.send(TestEvent(2));
    events.send(TestEvent(3));
    assert_eq!(read(&events, &mut cursor), "TestEvent(2), TestEvent(3)");
    assert_eq!(read(&events, &mut cursor), "");
}

#[test]
fn test_read_update() {
    let mut events = Events::<TestEvent>::default();
    let mut cursor = InEventCursor::<TestEvent>::new();

    // no events
    assert_eq!(read(&events, &mut cursor), "");

    Events::update(ResMut::new(&mut events));
    assert_eq!(read(&events, &mut cursor), "");

    Events::update(ResMut::new(&mut events));
    assert_eq!(read(&events, &mut cursor), "");

    // event read after update
    events.send(TestEvent(1));
    Events::update(ResMut::new(&mut events));
    assert_eq!(read(&events, &mut cursor), "TestEvent(1)");
    Events::update(ResMut::new(&mut events));
    assert_eq!(read(&events, &mut cursor), "");

    // two updates make event inaccessible
    events.send(TestEvent(2));
    Events::update(ResMut::new(&mut events));
    Events::update(ResMut::new(&mut events));
    assert_eq!(read(&events, &mut cursor), "");
    Events::update(ResMut::new(&mut events));
    assert_eq!(read(&events, &mut cursor), "");

    events.send(TestEvent(3));
    assert_eq!(read(&events, &mut cursor), "TestEvent(3)");
    assert_eq!(read(&events, &mut cursor), "");
}

#[test]
fn events_two_readers_read_independently() {
    let mut events = Events::<TestEvent>::default();
    let mut a = InEventCursor::<TestEvent>::new();
    let mut b = InEventCursor::<TestEvent>::new();

    events.send(TestEvent(1));
    assert_eq!(read(&events, &mut a), "TestEvent(1)");
    events.send(TestEvent(2));
    Events::update(ResMut::new(&mut events));
    assert_eq!(read(&events, &mut a), "TestEvent(2)");
    assert_eq!(read(&events, &mut b), "TestEvent(1), TestEvent(2)");
    assert_eq!(events.ticks(), 2);
}

fn read(events: &Events<TestEvent>, cursor: &mut InEventCursor<TestEvent>) -> String {
    let mut reader = InEvent::new(Res::new(events), Local(cursor));
    let mut iter = reader.iter();
    let mut values = Vec::<String>::new();
    while let Some(event) = iter.next() {
        values.push(format!("{:?}", event));
    }
    values.join(", ")
}

#[derive(Debug)]
struct TestEvent(usize);

impl Event for TestEvent {}

fn take(ptr: &Arc<Mutex<Vec<String>>>) -> String {
    ptr.lock().unwrap().drain(..).collect::<Vec<String>>().join(", ")
}

fn push(ptr: &Arc<Mutex<Vec<String>>>, value: &str) {
    ptr.lock().unwrap().push(value.to_string());
}
