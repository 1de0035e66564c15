//! Events: values sent by some systems and read by others.  Events are
//! double buffered: those sent since the last update, and those of the tick
//! before.  A reader's cursor reads each event of both buffers once.

use vstd::prelude::*;
use std::marker::PhantomData;

use crate::param::res::{Res, ResMut};
use crate::param::local::Local;
use crate::param::param::Param;
use crate::schedule::planner::SystemMeta;
use crate::world::world::World;

verus! {

pub trait Event: 'static {}

pub struct Events<E> {
    events_next: Vec<E>,
    events_prev: Vec<E>,
    ticks: usize,
}

pub struct EventsView<E> {
    pub next: Seq<E>,
    pub prev: Seq<E>,
    pub ticks: usize,
}

impl<E> View for Events<E> {
    type V = EventsView<E>;

    closed spec fn view(&self) -> EventsView<E> {
        EventsView { next: self.events_next@, prev: self.events_prev@, ticks: self.ticks }
    }
}

impl<E> Events<E> {
    pub fn ticks(&self) -> (r: usize)
        ensures
            r == self@.ticks,
    {
        self.ticks
    }

    pub fn send(&mut self, event: E)
        ensures
            final(self)@.next == old(self)@.next.push(event),
            final(self)@.prev == old(self)@.prev,
            final(self)@.ticks == old(self)@.ticks,
    {
        self.events_next.push(event);
    }

    /// Starts a new tick: the events sent become the previous tick's, and
    /// those of the previous tick are dropped.
    pub(crate) fn update_inner(&mut self)
        requires
            old(self)@.ticks < usize::MAX,
        ensures
            final(self)@.prev == old(self)@.next,
            final(self)@.next == Seq::<E>::empty(),
            final(self)@.ticks == old(self)@.ticks + 1,
    {
        let mut prev: Vec<E> = Vec::new();
        std::mem::swap(&mut prev, &mut self.events_next);
        self.events_prev = prev;
        self.ticks = self.ticks + 1;
        assert(self.events_next@ =~= Seq::<E>::empty());
    }

    /// The update system of an event type.
    pub fn update(event: ResMut<Events<E>>)
        requires
            event.value()@.ticks < usize::MAX,
        ensures
            (*final(event.value))@.prev == event.value()@.next,
            (*final(event.value))@.next == Seq::<E>::empty(),
            (*final(event.value))@.ticks == event.value()@.ticks + 1,
    {
        let ResMut { value } = event;
        value.update_inner();
    }
}

impl<E> Default for Events<E> {
    fn default() -> (r: Events<E>)
        ensures
            r@.next == Seq::<E>::empty(),
            r@.prev == Seq::<E>::empty(),
            r@.ticks == 1,
    {
        Events { events_next: Vec::new(), events_prev: Vec::new(), ticks: 1 }
    }
}

/// Where a reader stands: the tick it last read and its position in that
/// tick's events.
pub struct InEventCursor<E> {
    ticks: usize,
    i_events: usize,
    marker: PhantomData<E>,
}

pub struct CursorView {
    pub ticks: usize,
    pub i_events: usize,
}

impl<E> View for InEventCursor<E> {
    type V = CursorView;

    closed spec fn view(&self) -> CursorView {
        CursorView { ticks: self.ticks, i_events: self.i_events }
    }
}

/// Which event the cursor reads next, as (read the previous buffer?, index),
/// and where it then stands.
pub open spec fn cursor_step<E>(c: CursorView, ev: EventsView<E>) -> (Option<(bool, int)>, CursorView) {
    let c1 = if c.ticks + 1 < ev.ticks {
        CursorView { ticks: (ev.ticks - 1) as usize, i_events: 0 }
    } else {
        c
    };
    if c1.ticks + 1 == ev.ticks && c1.i_events < ev.prev.len() {
        (Some((true, c1.i_events as int)), CursorView { i_events: (c1.i_events + 1) as usize, ..c1 })
    } else {
        let c2 = if c1.ticks + 1 == ev.ticks {
            CursorView { ticks: (c1.ticks + 1) as usize, i_events: 0 }
        } else {
            c1
        };
        if c2.i_events < ev.next.len() {
            (Some((false, c2.i_events as int)), CursorView { i_events: (c2.i_events + 1) as usize, ..c2 })
        } else {
            (None, c2)
        }
    }
}

impl<E> InEventCursor<E> {
    pub fn new() -> (r: InEventCursor<E>)
        ensures
            r@ == (CursorView { ticks: 0, i_events: 0 }),
    {
        InEventCursor { ticks: 0, i_events: 0, marker: PhantomData }
    }

    /// The next event this cursor has not read.
    pub(crate) fn next<'a>(&mut self, events: &'a Events<E>) -> (r: Option<&'a E>)
        requires
            old(self)@.ticks < usize::MAX,
            events@.ticks >= 1,
        ensures
            final(self)@ == cursor_step(old(self)@, events@).1,
            match cursor_step(old(self)@, events@).0 {
                Some((true, i)) => r == Some(&events@.prev[i]),
                Some((false, i)) => r == Some(&events@.next[i]),
                None => r is None,
            },
    {
        if self.ticks + 1 < events.ticks {
            self.ticks = events.ticks - 1;
            self.i_events = 0;
        }
        if self.ticks + 1 == events.ticks {
            if self.i_events < events.events_prev.len() {
                let event = &events.events_prev[self.i_events];
                self.i_events = self.i_events + 1;
                return Some(event);
            } else {
                self.ticks = self.ticks + 1;
                self.i_events = 0;
            }
        }
        if self.i_events < events.events_next.len() {
            let event = &events.events_next[self.i_events];
            self.i_events = self.i_events + 1;
            Some(event)
        } else {
            None
        }
    }
}

impl<E> Default for InEventCursor<E> {
    fn default() -> (r: InEventCursor<E>)
        ensures
            r@ == (CursorView { ticks: 0, i_events: 0 }),
    {
        InEventCursor::new()
    }
}

/// A reader of events: the events and the reader's own cursor.
pub struct InEvent<'w, 's, E> {
    events: Res<'w, Events<E>>,
    cursor: Local<'s, InEventCursor<E>>,
}

/// The events a reader has not read yet, read one by one.
pub struct InEventIter<'w, 's, E> {
    events: &'w Events<E>,
    cursor: &'s mut InEventCursor<E>,
}

impl<'w, 's, E> InEventIter<'w, 's, E> {
    pub closed spec fn cursor_view(&self) -> CursorView {
        self.cursor@
    }

    pub closed spec fn events_view(&self) -> EventsView<E> {
        self.events@
    }

    /// The next event not read yet.
    pub fn next(&mut self) -> (r: Option<&'w E>)
        requires
            old(self).cursor_view().ticks < usize::MAX,
            old(self).events_view().ticks >= 1,
        ensures
            final(self).cursor_view() == cursor_step(old(self).cursor_view(), old(self).events_view()).1,
            final(self).events_view() == old(self).events_view(),
            match cursor_step(old(self).cursor_view(), old(self).events_view()).0 {
                Some((true, i)) => r == Some(&old(self).events_view().prev[i]),
                Some((false, i)) => r == Some(&old(self).events_view().next[i]),
                None => r is None,
            },
    {
        self.cursor.next(self.events)
    }
}

impl<'w, 's, E> InEvent<'w, 's, E> {
    pub fn new(events: Res<'w, Events<E>>, cursor: Local<'s, InEventCursor<E>>) -> (r: InEvent<'w, 's, E>)
        ensures
            r.cursor_view() == old(cursor.0)@,
            r.events_view() == events.value()@,
    {
        InEvent { events, cursor }
    }

    pub closed spec fn cursor_view(&self) -> CursorView {
        self.cursor.0@
    }

    pub closed spec fn events_view(&self) -> EventsView<E> {
        self.events.value()@
    }

    pub fn iter<'a>(&'a mut self) -> (r: InEventIter<'w, 'a, E>)
        ensures
            r.cursor_view() == old(self).cursor_view(),
            r.events_view() == old(self).events_view(),
    {
        InEventIter { events: self.events.inner(), cursor: &mut *self.cursor.0 }
    }
}

/// A sender of events.
pub struct OutEvent<'w, E> {
    events: ResMut<'w, Events<E>>,
}

impl<'w, E> OutEvent<'w, E> {
    pub fn new(events: ResMut<'w, Events<E>>) -> (r: OutEvent<'w, E>)
        ensures
            r.events_view() == events.value()@,
    {
        OutEvent { events }
    }

    pub closed spec fn events_view(&self) -> EventsView<E> {
        self.events.value()@
    }

    pub fn send(&mut self, event: E)
        ensures
            final(self).events_view().next == old(self).events_view().next.push(event),
            final(self).events_view().prev == old(self).events_view().prev,
    {
        self.events.get_mut().send(event);
    }
}

impl<E: 'static> Param for OutEvent<'static, E> {
    type State = ();
    type Fetch = Events<E>;
    type Arg<'a> = OutEvent<'a, E>;

    /// The events must be a resource; the system writes them.
    fn init(meta: &mut SystemMeta, world: &mut World) -> (r: Option<()>) {
        match world.get_resource_id::<Events<E>>() {
            Some(id) => {
                if world.contains_resource::<Events<E>>() {
                    meta.insert_resource_mut(id);
                    Some(())
                } else {
                    None
                }
            },
            None => None,
        }
    }

    fn fetch(world: &mut World, state: &mut ()) -> (r: Option<Events<E>>) {
        world.remove_resource::<Events<E>>()
    }

    fn arg<'a>(fetch: &'a mut Events<E>, state: &'a mut ()) -> OutEvent<'a, E> {
        OutEvent::new(ResMut::new(fetch))
    }

    fn release(world: &mut World, state: &mut (), fetch: Events<E>) {
        world.insert_resource(fetch);
    }
}

impl<E: 'static> Param for InEvent<'static, 'static, E> {
    type State = InEventCursor<E>;
    type Fetch = Events<E>;
    type Arg<'a> = InEvent<'a, 'a, E>;

    /// The events must be a resource; the system reads them with a cursor
    /// of its own.
    fn init(meta: &mut SystemMeta, world: &mut World) -> (r: Option<InEventCursor<E>>) {
        match world.get_resource_id::<Events<E>>() {
            Some(id) => {
                if world.contains_resource::<Events<E>>() {
                    meta.insert_resource(id);
                    Some(InEventCursor::new())
                } else {
                    None
                }
            },
            None => None,
        }
    }

    fn fetch(world: &mut World, state: &mut InEventCursor<E>) -> (r: Option<Events<E>>) {
        world.remove_resource::<Events<E>>()
    }

    fn arg<'a>(fetch: &'a mut Events<E>, state: &'a mut InEventCursor<E>) -> InEvent<'a, 'a, E> {
        InEvent::new(Res::new(fetch), Local(state))
    }

    fn release(world: &mut World, state: &mut InEventCursor<E>, fetch: Events<E>) {
        world.insert_resource(fetch);
    }
}

} // verus!
