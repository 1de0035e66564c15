//! Commands: work on the world that a system defers until it is flushed,
//! applied in the order the system gave it.

use vstd::prelude::*;
use std::marker::PhantomData;

use crate::entity::entity::EntityId;
use crate::entity::store::{Bundle, Component};
use crate::param::param::Param;
use crate::schedule::planner::SystemMeta;
use crate::world::world::{FromWorld, World};
use crate::resource::inserted;
use std::any::TypeId;

verus! {

/// Work on the world.
pub trait Command: 'static {
    fn flush(self: Box<Self>, world: &mut World)
        requires
            old(world).wf(),
        ensures
            final(world).wf(),
    ;
}

/// Calls `f(world)`; what it does is up to `f`.  The world's fields are
/// private, so `f` reaches them only through the world's methods, each of
/// which keeps it well formed.
#[verifier::external_body]
fn call_world_once<F: FnOnce(&mut World)>(f: F, world: &mut World)
    requires
        old(world).wf(),
    ensures
        final(world).wf(),
{
    f(world)
}

impl<F: FnOnce(&mut World) + 'static> Command for F {
    fn flush(self: Box<Self>, world: &mut World) {
        call_world_once(*self, world)
    }
}

struct CommandNode {
    command: Box<dyn Command>,
    next: Option<Box<CommandNode>>,
}

spec fn queue_len(o: Option<Box<CommandNode>>) -> nat
    decreases o,
{
    match o {
        Some(n) => 1 + queue_len(n.next),
        None => 0,
    }
}

fn push_command(o: &mut Option<Box<CommandNode>>, command: Box<dyn Command>)
    ensures
        queue_len(*final(o)) == queue_len(*old(o)) + 1,
    decreases queue_len(*old(o)),
{
    match o {
        Some(n) => {
            push_command(&mut n.next, command);
        },
        None => {
            *o = Some(Box::new(CommandNode { command, next: None }));
        },
    }
}

fn flush_commands(o: Option<Box<CommandNode>>, world: &mut World)
    requires
        old(world).wf(),
    ensures
        final(world).wf(),
    decreases queue_len(o),
{
    match o {
        Some(n) => {
            let CommandNode { command, next } = *n;
            command.flush(world);
            flush_commands(next, world);
        },
        None => {},
    }
}

/// The commands given and not yet applied, in order.
pub struct CommandQueue {
    head: Option<Box<CommandNode>>,
}

impl CommandQueue {
    pub closed spec fn len(&self) -> nat {
        queue_len(self.head)
    }

    pub fn new() -> (r: CommandQueue)
        ensures
            r.len() == 0,
    {
        CommandQueue { head: None }
    }

    pub fn add<C: Command>(&mut self, command: C)
        ensures
            final(self).len() == old(self).len() + 1,
    {
        push_command(&mut self.head, Box::new(command));
    }

    /// Applies the commands in the order they were added, and empties the
    /// queue.
    pub fn flush(&mut self, world: &mut World)
        requires
            old(world).wf(),
        ensures
            final(world).wf(),
            final(self).len() == 0,
    {
        let mut head: Option<Box<CommandNode>> = None;
        std::mem::swap(&mut head, &mut self.head);
        flush_commands(head, world);
    }
}

impl Default for CommandQueue {
    fn default() -> (r: CommandQueue)
        ensures
            r.len() == 0,
    {
        CommandQueue::new()
    }
}

/// The commands of one system.
pub struct Commands<'a> {
    queue: &'a mut CommandQueue,
}

impl<'a> Commands<'a> {
    /// The number of commands waiting in the queue.
    pub closed spec fn pending(&self) -> nat {
        (*self.queue).len()
    }

    pub fn new(queue: &'a mut CommandQueue) -> (r: Commands<'a>)
        ensures
            r.pending() == old(queue).len(),
    {
        Commands { queue }
    }

    /// Queues `command`, after those already given.
    pub fn add<C: Command>(&mut self, command: C)
        ensures
            final(self).pending() == old(self).pending() + 1,
    {
        self.queue.add(command);
    }

    /// Spawns an entity holding `value` when flushed.
    pub fn spawn<T: Bundle>(&mut self, value: T)
        ensures
            final(self).pending() == old(self).pending() + 1,
    {
        self.add(Spawn { value });
    }

    /// Inserts the resource `value` when flushed, replacing the old value.
    pub fn insert_resource<T: 'static>(&mut self, value: T)
        ensures
            final(self).pending() == old(self).pending() + 1,
    {
        self.add(InsertResource { value });
    }

    /// Inserts the resource `T` made from the world when flushed, unless it
    /// is there.
    pub fn init_resource<T: FromWorld + 'static>(&mut self)
        ensures
            final(self).pending() == old(self).pending() + 1,
    {
        self.add(InitResource::<T> { marker: PhantomData });
    }

    /// The commands on the entity `id`.
    pub fn entity<'b>(&'b mut self, id: EntityId) -> (r: EntityCommands<'b, 'a>)
        ensures
            r.spec_id() == id,
            r.pending() == old(self).pending(),
    {
        EntityCommands { commands: self, id }
    }
}

/// Commands on one entity.
pub struct EntityCommands<'b, 'a> {
    commands: &'b mut Commands<'a>,
    id: EntityId,
}

impl<'b, 'a> EntityCommands<'b, 'a> {
    pub closed spec fn spec_id(&self) -> EntityId {
        self.id
    }

    /// The number of commands waiting in the queue.
    pub closed spec fn pending(&self) -> nat {
        (*self.commands).pending()
    }

    /// Adds the component `value` to the entity when flushed, replacing the
    /// `T` it has.
    pub fn insert<T: Component>(&mut self, value: T) -> (r: &mut EntityCommands<'b, 'a>)
        ensures
            r.pending() == old(self).pending() + 1,
            r.spec_id() == old(self).spec_id(),
            *final(self) == *final(r),
    {
        let id = self.id;
        self.commands.add(EntityInsert { id, value });
        self
    }

    /// Despawns the entity when flushed.
    pub fn despawn(&mut self)
        ensures
            final(self).pending() == old(self).pending() + 1,
            final(self).spec_id() == old(self).spec_id(),
    {
        let id = self.id;
        self.commands.add(EntityDespawn { id });
    }
}

struct Spawn<T> {
    value: T,
}

impl<T: Bundle> Command for Spawn<T> {
    /// Spawns the entity: at most one entity becomes live, and none other
    /// changes.
    fn flush(self: Box<Self>, world: &mut World)
        ensures
            (forall|other: EntityId| #[trigger] final(world).store_view().live(other) == old(world).store_view().live(other))
            || exists|id: EntityId| {
                &&& #[trigger] final(world).store_view().live(id)
                &&& !old(world).store_view().live(id)
                &&& forall|other: EntityId| other != id
                    ==> #[trigger] final(world).store_view().live(other) == old(world).store_view().live(other)
            },
    {
        let Spawn { value } = *self;
        let _ = world.spawn(value);
    }
}

struct InsertResource<T> {
    value: T,
}

impl<T: 'static> Command for InsertResource<T> {
    fn flush(self: Box<Self>, world: &mut World)
        ensures
            exists|k: TypeId| #[trigger] inserted(old(world).resources_view(), final(world).resources_view(), k),
            final(world).store_view() == old(world).store_view(),
    {
        let InsertResource { value } = *self;
        world.insert_resource(value);
    }
}

struct InitResource<T> {
    marker: PhantomData<T>,
}

impl<T: FromWorld + 'static> Command for InitResource<T> {
    fn flush(self: Box<Self>, world: &mut World) {
        world.init_resource::<T>();
    }
}

struct EntityInsert<T> {
    id: EntityId,
    value: T,
}

impl<T: Component> Command for EntityInsert<T> {
    fn flush(self: Box<Self>, world: &mut World)
        ensures
            forall|other: EntityId| #[trigger] final(world).store_view().live(other) == old(world).store_view().live(other),
    {
        let EntityInsert { id, value } = *self;
        let _ = world.insert(id, value);
    }
}

/// Despawns the entity `id`.
pub struct EntityDespawn {
    pub id: EntityId,
}

impl Command for EntityDespawn {
    fn flush(self: Box<Self>, world: &mut World)
        ensures
            !final(world).store_view().live(self.id),
            forall|other: EntityId| other != self.id
                ==> #[trigger] final(world).store_view().live(other) == old(world).store_view().live(other),
    {
        let _ = world.despawn(self.id);
    }
}

impl Param for Commands<'static> {
    type State = CommandQueue;
    type Fetch = ();
    type Arg<'a> = Commands<'a>;

    fn init(meta: &mut SystemMeta, world: &mut World) -> (r: Option<CommandQueue>) {
        Some(CommandQueue::new())
    }

    fn fetch(world: &mut World, state: &mut CommandQueue) -> (r: Option<()>) {
        Some(())
    }

    fn arg<'x>(fetch: &'x mut (), state: &'x mut CommandQueue) -> Commands<'x> {
        Commands::new(state)
    }

    fn release(world: &mut World, state: &mut CommandQueue, fetch: ()) {
    }

    /// Applies the commands given since the last flush.
    fn flush(world: &mut World, state: &mut CommandQueue) {
        state.flush(world);
    }
}

} // verus!
