# essay_ecs

A small entity-component-system library, verified with Verus.

- `entity/`: columns of component values, tables of entity rows, the entity
  store (spawn, despawn, extend, views) and the meta data that matches views
  to tables.
- `schedule/`: phases, the planner that orders systems by their access, the
  plan, the rounds in which systems become ready, and the executors.
- `system/`, `param/`: systems built from functions and their parameters
  (resources, locals, commands, queries), and run conditions.
- `world/`, `resource.rs`: the world, its resources and its entities.
- `core_app.rs`, `base_app.rs`, `app/`: apps over the world, with plugins,
  events and the main schedule.

The tests under `tests/` exercise the library.
