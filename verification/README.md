# bevy_ecs_core

The bookkeeping core of an entity-component-system — entities, component kinds, relations,
queries, observers, schedules and state machines — stated and proved in Verus. The library
decides what runs and in what order (the rows a query visits, the observer calls an event
triggers, the steps of a stage's pass); running systems, observers and query functions on a world
is left to the code that drives it.

## Layout

- `src/` — the verified library.
  - `entity`, `ticks`, `component`: entity ids and their packed form, change ticks with
    wrapping, and the registry of component and relation kinds.
  - `world`: entities holding components and relations aimed at targets, with relation queries.
  - `targets`, `bitset`: the target lists (`smallvec`) and bit sets (`fixedbitset`) queries keep.
  - `query`, `query_state`, `fetch`: access bookkeeping, relation filters, the per-filter caches
    of matched archetypes and tables, and the order in which rows are visited, sequentially or
    in batches.
  - `observer`: observers registered per event, component and entity, and which run when.
  - `graph`, `stage`, `stage_run`, `core_schedule`: system ordering, a stage's groups and run
    criteria, its run loop as a state machine that tells the world what to run next, and the
    base schedule of an app.
  - `states`: state machines and their transitions.
  - `world_sync`: mirroring entities into a render world.
  - `editable_text`, `layout`: text fields and their edits, and UI layout settings.
  - `bundle`, `animation`, `error`, `keymap`: batched component writes, the integer step of the
    fast reciprocal square root, error handlers, and the insertion-ordered map used by observers.
- `app/` — the code around the library: logging error handlers, the process-wide handler, the
  driver that carries out a stage's run actions on a world, float helpers, and conversions to the error and key types of
  `thiserror` and `smol_str`.
- `tests/` — tests of the library through its public interface.
