//! Core scheduling, change-detection, observer and relation bookkeeping of an
//! entity-component-system, with each operation stated and proved in Verus.

pub mod entity;
pub mod ticks;
pub mod component;
pub mod targets;
pub mod bitset;
pub mod query;
pub mod query_state;
pub mod world;
pub mod keymap;
pub mod observer;
pub mod graph;
pub mod stage;
pub mod stage_run;
pub mod core_schedule;
pub mod error;
pub mod fetch;
pub mod states;
pub mod world_sync;
pub mod editable_text;
pub mod layout;
pub mod animation;
pub mod bundle;
