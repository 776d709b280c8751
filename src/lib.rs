//! The runtime core of a frame-stepped interactive application: entities
//! built from priority-ordered components, a spawner that defers spawn and
//! destroy requests to a once-per-frame resolution, and an input mapper that
//! turns raw key state into named, edge-triggered events.

pub mod component;
pub mod component_priority;
pub mod entity;
pub mod entity_spawner;
pub mod input;
pub mod input_component;
pub mod key_table;
pub mod path_utils;
pub mod render;
pub mod seq_lemmas;
