//! An archetype-based entity/component store.
//!
//! Entities that carry exactly the same set of component types share one
//! archetype, whose component values lie in one contiguous byte column per
//! component type. Every operation comes with a contract over a mathematical
//! view of the store.

pub mod archetype;
pub mod column;
pub mod component;
pub mod entity;
pub mod manager;
pub mod query;
pub mod system;
pub mod world;
