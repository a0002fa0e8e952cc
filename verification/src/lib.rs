//! An entity-component-system runtime.
//!
//! Entities are plain integer handles drawn from a recycling pool. Typed
//! component data, group and tag labels, and an awake flag are bookkept per
//! entity in a [`entity::MetaEntity`] record. Structural changes are recorded
//! in a deduplicating event queue and delivered in batches, so that systems
//! iterating the world never observe a half-applied mutation.

pub mod bitset;
pub mod command;
pub mod component;
pub mod entity;
pub mod event;
pub mod filter;
pub mod group;
pub mod mapper;
pub mod pool;
pub mod record;
pub mod strset;
pub mod system;
pub mod tag;
pub mod vecmap;
