//! A verified entity-component runtime.
//!
//! The runtime stores typed component values per entity, maintains a
//! bidirectional relationship between owning components and the member
//! collections on their targets, fires lifecycle hooks on structural
//! changes, drains deferred structural commands at sync points, clones or
//! moves configurable subsets of an entity's components, and routes every
//! fallible step through a single set-once error-handling policy.

pub mod cloning;
pub mod commands;
pub mod entity;
pub mod errors;
pub mod membership;
pub mod registry;
pub mod value;
pub mod world;
