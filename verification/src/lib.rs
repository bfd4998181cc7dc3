//! Core of a small task/label manager: the entity model, the join-row
//! folder that rebuilds nested task entities from flat relational rows,
//! and the store contracts with an in-memory backend that satisfies them.
//!
//! The in-memory stores are plain values mutated through `&mut self`; a
//! process that shares one across callers serializes access around it (the
//! relational backend scopes each operation to its own transaction instead).

pub mod errors;
pub mod fold;
pub mod labels;
pub mod store;
pub mod task_store;
pub mod tasks;
pub mod validation;
