//! An immutable task-list store: tasks with identifiers, names, details,
//! completion flags and priorities, kept in insertion order, together with a
//! human-editable text format for saving and loading the whole store.

pub mod codec;
pub mod error;
pub mod list;
pub mod priority;
pub mod text;
pub mod todo;
