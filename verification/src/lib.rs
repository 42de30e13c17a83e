//! A small verified task-list library.
//!
//! The library keeps a collection of task items — an id, a line of text, a
//! completion flag, and in the priority-aware variant a priority — and offers
//! the repository operations a command-line front end needs: add, delete,
//! toggle, edit, reprioritize, list. The collection is persisted as a JSON
//! array; the codec for that storage format is part of the library and is
//! verified, so that a published collection loads back unchanged.

pub mod codec;
pub mod item;
pub mod todo_item;
