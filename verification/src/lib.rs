//! A single-user, in-process task tracker.
//!
//! A [`tasks::TodoList`] owns an ordered sequence of tasks, each with an
//! identifier, a description, a priority and a completion status, and offers
//! adding, editing, completing, removing and listing them. The `codec` module
//! renders a list to a structured text document and parses it back, so that a
//! caller can persist a list and reload it.

pub mod codec;
pub mod tasks;
