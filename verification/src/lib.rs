//! A hierarchical task list: tasks nest under tasks in an index-addressed
//! arena, and a cursor moves through the hierarchy.

pub mod cli;
pub mod curses;
pub mod date;
pub mod deletion;
pub mod document;
pub mod error;
pub mod laws;
pub mod lemmas;
pub mod model;
pub mod prune;
pub mod task;
pub mod text;
pub mod tree;
pub mod tui;
pub mod validate;
