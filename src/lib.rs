//! An arena-backed file tree with open/closed directories, cached counts of
//! visible rows, and a depth-first traversal of what is visible.

pub mod data;
pub mod list;
