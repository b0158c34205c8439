//! Dependency chains over a CocoaPods-style lock file: the lock document is
//! read into a package graph, walked from a target in either direction, and
//! the shortest chains found are rendered as an indented, coloured tree.

pub mod doc;
pub mod entry_line;
pub mod graph;
pub mod lockfile;
pub mod render;
pub mod style;
pub mod travel;
pub mod tree;
pub mod walker;
