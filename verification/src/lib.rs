//! An in-memory ordered index: a B-tree that stores a set of keys.

pub mod order;
pub mod trees;
