//! Bookkeeping for capabilities that are derived from each other in a tree-like structure.

pub mod cap_counted;
pub mod caps;
pub mod cell;
pub mod chain;
pub mod cursors;
pub mod intrusive;
pub mod linked_list;
pub mod tree;
pub mod tree_node;

pub use cursors::{AliasingError, CursorData, CursorHandle, CursorRef, CursorRefMut, CursorSet, OutOfCursorsError};
pub use tree::{Correspondence, DerivationTree, NextNodeIterator, TreeNodeData};
