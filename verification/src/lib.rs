//! An ordered tree maintained in a CRDT fashion.
//!
//! The structural truth for every entity is a single `ChildOf` relation:
//! "my parent, and my fractional position among siblings". From that
//! relation the library maintains two derived indexes for fast navigation
//! (a per-child sibling linked list and a per-parent ordered child list),
//! and resolves "move between" commands deterministically even when the
//! two reference entities have ended up under different parents.

pub mod idmap;
pub mod indexing;
pub mod node;
pub mod reordering;
pub mod world;

pub use indexing::{insert_child_of, tree_indexing, unlink_child, ParentIndex, SiblingIndex};
pub use node::{ChildOf, Id, Ordered, SiblingID, MAX_ORDERED, MIN_ORDERED};
pub use reordering::{tree_reordering, ReorderCmd, ReorderCommands};
pub use world::TreeWorld;
