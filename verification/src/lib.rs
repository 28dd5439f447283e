//! Projection of a tree held in an `indextree` arena into nested node objects.
//!
//! A [`Node`] is the view of one node: its payload, and its children as a [`SiblingNodes`]
//! group that is absent where the node has none. A group is walked one sibling at a time by
//! a [`Walk`], which hands out a fresh `Node` for each sibling and stops at the first
//! failure that its driver reports. Nothing is built ahead of the walk.
//!
//! The arena stores a `usize` key with each node; the views hand the key on, and the code
//! that writes the nodes out finds the payload by it.
//!
//! - `arena`: the reads of the arena, with the contracts that the rest is proved from.
//! - `node`: the two views and how they are made.
//! - `walk`: the walk over a group as a state machine, and what holds of its runs.
//! - `projection`: the nested object of a node as a mathematical value, and what holds of it.
//! - `tree`: the node set of a tree, and that the projection holds each node once.

pub mod arena;
pub mod node;
pub mod projection;
pub mod tree;
pub mod walk;

pub use node::{Node, SiblingNodes};
pub use walk::{Outcome, Step, Walk};
