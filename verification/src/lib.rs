//! An ancestor-chain tree.
//!
//! A [`Node`] holds a value and a shared handle to its parent, so that many
//! nodes may hang below one chain of ancestors. A chain is read with
//! [`Node::get`], written in place with [`Node::get_mut`] as long as no handle
//! on the way is shared, and written copy-on-write with [`Node::make_mut`].
//!
//! Every contract speaks of a node's view: the values on the way from the
//! node to its root, nearest first.

pub mod chain;
mod handle;
pub mod laws;
pub mod mutation;
pub mod node;

pub use mutation::{ExclusiveLookupResult, Visit};
pub use node::{Node, NodeHandle};
