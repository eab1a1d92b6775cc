//! A disk-oriented B-tree engine.
//!
//! The crate holds the logic of an ordered key-value index whose nodes are
//! stored one per file: the node record and its split ([`node`]), the
//! bounded cache of resident nodes ([`cache`]), and the insertion protocol
//! that walks from the root to a leaf ([`tree`]). Reading and writing the
//! files is left to the host, which the tree tells what to store and what
//! to read.
//!
//! What the steps of the protocol add up to is stated against a model of
//! the host: an insertion that is completed reports the value that the key
//! had and leaves the new value where a search finds it ([`dialogue`]), and
//! it changes nothing for any other key ([`frame`]). Against a store that
//! is ordered as a B-tree is, an insertion is always completed
//! ([`progress`]), and the tree behaves as a map does ([`contents`]).
//!
//! Keys are ordered through `Ord`; what the engine proves holds for key
//! types whose order is a total order ([`order::total_order`]).

pub mod cache;
pub mod contents;
pub mod dialogue;
pub mod error;
pub mod frame;
pub mod names;
pub mod node;
pub mod order;
pub mod progress;
pub mod tree;

pub use crate::cache::NodeCache;
pub use crate::error::{Error, NodeError};
pub use crate::names::NodeRef;
pub use crate::node::{NeedsSplit, Node, NodeData};
pub use crate::tree::{BTree, Look, Next, Outcome, Write};
