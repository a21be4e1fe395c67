//! A small dependency graph: keyed nodes that carry a payload, weighted
//! directed edges between them, and a two-phase change notification. Updating
//! a node marks its key; `Dag::dispatch` then walks, depth first, from every
//! marked node and hands each node it reaches to a visitor.
//!
//! Nodes live in an arena owned by the graph. An edge names its target by the
//! arena slot the target was given when it was added, so an edge follows one
//! node for as long as that node lives and never another one that later takes
//! the same key.
pub mod graph;
pub mod laws;
pub mod model;
pub mod node;
pub mod reach;
pub mod visit;

pub use crate::graph::Dag;
pub use crate::model::{EdgeView, Graph, NodeView};
pub use crate::node::{Edge, Node};
pub use crate::visit::{KeyLog, Visitor};
pub use vstd::hash_set::StringHashSet;
