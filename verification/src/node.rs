//! Nodes and edges as the program holds them, and their views.
use crate::model::{EdgeView, NodeView};
use vstd::prelude::*;

verus! {

/// An arena slot as a mathematical integer.
pub open spec fn slot_view(slot: Option<usize>) -> Option<int> {
    match slot {
        Some(i) => Some(i as int),
        None => None,
    }
}

/// A weighted reference to a node. It does not keep its target alive.
#[derive(Debug)]
pub struct Edge {
    weight: i32,
    to_node: Option<usize>,
}

impl View for Edge {
    type V = EdgeView;

    closed spec fn view(&self) -> EdgeView {
        EdgeView {
            weight: self.weight as int,
            target: slot_view(self.to_node),
        }
    }
}

impl Edge {
    /// The weight of this edge.
    pub(crate) fn weight(&self) -> (weight: i32)
        ensures
            weight == self@.weight,
    {
        self.weight
    }

    /// The arena slot this edge refers to.
    pub(crate) fn target(&self) -> (target: Option<usize>)
        ensures
            slot_view(target) == self@.target,
    {
        self.to_node
    }
}

/// A keyed payload with the edges that leave it, in the order they were added.
#[derive(Debug)]
pub struct Node<T> {
    pub key: String,
    pub data: T,
    pub edges: Vec<Edge>,
    /// The arena slot given by the graph that owns this node, if any.
    pub slot: Option<usize>,
}

impl<T> View for Node<T> {
    type V = NodeView<T>;

    open spec fn view(&self) -> NodeView<T> {
        NodeView {
            key: self.key@,
            data: self.data,
            edges: self.edges@.map_values(|e: Edge| e@),
            slot: slot_view(self.slot),
        }
    }
}

impl<T> Node<T> {
    /// A node that belongs to no graph yet: no edges and no slot.
    pub fn new(key: String, data: T) -> (node: Node<T>)
        ensures
            node@ == (NodeView { key: key@, data: data, edges: Seq::<EdgeView>::empty(), slot: None }),
    {
        let node = Node { key, data, edges: Vec::new(), slot: None };
        assert(node@.edges =~= Seq::<EdgeView>::empty());
        node
    }

    /// Appends an edge of the given weight that refers to `to_node`.
    pub fn add_edge(&mut self, to_node: &Node<T>, weight: i32)
        ensures
            final(self)@ == old(self)@.with_edge(EdgeView { weight: weight as int, target: to_node@.slot }),
    {
        self.link(to_node.slot, weight);
    }

    /// Appends an edge of the given weight to the node in slot `target`.
    pub(crate) fn link(&mut self, target: Option<usize>, weight: i32)
        ensures
            final(self)@ == old(self)@.with_edge(
                EdgeView {
                    weight: weight as int,
                    target: slot_view(target),
                },
            ),
    {
        let edge = Edge { weight, to_node: target };
        self.edges.push(edge);
        assert(self@.edges =~= old(self)@.edges.push(edge@));
    }
}

} // verus!
