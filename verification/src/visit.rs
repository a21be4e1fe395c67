//! Visitors: what a walk hands its nodes to.
use crate::model::NodeView;
use crate::node::Node;
use vstd::prelude::*;

verus! {

/// The receiver of the nodes that a walk visits.
///
/// A visitor keeps, in `seen`, the record of every node it was handed, in
/// order. That record is how the contracts of `Dag::traverse` and
/// `Dag::dispatch` say which nodes they hand over, and in which order. The
/// record is ghost: a visitor stores at run time only what it wants to.
///
/// A visitor that is to be verified defines `wf` and `seen` itself. The
/// bodies given here let code that is not verified implement `visit` alone;
/// nothing verified can rest on them, since `visit` could not keep its
/// promise with a record that stays empty.
pub trait Visitor<T> {
    /// The visitor's own invariant. `visit` may assume it and has to keep it.
    open spec fn wf(&self) -> bool {
        true
    }

    /// The nodes handed to this visitor so far, oldest first.
    open spec fn seen(&self) -> Seq<NodeView<T>> {
        Seq::empty()
    }

    /// Takes one node. The visitor may do with it what it likes, as long as
    /// it records it.
    fn visit(&mut self, node: &Node<T>)
        requires
            old(self).wf(),
        ensures
            final(self).wf(),
            final(self).seen() == old(self).seen().push(node@),
    ;
}

/// A visitor that writes down the key of each node it is handed.
pub struct KeyLog<T> {
    keys: Vec<String>,
    nodes: Ghost<Seq<NodeView<T>>>,
}

impl<T> KeyLog<T> {
    /// A log with nothing in it.
    pub fn new() -> (log: KeyLog<T>)
        ensures
            log.wf(),
            log.seen() == Seq::<NodeView<T>>::empty(),
    {
        KeyLog { keys: Vec::new(), nodes: Ghost(Seq::empty()) }
    }

    /// The keys written down so far, oldest first.
    pub fn keys(&self) -> (keys: &Vec<String>)
        requires
            self.wf(),
        ensures
            keys@.len() == self.seen().len(),
            forall|i: int| 0 <= i < keys@.len() ==> (#[trigger] keys@[i])@ == self.seen()[i].key,
    {
        &self.keys
    }
}

impl<T> Visitor<T> for KeyLog<T> {
    closed spec fn wf(&self) -> bool {
        &&& self.keys@.len() == self.nodes@.len()
        &&& forall|i: int| 0 <= i < self.keys@.len() ==> (#[trigger] self.keys@[i])@ == self.nodes@[i].key
    }

    closed spec fn seen(&self) -> Seq<NodeView<T>> {
        self.nodes@
    }

    fn visit(&mut self, node: &Node<T>) {
        self.keys.push(node.key.clone());
        proof {
            self.nodes@ = self.nodes@.push(node@);
        }
    }
}

} // verus!
