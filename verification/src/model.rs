//! The mathematical model of the graph: what an edge, a node and a graph are,
//! what each operation does to a graph, and which nodes a walk visits.
use vstd::prelude::*;
use vstd::set_lib::{lemma_int_range, lemma_len_subset, set_int_range};

verus! {

/// An edge: its weight, and the arena slot of the node it refers to. An edge
/// that was made from a node outside any graph has no target.
pub struct EdgeView {
    pub weight: int,
    pub target: Option<int>,
}

/// A node: its key, its payload, its outgoing edges in insertion order, and
/// the arena slot it occupies (none while it belongs to no graph).
pub struct NodeView<T> {
    pub key: Seq<char>,
    pub data: T,
    pub edges: Seq<EdgeView>,
    pub slot: Option<int>,
}

impl<T> NodeView<T> {
    /// This node with one more edge at the end of its list.
    pub open spec fn with_edge(self, edge: EdgeView) -> NodeView<T> {
        NodeView { edges: self.edges.push(edge), ..self }
    }

    /// This node with its payload replaced.
    pub open spec fn with_data(self, data: T) -> NodeView<T> {
        NodeView { data: data, ..self }
    }
}

/// The keys of the given nodes.
pub open spec fn keys_of<T>(nodes: Seq<NodeView<T>>) -> Set<Seq<char>> {
    Set::new(|k: Seq<char>| exists|j: int| 0 <= j < nodes.len() && (#[trigger] nodes[j]).key == k)
}

/// The keys of two runs of nodes are the keys of the one and of the other.
pub proof fn lemma_keys_of_concat<T>(a: Seq<NodeView<T>>, b: Seq<NodeView<T>>)
    ensures
        keys_of(a + b) == keys_of(a).union(keys_of(b)),
{
    let joined = a + b;
    assert forall|k: Seq<char>| keys_of(joined).contains(k) implies keys_of(a).union(
        keys_of(b),
    ).contains(k) by {
        let j = choose|j: int| 0 <= j < joined.len() && (#[trigger] joined[j]).key == k;
        if j < a.len() {
            assert(a[j].key == k);
        } else {
            assert(b[j - a.len()].key == k);
        }
    }
    assert forall|k: Seq<char>| keys_of(a).union(keys_of(b)).contains(k) implies keys_of(
        joined,
    ).contains(k) by {
        if keys_of(a).contains(k) {
            let j = choose|j: int| 0 <= j < a.len() && (#[trigger] a[j]).key == k;
            assert(joined[j].key == k);
        } else {
            let j = choose|j: int| 0 <= j < b.len() && (#[trigger] b[j]).key == k;
            assert(joined[a.len() + j].key == k);
        }
    }
    assert(keys_of(joined) =~= keys_of(a).union(keys_of(b)));
}

/// The state of a graph.
///
/// `slots` is the arena. Slot `i` holds the node that was the `i`-th to be
/// added, or nothing once that node has been removed; a slot is never given
/// to a second node. `index` sends each key in use to the slot of the node
/// that carries it. `marks` lists the keys marked since the last dispatch, in
/// the order in which a dispatch serves them.
pub struct Graph<T> {
    pub slots: Seq<Option<NodeView<T>>>,
    pub index: Map<Seq<char>, int>,
    pub marks: Seq<Seq<char>>,
}

impl<T> Graph<T> {
    /// Slot `i` holds a node.
    pub open spec fn live(self, i: int) -> bool {
        0 <= i < self.slots.len() && self.slots[i] is Some
    }

    /// The node in slot `i`.
    pub open spec fn node(self, i: int) -> NodeView<T>
        recommends
            self.live(i),
    {
        self.slots[i]->0
    }

    /// The index and the arena agree, every node knows its slot, and no key
    /// is marked twice.
    pub open spec fn wf(self) -> bool {
        &&& forall|k: Seq<char>| #[trigger]
            self.index.contains_key(k) ==> self.live(self.index[k]) && self.node(self.index[k]).key
                == k
        &&& forall|i: int|
            0 <= i < self.slots.len() && (#[trigger] self.slots[i]) is Some ==> self.node(i).slot
                == Some(i) && self.index.contains_key(self.node(i).key)
                && self.index[self.node(i).key] == i
        &&& self.marks.no_duplicates()
    }

    /// A node is stored under `key`.
    pub open spec fn has_key(self, key: Seq<char>) -> bool {
        self.index.contains_key(key)
    }

    /// The node stored under `key`, if there is one.
    pub open spec fn lookup(self, key: Seq<char>) -> Option<NodeView<T>> {
        if self.has_key(key) {
            Some(self.node(self.index[key]))
        } else {
            None
        }
    }

    /// `key` has been marked since the last dispatch.
    pub open spec fn is_marked(self, key: Seq<char>) -> bool {
        self.marks.contains(key)
    }

    /// The target of `edge` is a live node.
    pub open spec fn resolves(self, edge: EdgeView) -> bool {
        edge.target matches Some(t) && self.live(t)
    }

    /// Every edge of `node` resolves.
    pub open spec fn sound(self, node: NodeView<T>) -> bool {
        forall|i: int| 0 <= i < node.edges.len() ==> self.resolves(#[trigger] node.edges[i])
    }

    // ------------------------------------------------------------------
    // What the operations do
    // ------------------------------------------------------------------
    /// The graph with no node and no mark.
    pub open spec fn empty() -> Graph<T> {
        Graph { slots: Seq::empty(), index: Map::empty(), marks: Seq::empty() }
    }

    /// A fresh node with the given payload is stored under `key`, in a new
    /// slot. A node that was stored under `key` before is gone, and edges that
    /// refer to it now dangle.
    pub open spec fn add(self, key: Seq<char>, data: T) -> Graph<T> {
        let fresh = NodeView {
            key: key,
            data: data,
            edges: Seq::empty(),
            slot: Some(self.slots.len() as int),
        };
        Graph {
            slots: self.remove(key).slots.push(Some(fresh)),
            index: self.index.insert(key, self.slots.len() as int),
            marks: self.marks,
        }
    }

    /// The payload of the node under `key` is replaced in its slot and `key`
    /// is marked; nothing changes where no node is stored under `key`.
    pub open spec fn update(self, key: Seq<char>, data: T) -> Graph<T> {
        if self.has_key(key) {
            let slot = self.index[key];
            Graph {
                slots: self.slots.update(slot, Some(self.node(slot).with_data(data))),
                index: self.index,
                marks: if self.is_marked(key) {
                    self.marks
                } else {
                    self.marks.push(key)
                },
            }
        } else {
            self
        }
    }

    /// The node under `key`, if any, leaves its slot empty. Marks and the
    /// edges of other nodes stay as they are.
    pub open spec fn remove(self, key: Seq<char>) -> Graph<T> {
        if self.has_key(key) {
            Graph {
                slots: self.slots.update(self.index[key], None),
                index: self.index.remove(key),
                marks: self.marks,
            }
        } else {
            self
        }
    }

    /// The node under `to_key` gains an edge of weight 1 whose target is the
    /// node under `from_key`.
    pub open spec fn add_edge(self, to_key: Seq<char>, from_key: Seq<char>) -> Graph<T>
        recommends
            self.has_key(to_key),
            self.has_key(from_key),
    {
        let holder = self.index[to_key];
        let edge = EdgeView { weight: 1, target: Some(self.index[from_key]) };
        Graph {
            slots: self.slots.update(holder, Some(self.node(holder).with_edge(edge))),
            index: self.index,
            marks: self.marks,
        }
    }

    /// `edge` refers to the live node whose key is `key`.
    pub open spec fn leads_to(self, edge: EdgeView, key: Seq<char>) -> bool {
        edge.target matches Some(t) && self.live(t) && self.node(t).key == key
    }

    /// No edge of `edges` before position `i` leads to `key`.
    pub open spec fn none_leads_before(self, edges: Seq<EdgeView>, key: Seq<char>, i: int) -> bool {
        forall|j: int| 0 <= j < i ==> !self.leads_to(#[trigger] edges[j], key)
    }

    /// Every edge of `edges` resolves, up to and including the first that
    /// leads to `key`.
    pub open spec fn resolves_up_to(self, edges: Seq<EdgeView>, key: Seq<char>) -> bool {
        forall|i: int|
            0 <= i < edges.len() && self.none_leads_before(edges, key, i) ==> self.resolves(
                #[trigger] edges[i],
            )
    }

    /// The edges of the node under `from_key` can be searched for one that
    /// leads to `to_key`: there is such a node, and its edges resolve up to
    /// the one that is looked for.
    pub open spec fn searchable(self, to_key: Seq<char>, from_key: Seq<char>) -> bool {
        self.has_key(from_key) && self.resolves_up_to(self.node(self.index[from_key]).edges, to_key)
    }

    /// The weight of the first edge of the node under `from_key` that leads
    /// to `to_key`, or -1 where there is no such edge.
    pub open spec fn edge_weight(self, to_key: Seq<char>, from_key: Seq<char>) -> int
        recommends
            self.has_key(from_key),
    {
        let edges = self.lookup(from_key)->0.edges;
        if exists|i: int| 0 <= i < edges.len() && self.leads_to(#[trigger] edges[i], to_key) {
            let first = choose|i: int|
                0 <= i < edges.len() && self.leads_to(#[trigger] edges[i], to_key)
                    && self.none_leads_before(edges, to_key, i);
            edges[first].weight
        } else {
            -1
        }
    }

    /// All marks are dropped.
    pub open spec fn swept(self) -> Graph<T> {
        Graph { slots: self.slots, index: self.index, marks: Seq::empty() }
    }

    // ------------------------------------------------------------------
    // Walks
    // ------------------------------------------------------------------
    /// The live slots whose node's key is not in `visited`.
    pub open spec fn unvisited(self, visited: Set<Seq<char>>) -> Set<int> {
        Set::new(|i: int| self.live(i) && !visited.contains(self.node(i).key))
    }

    /// The nodes visited, in order, by a depth-first walk that starts at
    /// `node`, given the keys visited before. A node whose key was visited is
    /// passed over; otherwise the node comes first, then what its edges lead
    /// to, edge by edge, each walk knowing the keys the earlier ones visited.
    pub open spec fn walk(self, node: NodeView<T>, visited: Set<Seq<char>>) -> Seq<NodeView<T>> {
        if visited.contains(node.key) {
            Seq::empty()
        } else {
            seq![node] + self.walk_edges(node.edges, 0, visited.insert(node.key))
        }
    }

    /// The nodes visited, in order, by walking along `edges[from..]`. An
    /// edge that does not resolve contributes nothing.
    pub open spec fn walk_edges(
        self,
        edges: Seq<EdgeView>,
        from: int,
        visited: Set<Seq<char>>,
    ) -> Seq<NodeView<T>>
        decreases self.unvisited(visited).len(), edges.len() - from,
    {
        if 0 <= from < edges.len() {
            let first = self.walk_edge(edges[from], visited);
            proof {
                self.lemma_unvisited_shrinks(visited, visited.union(keys_of(first)));
            }
            first + self.walk_edges(edges, from + 1, visited.union(keys_of(first)))
        } else {
            Seq::empty()
        }
    }

    /// The nodes visited by walking along one edge.
    pub open spec fn walk_edge(self, edge: EdgeView, visited: Set<Seq<char>>) -> Seq<NodeView<T>>
        decreases self.unvisited(visited).len(), 0int,
    {
        match edge.target {
            Some(t) if self.live(t) && !visited.contains(self.node(t).key) => {
                proof {
                    self.lemma_unvisited_drops(visited, t);
                }
                seq![self.node(t)] + self.walk_edges(
                    self.node(t).edges,
                    0,
                    visited.insert(self.node(t).key),
                )
            },
            _ => Seq::empty(),
        }
    }

    /// The walk from `node` meets no edge that fails to resolve.
    pub open spec fn walk_ok(self, node: NodeView<T>, visited: Set<Seq<char>>) -> bool {
        forall|j: int|
            0 <= j < self.walk(node, visited).len() ==> self.sound(
                #[trigger] self.walk(node, visited)[j],
            )
    }

    /// The nodes visited by walking from the node under `key` with nothing
    /// visited before; nothing where no node is stored under `key`.
    pub open spec fn walk_from_key(self, key: Seq<char>) -> Seq<NodeView<T>> {
        match self.lookup(key) {
            Some(root) => self.walk(root, Set::empty()),
            None => Seq::empty(),
        }
    }

    /// The nodes handed to the visitor, in order, by a dispatch that serves
    /// the marks `marks[from..]`: one walk for each mark, each starting with
    /// nothing visited.
    pub open spec fn sweep(self, from: int) -> Seq<NodeView<T>>
        decreases self.marks.len() - from,
    {
        if 0 <= from < self.marks.len() {
            self.walk_from_key(self.marks[from]) + self.sweep(from + 1)
        } else {
            Seq::empty()
        }
    }

    /// No walk of a dispatch meets an edge that fails to resolve.
    pub open spec fn sweep_ok(self) -> bool {
        forall|j: int| 0 <= j < self.sweep(0).len() ==> self.sound(#[trigger] self.sweep(0)[j])
    }

    // ------------------------------------------------------------------
    // How walks unfold
    // ------------------------------------------------------------------
    /// Walking along an edge that resolves is walking from its target.
    pub proof fn lemma_walk_edge(self, edge: EdgeView, visited: Set<Seq<char>>)
        requires
            self.resolves(edge),
        ensures
            self.walk_edge(edge, visited) == self.walk(self.node(edge.target->0), visited),
    {
    }

    /// Walking along `edges[from..]` is walking along `edges[from]` and then
    /// along `edges[from + 1..]` with the keys of the first walk visited.
    pub proof fn lemma_walk_edges_step(self, edges: Seq<EdgeView>, from: int, visited: Set<Seq<char>>)
        requires
            0 <= from < edges.len(),
        ensures
            self.walk_edges(edges, from, visited) == self.walk_edge(edges[from], visited)
                + self.walk_edges(
                edges,
                from + 1,
                visited.union(keys_of(self.walk_edge(edges[from], visited))),
            ),
    {
    }

    // ------------------------------------------------------------------
    // Termination of walks
    // ------------------------------------------------------------------
    /// There are finitely many unvisited slots.
    pub proof fn lemma_unvisited_finite(self, visited: Set<Seq<char>>)
        ensures
            self.unvisited(visited).finite(),
            self.unvisited(visited).len() <= self.slots.len(),
    {
        let all = set_int_range(0, self.slots.len() as int);
        lemma_int_range(0, self.slots.len() as int);
        assert(self.unvisited(visited).subset_of(all));
        lemma_len_subset(self.unvisited(visited), all);
    }

    /// Visiting more keys leaves no more slots unvisited.
    pub proof fn lemma_unvisited_shrinks(self, fewer: Set<Seq<char>>, more: Set<Seq<char>>)
        requires
            fewer.subset_of(more),
        ensures
            self.unvisited(more).len() <= self.unvisited(fewer).len(),
    {
        self.lemma_unvisited_finite(fewer);
        assert(self.unvisited(more).subset_of(self.unvisited(fewer)));
        lemma_len_subset(self.unvisited(more), self.unvisited(fewer));
    }

    /// Visiting the key of an unvisited live slot leaves fewer slots unvisited.
    pub proof fn lemma_unvisited_drops(self, visited: Set<Seq<char>>, t: int)
        requires
            self.live(t),
            !visited.contains(self.node(t).key),
        ensures
            self.unvisited(visited.insert(self.node(t).key)).len() < self.unvisited(visited).len(),
    {
        let before = self.unvisited(visited);
        let after = self.unvisited(visited.insert(self.node(t).key));
        self.lemma_unvisited_finite(visited);
        assert(before.contains(t));
        assert(after.subset_of(before.remove(t)));
        lemma_len_subset(after, before.remove(t));
    }
}

} // verus!
