//! The graph itself: the arena of nodes, the index from keys to slots, and
//! the keys marked for the next dispatch.
use crate::model::{keys_of, lemma_keys_of_concat, Graph, NodeView};
use crate::node::{Edge, Node};
use crate::visit::Visitor;
use vstd::hash_map::StringHashMap;
use vstd::hash_set::StringHashSet;
use vstd::prelude::*;

verus! {

/// A dependency graph whose nodes carry a payload of type `T`.
///
/// The graph owns its nodes. They stand in an arena that only grows: a node
/// keeps the slot it was added in for as long as it lives, and a removed node
/// leaves its slot empty for good. Edges name their target by its slot.
pub struct Dag<T> {
    /// The arena. A removed node leaves `None` behind, so that slots stay put.
    nodes: Vec<Option<Node<T>>>,
    /// The slot of the node stored under each key.
    index: StringHashMap<usize>,
    /// The marked keys, in the order in which they were first marked.
    invalidated: Vec<String>,
    /// The marked keys again, for quick membership tests.
    marked: StringHashSet,
}

/// The view of an arena slot.
pub open spec fn slot_content<T>(slot: Option<Node<T>>) -> Option<NodeView<T>> {
    match slot {
        Some(node) => Some(node@),
        None => None,
    }
}

impl<T> View for Dag<T> {
    type V = Graph<T>;

    closed spec fn view(&self) -> Graph<T> {
        Graph {
            slots: self.nodes@.map_values(|slot: Option<Node<T>>| slot_content(slot)),
            index: self.index@.map_values(|slot: usize| slot as int),
            marks: self.invalidated@.map_values(|key: String| key@),
        }
    }
}

impl<T> Dag<T> {
    /// The two records of the marked keys agree.
    pub closed spec fn marks_agree(&self) -> bool {
        self.marked@ == self@.marks.to_set()
    }

    /// The graph is in a state that its operations can work on. Every
    /// operation keeps it so.
    pub open spec fn wf(&self) -> bool {
        self@.wf() && self.marks_agree()
    }

    /// An empty graph.
    pub fn new() -> (dag: Dag<T>)
        ensures
            dag.wf(),
            dag@ == Graph::<T>::empty(),
    {
        let dag = Dag {
            nodes: Vec::new(),
            index: StringHashMap::new(),
            invalidated: Vec::new(),
            marked: StringHashSet::new(),
        };
        assert(dag@.slots =~= Seq::empty());
        assert(dag@.index =~= Map::empty());
        assert(dag@.marks =~= Seq::empty());
        assert(dag@.marks.to_set() =~= Set::empty());
        dag
    }

    /// The node stored under `key`, if there is one.
    pub fn get(&self, key: &str) -> (found: Option<&Node<T>>)
        requires
            self.wf(),
        ensures
            match found {
                Some(node) => self@.lookup(key@) == Some(node@),
                None => self@.lookup(key@) is None,
            },
    {
        match self.index.get(key) {
            Some(slot) => {
                assert(self@.index.contains_key(key@));
                assert(self@.live(self@.index[key@]));
                self.nodes[*slot].as_ref()
            },
            None => None,
        }
    }

    /// Stores a fresh node with payload `data` under `key`. A node stored
    /// under `key` before is dropped: edges that referred to it dangle from
    /// now on, they do not follow the key to the new node.
    pub fn add(&mut self, key: &str, data: T)
        requires
            old(self).wf(),
        ensures
            final(self).wf(),
            final(self)@ == old(self)@.add(key@, data),
    {
        self.remove(key);
        let ghost cleared = self@;
        let slot: usize = self.nodes.len();
        let mut node = Node::new(key.to_owned(), data);
        node.slot = Some(slot);
        self.nodes.push(Some(node));
        self.index.insert(key.to_owned(), slot);
        proof {
            let before = old(self)@;
            assert(cleared == before.remove(key@));
            assert(cleared.slots.len() == before.slots.len());
            assert(self@.slots =~= cleared.slots.push(Some(node@)));
            assert(self@.index =~= cleared.index.insert(key@, slot as int));
            assert(cleared.index.insert(key@, slot as int) =~= before.index.insert(
                key@,
                slot as int,
            ));
            assert(self@.marks =~= before.marks);
        }
    }

    /// Replaces the payload of the node under `key`, in place, and marks
    /// `key` for the next dispatch. Does nothing where no node is stored
    /// under `key`.
    pub fn update(&mut self, key: &str, data: T)
        requires
            old(self).wf(),
        ensures
            final(self).wf(),
            final(self)@ == old(self)@.update(key@, data),
    {
        let slot: usize = match self.index.get(key) {
            Some(slot) => *slot,
            None => {
                return;
            },
        };
        assert(old(self)@.index.contains_key(key@) && old(self)@.index[key@] == slot);
        match &mut self.nodes[slot] {
            Some(node) => {
                node.data = data;
            },
            None => {},
        }
        if self.marked.insert(key.to_owned()) {
            self.invalidated.push(key.to_owned());
        }
        proof {
            let before = old(self)@;
            let after = before.update(key@, data);
            assert(before.is_marked(key@) <==> before.marks.to_set().contains(key@));
            assert(self@.slots =~= after.slots);
            assert(self@.index =~= before.index);
            assert(self@.marks =~= after.marks);
            if !before.is_marked(key@) {
                before.marks.lemma_push_to_set_commute(key@);
            }
            assert(self.marked@ =~= after.marks.to_set());
            assert(after.marks.no_duplicates());
            assert(self@ == after);
        }
    }

    /// Removes the node under `key` and says whether there was one. Marks
    /// stay, and so do edges that refer to the node: they dangle from now on.
    pub fn remove(&mut self, key: &str) -> (removed: bool)
        requires
            old(self).wf(),
        ensures
            final(self).wf(),
            removed == old(self)@.has_key(key@),
            final(self)@ == old(self)@.remove(key@),
    {
        let slot: usize = match self.index.get(key) {
            Some(slot) => *slot,
            None => {
                return false;
            },
        };
        assert(old(self)@.index.contains_key(key@) && old(self)@.index[key@] == slot);
        self.nodes.set(slot, None);
        self.index.remove(key);
        proof {
            let before = old(self)@;
            assert(self@.slots =~= before.remove(key@).slots);
            assert(self@.index =~= before.remove(key@).index);
            assert(self@.marks =~= before.marks);
        }
        true
    }

    /// Gives the node under `to_node_key` a new edge of weight 1 that refers
    /// to the node under `from_node_key`. Both nodes must be there.
    pub fn add_edge(&mut self, to_node_key: &str, from_node_key: &str)
        requires
            old(self).wf(),
            old(self)@.has_key(to_node_key@),
            old(self)@.has_key(from_node_key@),
        ensures
            final(self).wf(),
            final(self)@ == old(self)@.add_edge(to_node_key@, from_node_key@),
    {
        let holder: usize = *self.index.get(to_node_key).expect("Cannot find node to add edge to");
        let target: usize = *self.index.get(from_node_key).expect("Cannot find node to add edge from");
        assert(old(self)@.index.contains_key(to_node_key@) && old(self)@.index[to_node_key@]
            == holder);
        assert(old(self)@.index.contains_key(from_node_key@) && old(self)@.index[from_node_key@]
            == target);
        match &mut self.nodes[holder] {
            Some(node) => {
                node.link(Some(target), 1);
            },
            None => {},
        }
        proof {
            let before = old(self)@;
            assert(self@.slots =~= before.add_edge(to_node_key@, from_node_key@).slots);
            assert(self@.index =~= before.index);
            assert(self@.marks =~= before.marks);
        }
    }

    /// The weight of the first edge of the node under `from_node_key` that
    /// refers to the node whose key is `to_node_key`, or -1 where no edge
    /// does. A node must be stored under `from_node_key`, and the edges up to
    /// the one that is found must resolve.
    pub fn get_edge_weight(&self, to_node_key: &str, from_node_key: &str) -> (weight: i32)
        requires
            self.wf(),
            self@.searchable(to_node_key@, from_node_key@),
        ensures
            weight == self@.edge_weight(to_node_key@, from_node_key@),
    {
        let from_node = self.get(from_node_key).expect("Cannot find node");
        let wanted = to_node_key.to_owned();
        let ghost edges = from_node@.edges;
        let mut i: usize = 0;
        while i < from_node.edges.len()
            invariant
                self.wf(),
                self@.searchable(to_node_key@, from_node_key@),
                self@.lookup(from_node_key@) == Some(from_node@),
                edges == from_node@.edges,
                wanted@ == to_node_key@,
                i <= from_node.edges.len(),
                self@.none_leads_before(edges, to_node_key@, i as int),
            decreases from_node.edges.len() - i,
        {
            let edge = &from_node.edges[i];
            assert(edge@ == edges[i as int]);
            let target = self.resolve(edge).expect("Failed to find edge reference");
            if target.key == wanted {
                proof {
                    assert(self@.leads_to(edges[i as int], to_node_key@));
                    let first = choose|j: int|
                        0 <= j < edges.len() && self@.leads_to(#[trigger] edges[j], to_node_key@)
                            && self@.none_leads_before(edges, to_node_key@, j);
                    assert(first == i);
                }
                return edge.weight();
            }
            i += 1;
        }
        -1
    }

    /// The node that `edge` refers to, if it is still there.
    fn resolve(&self, edge: &Edge) -> (found: Option<&Node<T>>)
        ensures
            match found {
                Some(node) => self@.resolves(edge@) && node@ == self@.node(edge@.target->0),
                None => !self@.resolves(edge@),
            },
    {
        match edge.target() {
            Some(slot) => {
                if slot < self.nodes.len() {
                    self.nodes[slot].as_ref()
                } else {
                    None
                }
            },
            None => None,
        }
    }

    /// Walks depth first from `node`, handing each node to `visitor` the
    /// first time its key is met and writing that key into `validated`. A
    /// node whose key is in `validated` already is passed over, with all that
    /// lies behind it.
    ///
    /// Every edge of every node visited must resolve.
    pub fn traverse<V: Visitor<T>>(
        &self,
        node: &Node<T>,
        validated: &mut StringHashSet,
        visitor: &mut V,
    )
        requires
            self.wf(),
            old(visitor).wf(),
            self@.walk_ok(node@, old(validated)@),
        ensures
            final(visitor).wf(),
            final(visitor).seen() == old(visitor).seen() + self@.walk(node@, old(validated)@),
            final(validated)@ == old(validated)@.union(
                keys_of(self@.walk(node@, old(validated)@)),
            ),
        decreases
                self@.unvisited(old(validated)@).len(),
                if self@.has_key(node@.key) {
                    0int
                } else {
                    1int
                },
    {
        let ghost visited0 = validated@;
        let ghost seen0 = visitor.seen();
        if validated.contains(node.key.as_str()) {
            assert(keys_of(Seq::<NodeView<T>>::empty()) =~= Set::empty());
            assert(validated@ =~= visited0.union(Set::empty()));
            assert(visitor.seen() =~= seen0 + Seq::empty());
            return;
        }
        validated.insert(node.key.clone());
        visitor.visit(node);
        let ghost base = visited0.insert(node@.key);
        let ghost total = self@.walk_edges(node@.edges, 0, base);
        let ghost mut done: Seq<NodeView<T>> = Seq::empty();
        proof {
            assert(self@.walk(node@, visited0) == seq![node@] + total);
            assert(self@.walk(node@, visited0)[0] == node@);
            assert forall|j: int| 0 <= j < total.len() implies self@.sound(#[trigger] total[j]) by {
                assert(self@.walk(node@, visited0)[j + 1] == total[j]);
            }
            assert(keys_of(done) =~= Set::empty());
            assert(validated@ =~= base.union(keys_of(done)));
            assert(visitor.seen() =~= seen0.push(node@) + done);
            assert(total =~= done + self@.walk_edges(node@.edges, 0, validated@));
            if self@.has_key(node@.key) {
                self@.lemma_unvisited_drops(visited0, self@.index[node@.key]);
            } else {
                self@.lemma_unvisited_shrinks(visited0, base);
            }
        }
        let mut i: usize = 0;
        while i < node.edges.len()
            invariant
                self.wf(),
                visitor.wf(),
                i <= node.edges.len(),
                base == visited0.insert(node@.key),
                total == self@.walk_edges(node@.edges, 0, base),
                total == done + self@.walk_edges(node@.edges, i as int, validated@),
                validated@ == base.union(keys_of(done)),
                visitor.seen() == seen0.push(node@) + done,
                self@.sound(node@),
                forall|j: int| 0 <= j < total.len() ==> self@.sound(#[trigger] total[j]),
                self@.has_key(node@.key) ==> self@.unvisited(base).len() < self@.unvisited(
                    visited0,
                ).len(),
                self@.unvisited(base).len() <= self@.unvisited(visited0).len(),
                visited0 == old(validated)@,
            decreases node.edges.len() - i,
        {
            let ghost before = validated@;
            let ghost first = self@.walk_edge(node@.edges[i as int], before);
            proof {
                assert(self@.resolves(node@.edges[i as int]));
                self@.lemma_walk_edge(node@.edges[i as int], before);
                self@.lemma_walk_edges_step(node@.edges, i as int, before);
                assert forall|j: int| 0 <= j < first.len() implies self@.sound(
                    #[trigger] first[j],
                ) by {
                    assert(total[done.len() + j] == first[j]);
                }
                self@.lemma_unvisited_shrinks(base, before);
            }
            let target = self.resolve(&node.edges[i]).expect("Failed to find edge reference");
            self.traverse(target, validated, visitor);
            proof {
                lemma_keys_of_concat(done, first);
                assert(validated@ =~= base.union(keys_of(done + first)));
                assert(visitor.seen() =~= seen0.push(node@) + (done + first));
                assert(total =~= (done + first) + self@.walk_edges(
                    node@.edges,
                    i as int + 1,
                    validated@,
                ));
                done = done + first;
            }
            i += 1;
        }
        proof {
            assert(total =~= done);
            lemma_keys_of_concat(seq![node@], total);
            assert(keys_of(seq![node@]) =~= set![node@.key]) by {
                assert(seq![node@][0].key == node@.key);
            }
            assert(validated@ =~= visited0.union(keys_of(self@.walk(node@, visited0))));
            assert(visitor.seen() =~= seen0 + self@.walk(node@, visited0));
        }
    }

    /// Serves every marked key in turn: where a node is stored under the key,
    /// walks from it as `traverse` does, with nothing visited at the start of
    /// each walk; marks whose node has gone are passed over. Then drops all
    /// marks.
    ///
    /// Every edge of every node visited must resolve.
    pub fn dispatch<V: Visitor<T>>(&mut self, visitor: &mut V)
        requires
            old(self).wf(),
            old(visitor).wf(),
            old(self)@.sweep_ok(),
        ensures
            final(self).wf(),
            final(self)@ == old(self)@.swept(),
            final(visitor).wf(),
            final(visitor).seen() == old(visitor).seen() + old(self)@.sweep(0),
    {
        let ghost graph = self@;
        let ghost seen0 = visitor.seen();
        let ghost mut done: Seq<NodeView<T>> = Seq::empty();
        assert(visitor.seen() =~= seen0 + done);
        assert(graph.sweep(0) =~= done + graph.sweep(0));
        let mut i: usize = 0;
        while i < self.invalidated.len()
            invariant
                self.wf(),
                self@ == graph,
                graph.sweep_ok(),
                visitor.wf(),
                i <= self.invalidated.len(),
                self.invalidated.len() == graph.marks.len(),
                visitor.seen() == seen0 + done,
                graph.sweep(0) == done + graph.sweep(i as int),
            decreases self.invalidated.len() - i,
        {
            let ghost walked = graph.walk_from_key(graph.marks[i as int]);
            proof {
                assert(graph.sweep(i as int) == walked + graph.sweep(i as int + 1));
                assert(self.invalidated[i as int]@ == graph.marks[i as int]);
            }
            match self.get(self.invalidated[i].as_str()) {
                Some(found) => {
                    let mut validated = StringHashSet::new();
                    proof {
                        assert forall|j: int| 0 <= j < walked.len() implies graph.sound(
                            #[trigger] walked[j],
                        ) by {
                            assert(graph.sweep(0)[done.len() + j] == walked[j]);
                        }
                    }
                    self.traverse(found, &mut validated, visitor);
                },
                None => {},
            }
            proof {
                assert(visitor.seen() =~= seen0 + (done + walked));
                assert(graph.sweep(0) =~= (done + walked) + graph.sweep(i as int + 1));
                done = done + walked;
            }
            i += 1;
        }
        self.invalidated.clear();
        self.marked.clear();
        proof {
            assert(graph.sweep(0) =~= done);
            assert(self@.marks =~= Seq::empty());
            assert(self@.marks.to_set() =~= Set::empty());
        }
    }

    /// Whether `get_edge_weight` may be called with these keys: a node is
    /// stored under `from_node_key`, and its edges resolve up to the first
    /// that refers to the node whose key is `to_node_key`.
    pub fn can_get_edge_weight(&self, to_node_key: &str, from_node_key: &str) -> (ok: bool)
        requires
            self.wf(),
        ensures
            ok == self@.searchable(to_node_key@, from_node_key@),
    {
        let from_node = match self.get(from_node_key) {
            Some(node) => node,
            None => {
                return false;
            },
        };
        let wanted = to_node_key.to_owned();
        let ghost edges = from_node@.edges;
        let mut i: usize = 0;
        while i < from_node.edges.len()
            invariant
                self.wf(),
                self@.lookup(from_node_key@) == Some(from_node@),
                edges == from_node@.edges,
                wanted@ == to_node_key@,
                i <= from_node.edges.len(),
                self@.none_leads_before(edges, to_node_key@, i as int),
                forall|j: int| 0 <= j < i ==> self@.resolves(#[trigger] edges[j]),
            decreases from_node.edges.len() - i,
        {
            let edge = &from_node.edges[i];
            assert(edge@ == edges[i as int]);
            match self.resolve(edge) {
                Some(target) => {
                    if target.key == wanted {
                        assert(self@.leads_to(edges[i as int], to_node_key@));
                        assert forall|k: int|
                            0 <= k < edges.len() && self@.none_leads_before(
                                edges,
                                to_node_key@,
                                k,
                            ) implies self@.resolves(#[trigger] edges[k]) by {
                            if k > i {
                                assert(!self@.leads_to(edges[i as int], to_node_key@));
                            }
                        }
                        return true;
                    }
                },
                None => {
                    return false;
                },
            }
            i += 1;
        }
        true
    }

    /// Whether `traverse` may be called with this node and these visited
    /// keys: the walk meets no edge that fails to resolve.
    pub fn can_traverse(&self, node: &Node<T>, validated: &StringHashSet) -> (ok: bool)
        requires
            self.wf(),
        ensures
            ok == self@.walk_ok(node@, validated@),
    {
        let mut fresh = StringHashSet::new();
        assert(validated@.union(fresh@) =~= validated@);
        self.probe(node, validated, &mut fresh)
    }

    /// Whether `dispatch` may be called: no walk it would make meets an edge
    /// that fails to resolve.
    pub fn can_dispatch(&self) -> (ok: bool)
        requires
            self.wf(),
        ensures
            ok == self@.sweep_ok(),
    {
        let ghost graph = self@;
        let ghost mut done: Seq<NodeView<T>> = Seq::empty();
        assert(graph.sweep(0) =~= done + graph.sweep(0));
        let nothing = StringHashSet::new();
        let mut i: usize = 0;
        while i < self.invalidated.len()
            invariant
                self.wf(),
                self@ == graph,
                nothing@ == Set::<Seq<char>>::empty(),
                i <= self.invalidated.len(),
                self.invalidated.len() == graph.marks.len(),
                graph.sweep(0) == done + graph.sweep(i as int),
                forall|j: int| 0 <= j < done.len() ==> graph.sound(#[trigger] done[j]),
            decreases self.invalidated.len() - i,
        {
            let ghost walked = graph.walk_from_key(graph.marks[i as int]);
            proof {
                assert(graph.sweep(i as int) == walked + graph.sweep(i as int + 1));
                assert(self.invalidated[i as int]@ == graph.marks[i as int]);
            }
            match self.get(self.invalidated[i].as_str()) {
                Some(found) => {
                    let mut fresh = StringHashSet::new();
                    assert(nothing@.union(fresh@) =~= Set::empty());
                    if !self.probe(found, &nothing, &mut fresh) {
                        proof {
                            let j = choose|j: int|
                                0 <= j < walked.len() && !graph.sound(#[trigger] walked[j]);
                            assert(graph.sweep(0)[done.len() + j] == walked[j]);
                        }
                        return false;
                    }
                },
                None => {},
            }
            proof {
                assert(graph.sweep(0) =~= (done + walked) + graph.sweep(i as int + 1));
                assert forall|j: int| 0 <= j < (done + walked).len() implies graph.sound(
                    #[trigger] (done + walked)[j],
                ) by {
                    if j >= done.len() {
                        assert((done + walked)[j] == walked[j - done.len()]);
                    }
                }
                done = done + walked;
            }
            i += 1;
        }
        proof {
            assert(graph.sweep(0) =~= done);
        }
        true
    }

    /// Walks as `traverse` does, handing the nodes to nobody, to find out
    /// whether the walk meets an edge that fails to resolve. The keys visited
    /// before are those of `base` and of `extra`; the keys of the walk go to
    /// `extra`.
    fn probe(&self, node: &Node<T>, base: &StringHashSet, extra: &mut StringHashSet) -> (ok: bool)
        requires
            self.wf(),
        ensures
            ok == self@.walk_ok(node@, base@.union(old(extra)@)),
            ok ==> base@.union(final(extra)@) == base@.union(old(extra)@).union(
                keys_of(self@.walk(node@, base@.union(old(extra)@))),
            ),
        decreases
                self@.unvisited(base@.union(old(extra)@)).len(),
                if self@.has_key(node@.key) {
                    0int
                } else {
                    1int
                },
    {
        let ghost visited0 = base@.union(extra@);
        if base.contains(node.key.as_str()) || extra.contains(node.key.as_str()) {
            assert(keys_of(Seq::<NodeView<T>>::empty()) =~= Set::empty());
            assert(base@.union(extra@) =~= visited0.union(Set::empty()));
            return true;
        }
        extra.insert(node.key.clone());
        let ghost start = visited0.insert(node@.key);
        let ghost total = self@.walk_edges(node@.edges, 0, start);
        let ghost mut done: Seq<NodeView<T>> = Seq::empty();
        proof {
            assert(self@.walk(node@, visited0) == seq![node@] + total);
            assert(self@.walk(node@, visited0)[0] == node@);
            assert(keys_of(done) =~= Set::empty());
            assert(base@.union(extra@) =~= start);
            assert(base@.union(extra@) =~= start.union(keys_of(done)));
            assert(total =~= done + self@.walk_edges(node@.edges, 0, base@.union(extra@)));
            if self@.has_key(node@.key) {
                self@.lemma_unvisited_drops(visited0, self@.index[node@.key]);
            } else {
                self@.lemma_unvisited_shrinks(visited0, start);
            }
        }
        let mut i: usize = 0;
        while i < node.edges.len()
            invariant
                self.wf(),
                i <= node.edges.len(),
                visited0 == base@.union(old(extra)@),
                start == visited0.insert(node@.key),
                total == self@.walk_edges(node@.edges, 0, start),
                total == done + self@.walk_edges(node@.edges, i as int, base@.union(extra@)),
                base@.union(extra@) == start.union(keys_of(done)),
                self@.walk(node@, visited0) == seq![node@] + total,
                forall|j: int| 0 <= j < i ==> self@.resolves(#[trigger] node@.edges[j]),
                forall|j: int| 0 <= j < done.len() ==> self@.sound(#[trigger] done[j]),
                self@.has_key(node@.key) ==> self@.unvisited(start).len() < self@.unvisited(
                    visited0,
                ).len(),
                self@.unvisited(start).len() <= self@.unvisited(visited0).len(),
            decreases node.edges.len() - i,
        {
            let ghost before = base@.union(extra@);
            let ghost first = self@.walk_edge(node@.edges[i as int], before);
            let target = match self.resolve(&node.edges[i]) {
                Some(target) => target,
                None => {
                    assert(!self@.sound(node@));
                    assert(self@.walk(node@, visited0)[0] == node@);
                    return false;
                },
            };
            proof {
                self@.lemma_walk_edge(node@.edges[i as int], before);
                self@.lemma_walk_edges_step(node@.edges, i as int, before);
                self@.lemma_unvisited_shrinks(start, before);
            }
            if !self.probe(target, base, extra) {
                proof {
                    let j = choose|j: int| 0 <= j < first.len() && !self@.sound(#[trigger] first[j]);
                    assert(total[done.len() + j] == first[j]);
                    assert(self@.walk(node@, visited0)[1 + done.len() + j] == first[j]);
                }
                return false;
            }
            proof {
                lemma_keys_of_concat(done, first);
                assert(base@.union(extra@) =~= start.union(keys_of(done + first)));
                assert(total =~= (done + first) + self@.walk_edges(
                    node@.edges,
                    i as int + 1,
                    base@.union(extra@),
                ));
                assert forall|j: int| 0 <= j < (done + first).len() implies self@.sound(
                    #[trigger] (done + first)[j],
                ) by {
                    if j >= done.len() {
                        assert((done + first)[j] == first[j - done.len()]);
                    }
                }
                done = done + first;
            }
            i += 1;
        }
        proof {
            assert(total =~= done);
            lemma_keys_of_concat(seq![node@], total);
            assert(keys_of(seq![node@]) =~= set![node@.key]) by {
                assert(seq![node@][0].key == node@.key);
            }
            assert(base@.union(extra@) =~= visited0.union(keys_of(self@.walk(node@, visited0))));
            assert(self@.sound(node@));
            assert forall|j: int| 0 <= j < self@.walk(node@, visited0).len() implies self@.sound(
                #[trigger] self@.walk(node@, visited0)[j],
            ) by {
                if j > 0 {
                    assert(self@.walk(node@, visited0)[j] == total[j - 1]);
                }
            }
        }
        true
    }
}

} // verus!
