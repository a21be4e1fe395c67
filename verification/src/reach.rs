//! Paths through a graph, and the proof that a walk visits, once each, the
//! nodes that a path leads to.
use crate::model::{keys_of, lemma_keys_of_concat, EdgeView, Graph, NodeView};
use vstd::prelude::*;

verus! {

impl<T> Graph<T> {
    /// `node` is the node that lives in the slot it names.
    pub open spec fn holds(self, node: NodeView<T>) -> bool {
        node.slot matches Some(t) && self.live(t) && self.node(t) == node
    }

    /// Slots `a` and `b` are live and an edge of the node in `a` refers to `b`.
    pub open spec fn step(self, a: int, b: int) -> bool {
        &&& self.live(a)
        &&& self.live(b)
        &&& exists|i: int|
            0 <= i < self.node(a).edges.len() && (#[trigger] self.node(a).edges[i]).target == Some(
                b,
            )
    }

    /// There is a step from the `k`-th slot of `path` to the next.
    pub open spec fn step_at(self, path: Seq<int>, k: int) -> bool {
        self.step(path[k], path[k + 1])
    }

    /// `path` is a run of live slots, each one step from the one before.
    pub open spec fn is_path(self, path: Seq<int>) -> bool {
        &&& path.len() > 0
        &&& self.live(path[0])
        &&& forall|k: int| 0 <= k < path.len() - 1 ==> #[trigger] self.step_at(path, k)
    }

    /// No node on `path` has its key in `visited`.
    pub open spec fn avoids(self, path: Seq<int>, visited: Set<Seq<char>>) -> bool {
        forall|k: int| 0 <= k < path.len() ==> !visited.contains(self.node(#[trigger] path[k]).key)
    }

    /// `path` leads from `from` to `to` and passes no key of `visited`.
    pub open spec fn leads(self, path: Seq<int>, from: int, to: int, visited: Set<Seq<char>>) -> bool {
        &&& self.is_path(path)
        &&& self.avoids(path, visited)
        &&& path[0] == from
        &&& path.last() == to
    }

    /// Slot `to` can be reached from slot `from` along edges, through nodes
    /// whose keys are not in `visited`.
    pub open spec fn reaches(self, from: int, to: int, visited: Set<Seq<char>>) -> bool {
        exists|path: Seq<int>| #[trigger] self.leads(path, from, to, visited)
    }

    /// The nodes of `trace` are nodes of this graph, no two have the same
    /// key, and none has a key in `visited`.
    pub open spec fn tidy(self, trace: Seq<NodeView<T>>, visited: Set<Seq<char>>) -> bool {
        &&& forall|j: int|
            0 <= j < trace.len() ==> self.holds(#[trigger] trace[j]) && !visited.contains(
                trace[j].key,
            )
        &&& forall|i: int, j: int|
            0 <= i < j < trace.len() ==> (#[trigger] trace[i]).key != (#[trigger] trace[j]).key
    }

    /// Every edge among `edges[from..]` that resolves leads to a node whose
    /// key is in `keys`.
    pub open spec fn covered(self, edges: Seq<EdgeView>, from: int, keys: Set<Seq<char>>) -> bool {
        forall|i: int|
            from <= i < edges.len() && self.resolves(#[trigger] edges[i]) ==> keys.contains(
                self.node(edges[i].target->0).key,
            )
    }

    /// Every edge of a node of `trace` that resolves leads to a node whose
    /// key is in `keys`.
    pub open spec fn closed(self, trace: Seq<NodeView<T>>, keys: Set<Seq<char>>) -> bool {
        forall|j: int| 0 <= j < trace.len() ==> self.covered((#[trigger] trace[j]).edges, 0, keys)
    }

    /// Slot `to` can be reached from the target of one of `edges[from..]`.
    pub open spec fn reaches_from_edges(
        self,
        edges: Seq<EdgeView>,
        from: int,
        to: int,
        visited: Set<Seq<char>>,
    ) -> bool {
        exists|i: int|
            from <= i < edges.len() && self.resolves(#[trigger] edges[i]) && self.reaches(
                edges[i].target->0,
                to,
                visited,
            )
    }

    /// Every node of `trace` can be reached from the target of one of
    /// `edges[from..]`.
    pub open spec fn all_reached_from_edges(
        self,
        trace: Seq<NodeView<T>>,
        edges: Seq<EdgeView>,
        from: int,
        visited: Set<Seq<char>>,
    ) -> bool {
        forall|j: int|
            0 <= j < trace.len() ==> self.reaches_from_edges(
                edges,
                from,
                (#[trigger] trace[j]).slot->0,
                visited,
            )
    }

    /// Every node of `trace` can be reached from slot `from`.
    pub open spec fn all_reached(
        self,
        trace: Seq<NodeView<T>>,
        from: int,
        visited: Set<Seq<char>>,
    ) -> bool {
        forall|j: int|
            0 <= j < trace.len() ==> self.reaches(from, (#[trigger] trace[j]).slot->0, visited)
    }

    /// No edge of any node of the graph dangles.
    pub open spec fn intact(self) -> bool {
        forall|i: int|
            0 <= i < self.slots.len() && (#[trigger] self.slots[i]) is Some ==> self.sound(
                self.node(i),
            )
    }

    // ------------------------------------------------------------------
    // Paths
    // ------------------------------------------------------------------
    /// A live slot whose key is not visited reaches itself.
    pub proof fn lemma_reaches_itself(self, slot: int, visited: Set<Seq<char>>)
        requires
            self.live(slot),
            !visited.contains(self.node(slot).key),
        ensures
            self.reaches(slot, slot, visited),
    {
        let path = seq![slot];
        assert(self.leads(path, slot, slot, visited));
    }

    /// A path can be entered one step earlier.
    pub proof fn lemma_reaches_after_step(self, from: int, next: int, to: int, visited: Set<Seq<char>>)
        requires
            self.step(from, next),
            !visited.contains(self.node(from).key),
            self.reaches(next, to, visited),
        ensures
            self.reaches(from, to, visited),
    {
        let tail = choose|path: Seq<int>| #[trigger] self.leads(path, next, to, visited);
        let path = seq![from] + tail;
        assert forall|k: int| 0 <= k < path.len() - 1 implies #[trigger] self.step_at(path, k) by {
            if k == 0 {
                assert(path[1] == tail[0]);
            } else {
                assert(self.step_at(tail, k - 1));
                assert(path[k] == tail[k - 1]);
                assert(path[k + 1] == tail[k]);
            }
        }
        assert forall|k: int| 0 <= k < path.len() implies !visited.contains(
            self.node(#[trigger] path[k]).key,
        ) by {
            if k > 0 {
                assert(path[k] == tail[k - 1]);
            }
        }
        assert(path.last() == tail.last());
        assert(self.leads(path, from, to, visited));
    }

    /// A path that passes no key of a set passes no key of a smaller one.
    pub proof fn lemma_reaches_with_fewer_visited(
        self,
        from: int,
        to: int,
        more: Set<Seq<char>>,
        fewer: Set<Seq<char>>,
    )
        requires
            fewer.subset_of(more),
            self.reaches(from, to, more),
        ensures
            self.reaches(from, to, fewer),
    {
        let path = choose|path: Seq<int>| #[trigger] self.leads(path, from, to, more);
        assert(self.leads(path, from, to, fewer));
    }

    // ------------------------------------------------------------------
    // What a walk visits
    // ------------------------------------------------------------------
    /// Of a walk along `edges[from..]`: it visits nodes of the graph, none
    /// whose key was visited before and no key twice; every edge of a node it
    /// visits, and every edge it walks along, leads, if it resolves, to a key
    /// visited before or by the walk; and every node it visits can be reached
    /// from the target of one of the edges. By induction on the walk.
    pub proof fn lemma_walk_edges_facts(
        self,
        edges: Seq<EdgeView>,
        from: int,
        visited: Set<Seq<char>>,
    )
        requires
            self.wf(),
            0 <= from,
        ensures
            self.tidy(self.walk_edges(edges, from, visited), visited),
            self.closed(
                self.walk_edges(edges, from, visited),
                visited.union(keys_of(self.walk_edges(edges, from, visited))),
            ),
            self.covered(
                edges,
                from,
                visited.union(keys_of(self.walk_edges(edges, from, visited))),
            ),
            self.all_reached_from_edges(
                self.walk_edges(edges, from, visited),
                edges,
                from,
                visited,
            ),
        decreases self.unvisited(visited).len(), edges.len() - from + 1,
    {
        let trace = self.walk_edges(edges, from, visited);
        if from < edges.len() {
            let first = self.walk_edge(edges[from], visited);
            let later = visited.union(keys_of(first));
            let rest = self.walk_edges(edges, from + 1, later);
            let all = visited.union(keys_of(trace));
            assert(trace == first + rest);
            self.lemma_unvisited_shrinks(visited, later);
            self.lemma_walk_edge_facts(edges[from], visited);
            self.lemma_walk_edges_facts(edges, from + 1, later);
            lemma_keys_of_concat(first, rest);
            assert(all =~= later.union(keys_of(rest)));
            // tidy
            assert forall|j: int| 0 <= j < trace.len() implies self.holds(#[trigger] trace[j])
                && !visited.contains(trace[j].key) by {
                if j < first.len() {
                    assert(trace[j] == first[j]);
                } else {
                    assert(trace[j] == rest[j - first.len()]);
                }
            }
            assert forall|i: int, j: int| 0 <= i < j < trace.len() implies (#[trigger] trace[i]).key
                != (#[trigger] trace[j]).key by {
                if j < first.len() {
                    assert(trace[i] == first[i] && trace[j] == first[j]);
                } else if i >= first.len() {
                    assert(trace[i] == rest[i - first.len()]);
                    assert(trace[j] == rest[j - first.len()]);
                } else {
                    assert(trace[i] == first[i]);
                    assert(trace[j] == rest[j - first.len()]);
                    assert(keys_of(first).contains(first[i].key));
                    assert(!later.contains(rest[j - first.len()].key));
                }
            }
            // closed
            assert forall|j: int| 0 <= j < trace.len() implies self.covered(
                (#[trigger] trace[j]).edges,
                0,
                all,
            ) by {
                if j < first.len() {
                    assert(trace[j] == first[j]);
                    assert(self.covered(first[j].edges, 0, later));
                } else {
                    assert(trace[j] == rest[j - first.len()]);
                    assert(self.covered(rest[j - first.len()].edges, 0, all));
                }
            }
            // covered
            assert forall|i: int|
                from <= i < edges.len() && self.resolves(#[trigger] edges[i]) implies all.contains(
                self.node(edges[i].target->0).key,
            ) by {
                if i == from {
                    assert(later.contains(self.node(edges[i].target->0).key));
                }
            }
            // reached
            assert forall|j: int| 0 <= j < trace.len() implies self.reaches_from_edges(
                edges,
                from,
                (#[trigger] trace[j]).slot->0,
                visited,
            ) by {
                if j < first.len() {
                    assert(trace[j] == first[j]);
                    assert(self.resolves(edges[from]));
                    assert(self.reaches(edges[from].target->0, first[j].slot->0, visited));
                } else {
                    let x = rest[j - first.len()];
                    assert(trace[j] == x);
                    assert(self.reaches_from_edges(edges, from + 1, x.slot->0, later));
                    let i = choose|i: int|
                        from + 1 <= i < edges.len() && self.resolves(#[trigger] edges[i])
                            && self.reaches(edges[i].target->0, x.slot->0, later);
                    self.lemma_reaches_with_fewer_visited(
                        edges[i].target->0,
                        x.slot->0,
                        later,
                        visited,
                    );
                }
            }
        } else {
            assert(keys_of(trace) =~= Set::empty());
        }
    }

    /// The same of a walk along one edge.
    pub proof fn lemma_walk_edge_facts(self, edge: EdgeView, visited: Set<Seq<char>>)
        requires
            self.wf(),
        ensures
            self.tidy(self.walk_edge(edge, visited), visited),
            self.closed(
                self.walk_edge(edge, visited),
                visited.union(keys_of(self.walk_edge(edge, visited))),
            ),
            self.resolves(edge) ==> visited.union(keys_of(self.walk_edge(edge, visited))).contains(
                self.node(edge.target->0).key,
            ),
            self.resolves(edge) ==> self.all_reached(
                self.walk_edge(edge, visited),
                edge.target->0,
                visited,
            ),
            !self.resolves(edge) ==> self.walk_edge(edge, visited).len() == 0,
        decreases self.unvisited(visited).len(), 0int,
    {
        let trace = self.walk_edge(edge, visited);
        if self.resolves(edge) && !visited.contains(self.node(edge.target->0).key) {
            let t = edge.target->0;
            let root = self.node(t);
            let inside = visited.insert(root.key);
            let rest = self.walk_edges(root.edges, 0, inside);
            let all = visited.union(keys_of(trace));
            assert(trace == seq![root] + rest);
            self.lemma_unvisited_drops(visited, t);
            self.lemma_walk_edges_facts(root.edges, 0, inside);
            lemma_keys_of_concat(seq![root], rest);
            assert(keys_of(seq![root]) =~= set![root.key]) by {
                assert(seq![root][0].key == root.key);
            }
            assert(all =~= inside.union(keys_of(rest)));
            assert(self.slots[t] is Some);
            assert(self.holds(root));
            // tidy
            assert forall|j: int| 0 <= j < trace.len() implies self.holds(#[trigger] trace[j])
                && !visited.contains(trace[j].key) by {
                if j > 0 {
                    assert(trace[j] == rest[j - 1]);
                }
            }
            assert forall|i: int, j: int| 0 <= i < j < trace.len() implies (#[trigger] trace[i]).key
                != (#[trigger] trace[j]).key by {
                assert(trace[j] == rest[j - 1]);
                if i > 0 {
                    assert(trace[i] == rest[i - 1]);
                } else {
                    assert(!inside.contains(rest[j - 1].key));
                }
            }
            // closed
            assert forall|j: int| 0 <= j < trace.len() implies self.covered(
                (#[trigger] trace[j]).edges,
                0,
                all,
            ) by {
                if j > 0 {
                    assert(trace[j] == rest[j - 1]);
                    assert(self.covered(rest[j - 1].edges, 0, all));
                }
            }
            assert(all.contains(root.key));
            // reached
            assert forall|j: int| 0 <= j < trace.len() implies self.reaches(
                t,
                (#[trigger] trace[j]).slot->0,
                visited,
            ) by {
                if j == 0 {
                    self.lemma_reaches_itself(t, visited);
                } else {
                    let x = rest[j - 1];
                    assert(trace[j] == x);
                    assert(self.holds(x));
                    assert(self.reaches_from_edges(root.edges, 0, x.slot->0, inside));
                    let i = choose|i: int|
                        0 <= i < root.edges.len() && self.resolves(#[trigger] root.edges[i])
                            && self.reaches(root.edges[i].target->0, x.slot->0, inside);
                    let next = root.edges[i].target->0;
                    self.lemma_reaches_with_fewer_visited(next, x.slot->0, inside, visited);
                    assert(self.step(t, next));
                    self.lemma_reaches_after_step(t, next, x.slot->0, visited);
                }
            }
        } else {
            assert(trace.len() == 0);
            assert(keys_of(trace) =~= Set::empty());
        }
    }

    /// Where the edges of the nodes of `trace` lead nowhere but to keys of
    /// `visited` and of `trace` itself, a path that starts in `trace` and
    /// passes no key of `visited` ends in `trace`.
    pub proof fn lemma_paths_stay_inside(
        self,
        trace: Seq<NodeView<T>>,
        visited: Set<Seq<char>>,
        path: Seq<int>,
    )
        requires
            self.wf(),
            self.tidy(trace, visited),
            self.closed(trace, visited.union(keys_of(trace))),
            self.is_path(path),
            self.avoids(path, visited),
            trace.contains(self.node(path[0])),
        ensures
            trace.contains(self.node(path.last())),
        decreases path.len(),
    {
        if path.len() > 1 {
            let shorter = path.drop_last();
            let a = shorter.last();
            let b = path.last();
            assert forall|k: int| 0 <= k < shorter.len() - 1 implies #[trigger] self.step_at(
                shorter,
                k,
            ) by {
                assert(self.step_at(path, k));
            }
            assert forall|k: int| 0 <= k < shorter.len() implies !visited.contains(
                self.node(#[trigger] shorter[k]).key,
            ) by {
                assert(shorter[k] == path[k]);
            }
            self.lemma_paths_stay_inside(trace, visited, shorter);
            assert(self.step_at(path, path.len() - 2));
            assert(a == path[path.len() - 2]);
            assert(self.step(a, b));
            let j = choose|j: int| 0 <= j < trace.len() && trace[j] == self.node(a);
            let e = choose|e: int|
                0 <= e < self.node(a).edges.len() && (#[trigger] self.node(a).edges[e]).target
                    == Some(b);
            assert(self.covered(trace[j].edges, 0, visited.union(keys_of(trace))));
            assert(self.resolves(trace[j].edges[e]));
            assert(!visited.contains(self.node(path[path.len() - 1]).key));
            assert(keys_of(trace).contains(self.node(b).key));
            let h = choose|h: int| 0 <= h < trace.len() && (#[trigger] trace[h]).key == self.node(
                b,
            ).key;
            assert(self.holds(trace[h]));
            assert(self.slots[b] is Some);
            assert(self.slots[trace[h].slot->0] is Some);
            assert(trace[h] == self.node(b));
        }
    }
}

} // verus!
