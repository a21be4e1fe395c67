//! What holds of every graph: how the operations answer one another, and
//! what a walk and a dispatch visit.
use crate::model::{EdgeView, Graph, NodeView};
use vstd::prelude::*;

verus! {

/// An empty graph stores no node under any key.
pub proof fn law_empty_has_no_key<T>(key: Seq<char>)
    ensures
        Graph::<T>::empty().wf(),
        Graph::<T>::empty().lookup(key) is None,
{
}

/// A key under which nothing is stored stays so until a node is added under
/// that very key: adding under another key, updating, removing, linking and
/// sweeping store nothing under it.
pub proof fn law_absent_until_added<T>(
    graph: Graph<T>,
    key: Seq<char>,
    other: Seq<char>,
    third: Seq<char>,
    data: T,
)
    requires
        graph.wf(),
        graph.lookup(key) is None,
        other != key,
    ensures
        graph.add(other, data).lookup(key) is None,
        graph.update(third, data).lookup(key) is None,
        graph.remove(third).lookup(key) is None,
        graph.has_key(other) && graph.has_key(third) ==> graph.add_edge(other, third).lookup(key)
            is None,
        graph.swept().lookup(key) is None,
{
}

/// Every operation leaves a well-formed graph well formed.
pub proof fn law_operations_keep_wf<T>(graph: Graph<T>, key: Seq<char>, other: Seq<char>, data: T)
    requires
        graph.wf(),
    ensures
        graph.add(key, data).wf(),
        graph.update(key, data).wf(),
        graph.remove(key).wf(),
        graph.has_key(key) && graph.has_key(other) ==> graph.add_edge(key, other).wf(),
        graph.swept().wf(),
{
    lemma_add_keeps_wf(graph, key, data);
    lemma_update_keeps_wf(graph, key, data);
    lemma_remove_keeps_wf(graph, key);
    if graph.has_key(key) && graph.has_key(other) {
        lemma_add_edge_keeps_wf(graph, key, other);
    }
}

/// A removal keeps the graph well formed and the arena as long as it was.
proof fn lemma_remove_keeps_wf<T>(graph: Graph<T>, key: Seq<char>)
    requires
        graph.wf(),
    ensures
        graph.remove(key).wf(),
        graph.remove(key).slots.len() == graph.slots.len(),
{
    let after = graph.remove(key);
    if graph.has_key(key) {
        let gone = graph.index[key];
        assert forall|k: Seq<char>| #[trigger] after.index.contains_key(k) implies after.live(
            after.index[k],
        ) && after.node(after.index[k]).key == k by {
            assert(graph.index.contains_key(k));
            assert(graph.index[k] != gone);
        }
        assert forall|i: int|
            0 <= i < after.slots.len() && (#[trigger] after.slots[i]) is Some implies after.node(
            i,
        ).slot == Some(i) && after.index.contains_key(after.node(i).key)
            && after.index[after.node(i).key] == i by {
            assert(graph.slots[i] is Some);
        }
    }
}

/// An addition keeps the graph well formed.
proof fn lemma_add_keeps_wf<T>(graph: Graph<T>, key: Seq<char>, data: T)
    requires
        graph.wf(),
    ensures
        graph.add(key, data).wf(),
{
    let cleared = graph.remove(key);
    lemma_remove_keeps_wf(graph, key);
    let after = graph.add(key, data);
    let fresh = graph.slots.len() as int;
    assert(after.index =~= cleared.index.insert(key, fresh));
    assert forall|k: Seq<char>| #[trigger] after.index.contains_key(k) implies after.live(
        after.index[k],
    ) && after.node(after.index[k]).key == k by {
        if k != key {
            assert(cleared.index.contains_key(k));
        }
    }
    assert forall|i: int|
        0 <= i < after.slots.len() && (#[trigger] after.slots[i]) is Some implies after.node(
        i,
    ).slot == Some(i) && after.index.contains_key(after.node(i).key)
        && after.index[after.node(i).key] == i by {
        if i < fresh {
            assert(cleared.slots[i] is Some);
        }
    }
}

/// An update keeps the graph well formed.
proof fn lemma_update_keeps_wf<T>(graph: Graph<T>, key: Seq<char>, data: T)
    requires
        graph.wf(),
    ensures
        graph.update(key, data).wf(),
{
    let after = graph.update(key, data);
    if graph.has_key(key) {
        assert forall|i: int|
            0 <= i < after.slots.len() && (#[trigger] after.slots[i]) is Some implies after.node(
            i,
        ).slot == Some(i) && after.index.contains_key(after.node(i).key)
            && after.index[after.node(i).key] == i by {
            assert(graph.slots[i] is Some);
        }
    }
}

/// A new edge keeps the graph well formed.
proof fn lemma_add_edge_keeps_wf<T>(graph: Graph<T>, to_key: Seq<char>, from_key: Seq<char>)
    requires
        graph.wf(),
        graph.has_key(to_key),
        graph.has_key(from_key),
    ensures
        graph.add_edge(to_key, from_key).wf(),
{
    let after = graph.add_edge(to_key, from_key);
    assert forall|i: int|
        0 <= i < after.slots.len() && (#[trigger] after.slots[i]) is Some implies after.node(
        i,
    ).slot == Some(i) && after.index.contains_key(after.node(i).key)
        && after.index[after.node(i).key] == i by {
        assert(graph.slots[i] is Some);
    }
}

/// After a node has been added under a key, that key leads to a node with
/// the payload that was given, with no edge yet, in a slot no node had before.
pub proof fn law_lookup_after_add<T>(graph: Graph<T>, key: Seq<char>, data: T)
    requires
        graph.wf(),
    ensures
        graph.add(key, data).lookup(key) == Some(
            NodeView {
                key: key,
                data: data,
                edges: Seq::<EdgeView>::empty(),
                slot: Some(graph.slots.len() as int),
            },
        ),
{
}

/// An update replaces the payload and nothing else: under the same key the
/// same slot holds a node with the same edges and the new payload, and the
/// key is marked until the next dispatch.
pub proof fn law_lookup_after_update<T>(graph: Graph<T>, key: Seq<char>, data: T)
    requires
        graph.wf(),
        graph.has_key(key),
    ensures
        graph.update(key, data).lookup(key) == Some(graph.lookup(key)->0.with_data(data)),
        graph.update(key, data).index == graph.index,
        graph.update(key, data).is_marked(key),
{
    let marks = graph.update(key, data).marks;
    if graph.is_marked(key) {
    } else {
        assert(marks[marks.len() - 1] == key);
    }
}

/// Adding a node and then updating it leaves the second payload under the
/// key, in the slot the node was added in, and the key marked.
pub proof fn law_update_after_add<T>(graph: Graph<T>, key: Seq<char>, first: T, second: T)
    requires
        graph.wf(),
    ensures
        graph.add(key, first).update(key, second).lookup(key) == Some(
            NodeView {
                key: key,
                data: second,
                edges: Seq::<EdgeView>::empty(),
                slot: Some(graph.slots.len() as int),
            },
        ),
        graph.add(key, first).update(key, second).is_marked(key),
{
    lemma_add_keeps_wf(graph, key, first);
    law_lookup_after_add(graph, key, first);
    law_lookup_after_update(graph.add(key, first), key, second);
}

/// An update of a key under which nothing is stored changes nothing.
pub proof fn law_update_of_absent_key<T>(graph: Graph<T>, key: Seq<char>, data: T)
    requires
        !graph.has_key(key),
    ensures
        graph.update(key, data) == graph,
{
}

/// After a removal nothing is stored under the key, and a second removal
/// finds nothing to remove.
pub proof fn law_lookup_after_remove<T>(graph: Graph<T>, key: Seq<char>)
    requires
        graph.wf(),
    ensures
        graph.remove(key).lookup(key) is None,
        graph.remove(key).remove(key) == graph.remove(key),
{
}

/// A removal leaves the marks as they are.
pub proof fn law_remove_keeps_marks<T>(graph: Graph<T>, key: Seq<char>)
    ensures
        graph.remove(key).marks == graph.marks,
{
}

/// An edge made by `add_edge` is the last edge of the node under `to_key`,
/// has weight 1 and refers to the node under `from_key`; the node under
/// `from_key` gains no edge unless it is the same node.
pub proof fn law_new_edge<T>(graph: Graph<T>, to_key: Seq<char>, from_key: Seq<char>)
    requires
        graph.wf(),
        graph.has_key(to_key),
        graph.has_key(from_key),
    ensures
        graph.add_edge(to_key, from_key).lookup(to_key)->0.edges == graph.lookup(
            to_key,
        )->0.edges.push(EdgeView { weight: 1, target: Some(graph.index[from_key]) }),
        graph.add_edge(to_key, from_key).leads_to(
            graph.add_edge(to_key, from_key).lookup(to_key)->0.edges.last(),
            from_key,
        ),
        to_key != from_key ==> graph.add_edge(to_key, from_key).lookup(from_key) == graph.lookup(
            from_key,
        ),
{
    let after = graph.add_edge(to_key, from_key);
    assert(graph.live(graph.index[from_key]));
    assert(graph.live(graph.index[to_key]));
}

/// The edge made by `add_edge(to_key, from_key)` lies on the node under
/// `to_key`. So it is found by asking for the weight with the keys in the
/// other order, unless an older edge leads the same way; asked for with the
/// keys in the same order the answer is what it was, because that question
/// looks through the edges of the node under `from_key`, which has gained
/// none.
pub proof fn law_weight_after_add_edge<T>(graph: Graph<T>, to_key: Seq<char>, from_key: Seq<char>)
    requires
        graph.wf(),
        graph.has_key(to_key),
        graph.has_key(from_key),
    ensures
        graph.none_leads_before(
            graph.lookup(to_key)->0.edges,
            from_key,
            graph.lookup(to_key)->0.edges.len() as int,
        ) ==> graph.add_edge(to_key, from_key).edge_weight(from_key, to_key) == 1,
        to_key != from_key ==> graph.add_edge(to_key, from_key).edge_weight(to_key, from_key)
            == graph.edge_weight(to_key, from_key),
{
    let after = graph.add_edge(to_key, from_key);
    let holder = graph.index[to_key];
    let target = graph.index[from_key];
    assert(graph.live(holder));
    assert(graph.live(target));
    let old_edges = graph.node(holder).edges;
    let edges = after.node(holder).edges;
    let last = old_edges.len() as int;
    assert(edges == old_edges.push(EdgeView { weight: 1, target: Some(target) }));
    if graph.none_leads_before(old_edges, from_key, last) {
        assert(after.leads_to(edges[last], from_key));
        assert forall|j: int| 0 <= j < last implies !after.leads_to(#[trigger] edges[j], from_key) by {
            assert(edges[j] == old_edges[j]);
            lemma_add_edge_keeps_leads(graph, to_key, from_key, old_edges[j], from_key);
        }
        lemma_weight_of_first(after, from_key, to_key, last);
    }
    if to_key != from_key {
        let searched = graph.node(target).edges;
        assert(after.node(target) == graph.node(target));
        assert forall|j: int| 0 <= j < searched.len() implies after.leads_to(
            #[trigger] searched[j],
            to_key,
        ) == graph.leads_to(searched[j], to_key) by {
            lemma_add_edge_keeps_leads(graph, to_key, from_key, searched[j], to_key);
        }
        if exists|i: int| 0 <= i < searched.len() && graph.leads_to(#[trigger] searched[i], to_key) {
            let i = choose|i: int|
                0 <= i < searched.len() && graph.leads_to(#[trigger] searched[i], to_key);
            lemma_first_leading_edge(graph, searched, to_key, i);
            let first = choose|first: int|
                0 <= first <= i && graph.leads_to(#[trigger] searched[first], to_key)
                    && graph.none_leads_before(searched, to_key, first);
            lemma_weight_of_first(graph, to_key, from_key, first);
            assert(after.none_leads_before(searched, to_key, first));
            lemma_weight_of_first(after, to_key, from_key, first);
        } else {
            assert(graph.edge_weight(to_key, from_key) == -1);
            assert(after.edge_weight(to_key, from_key) == -1);
        }
    }
}

/// A new edge changes the key of no node, so that every edge leads where it
/// led before.
proof fn lemma_add_edge_keeps_leads<T>(
    graph: Graph<T>,
    to_key: Seq<char>,
    from_key: Seq<char>,
    edge: EdgeView,
    key: Seq<char>,
)
    requires
        graph.wf(),
        graph.has_key(to_key),
        graph.has_key(from_key),
    ensures
        graph.add_edge(to_key, from_key).leads_to(edge, key) == graph.leads_to(edge, key),
{
    assert(graph.live(graph.index[to_key]));
}

/// The weight that is looked up is the weight of the first edge that leads
/// to the key.
proof fn lemma_weight_of_first<T>(graph: Graph<T>, to_key: Seq<char>, from_key: Seq<char>, first: int)
    requires
        0 <= first < graph.node(graph.index[from_key]).edges.len(),
        graph.has_key(from_key),
        graph.leads_to(graph.node(graph.index[from_key]).edges[first], to_key),
        graph.none_leads_before(graph.node(graph.index[from_key]).edges, to_key, first),
    ensures
        graph.edge_weight(to_key, from_key) == graph.node(graph.index[from_key]).edges[first].weight,
{
    let edges = graph.node(graph.index[from_key]).edges;
    let chosen = choose|i: int|
        0 <= i < edges.len() && graph.leads_to(#[trigger] edges[i], to_key)
            && graph.none_leads_before(edges, to_key, i);
    assert(chosen == first);
}

/// Where an edge leads to a key, there is a first edge that does.
proof fn lemma_first_leading_edge<T>(graph: Graph<T>, edges: Seq<EdgeView>, key: Seq<char>, i: int)
    requires
        0 <= i < edges.len(),
        graph.leads_to(edges[i], key),
    ensures
        exists|first: int|
            0 <= first <= i && graph.leads_to(#[trigger] edges[first], key)
                && graph.none_leads_before(edges, key, first),
    decreases i,
{
    if graph.none_leads_before(edges, key, i) {
    } else {
        let j = choose|j: int| 0 <= j < i && graph.leads_to(#[trigger] edges[j], key);
        lemma_first_leading_edge(graph, edges, key, j);
    }
}

/// A slot keeps its node, and a node its edges. After any operation, a slot
/// of the old arena holds nothing or the node it held, with the same key and
/// with the edges it had, in their order; only `add_edge` gives a node one
/// edge more, at the end. So no edge is ever changed or taken away while its
/// node lives, and no edge comes to refer to another node than the one it
/// was made for.
pub proof fn law_slots_keep_their_node<T>(
    graph: Graph<T>,
    key: Seq<char>,
    other: Seq<char>,
    data: T,
    slot: int,
)
    requires
        graph.wf(),
        0 <= slot < graph.slots.len(),
    ensures
        graph.add(key, data).live(slot) ==> graph.live(slot) && graph.add(key, data).node(slot)
            == graph.node(slot),
        graph.update(key, data).live(slot) ==> graph.live(slot) && graph.update(key, data).node(
            slot,
        ).key == graph.node(slot).key && graph.update(key, data).node(slot).edges == graph.node(
            slot,
        ).edges,
        graph.remove(key).live(slot) ==> graph.live(slot) && graph.remove(key).node(slot)
            == graph.node(slot),
        graph.has_key(key) && graph.has_key(other) && graph.add_edge(key, other).live(slot)
            ==> graph.live(slot) && graph.add_edge(key, other).node(slot).key == graph.node(
            slot,
        ).key && graph.node(slot).edges.is_prefix_of(graph.add_edge(key, other).node(slot).edges),
        graph.swept().slots == graph.slots,
{
}

/// After a dispatch no key is marked, so that a second dispatch hands the
/// visitor nothing.
pub proof fn law_sweep_after_sweep<T>(graph: Graph<T>)
    ensures
        graph.swept().marks.len() == 0,
        graph.swept().sweep(0) == Seq::<NodeView<T>>::empty(),
        graph.swept().sweep_ok(),
{
}

// ----------------------------------------------------------------------
// Walks
// ----------------------------------------------------------------------
/// A walk hands no key to the visitor twice, whatever node it starts from,
/// and hands over no key that was visited before.
pub proof fn law_walk_visits_once<T>(
    graph: Graph<T>,
    root: NodeView<T>,
    visited: Set<Seq<char>>,
    i: int,
    j: int,
)
    requires
        graph.wf(),
        0 <= i < j < graph.walk(root, visited).len(),
    ensures
        graph.walk(root, visited)[i].key != graph.walk(root, visited)[j].key,
        !visited.contains(graph.walk(root, visited)[i].key),
        !visited.contains(graph.walk(root, visited)[j].key),
{
    let inside = visited.insert(root.key);
    let rest = graph.walk_edges(root.edges, 0, inside);
    let trace = graph.walk(root, visited);
    assert(trace == seq![root] + rest);
    graph.lemma_walk_edges_facts(root.edges, 0, inside);
    assert(trace[j] == rest[j - 1]);
    assert(!inside.contains(rest[j - 1].key));
    if i > 0 {
        assert(trace[i] == rest[i - 1]);
        assert(!inside.contains(rest[i - 1].key));
    }
}

/// A walk from a node of the graph visits exactly the nodes that can be
/// reached from it along edges, through nodes whose keys were not visited
/// before.
pub proof fn law_walk_visits_what_it_reaches<T>(
    graph: Graph<T>,
    from: int,
    to: int,
    visited: Set<Seq<char>>,
)
    requires
        graph.wf(),
        graph.live(from),
        graph.live(to),
    ensures
        graph.walk(graph.node(from), visited).contains(graph.node(to)) <==> graph.reaches(
            from,
            to,
            visited,
        ),
{
    let entry = EdgeView { weight: 1, target: Some(from) };
    let trace = graph.walk(graph.node(from), visited);
    graph.lemma_walk_edge(entry, visited);
    assert(trace == graph.walk_edge(entry, visited));
    graph.lemma_walk_edge_facts(entry, visited);
    assert(graph.slots[to] is Some);
    assert(graph.slots[from] is Some);
    if trace.contains(graph.node(to)) {
        let j = choose|j: int| 0 <= j < trace.len() && trace[j] == graph.node(to);
        assert(graph.reaches(from, trace[j].slot->0, visited));
    }
    if graph.reaches(from, to, visited) {
        let path = choose|path: Seq<int>| #[trigger] graph.leads(path, from, to, visited);
        assert(!visited.contains(graph.node(path[0]).key));
        assert(trace[0] == graph.node(from));
        graph.lemma_paths_stay_inside(trace, visited, path);
    }
}

/// The walk that a dispatch makes for a marked key visits exactly the nodes
/// that can be reached from the node under that key, each of them once.
pub proof fn law_dispatch_walk<T>(graph: Graph<T>, key: Seq<char>, to: int)
    requires
        graph.wf(),
        graph.has_key(key),
        graph.live(to),
    ensures
        graph.walk_from_key(key).contains(graph.node(to)) <==> graph.reaches(
            graph.index[key],
            to,
            Set::empty(),
        ),
        forall|i: int, j: int|
            0 <= i < j < graph.walk_from_key(key).len() ==> (#[trigger] graph.walk_from_key(
                key,
            )[i]).key != (#[trigger] graph.walk_from_key(key)[j]).key,
{
    let root = graph.node(graph.index[key]);
    law_walk_visits_what_it_reaches(graph, graph.index[key], to, Set::empty());
    assert forall|i: int, j: int| 0 <= i < j < graph.walk_from_key(key).len() implies (
    #[trigger] graph.walk_from_key(key)[i]).key != (#[trigger] graph.walk_from_key(key)[j]).key by {
        law_walk_visits_once(graph, root, Set::empty(), i, j);
    }
}

/// A dispatch with a single mark makes the one walk from the node under
/// that key.
pub proof fn law_sweep_of_one_mark<T>(graph: Graph<T>, key: Seq<char>)
    requires
        graph.marks == seq![key],
    ensures
        graph.sweep(0) == graph.walk_from_key(key),
{
    assert(graph.sweep(1) =~= Seq::empty());
    assert(graph.sweep(0) =~= graph.walk_from_key(graph.marks[0]) + graph.sweep(1));
}

/// A dispatch makes its walks one after the other, one for each mark, in the
/// order of the marks.
pub proof fn law_sweep_walks_mark_by_mark<T>(graph: Graph<T>, from: int)
    requires
        0 <= from < graph.marks.len(),
    ensures
        graph.sweep(from) == graph.walk_from_key(graph.marks[from]) + graph.sweep(from + 1),
        graph.sweep(graph.marks.len() as int) == Seq::<NodeView<T>>::empty(),
{
}

/// In a graph in which no edge dangles, every walk from a node whose own
/// edges resolve may be made, and so may a dispatch.
pub proof fn law_intact_graph_can_be_walked<T>(
    graph: Graph<T>,
    root: NodeView<T>,
    visited: Set<Seq<char>>,
)
    requires
        graph.wf(),
        graph.intact(),
    ensures
        graph.sound(root) ==> graph.walk_ok(root, visited),
        graph.sweep_ok(),
{
    if graph.sound(root) {
        lemma_intact_walk_ok(graph, root, visited);
    }
    lemma_intact_sweep_sound(graph, 0);
}

/// In a graph in which no edge dangles, a walk from a node whose edges
/// resolve meets no dangling edge.
proof fn lemma_intact_walk_ok<T>(graph: Graph<T>, root: NodeView<T>, visited: Set<Seq<char>>)
    requires
        graph.wf(),
        graph.intact(),
        graph.sound(root),
    ensures
        graph.walk_ok(root, visited),
{
    let inside = visited.insert(root.key);
    let rest = graph.walk_edges(root.edges, 0, inside);
    let trace = graph.walk(root, visited);
    graph.lemma_walk_edges_facts(root.edges, 0, inside);
    assert forall|j: int| 0 <= j < trace.len() implies graph.sound(#[trigger] trace[j]) by {
        if j > 0 {
            assert(trace[j] == rest[j - 1]);
            assert(graph.holds(rest[j - 1]));
            assert(graph.slots[rest[j - 1].slot->0] is Some);
        }
    }
}

/// In a graph in which no edge dangles, the walks for the marks from
/// `from` on meet no dangling edge.
proof fn lemma_intact_sweep_sound<T>(graph: Graph<T>, from: int)
    requires
        graph.wf(),
        graph.intact(),
        0 <= from,
    ensures
        forall|j: int|
            0 <= j < graph.sweep(from).len() ==> graph.sound(#[trigger] graph.sweep(from)[j]),
    decreases graph.marks.len() - from,
{
    if from < graph.marks.len() {
        let key = graph.marks[from];
        let walked = graph.walk_from_key(key);
        lemma_intact_sweep_sound(graph, from + 1);
        if graph.has_key(key) {
            let slot = graph.index[key];
            assert(graph.slots[slot] is Some);
            lemma_intact_walk_ok(graph, graph.node(slot), Set::empty());
        }
        assert forall|j: int| 0 <= j < graph.sweep(from).len() implies graph.sound(
            #[trigger] graph.sweep(from)[j],
        ) by {
            if j < walked.len() {
                assert(graph.sweep(from)[j] == walked[j]);
            } else {
                assert(graph.sweep(from)[j] == graph.sweep(from + 1)[j - walked.len()]);
            }
        }
    }
}

/// A graph stays free of dangling edges as long as no node is removed or
/// replaced: the empty graph has none, and adding a node under a new key,
/// updating and linking make none.
pub proof fn law_intact_is_kept<T>(graph: Graph<T>, key: Seq<char>, other: Seq<char>, data: T)
    requires
        graph.wf(),
        graph.intact(),
    ensures
        Graph::<T>::empty().intact(),
        !graph.has_key(key) ==> graph.add(key, data).intact(),
        graph.update(key, data).intact(),
        graph.has_key(key) && graph.has_key(other) ==> graph.add_edge(key, other).intact(),
        graph.swept().intact(),
{
    if !graph.has_key(key) {
        let after = graph.add(key, data);
        assert forall|i: int|
            0 <= i < after.slots.len() && (#[trigger] after.slots[i]) is Some implies after.sound(
            after.node(i),
        ) by {
            if i < graph.slots.len() {
                assert(graph.slots[i] is Some);
                assert forall|e: int| 0 <= e < after.node(i).edges.len() implies after.resolves(
                    #[trigger] after.node(i).edges[e],
                ) by {
                    assert(graph.resolves(graph.node(i).edges[e]));
                }
            }
        }
    }
    {
        let after = graph.update(key, data);
        assert forall|i: int|
            0 <= i < after.slots.len() && (#[trigger] after.slots[i]) is Some implies after.sound(
            after.node(i),
        ) by {
            assert(graph.slots[i] is Some);
            assert forall|e: int| 0 <= e < after.node(i).edges.len() implies after.resolves(
                #[trigger] after.node(i).edges[e],
            ) by {
                assert(graph.resolves(graph.node(i).edges[e]));
            }
        }
    }
    if graph.has_key(key) && graph.has_key(other) {
        let after = graph.add_edge(key, other);
        let holder = graph.index[key];
        assert(graph.live(graph.index[other]));
        assert forall|i: int|
            0 <= i < after.slots.len() && (#[trigger] after.slots[i]) is Some implies after.sound(
            after.node(i),
        ) by {
            assert(graph.slots[i] is Some);
            assert forall|e: int| 0 <= e < after.node(i).edges.len() implies after.resolves(
                #[trigger] after.node(i).edges[e],
            ) by {
                if i == holder && e == graph.node(i).edges.len() {
                } else {
                    assert(graph.resolves(graph.node(i).edges[e]));
                }
            }
        }
    }
    {
        let after = graph.swept();
        assert forall|i: int|
            0 <= i < after.slots.len() && (#[trigger] after.slots[i]) is Some implies after.sound(
            after.node(i),
        ) by {
            assert(graph.slots[i] is Some);
            assert forall|e: int| 0 <= e < after.node(i).edges.len() implies after.resolves(
                #[trigger] after.node(i).edges[e],
            ) by {
                assert(graph.resolves(graph.node(i).edges[e]));
            }
        }
    }
}

} // verus!
