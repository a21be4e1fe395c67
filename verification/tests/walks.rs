use dag::{Dag, KeyLog, Node, StringHashSet, Visitor};

fn keys_seen(log: &KeyLog<&'static str>) -> Vec<String> {
    log.keys().clone()
}

fn names(keys: &[&str]) -> Vec<String> {
    keys.iter().map(|k| k.to_string()).collect()
}

/// A visitor written outside the library: it counts the nodes and keeps the
/// payloads it was shown.
struct Payloads {
    count: usize,
    shown: Vec<String>,
}

impl Visitor<&'static str> for Payloads {
    fn visit(&mut self, node: &Node<&'static str>) {
        self.count += 1;
        self.shown.push(format!("{}={}", node.key, node.data));
    }
}

#[test]
fn dispatch_walks_a_chain_in_depth_first_order() {
    let mut dag = Dag::new();
    dag.add("A", "a");
    dag.add("B", "b");
    dag.add("C", "c");
    dag.add_edge("A", "B");
    dag.add_edge("B", "C");
    dag.update("A", "a2");
    let mut log = KeyLog::new();
    dag.dispatch(&mut log);
    assert_eq!(keys_seen(&log), names(&["A", "B", "C"]));
}

#[test]
fn dispatch_visits_each_node_once_whatever_the_number_of_paths() {
    let mut dag = Dag::new();
    dag.add("A", "a");
    dag.add("B", "b");
    dag.add("C", "c");
    dag.add_edge("A", "B");
    dag.add_edge("B", "C");
    dag.add_edge("A", "C");
    dag.add_edge("A", "B");
    dag.update("A", "a2");
    let mut log = KeyLog::new();
    dag.dispatch(&mut log);
    assert_eq!(keys_seen(&log), names(&["A", "B", "C"]));
}

#[test]
fn dispatch_visits_the_bottom_of_a_diamond_once() {
    let mut dag = Dag::new();
    for key in ["A", "B", "C", "D"] {
        dag.add(key, "x");
    }
    dag.add_edge("A", "B");
    dag.add_edge("A", "C");
    dag.add_edge("B", "D");
    dag.add_edge("C", "D");
    dag.update("A", "y");
    let mut log = KeyLog::new();
    dag.dispatch(&mut log);
    assert_eq!(keys_seen(&log), names(&["A", "B", "D", "C"]));
}

#[test]
fn dispatch_ends_on_a_cycle() {
    let mut dag = Dag::new();
    dag.add("A", "a");
    dag.add("B", "b");
    dag.add_edge("A", "B");
    dag.add_edge("B", "A");
    dag.add_edge("B", "B");
    dag.update("B", "b2");
    let mut log = KeyLog::new();
    dag.dispatch(&mut log);
    assert_eq!(keys_seen(&log), names(&["B", "A"]));
}

#[test]
fn second_dispatch_hands_over_nothing() {
    let mut dag = Dag::new();
    dag.add("A", "a");
    dag.add("B", "b");
    dag.add_edge("A", "B");
    dag.update("A", "a2");
    let mut first = KeyLog::new();
    dag.dispatch(&mut first);
    assert_eq!(keys_seen(&first), names(&["A", "B"]));
    let mut second = KeyLog::new();
    dag.dispatch(&mut second);
    assert_eq!(keys_seen(&second), names(&[]));
}

#[test]
fn dispatch_without_an_update_hands_over_nothing() {
    let mut dag = Dag::new();
    dag.add("A", "a");
    dag.add("B", "b");
    dag.add_edge("A", "B");
    let mut log = KeyLog::new();
    dag.dispatch(&mut log);
    assert_eq!(keys_seen(&log), names(&[]));
}

#[test]
fn edge_is_stored_on_the_first_key_and_points_at_the_second() {
    let mut dag = Dag::new();
    dag.add("A", "a");
    dag.add("B", "b");
    dag.add_edge("B", "A");
    dag.update("A", "a2");
    let mut log = KeyLog::new();
    dag.dispatch(&mut log);
    assert_eq!(keys_seen(&log), names(&["A"]));
    assert_eq!(dag.get("A").unwrap().edges.len(), 0);
    assert_eq!(dag.get("B").unwrap().edges.len(), 1);
    assert_eq!(dag.get("A").unwrap().data, "a2");

    dag.update("B", "b2");
    let mut log = KeyLog::new();
    dag.dispatch(&mut log);
    assert_eq!(keys_seen(&log), names(&["B", "A"]));
}

#[test]
fn each_marked_root_gets_a_walk_of_its_own() {
    let mut dag = Dag::new();
    dag.add("A", "a");
    dag.add("B", "b");
    dag.add("C", "c");
    dag.add_edge("A", "C");
    dag.add_edge("B", "C");
    dag.update("B", "b2");
    dag.update("A", "a2");
    let mut log = KeyLog::new();
    dag.dispatch(&mut log);
    assert_eq!(keys_seen(&log), names(&["B", "C", "A", "C"]));
}

#[test]
fn a_key_updated_twice_is_served_once() {
    let mut dag = Dag::new();
    dag.add("A", "a");
    dag.update("A", "a2");
    dag.update("A", "a3");
    let mut log = KeyLog::new();
    dag.dispatch(&mut log);
    assert_eq!(keys_seen(&log), names(&["A"]));
    assert_eq!(dag.get("A").unwrap().data, "a3");
}

#[test]
fn a_mark_whose_node_has_gone_is_passed_over() {
    let mut dag = Dag::new();
    dag.add("A", "a");
    dag.add("B", "b");
    dag.update("A", "a2");
    dag.update("B", "b2");
    assert_eq!(dag.remove("A"), true);
    let mut log = KeyLog::new();
    dag.dispatch(&mut log);
    assert_eq!(keys_seen(&log), names(&["B"]));
}

#[test]
fn a_mark_survives_the_replacement_of_its_node() {
    let mut dag = Dag::new();
    dag.add("A", "a");
    dag.update("A", "a2");
    dag.add("A", "fresh");
    let mut log = KeyLog::new();
    dag.dispatch(&mut log);
    assert_eq!(keys_seen(&log), names(&["A"]));
    assert_eq!(dag.get("A").unwrap().data, "fresh");
}

#[test]
fn update_of_an_absent_key_marks_nothing() {
    let mut dag = Dag::new();
    dag.add("A", "a");
    dag.update("Z", "z");
    assert_eq!(dag.get("Z").is_none(), true);
    let mut log = KeyLog::new();
    dag.dispatch(&mut log);
    assert_eq!(keys_seen(&log), names(&[]));
}

#[test]
fn traverse_passes_over_keys_visited_before() {
    let mut dag = Dag::new();
    for key in ["A", "B", "C", "D"] {
        dag.add(key, "x");
    }
    dag.add_edge("A", "B");
    dag.add_edge("A", "D");
    dag.add_edge("B", "C");
    let mut visited = StringHashSet::new();
    visited.insert("B".to_string());
    let mut log = KeyLog::new();
    dag.traverse(dag.get("A").unwrap(), &mut visited, &mut log);
    assert_eq!(keys_seen(&log), names(&["A", "D"]));
    assert_eq!(visited.len(), 3);
    assert_eq!(visited.contains("A"), true);
    assert_eq!(visited.contains("B"), true);
    assert_eq!(visited.contains("C"), false);
    assert_eq!(visited.contains("D"), true);
}

#[test]
fn traverse_from_a_visited_node_does_nothing() {
    let mut dag = Dag::new();
    dag.add("A", "a");
    dag.add("B", "b");
    dag.add_edge("A", "B");
    let mut visited = StringHashSet::new();
    visited.insert("A".to_string());
    let mut log = KeyLog::new();
    dag.traverse(dag.get("A").unwrap(), &mut visited, &mut log);
    assert_eq!(keys_seen(&log), names(&[]));
    assert_eq!(visited.len(), 1);
}

#[test]
fn traverse_leaves_marks_alone() {
    let mut dag = Dag::new();
    dag.add("A", "a");
    dag.update("A", "a2");
    let mut visited = StringHashSet::new();
    let mut log = KeyLog::new();
    dag.traverse(dag.get("A").unwrap(), &mut visited, &mut log);
    assert_eq!(keys_seen(&log), names(&["A"]));
    dag.dispatch(&mut log);
    assert_eq!(keys_seen(&log), names(&["A", "A"]));
}

#[test]
fn traverse_starts_from_a_node_outside_the_graph() {
    let mut dag = Dag::new();
    dag.add("A", "a");
    dag.add("B", "b");
    dag.add_edge("A", "B");
    let mut outside = Node::new("X".to_string(), "x");
    outside.add_edge(dag.get("A").unwrap(), 7);
    outside.add_edge(dag.get("B").unwrap(), 7);
    assert_eq!(outside.edges.len(), 2);
    let mut visited = StringHashSet::new();
    let mut log = KeyLog::new();
    dag.traverse(&outside, &mut visited, &mut log);
    assert_eq!(keys_seen(&log), names(&["X", "A", "B"]));
}

#[test]
fn a_visitor_of_the_caller_sees_the_payloads() {
    let mut dag = Dag::new();
    dag.add("A", "a");
    dag.add("B", "b");
    dag.add_edge("A", "B");
    dag.update("A", "a2");
    let mut seen = Payloads { count: 0, shown: Vec::new() };
    dag.dispatch(&mut seen);
    assert_eq!(seen.count, 2);
    assert_eq!(seen.shown, names(&["A=a2", "B=b"]));
}

#[test]
fn can_dispatch_says_whether_a_walk_would_meet_a_dangling_edge() {
    let mut dag = Dag::new();
    dag.add("A", "a");
    dag.add("B", "b");
    dag.add("C", "c");
    dag.add_edge("A", "B");
    dag.add_edge("B", "C");
    dag.update("A", "a2");
    assert_eq!(dag.can_dispatch(), true);
    dag.remove("C");
    assert_eq!(dag.can_dispatch(), false);
    dag.add("C", "again");
    assert_eq!(dag.can_dispatch(), false);
    dag.remove("B");
    assert_eq!(dag.can_dispatch(), false);
    dag.remove("A");
    assert_eq!(dag.can_dispatch(), true);
    let mut log = KeyLog::new();
    dag.dispatch(&mut log);
    assert_eq!(keys_seen(&log), names(&[]));
}

#[test]
fn can_dispatch_looks_only_at_what_the_marked_nodes_reach() {
    let mut dag = Dag::new();
    dag.add("A", "a");
    dag.add("B", "b");
    dag.add("C", "c");
    dag.add_edge("B", "C");
    dag.remove("C");
    dag.update("A", "a2");
    assert_eq!(dag.can_dispatch(), true);
    let mut log = KeyLog::new();
    dag.dispatch(&mut log);
    assert_eq!(keys_seen(&log), names(&["A"]));
    dag.update("B", "b2");
    assert_eq!(dag.can_dispatch(), false);
}

#[test]
fn can_traverse_counts_the_keys_visited_before() {
    let mut dag = Dag::new();
    dag.add("A", "a");
    dag.add("B", "b");
    dag.add("C", "c");
    dag.add_edge("A", "B");
    dag.add_edge("B", "C");
    dag.remove("C");
    let mut visited = StringHashSet::new();
    assert_eq!(dag.can_traverse(dag.get("A").unwrap(), &visited), false);
    assert_eq!(dag.can_traverse(dag.get("B").unwrap(), &visited), false);
    visited.insert("B".to_string());
    assert_eq!(dag.can_traverse(dag.get("A").unwrap(), &visited), true);
    assert_eq!(dag.can_traverse(dag.get("B").unwrap(), &visited), true);
    assert_eq!(visited.len(), 1);
    let mut log = KeyLog::new();
    dag.traverse(dag.get("A").unwrap(), &mut visited, &mut log);
    assert_eq!(keys_seen(&log), names(&["A"]));
}

#[test]
fn can_get_edge_weight_asks_for_the_node_and_its_edges() {
    let mut dag = Dag::new();
    dag.add("A", "a");
    dag.add("B", "b");
    dag.add("C", "c");
    dag.add_edge("A", "B");
    dag.add_edge("A", "C");
    assert_eq!(dag.can_get_edge_weight("C", "A"), true);
    assert_eq!(dag.can_get_edge_weight("C", "nowhere"), false);
    dag.remove("C");
    assert_eq!(dag.can_get_edge_weight("B", "A"), true);
    assert_eq!(dag.get_edge_weight("B", "A"), 1);
    assert_eq!(dag.can_get_edge_weight("C", "A"), false);
    assert_eq!(dag.can_get_edge_weight("A", "A"), false);
    dag.remove("B");
    assert_eq!(dag.can_get_edge_weight("B", "A"), false);
}

#[test]
fn key_log_starts_empty_and_keeps_the_order() {
    let mut log: KeyLog<&'static str> = KeyLog::new();
    assert_eq!(log.keys().len(), 0);
    let first = Node::new("one".to_string(), "1");
    let second = Node::new("two".to_string(), "2");
    log.visit(&second);
    log.visit(&first);
    log.visit(&second);
    assert_eq!(keys_seen(&log), names(&["two", "one", "two"]));
}
