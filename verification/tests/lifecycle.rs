use dag::{Dag, Node};

#[test]
fn node_added_to_dag() {
    let key1 = "A1";
    let mut dag = Dag::new();
    dag.add(key1, "foo");
    assert_eq!(dag.get(key1).is_some(), true);
}

#[test]
fn node_removed_from_dag() {
    let key1 = "A1";
    let mut dag = Dag::new();
    dag.add(key1, "foo");
    dag.remove(key1);
    assert_eq!(dag.get(key1).is_none(), true);
}

#[test]
fn get_finds_nothing_in_an_empty_graph() {
    let dag: Dag<i32> = Dag::new();
    assert_eq!(dag.get("A").is_none(), true);
    assert_eq!(dag.get("").is_none(), true);
}

#[test]
fn get_finds_nothing_under_a_key_never_added() {
    let mut dag = Dag::new();
    dag.add("A", 1);
    dag.add("B", 2);
    dag.add_edge("A", "B");
    dag.update("A", 3);
    assert_eq!(dag.get("C").is_none(), true);
    assert_eq!(dag.get("a").is_none(), true);
    assert_eq!(dag.get("AB").is_none(), true);
}

#[test]
fn get_returns_the_payload_that_was_added() {
    let mut dag = Dag::new();
    dag.add("A", 41);
    dag.add("B", 42);
    let a = dag.get("A").unwrap();
    assert_eq!(a.key, "A");
    assert_eq!(a.data, 41);
    assert_eq!(a.edges.len(), 0);
    assert_eq!(a.slot, Some(0));
    let b = dag.get("B").unwrap();
    assert_eq!(b.key, "B");
    assert_eq!(b.data, 42);
    assert_eq!(b.slot, Some(1));
}

#[test]
fn update_replaces_the_payload_in_place() {
    let mut dag = Dag::new();
    dag.add("A", "v1");
    dag.add("B", "b");
    dag.add_edge("A", "B");
    dag.update("A", "v2");
    let a = dag.get("A").unwrap();
    assert_eq!(a.data, "v2");
    assert_eq!(a.key, "A");
    assert_eq!(a.slot, Some(0));
    assert_eq!(a.edges.len(), 1);
    assert_eq!(dag.get("B").unwrap().data, "b");
}

#[test]
fn remove_reports_whether_a_node_was_there() {
    let mut dag = Dag::new();
    dag.add("A", 1);
    assert_eq!(dag.remove("B"), false);
    assert_eq!(dag.remove("A"), true);
    assert_eq!(dag.get("A").is_none(), true);
    assert_eq!(dag.remove("A"), false);
}

#[test]
fn add_under_a_used_key_makes_a_new_node() {
    let mut dag = Dag::new();
    dag.add("A", "old");
    dag.add("B", "b");
    dag.add_edge("A", "B");
    dag.add("A", "new");
    let a = dag.get("A").unwrap();
    assert_eq!(a.data, "new");
    assert_eq!(a.edges.len(), 0);
    assert_eq!(a.slot, Some(2));
    assert_eq!(dag.get("B").unwrap().slot, Some(1));
}

#[test]
fn a_node_added_again_after_removal_gets_a_new_slot() {
    let mut dag = Dag::new();
    dag.add("A", 1);
    assert_eq!(dag.remove("A"), true);
    dag.add("A", 2);
    assert_eq!(dag.get("A").unwrap().slot, Some(1));
    assert_eq!(dag.get("A").unwrap().data, 2);
}

#[test]
fn new_edge_has_weight_one() {
    let mut dag = Dag::new();
    dag.add("A", "a");
    dag.add("B", "b");
    dag.add_edge("B", "A");
    assert_eq!(dag.get_edge_weight("A", "B"), 1);
}

#[test]
fn edge_weight_is_minus_one_where_no_edge_leads_to_the_key() {
    let mut dag = Dag::new();
    dag.add("A", "a");
    dag.add("B", "b");
    dag.add("C", "c");
    dag.add_edge("B", "A");
    assert_eq!(dag.get_edge_weight("B", "A"), -1);
    assert_eq!(dag.get_edge_weight("C", "B"), -1);
    assert_eq!(dag.get_edge_weight("B", "B"), -1);
    assert_eq!(dag.get_edge_weight("nowhere", "B"), -1);
}

#[test]
fn edge_weight_looks_past_edges_to_other_nodes() {
    let mut dag = Dag::new();
    dag.add("A", "a");
    dag.add("B", "b");
    dag.add("C", "c");
    dag.add_edge("A", "B");
    dag.add_edge("A", "C");
    dag.add_edge("A", "A");
    assert_eq!(dag.get_edge_weight("C", "A"), 1);
    assert_eq!(dag.get_edge_weight("A", "A"), 1);
    assert_eq!(dag.get_edge_weight("B", "A"), 1);
}

#[test]
fn edge_weight_follows_the_node_not_the_key() {
    let mut dag = Dag::new();
    dag.add("A", "a");
    dag.add("B", "b");
    dag.add("C", "c");
    dag.add_edge("A", "B");
    dag.update("B", "b2");
    assert_eq!(dag.get_edge_weight("B", "A"), 1);
    dag.add_edge("C", "B");
    dag.add("B", "other");
    assert_eq!(dag.get_edge_weight("B", "B"), -1);
}

#[test]
fn node_new_has_no_edges_and_no_slot() {
    let node = Node::new(String::from("K"), 5u8);
    assert_eq!(node.key, "K");
    assert_eq!(node.data, 5u8);
    assert_eq!(node.edges.len(), 0);
    assert_eq!(node.slot, None);
}

#[test]
fn node_add_edge_appends() {
    let target = Node::new(String::from("T"), 0);
    let mut node = Node::new(String::from("K"), 0);
    node.add_edge(&target, 3);
    node.add_edge(&target, -4);
    assert_eq!(node.edges.len(), 2);
    assert_eq!(format!("{:?}", node.edges[0]), "Edge { weight: 3, to_node: None }");
    assert_eq!(format!("{:?}", node.edges[1]), "Edge { weight: -4, to_node: None }");
}
