use app_graph::graph::{AppGraph, Edge, GraphError, Node};
use app_graph::overlay::{Overlay, StringSet};

fn text(s: &str) -> String {
    s.to_string()
}

fn set_of(items: &[&str]) -> StringSet {
    StringSet::from_vec(items.iter().map(|s| s.to_string()).collect())
}

fn fresh() -> AppGraph<String, String> {
    AppGraph::new(text("graph.bin"))
}

#[test]
fn node_ids_count_up_from_zero() {
    let mut g = fresh();
    for expected in 0..20usize {
        assert_eq!(g.add_node(format!("n{}", expected)), expected);
    }
}

#[test]
fn edge_ids_count_up_from_zero_apart_from_node_ids() {
    let mut g = fresh();
    for i in 0..5usize {
        assert_eq!(g.add_node(format!("n{}", i)), i);
    }
    assert_eq!(g.add_edge(4, 3, text("x")), Ok(0));
    assert_eq!(g.add_edge(0, 0, text("loop")), Ok(1));
    assert_eq!(g.add_edge(4, 3, text("x")), Ok(2));
    assert_eq!(g.add_node(text("late")), 5);
    assert_eq!(g.add_edge(5, 0, text("y")), Ok(3));
}

#[test]
fn new_graph_is_empty_and_keeps_its_path() {
    let g = fresh();
    assert!(g.get_node(0).is_none());
    assert!(g.get_edge(0).is_none());
    assert!(g.get_meta(0).is_none());
    assert_eq!(g.get_node_index(0), None);
    assert_eq!(g.get_edge_index(0), None);
    assert_eq!(g.get_path(), "graph.bin");
}

#[test]
fn set_path_changes_only_the_path() {
    let mut g = fresh();
    g.add_node(text("a"));
    g.set_path(text("/tmp/other.bin"));
    assert_eq!(g.get_path(), "/tmp/other.bin");
    assert_eq!(g.get_node(0).unwrap().label, "a");
}

#[test]
fn add_edge_to_unknown_node_changes_nothing() {
    let mut g = fresh();
    g.add_node_at(text("a"), text("t0"));
    g.add_node_at(text("b"), text("t1"));
    g.add_edge(0, 1, text("likes")).unwrap();
    let before = g.ser();
    assert_eq!(g.add_edge(0, 2, text("x")), Err(GraphError::UnknownNode));
    assert_eq!(g.add_edge(2, 0, text("x")), Err(GraphError::UnknownNode));
    assert_eq!(g.add_edge(7, 9, text("x")), Err(GraphError::UnknownNode));
    assert_eq!(g.add_edge(usize::MAX, 0, text("x")), Err(GraphError::UnknownNode));
    assert_eq!(g.ser(), before);
    assert!(g.get_node(2).is_none());
    assert!(g.get_edge(1).is_none());
    assert!(g.get_meta(2).is_none());
    assert_eq!(g.get_meta(0).unwrap().get(&text("edges")).unwrap().len(), 1);
    assert_eq!(g.add_edge(1, 0, text("next")), Ok(1));
}

#[test]
fn add_edge_on_empty_graph_is_refused() {
    let mut g = fresh();
    assert_eq!(g.add_edge(0, 0, text("x")), Err(GraphError::UnknownNode));
    assert!(g.get_edge(0).is_none());
}

#[test]
fn set_meta_replaces_what_was_under_the_key() {
    let mut g = fresh();
    let n = g.add_node(text("a"));
    g.set_meta(n, text("k"), set_of(&["x"]));
    g.set_meta(n, text("k"), set_of(&["y"]));
    let under_k = g.get_meta(n).unwrap().get(&text("k")).unwrap();
    assert_eq!(under_k.len(), 1);
    assert!(under_k.has(&text("y")));
    assert!(!under_k.has(&text("x")));
}

#[test]
fn set_meta_leaves_other_keys_alone() {
    let mut g = fresh();
    let n = g.add_node_at(text("a"), text("then"));
    g.set_meta(n, text("k"), set_of(&["x", "z"]));
    g.set_meta(n, text("other"), set_of(&[]));
    let meta = g.get_meta(n).unwrap();
    assert_eq!(meta.len(), 3);
    assert!(meta.get(&text("created")).unwrap().has(&text("then")));
    assert_eq!(meta.get(&text("k")).unwrap().len(), 2);
    assert_eq!(meta.get(&text("other")).unwrap().len(), 0);
    assert!(meta.get(&text("missing")).is_none());
}

#[test]
fn set_meta_on_a_node_never_added_makes_its_entry() {
    let mut g = fresh();
    assert!(g.get_meta(42).is_none());
    g.set_meta(42, text("k"), set_of(&["v"]));
    assert!(g.get_meta(42).unwrap().get(&text("k")).unwrap().has(&text("v")));
    assert!(g.get_node(42).is_none());
    assert!(g.get_node_data(42).is_some());
}

#[test]
fn edges_from_one_source_leave_a_note_each() {
    let mut g = fresh();
    g.add_node(text("a"));
    g.add_node(text("b"));
    g.add_edge(0, 1, text("likes")).unwrap();
    g.add_edge(0, 1, text("likes")).unwrap();
    let notes = g.get_meta(0).unwrap().get(&text("edges")).unwrap();
    assert_eq!(notes.len(), 2);
    assert!(notes.has(&text("0 0 1 likes")));
    assert!(notes.has(&text("1 0 1 likes")));
    assert!(g.get_meta(1).unwrap().get(&text("edges")).is_none());
}

#[test]
fn edge_note_holds_id_source_target_and_label() {
    let mut g: AppGraph<String, usize> = AppGraph::new(text("p"));
    for i in 0..12usize {
        g.add_node(format!("n{}", i));
    }
    for _ in 0..10 {
        g.add_edge(0, 1, 5).unwrap();
    }
    assert_eq!(g.add_edge(11, 10, 1234567890), Ok(10));
    let notes = g.get_meta(11).unwrap().get(&text("edges")).unwrap();
    assert_eq!(notes.len(), 1);
    assert_eq!(notes.key_at(0), "10 11 10 1234567890");
}

#[test]
fn edge_note_is_added_to_texts_set_before() {
    let mut g = fresh();
    g.add_node(text("a"));
    g.set_meta(0, text("edges"), set_of(&["mine"]));
    g.add_edge(0, 0, text("self")).unwrap();
    let notes = g.get_meta(0).unwrap().get(&text("edges")).unwrap();
    assert_eq!(notes.len(), 2);
    assert!(notes.has(&text("mine")));
    assert!(notes.has(&text("0 0 0 self")));
}

#[test]
fn add_node_notes_the_time_of_creation() {
    let mut g = fresh();
    let n = g.add_node(text("a"));
    let created = g.get_meta(n).unwrap().get(&text("created")).unwrap();
    assert_eq!(created.len(), 1);
    let stamp = created.key_at(0);
    assert!(stamp.len() >= 20);
    assert!(stamp.as_bytes()[..4].iter().all(|b| b.is_ascii_digit()));
    assert_eq!(stamp.as_bytes()[4], b'-');
    assert_eq!(stamp.as_bytes()[10], b'T');
    assert!(stamp.ends_with('Z'));
}

#[test]
fn add_node_at_notes_the_given_time() {
    let mut g = fresh();
    let n = g.add_node_at(text("a"), text("2024-01-02T03:04:05Z"));
    let created = g.get_meta(n).unwrap().get(&text("created")).unwrap();
    assert_eq!(created.len(), 1);
    assert!(created.has(&text("2024-01-02T03:04:05Z")));
}

#[test]
fn add_node_at_adds_to_a_created_key_set_before() {
    let mut g = fresh();
    g.set_meta(0, text("created"), set_of(&["earlier"]));
    assert_eq!(g.add_node_at(text("a"), text("now")), 0);
    let created = g.get_meta(0).unwrap().get(&text("created")).unwrap();
    assert_eq!(created.len(), 2);
    assert!(created.has(&text("earlier")));
    assert!(created.has(&text("now")));
}

#[test]
fn get_node_and_get_edge_give_what_was_added() {
    let mut g = fresh();
    g.add_node(text("a"));
    g.add_node(text("b"));
    g.add_edge(1, 0, text("back")).unwrap();
    assert_eq!(g.get_node(1).unwrap().label, "b");
    let e = g.get_edge(0).unwrap();
    assert_eq!((e.source, e.target, e.label.as_str()), (1, 0, "back"));
    assert_eq!(g.get_node_index(1), Some(1));
    assert_eq!(g.get_node_index(2), None);
    assert_eq!(g.get_edge_index(0), Some(0));
    assert_eq!(g.get_edge_index(1), None);
}

#[test]
fn labels_can_be_changed_in_place() {
    let mut g = fresh();
    g.add_node(text("a"));
    g.add_node(text("b"));
    g.add_edge(0, 1, text("old")).unwrap();
    g.get_node_mut(0).unwrap().label = text("changed");
    *g.get_edge_mut(0).unwrap() = text("new");
    assert!(g.get_node_mut(2).is_none());
    assert!(g.get_edge_mut(1).is_none());
    assert_eq!(g.get_node(0).unwrap().label, "changed");
    assert_eq!(g.get_node(1).unwrap().label, "b");
    let e = g.get_edge(0).unwrap();
    assert_eq!((e.source, e.target, e.label.as_str()), (0, 1, "new"));
}

#[test]
fn topology_follows_the_graph() {
    let mut g = fresh();
    g.add_node(text("a"));
    g.add_node(text("b"));
    g.add_node(text("c"));
    g.add_edge(0, 1, text("x")).unwrap();
    g.add_edge(2, 1, text("y")).unwrap();
    assert!(g.add_edge(3, 1, text("z")).is_err());
    let t = g.topology();
    assert_eq!(t.node_count(), 3);
    assert_eq!(t.edge_count(), 2);
    for i in 0..3usize {
        assert_eq!(t.node_weight(petgraph::graph::NodeIndex::new(i)), Some(&i));
    }
    let e1 = petgraph::graph::EdgeIndex::new(1);
    let (from, to) = t.edge_endpoints(e1).unwrap();
    assert_eq!((from.index(), to.index()), (2, 1));
    assert_eq!(t.edge_weight(e1), Some(&1));
    assert!(!t.contains_node(petgraph::graph::NodeIndex::new(3)));
}

#[test]
fn string_set_holds_each_text_once_in_order() {
    let s = set_of(&["pear", "apple", "pear", "fig", "apple"]);
    assert_eq!(s.len(), 3);
    assert_eq!(s.key_at(0), "apple");
    assert_eq!(s.key_at(1), "fig");
    assert_eq!(s.key_at(2), "pear");
    assert!(s.has(&text("fig")));
    assert!(!s.has(&text("plum")));
}

#[test]
fn string_set_add_keeps_the_order_of_code_points() {
    let mut s = StringSet::new();
    for t in ["b", "", "ab", "a", "é", "z", "B", "a"] {
        s.add(text(t));
    }
    let got: Vec<&str> = (0..s.len()).map(|i| s.key_at(i).as_str()).collect();
    assert_eq!(got, vec!["", "B", "a", "ab", "b", "z", "é"]);
}

#[test]
fn get_node_data_is_get_meta() {
    let mut g = fresh();
    g.add_node_at(text("a"), text("t"));
    let by_meta = g.get_meta(0).unwrap();
    let by_data = g.get_node_data(0).unwrap();
    assert_eq!(by_meta.len(), by_data.len());
    assert_eq!(by_meta.key_at(0), by_data.key_at(0));
    assert!(g.get_node_data(1).is_none());
}

#[test]
fn meta_lists_the_annotated_nodes_in_order() {
    let mut g = fresh();
    g.set_meta(7, text("k"), set_of(&[]));
    g.add_node_at(text("a"), text("t"));
    g.set_meta(3, text("k"), set_of(&[]));
    let meta = g.meta();
    assert_eq!(meta.len(), 3);
    assert_eq!((*meta.key_at(0), *meta.key_at(1), *meta.key_at(2)), (0, 3, 7));
}

#[test]
fn from_parts_puts_a_graph_together() {
    let nodes = vec![Node { label: text("a") }, Node { label: text("b") }];
    let edges = vec![Edge { source: 1, target: 0, label: text("x") }];
    let mut meta = Overlay::new();
    meta.set_texts(1, text("k"), set_of(&["v"]));
    let mut g = AppGraph::from_parts(nodes, edges, meta, text("p")).unwrap();
    assert_eq!(g.get_node(1).unwrap().label, "b");
    assert_eq!(g.get_edge(0).unwrap().source, 1);
    assert!(g.get_meta(1).unwrap().get(&text("k")).unwrap().has(&text("v")));
    assert!(g.get_meta(0).is_none());
    assert_eq!(g.get_path(), "p");
    assert_eq!(g.add_node(text("c")), 2);
    assert_eq!(g.add_edge(2, 1, text("y")), Ok(1));
    assert_eq!(g.topology().edge_count(), 2);
}

#[test]
fn from_parts_refuses_an_edge_to_nowhere() {
    let nodes = vec![Node { label: text("a") }];
    let to_nowhere = vec![Edge { source: 0, target: 1, label: text("x") }];
    assert!(AppGraph::from_parts(nodes.clone(), to_nowhere, Overlay::new(), text("p")).is_none());
    let from_nowhere = vec![Edge { source: 1, target: 0, label: text("x") }];
    assert!(AppGraph::from_parts(nodes, from_nowhere, Overlay::new(), text("p")).is_none());
}
