use amba::Graph;

#[test]
fn update_true_then_false_and_count_rises_once() {
    let mut g = Graph::new();
    assert_eq!(g.num_edges(), 0);
    assert!(g.update(4, 5));
    assert!(!g.update(4, 5));
    assert_eq!(g.num_edges(), 1);
}

#[test]
fn update_creates_both_endpoints() {
    let mut g = Graph::new();
    assert!(!g.contains_node(1));
    g.update(1, 2);
    assert!(g.contains_node(1));
    assert!(g.contains_node(2));
    assert!(g.contains_edge(1, 2));
    assert!(!g.contains_edge(2, 1));
}

#[test]
fn is_empty_tracks_first_edge() {
    let mut g = Graph::new();
    assert!(g.is_empty());
    g.update(0, 0);
    assert!(!g.is_empty());
}

#[test]
fn self_edge_is_one_edge_one_node() {
    let mut g = Graph::new();
    assert!(g.update(9, 9));
    assert!(!g.update(9, 9));
    assert_eq!(g.num_edges(), 1);
    assert_eq!(g.node_count(), 1);
}

#[test]
fn many_edges_count_distinct() {
    let mut g = Graph::new();
    g.update(1, 2);
    g.update(1, 3);
    g.update(2, 3);
    g.update(1, 2);
    assert_eq!(g.num_edges(), 3);
    assert_eq!(g.node_count(), 3);
}
