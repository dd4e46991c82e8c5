use amba::{ContractViolation, StateTracker, NO_PREDECESSOR};

#[test]
fn fresh_tracker_has_initial_state() {
    let t = StateTracker::new();
    assert_eq!(t.state_count(), 1);
    assert_eq!(t.alias_count(), 1);
    assert_eq!(t.resolve(0), 0);
    assert_eq!(t.predecessor_of(0), NO_PREDECESSOR);
    assert_eq!(t.last_block_of(0), 0);
}

#[test]
fn alias_reuse_keeps_prior_lineage() {
    // Alias 1 is redirected to a fresh identity; the lineage edge of the
    // original identity 1 survives.
    let mut t = StateTracker::new();
    t.on_fork(0, &vec![1]).unwrap();
    assert_eq!(t.resolve(1), 1);
    assert!(t.state_graph.contains_edge(0, 1));
    t.on_fork(1, &vec![1]).unwrap();
    assert_eq!(t.resolve(1), 2);
    assert_eq!(t.state_count(), 3);
    assert!(t.state_graph.contains_edge(0, 1));
    assert!(t.state_graph.contains_edge(1, 2));
    assert_eq!(t.state_graph.num_edges(), 2);
}

#[test]
fn fork_inherits_position() {
    let mut t = StateTracker::new();
    t.on_block_start(0, 0x40);
    t.on_fork(0, &vec![1]).unwrap();
    assert_eq!(t.last_block_of(1), 0x40);
    t.on_block_start(1, 0x80);
    assert!(t.block_graph.contains_edge(0x40, 0x80));
}

#[test]
fn first_ever_block_records_no_edge() {
    let mut t = StateTracker::new();
    t.on_block_start(0, 0x1000);
    assert_eq!(t.last_block_of(0), 0x1000);
    assert!(t.block_graph.is_empty());
    assert_eq!(t.block_graph.num_edges(), 0);
}

#[test]
fn merge_is_additive_not_unifying() {
    let mut t = StateTracker::new();
    t.on_fork(0, &vec![1]).unwrap();
    let before = t.state_graph.num_edges();
    assert!(t.on_merge(0, 1));
    assert_eq!(t.state_graph.num_edges(), before + 1);
    assert!(t.state_graph.contains_edge(1, 0));
    assert!(t.state_graph.contains_node(0));
    assert!(t.state_graph.contains_node(1));
    assert_eq!(t.state_count(), 2);
}

#[test]
fn generation_counts_per_state_and_address() {
    let mut t = StateTracker::new();
    t.on_translate(0, 0x40, None, None, None);
    t.on_translate(0, 0x40, None, None, None);
    t.on_translate(0, 0x40, None, None, None);
    assert_eq!(t.generation(0, 0x40), 3);
    assert_eq!(t.generation(0, 0x41), 0);
    t.on_translate(0, 0x41, None, None, None);
    assert_eq!(t.generation(0, 0x41), 1);
    t.on_fork(0, &vec![1]).unwrap();
    t.on_translate(1, 0x40, None, None, None);
    assert_eq!(t.generation(1, 0x40), 1);
    assert_eq!(t.generation(0, 0x40), 3);
}

#[test]
fn generation_saturates() {
    let mut t = StateTracker::new();
    for _ in 0..300 {
        t.on_translate(0, 0x99, None, None, None);
    }
    assert_eq!(t.generation(0, 0x99), 255);
}

#[test]
fn fork_of_many_aliases_in_order() {
    let mut t = StateTracker::new();
    t.on_fork(0, &vec![1, 2, 0]).unwrap();
    assert_eq!(t.state_count(), 4);
    assert_eq!(t.resolve(1), 1);
    assert_eq!(t.resolve(2), 2);
    assert_eq!(t.resolve(0), 3);
    assert_eq!(t.predecessor_of(1), 0);
    assert_eq!(t.predecessor_of(2), 0);
    assert_eq!(t.predecessor_of(3), 0);
    assert!(t.state_graph.contains_edge(0, 1));
    assert!(t.state_graph.contains_edge(0, 2));
    assert!(t.state_graph.contains_edge(0, 3));
}

#[test]
fn fork_rejects_alias_gap() {
    let mut t = StateTracker::new();
    let r = t.on_fork(0, &vec![2]);
    assert_eq!(r, Err(ContractViolation));
    assert_eq!(t.state_count(), 1);
    assert_eq!(t.alias_count(), 1);
    assert!(t.state_graph.is_empty());
}

#[test]
fn end_to_end_session() {
    let mut t = StateTracker::new();
    t.on_block_start(0, 0x1000);
    assert!(t.block_graph.is_empty());
    t.on_block_start(0, 0x1010);
    assert!(t.block_graph.contains_edge(0x1000, 0x1010));
    t.on_fork(0, &vec![1]).unwrap();
    assert!(t.state_graph.contains_edge(0, 1));
    assert_eq!(t.last_block_of(1), 0x1010);
    t.on_block_start(1, 0x2000);
    assert!(t.block_graph.contains_edge(0x1010, 0x2000));
    t.on_merge(0, 1);
    assert!(t.state_graph.contains_edge(1, 0));

    // the shutdown flush carries exactly these edges
    let msgs = t.flush_messages();
    assert_eq!(msgs.len(), 2);
    let amba::IpcMessage::GraphSnapshot { name, graph } = &msgs[0];
    assert_eq!(name, "symbolic states");
    let mut lineage = graph.edges.clone();
    lineage.sort();
    assert_eq!(lineage, vec![(0, 1), (1, 0)]);
    let amba::IpcMessage::GraphSnapshot { name, graph } = &msgs[1];
    assert_eq!(name, "basic blocks");
    let mut blocks = graph.edges.clone();
    blocks.sort();
    assert_eq!(blocks, vec![(0x1000, 0x1010), (0x1010, 0x2000)]);
}
