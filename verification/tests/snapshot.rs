use amba::{
    encode_frame, encode_message, http_step, Graph, GraphIpc, GraphIpcBuilder, HttpStep,
    IpcError, IpcMessage, StateTracker,
};

#[test]
fn snapshot_tick_skips_while_both_graphs_empty() {
    let mut t = StateTracker::new();
    assert_eq!(t.snapshot_messages().len(), 0);
    t.on_translate(0, 0x40, None, None, None);
    // translation touches no graph, so a tick still sends nothing
    assert_eq!(t.snapshot_messages().len(), 0);
    t.on_fork(0, &vec![1]).unwrap();
    let msgs = t.snapshot_messages();
    assert_eq!(msgs.len(), 2);
    let IpcMessage::GraphSnapshot { name, .. } = &msgs[0];
    assert_eq!(name, "symbolic states");
    let IpcMessage::GraphSnapshot { name, .. } = &msgs[1];
    assert_eq!(name, "basic blocks");
}

#[test]
fn flush_always_sends_both() {
    let t = StateTracker::new();
    let msgs = t.flush_messages();
    assert_eq!(msgs.len(), 2);
    let IpcMessage::GraphSnapshot { graph, .. } = &msgs[0];
    assert!(graph.nodes.is_empty());
    assert!(graph.edges.is_empty());
}

#[test]
fn from_graph_copies_structure() {
    let mut g = Graph::new();
    g.update(1, 2);
    g.update(1, 3);
    g.update(2, 1);
    let snap = GraphIpc::from_graph(&g);
    let mut nodes = snap.nodes.clone();
    nodes.sort();
    assert_eq!(nodes, vec![1, 2, 3]);
    let mut edges = snap.edges.clone();
    edges.sort();
    assert_eq!(edges, vec![(1, 2), (1, 3), (2, 1)]);
}

#[test]
fn builder_accumulates_without_duplicates() {
    let mut b = GraphIpcBuilder::new();
    assert!(b.is_empty());
    b.add_edge(1, 2);
    b.add_edge(1, 2);
    b.add_edge(2, 1);
    b.add_node(7);
    b.add_node(7);
    assert!(!b.is_empty());
    let snap = b.finish();
    let mut nodes = snap.nodes.clone();
    nodes.sort();
    assert_eq!(nodes, vec![1, 2, 7]);
    let mut edges = snap.edges.clone();
    edges.sort();
    assert_eq!(edges, vec![(1, 2), (2, 1)]);
}

#[test]
fn message_bytes_layout_is_exact() {
    let msg = IpcMessage::GraphSnapshot {
        name: "ab".to_owned(),
        graph: GraphIpc { nodes: vec![1], edges: vec![(1, 0x0102)] },
    };
    let bytes = encode_message(&msg);
    let mut expected: Vec<u8> = Vec::new();
    expected.extend_from_slice(&2u64.to_le_bytes());
    expected.extend_from_slice(b"ab");
    expected.extend_from_slice(&1u64.to_le_bytes());
    expected.extend_from_slice(&1u64.to_le_bytes());
    expected.extend_from_slice(&1u64.to_le_bytes());
    expected.extend_from_slice(&1u64.to_le_bytes());
    expected.extend_from_slice(&0x0102u64.to_le_bytes());
    assert_eq!(bytes, expected);
}

#[test]
fn frame_prefixes_payload_length() {
    let msg = IpcMessage::GraphSnapshot {
        name: "x".to_owned(),
        graph: GraphIpc { nodes: vec![], edges: vec![] },
    };
    let payload = encode_message(&msg);
    let frame = encode_frame(&msg);
    assert_eq!(frame.len(), payload.len() + 8);
    assert_eq!(&frame[0..8], &(payload.len() as u64).to_le_bytes());
    assert_eq!(&frame[8..], &payload[..]);
}

#[test]
fn split_frame_recovers_each_message_in_turn() {
    let msg1 = IpcMessage::GraphSnapshot {
        name: "ab".to_owned(),
        graph: GraphIpc { nodes: vec![1, 2], edges: vec![(1, 2)] },
    };
    let msg2 = IpcMessage::GraphSnapshot {
        name: "cd".to_owned(),
        graph: GraphIpc { nodes: vec![], edges: vec![] },
    };
    let mut stream = amba::encode_frame(&msg1);
    stream.extend_from_slice(&amba::encode_frame(&msg2));
    let (payload1, used1) = amba::split_frame(&stream).unwrap();
    assert_eq!(payload1, encode_message(&msg1));
    let (payload2, used2) = amba::split_frame(&stream[used1..]).unwrap();
    assert_eq!(payload2, encode_message(&msg2));
    assert_eq!(used1 + used2, stream.len());
}

#[test]
fn split_frame_waits_for_a_whole_frame() {
    let msg = IpcMessage::GraphSnapshot {
        name: "ab".to_owned(),
        graph: GraphIpc { nodes: vec![1], edges: vec![] },
    };
    let frame = encode_frame(&msg);
    assert!(amba::split_frame(&frame[..4]).is_none());
    assert!(amba::split_frame(&frame[..frame.len() - 1]).is_none());
    assert!(amba::split_frame(&frame).is_some());
}

#[test]
fn http_step_decides_by_status_class() {
    assert_eq!(http_step(200), HttpStep::Done);
    assert_eq!(http_step(299), HttpStep::Done);
    assert_eq!(http_step(301), HttpStep::Redirect { to_get: false });
    assert_eq!(http_step(303), HttpStep::Redirect { to_get: true });
    assert_eq!(http_step(199), HttpStep::Fail);
    assert_eq!(http_step(404), HttpStep::Fail);
    assert_eq!(http_step(500), HttpStep::Fail);
}

#[test]
fn ipc_error_distinguishes_orderly_close() {
    assert_ne!(IpcError::EndOfFile, IpcError::Transport);
}
