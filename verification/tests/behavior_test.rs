use dag_rs::Dag;
use dag_rs::DagError;
use dag_rs::NodeId;

#[test]
fn fresh_ids_are_sequential() {
    let mut dag = Dag::<i32, ()>::new();
    assert_eq!(dag.add_node(10), 0);
    assert_eq!(dag.add_node(11), 1);
    assert_eq!(dag.add_node(12), 2);
    assert_eq!(dag.add_node(13), 3);
    assert_eq!(dag.node_count(), 4);
}

#[test]
fn id_reuse_is_stack_ordered() {
    let mut dag = Dag::<(), ()>::new();
    let n0 = dag.add_node(());
    let n1 = dag.add_node(());
    let n2 = dag.add_node(());
    dag.remove_node(n0).unwrap();
    dag.remove_node(n2).unwrap();
    // most recently freed first
    assert_eq!(dag.add_node(()), n2);
    assert_eq!(dag.add_node(()), n0);
    assert_eq!(dag.add_node(()), 3);
    assert!(dag.has_node(n1));
}

#[test]
fn add_edge_rejects_missing_endpoints() {
    let mut dag = Dag::<(), ()>::new();
    let n0 = dag.add_node(());
    assert_eq!(dag.add_edge(n0, 7, ()), Err(DagError::NodeNotFound));
    assert_eq!(dag.add_edge(7, n0, ()), Err(DagError::NodeNotFound));
    let n1 = dag.add_node(());
    dag.remove_node(n1).unwrap();
    assert_eq!(dag.add_edge(n0, n1, ()), Err(DagError::NodeNotFound));
}

#[test]
fn duplicate_edge_keeps_first_payload() {
    let mut dag = Dag::<(), &str>::new();
    let n0 = dag.add_node(());
    let n1 = dag.add_node(());
    dag.add_edge(n0, n1, "first").unwrap();
    assert_eq!(dag.add_edge(n0, n1, "second"), Err(DagError::EdgeAlreadyExists));
    assert_eq!(*dag.edge_data(n0, n1).unwrap(), "first");
    assert_eq!(dag.edge_count(), 1);
}

#[test]
fn degrees_after_one_edge() {
    let mut dag = Dag::<(), ()>::new();
    let n0 = dag.add_node(());
    let n1 = dag.add_node(());
    dag.add_edge(n0, n1, ()).unwrap();
    assert_eq!(dag.indegree(n1).unwrap(), 1);
    assert_eq!(dag.outdegree(n0).unwrap(), 1);
    assert_eq!(dag.indegree(n0).unwrap(), 0);
    assert_eq!(dag.outdegree(n1).unwrap(), 0);
    assert_eq!(dag.indegree(9), Err(DagError::NodeNotFound));
    assert_eq!(dag.outdegree(9), Err(DagError::NodeNotFound));
}

#[test]
fn node_data_accessors() {
    let mut dag = Dag::<&str, ()>::new();
    let n0 = dag.add_node("alpha");
    assert_eq!(*dag.node_data(n0).unwrap(), "alpha");
    dag.set_node_data(n0, "beta").unwrap();
    assert_eq!(*dag.node_data(n0).unwrap(), "beta");
    assert_eq!(dag.node_data(5), Err(DagError::NodeNotFound));
    assert_eq!(dag.set_node_data(5, "x"), Err(DagError::NodeNotFound));
}

#[test]
fn edge_data_accessors() {
    let mut dag = Dag::<(), i64>::new();
    let n0 = dag.add_node(());
    let n1 = dag.add_node(());
    let n2 = dag.add_node(());
    dag.add_edge(n0, n1, 41).unwrap();
    dag.add_edge(n0, n2, 7).unwrap();
    assert_eq!(*dag.edge_data(n0, n1).unwrap(), 41);
    dag.set_edge_data(n0, n1, 42).unwrap();
    assert_eq!(*dag.edge_data(n0, n1).unwrap(), 42);
    assert_eq!(*dag.edge_data(n0, n2).unwrap(), 7);
    assert_eq!(dag.edge_data(n1, n0), Err(DagError::EdgeNotFound));
    assert_eq!(dag.set_edge_data(n2, n0, 0), Err(DagError::EdgeNotFound));
}

#[test]
fn counts_track_mutations() {
    let mut dag = Dag::<(), ()>::new();
    let n0 = dag.add_node(());
    let n1 = dag.add_node(());
    let n2 = dag.add_node(());
    assert_eq!(dag.node_count(), 3);
    assert_eq!(dag.edge_count(), 0);
    dag.add_edge(n0, n1, ()).unwrap();
    dag.add_edge(n1, n2, ()).unwrap();
    assert_eq!(dag.edge_count(), 2);
    dag.remove_edge(n0, n1).unwrap();
    assert_eq!(dag.edge_count(), 1);
    dag.remove_node(n1).unwrap();
    assert_eq!(dag.node_count(), 2);
    assert_eq!(dag.edge_count(), 0);
}

#[test]
fn sources_and_sinks() {
    let mut dag = Dag::<(), ()>::new();
    let n0 = dag.add_node(());
    let n1 = dag.add_node(());
    let n2 = dag.add_node(());
    dag.add_edge(n0, n1, ()).unwrap();
    dag.add_edge(n1, n2, ()).unwrap();
    assert_eq!(dag.source_nodes(), vec![n0]);
    assert_eq!(dag.sink_nodes(), vec![n2]);
    let lone = dag.add_node(());
    let sources = dag.source_nodes();
    assert!(sources.contains(&n0) && sources.contains(&lone) && sources.len() == 2);
}

#[test]
fn iteration_entry_points() {
    let mut dag = Dag::<(), ()>::new();
    let n0 = dag.add_node(());
    let n1 = dag.add_node(());
    let n2 = dag.add_node(());
    dag.add_edge(n0, n1, ()).unwrap();
    dag.add_edge(n0, n2, ()).unwrap();

    let nodes = dag.iter_nodes();
    assert_eq!(nodes.len(), 3);
    assert!(nodes.contains(&n0) && nodes.contains(&n1) && nodes.contains(&n2));

    let edges = dag.iter_edges();
    assert_eq!(edges.len(), 2);
    assert!(edges.contains(&(n0, n1)) && edges.contains(&(n0, n2)));

    let succ = dag.iter_successor(n0).unwrap();
    assert!(succ.contains(&n1) && succ.contains(&n2) && succ.len() == 2);
    let pred = dag.iter_predecessor(n1).unwrap();
    assert_eq!(pred, vec![n0]);
    assert_eq!(dag.iter_successor(9), Err(DagError::NodeNotFound));
    assert_eq!(dag.iter_predecessor(9), Err(DagError::NodeNotFound));
}

#[test]
fn never_cyclic() {
    let mut dag = Dag::<(), ()>::new();
    assert!(!dag.is_cyclic());
    let n0 = dag.add_node(());
    let n1 = dag.add_node(());
    let n2 = dag.add_node(());
    dag.add_edge(n0, n1, ()).unwrap();
    dag.add_edge(n1, n2, ()).unwrap();
    let _ = dag.add_edge(n2, n0, ());
    assert!(!dag.is_cyclic());
}

#[test]
fn clear_resets_counts_and_ids() {
    let mut dag = Dag::<(), ()>::new();
    let n0 = dag.add_node(());
    let n1 = dag.add_node(());
    let n2 = dag.add_node(());
    dag.add_edge(n0, n1, ()).unwrap();
    dag.add_edge(n1, n2, ()).unwrap();
    dag.remove_node(n2).unwrap();
    dag.clear();
    assert_eq!(dag.node_count(), 0);
    assert_eq!(dag.edge_count(), 0);
    assert!(!dag.has_node(n0) && !dag.has_node(n1) && !dag.has_node(n2));
    // the id counter starts over
    assert_eq!(dag.add_node(()), 0);
}

#[test]
fn failed_insert_leaves_graph_unchanged() {
    let mut dag = Dag::<(), &str>::new();
    let n0 = dag.add_node(());
    let n1 = dag.add_node(());
    let n2 = dag.add_node(());
    dag.add_edge(n0, n1, "a").unwrap();
    dag.add_edge(n1, n2, "b").unwrap();
    assert_eq!(dag.add_edge(n2, n0, "c"), Err(DagError::CycleDetected));
    assert_eq!(dag.edge_count(), 2);
    assert!(!dag.has_edge(n2, n0));
    assert_eq!(*dag.edge_data(n0, n1).unwrap(), "a");
    assert_eq!(*dag.edge_data(n1, n2).unwrap(), "b");
}

#[test]
fn topological_sort_on_diamond_with_gap() {
    let mut dag = Dag::<(), ()>::new();
    let ids: Vec<NodeId> = (0..5).map(|_| dag.add_node(())).collect();
    dag.remove_node(ids[2]).unwrap();
    dag.add_edge(ids[4], ids[0], ()).unwrap();
    dag.add_edge(ids[4], ids[1], ()).unwrap();
    dag.add_edge(ids[0], ids[3], ()).unwrap();
    dag.add_edge(ids[1], ids[3], ()).unwrap();
    let sorted = dag.topological_sort().unwrap();
    assert_eq!(sorted.len(), dag.node_count());
    let pos = |x: NodeId| sorted.iter().position(|&y| y == x).unwrap();
    assert!(pos(ids[4]) < pos(ids[0]));
    assert!(pos(ids[4]) < pos(ids[1]));
    assert!(pos(ids[0]) < pos(ids[3]));
    assert!(pos(ids[1]) < pos(ids[3]));
}

#[test]
fn longer_path_cycle_rejected() {
    let mut dag = Dag::<(), ()>::new();
    let ids: Vec<NodeId> = (0..6).map(|_| dag.add_node(())).collect();
    for w in ids.windows(2) {
        dag.add_edge(w[0], w[1], ()).unwrap();
    }
    // closing the chain anywhere backwards is refused
    assert_eq!(dag.add_edge(ids[5], ids[0], ()), Err(DagError::CycleDetected));
    assert_eq!(dag.add_edge(ids[3], ids[1], ()), Err(DagError::CycleDetected));
    // a forward shortcut is fine
    assert!(dag.add_edge(ids[0], ids[5], ()).is_ok());
}

#[test]
fn error_messages() {
    assert_eq!(DagError::NodeNotFound.message(), "Node Not Found");
    assert_eq!(DagError::EdgeNotFound.message(), "Edge Not Found");
    assert_eq!(DagError::InvalidNodeId.message(), "Invalid Node ID");
    assert_eq!(DagError::EdgeAlreadyExists.message(), "Edge Already Exists");
    assert_eq!(DagError::CycleDetected.message(), "Cycle Detected");
}

#[test]
fn default_is_empty() {
    let dag = Dag::<u8, u8>::default();
    assert_eq!(dag.node_count(), 0);
    assert_eq!(dag.edge_count(), 0);
    assert!(!dag.has_node(0));
}

#[test]
fn remove_node_twice_fails() {
    let mut dag = Dag::<(), ()>::new();
    let n0 = dag.add_node(());
    dag.remove_node(n0).unwrap();
    assert_eq!(dag.remove_node(n0), Err(DagError::NodeNotFound));
    assert_eq!(dag.remove_node(3), Err(DagError::NodeNotFound));
}
