use dag_rs::Dag;
use dag_rs::DagError;

#[test]
fn test_add_and_has_node() {
    let mut dag = Dag::<&str, ()>::new();
    let n0 = dag.add_node("A");
    let n1 = dag.add_node("B");

    assert!(dag.has_node(n0));
    assert!(dag.has_node(n1));
    assert!(!dag.has_node(99));
    assert_eq!(dag.all_nodes().len(), 2);
}

#[test]
fn test_add_and_has_edge() {
    let mut dag = Dag::<(), &str>::new();
    let n0 = dag.add_node(());
    let n1 = dag.add_node(());
    let n2 = dag.add_node(());

    assert!(dag.add_edge(n0, n1, "n0->n1").is_ok());
    assert!(dag.add_edge(n1, n2, "n1->n2").is_ok());

    assert!(dag.has_edge(n0, n1));
    assert!(!dag.has_edge(n1, n0));
    assert_eq!(dag.indegree(n1).unwrap(), 1);
    assert_eq!(dag.outdegree(n1).unwrap(), 1);
    assert_eq!(dag.successors(n0).unwrap(), vec![n1]);
    assert_eq!(dag.predecessors(n2).unwrap(), vec![n1]);
}

#[test]
fn test_cycle_detection() {
    let mut dag = Dag::<(), ()>::new();
    let n0 = dag.add_node(());
    let n1 = dag.add_node(());
    let n2 = dag.add_node(());

    dag.add_edge(n0, n1, ()).unwrap();
    dag.add_edge(n1, n2, ()).unwrap();

    // n2 -> n0 would close the cycle n0 -> n1 -> n2 -> n0
    assert_eq!(dag.add_edge(n2, n0, ()), Err(DagError::CycleDetected));
    // a self-loop is a cycle as well
    assert_eq!(dag.add_edge(n0, n0, ()), Err(DagError::CycleDetected));
}

#[test]
fn test_topological_sort() {
    let mut dag = Dag::<(), ()>::new();
    let n0 = dag.add_node(()); // source
    let n1 = dag.add_node(());
    let n2 = dag.add_node(());
    let n3 = dag.add_node(()); // sink

    //  n0 --> n1 --> n3
    //   \-> n2 --/
    dag.add_edge(n0, n1, ()).unwrap();
    dag.add_edge(n1, n3, ()).unwrap();
    dag.add_edge(n0, n2, ()).unwrap();
    dag.add_edge(n2, n3, ()).unwrap();

    let sorted = dag.topological_sort().unwrap();

    // valid orders: [0, 1, 2, 3] or [0, 2, 1, 3]
    assert_eq!(sorted.len(), 4);
    assert_eq!(sorted[0], n0);
    assert_eq!(sorted[3], n3);
    assert!((sorted[1] == n1 && sorted[2] == n2) || (sorted[1] == n2 && sorted[2] == n1));
}

#[test]
fn test_remove_edge() {
    let mut dag = Dag::<(), ()>::new();
    let n0 = dag.add_node(());
    let n1 = dag.add_node(());

    dag.add_edge(n0, n1, ()).unwrap();
    assert!(dag.has_edge(n0, n1));
    assert_eq!(dag.indegree(n1).unwrap(), 1);

    assert!(dag.remove_edge(n0, n1).is_ok());
    assert!(!dag.has_edge(n0, n1));
    assert_eq!(dag.indegree(n1).unwrap(), 0);

    // removing an absent edge fails
    assert_eq!(dag.remove_edge(n0, n1), Err(DagError::EdgeNotFound));
}

#[test]
fn test_remove_node() {
    let mut dag = Dag::<(), ()>::new();
    let n0 = dag.add_node(());
    let n1 = dag.add_node(());
    let n2 = dag.add_node(());

    // n0 -> n1 -> n2
    dag.add_edge(n0, n1, ()).unwrap();
    dag.add_edge(n1, n2, ()).unwrap();

    // removing n1 must drop both incident edges
    assert!(dag.remove_node(n1).is_ok());

    assert!(!dag.has_node(n1));
    assert_eq!(dag.all_nodes().len(), 2);
    assert!(!dag.has_edge(n0, n1));
    assert!(!dag.has_edge(n1, n2));
    assert_eq!(dag.outdegree(n0).unwrap(), 0);
    assert_eq!(dag.indegree(n2).unwrap(), 0);

    // the freed id is reused by the next add_node
    let n3 = dag.add_node(());
    assert_eq!(n3, n1);
    assert!(dag.has_node(n3));
    assert_eq!(dag.all_nodes().len(), 3);
}

#[test]
fn test_clear() {
    let mut dag = Dag::<(), ()>::new();
    let n0 = dag.add_node(());
    let n1 = dag.add_node(());
    dag.add_edge(n0, n1, ()).unwrap();

    dag.clear();
    assert_eq!(dag.all_nodes().len(), 0);
    assert!(!dag.has_node(n0));
    assert!(!dag.has_node(n1));
}
