use graphalgorithms_feedback_arc_set::cycle::CycleDetection;
use graphalgorithms_feedback_arc_set::hash_table::HashTable;

#[test]
fn is_cyclic() {
    let mut graph = HashTable::new();
    graph.add_edge((0, 1));
    graph.add_edge((1, 2));
    graph.add_edge((2, 0));
    let mut dfs = CycleDetection::new(&graph);

    assert!(dfs.is_cyclic());
}

#[test]
fn is_acyclic() {
    let mut graph = HashTable::new();
    graph.add_edge((0, 1));
    graph.add_edge((1, 2));
    let mut dfs = CycleDetection::new(&graph);

    assert!(!dfs.is_cyclic());
}

#[test]
fn self_loop_is_a_cycle() {
    let graph = HashTable::from_edges(&[(4, 4)]);
    assert!(graph.is_cyclic());
}

#[test]
fn empty_graph_is_acyclic() {
    assert!(!HashTable::new().is_cyclic());
}

#[test]
fn cycle_search_from_a_vertex_sees_only_what_it_reaches() {
    let graph = HashTable::from_edges(&[(0, 1), (2, 3), (3, 2)]);
    let mut dfs = CycleDetection::new(&graph);
    dfs.reset();
    assert!(!dfs.is_cyclic_util(0));
    assert!(dfs.is_cyclic_util(2));
}
