use graphalgorithms_feedback_arc_set::graphs::{
    graph_from_wikipedia_scc, graph_with_multiple_cliques, graph_with_simple_clique,
};
use graphalgorithms_feedback_arc_set::hash_table::{Direction, HashTable, VertexId};
use graphalgorithms_feedback_arc_set::topological_sort::{leftward_edges, TopologicalSort};

fn assert_indegree_increasing(clique: HashTable, order: Vec<VertexId>) {
    let mut last_edge_count_in = usize::MIN;
    for v in order {
        let edge_count_in = clique.edges(v, Direction::Inbound).len();
        assert!(edge_count_in >= last_edge_count_in);
        last_edge_count_in = edge_count_in;
    }
}

#[test]
fn topological_sort_works_on_simple_clique() {
    let clique = graph_with_simple_clique();

    let order = TopologicalSort::new(&clique).sort_by_indegree_asc();

    assert_eq!(order.len(), 3);
    assert_indegree_increasing(clique, order);
}

#[test]
fn topological_sort_works_on_multiple_cliques() {
    let cyclic_graph = graph_with_multiple_cliques();
    let order = TopologicalSort::new(&cyclic_graph).sort_by_indegree_asc();

    assert_eq!(order.len(), 19);
    assert_indegree_increasing(cyclic_graph, order);
}

#[test]
fn topological_sort_works_on_wikipedia_scc() {
    let cyclic_graph = graph_from_wikipedia_scc();
    let order = TopologicalSort::new(&cyclic_graph).sort_by_indegree_asc();

    assert_eq!(order.len(), 8);
    assert_indegree_increasing(cyclic_graph, order);
}

#[test]
fn sort_keeps_storage_order_on_ties() {
    let graph = HashTable::from_edges(&[(5, 1), (1, 3), (3, 5), (7, 3)]);
    let order = TopologicalSort::new(&graph).sort_by_indegree_asc();
    assert_eq!(order, vec![7, 5, 1, 3]);
}

#[test]
fn leftward_edges_include_backward_and_self_edges() {
    let graph = HashTable::from_edges(&[(0, 1), (1, 2), (2, 0), (1, 1)]);
    let mut left = leftward_edges(&graph, vec![0, 1, 2]);
    left.sort();
    assert_eq!(left, vec![(1, 1), (2, 0)]);
}

#[test]
fn leftward_edges_of_a_topological_order_are_empty() {
    let graph = HashTable::from_edges(&[(0, 1), (1, 2), (0, 2)]);
    assert!(leftward_edges(&graph, vec![0, 1, 2]).is_empty());
}
