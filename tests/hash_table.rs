use graphalgorithms_feedback_arc_set::hash_table::{Direction, HashTable};
use rand::SeedableRng;

#[test]
fn add_edges() {
    let mut graph = HashTable::new();
    for u in 0..5 {
        for v in (u + 1)..5 {
            graph.add_edge((u, v));
            graph.add_edge((v, u));
        }
    }

    for u in 0..5 {
        assert_eq!(graph.degree(u), 4);
    }

    for u in 0..5 {
        for v in (u + 1)..5 {
            assert!(graph.has_edge(u, v));
        }
    }

    for u in 0..5 {
        assert!(!graph.has_edge(u, u));
    }
}

#[test]
fn neighborhood() {
    let mut graph = HashTable::new();

    let to_add = vec![3, 4, 1, 1, 4];
    let u = 2;
    for v in &to_add {
        graph.add_edge((u, *v));
    }

    let mut added: Vec<_> = graph.neighborhood(&u).to_vec();
    added.sort_unstable();

    assert_eq!(added, vec![1, 3, 4]);
}

#[test]
fn empty_graph_has_no_vertices() {
    let graph = HashTable::new();
    assert_eq!(graph.order(), 0);
    assert_eq!(graph.edge_count(), 0);
    assert!(graph.vertices().is_empty());
    assert!(graph.neighborhood(&7).is_empty());
}

#[test]
fn add_edge_adds_both_endpoints_once() {
    let mut graph = HashTable::new();
    graph.add_edge((2, 3));
    assert_eq!(graph.order(), 2);
    graph.add_edge((2, 3));
    assert_eq!(graph.edge_count(), 1);
    assert_eq!(graph.vertices(), vec![2, 3]);
}

#[test]
fn from_vertices_and_edges_keeps_isolated_vertices() {
    let graph = HashTable::from_vertices_and_edges(&[1, 2, 3], &[(1, 2)]);
    assert_eq!(graph.order(), 3);
    assert_eq!(graph.edge_count(), 1);
    assert!(graph.has_edge(1, 2));
    assert!(!graph.has_edge(2, 1));
}

#[test]
fn edges_by_direction() {
    let graph = HashTable::from_edges(&[(0, 1), (2, 1), (1, 3)]);
    let mut inbound = graph.edges(1, Direction::Inbound);
    inbound.sort();
    assert_eq!(inbound, vec![(0, 1), (2, 1)]);
    assert_eq!(graph.edges(1, Direction::Outbound), vec![(1, 3)]);
}

#[test]
fn remove_vertex_purges_its_edges() {
    let mut graph = HashTable::from_edges(&[(0, 1), (1, 2), (2, 0), (2, 3)]);
    graph.remove_vertex(2);
    assert_eq!(graph.order(), 3);
    assert_eq!(graph.edge_count(), 1);
    assert!(graph.has_edge(0, 1));
    assert!(graph.neighborhood(&1).is_empty());
    assert!(!graph.vertices().contains(&2));
}

#[test]
fn remove_edge_keeps_vertices() {
    let mut graph = HashTable::from_edges(&[(0, 1), (1, 2)]);
    graph.remove_edge((0, 1));
    graph.remove_edge((5, 6));
    assert_eq!(graph.order(), 3);
    assert!(!graph.has_edge(0, 1));
    assert!(graph.has_edge(1, 2));
}

#[test]
fn induced_subgraph_keeps_inner_edges() {
    let graph = HashTable::from_edges(&[(0, 1), (1, 2), (2, 0), (2, 3)]);
    let sub = HashTable::from_graph(&graph, &[0, 1, 2]);
    assert_eq!(sub.order(), 3);
    assert_eq!(sub.edge_count(), 3);
    assert!(!sub.has_edge(2, 3));
}

#[test]
fn edges_from_to_selects_crossing_edges() {
    let graph = HashTable::from_edges(&[(0, 1), (1, 2), (2, 0), (2, 3)]);
    let mut crossing = graph.edges_from_to(&[2], &[0, 3]);
    crossing.sort();
    assert_eq!(crossing, vec![(2, 0), (2, 3)]);
}

#[test]
fn complete_graph_has_all_forward_edges() {
    let graph = HashTable::complete(4);
    assert_eq!(graph.order(), 4);
    assert_eq!(graph.edge_count(), 6);
    assert!(graph.has_edge(0, 3));
    assert!(!graph.has_edge(3, 0));
    assert!(!graph.is_cyclic());
}

#[test]
fn clone_is_independent() {
    let graph = HashTable::from_edges(&[(0, 1), (1, 0)]);
    let mut copy = graph.clone();
    copy.remove_edge((1, 0));
    assert!(graph.has_edge(1, 0));
    assert!(!copy.has_edge(1, 0));
}

#[test]
fn random_vertex_is_a_vertex() {
    let graph = HashTable::from_edges(&[(10, 20), (20, 30)]);
    let mut rng = rand::rngs::StdRng::seed_from_u64(9);
    for _ in 0..50 {
        let v = graph.random_vertex(&mut rng);
        assert!(graph.vertices().contains(&v));
    }
}

#[test]
fn complete_graph_of_one_vertex_has_that_vertex() {
    let graph = HashTable::complete(1);
    assert_eq!(graph.order(), 1);
    assert_eq!(graph.edge_count(), 0);
    assert_eq!(HashTable::complete(0).order(), 0);
}
