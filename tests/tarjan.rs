use graphalgorithms_feedback_arc_set::graphs::{
    graph_from_wikipedia_scc, graph_with_multiple_cliques, graph_with_simple_clique,
};
use graphalgorithms_feedback_arc_set::hash_table::HashTable;
use graphalgorithms_feedback_arc_set::tarjan::{StronglyConnectedComponents, Tarjan};
use std::collections::HashSet;

fn components(graph: &HashTable) -> Vec<HashSet<u32>> {
    Tarjan::new(graph)
        .strongly_connected_components()
        .into_iter()
        .map(|c| c.into_iter().collect())
        .collect()
}

#[test]
fn tarjan_works_on_simple_clique() {
    let clique = graph_with_simple_clique();
    let sc_components = components(&clique);

    assert_eq!(sc_components.len(), 1);
    assert_eq!(
        *sc_components.get(0).unwrap(),
        HashSet::from_iter(clique.vertices())
    );
}

#[test]
fn tarjan_works_on_multiple_cliques() {
    let cyclic_graph = graph_with_multiple_cliques();
    let sc_components = components(&cyclic_graph);

    assert_eq!(sc_components.len(), 4);

    let scc_1 = HashSet::from([18]);
    let scc_2 = HashSet::from([17]);
    let scc_3 = HashSet::from([0]);
    let scc_4 = cyclic_graph
        .vertices()
        .into_iter()
        .filter(|&v| v != 18 && v != 17 && v != 0)
        .collect();
    assert!(sc_components.contains(&scc_1));
    assert!(sc_components.contains(&scc_2));
    assert!(sc_components.contains(&scc_3));
    assert!(sc_components.contains(&scc_4));
}

#[test]
fn tarjan_works_on_wikipedia_scc() {
    let cyclic_graph = graph_from_wikipedia_scc();
    let sc_components = components(&cyclic_graph);

    assert_eq!(sc_components.len(), 3);

    let scc_1 = HashSet::from([1, 2, 5]);
    let scc_2 = HashSet::from([3, 4, 8]);
    let scc_3 = HashSet::from([6, 7]);
    assert!(sc_components.contains(&scc_1));
    assert!(sc_components.contains(&scc_2));
    assert!(sc_components.contains(&scc_3));
}

#[test]
fn components_partition_the_vertices() {
    let graph = graph_with_multiple_cliques();
    let sc_components = components(&graph);
    let mut seen = HashSet::new();
    for c in &sc_components {
        assert!(!c.is_empty());
        for v in c {
            assert!(seen.insert(*v));
        }
    }
    assert_eq!(seen, graph.vertices().into_iter().collect::<HashSet<_>>());
}

#[test]
fn acyclic_graph_has_singleton_components() {
    let graph = HashTable::from_edges(&[(0, 1), (1, 2), (0, 2)]);
    let sc_components = components(&graph);
    assert_eq!(sc_components.len(), 3);
    assert!(sc_components.iter().all(|c| c.len() == 1));
}

#[test]
fn empty_graph_has_no_components() {
    assert!(components(&HashTable::new()).is_empty());
}

#[test]
fn components_come_in_reverse_topological_order() {
    for graph in [graph_with_multiple_cliques(), graph_from_wikipedia_scc()] {
        let sc_components = Tarjan::new(&graph).strongly_connected_components();
        let part_of = |v: u32| sc_components.iter().position(|c| c.contains(&v)).unwrap();
        for v in graph.vertices() {
            for w in graph.neighborhood(&v) {
                assert!(part_of(*w) <= part_of(v));
            }
        }
    }
}
