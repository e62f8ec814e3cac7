use graphalgorithms_feedback_arc_set::graphs::{graph_from_wikipedia_scc, graph_with_multiple_cliques};
use graphalgorithms_feedback_arc_set::hash_table::HashTable;
use graphalgorithms_feedback_arc_set::stochastic_evolution::StochasticEvolution;
use std::collections::HashSet;

fn check_bisection(graph: &HashTable, partition_1: Vec<u32>, partition_2: Vec<u32>) {
    let partition_1: HashSet<u32> = partition_1.into_iter().collect();
    let partition_2: HashSet<u32> = partition_2.into_iter().collect();
    let graph_vertices = HashSet::from_iter(graph.vertices().into_iter());
    assert_eq!(graph_vertices.len(), partition_1.len() + partition_2.len());
    assert!(partition_1.is_subset(&graph_vertices));
    assert!(partition_2.is_subset(&graph_vertices));
    assert!(partition_1.is_disjoint(&partition_2));
}

#[test]
fn mod_works_on_wikipedia_scc() {
    let graph = graph_from_wikipedia_scc();
    let (partition_1, partition_2) = StochasticEvolution::new(&graph, 0).bisection();
    check_bisection(&graph, partition_1, partition_2);
}

#[test]
fn stochastic_evolution_works_on_wikipedia_scc() {
    let graph = graph_from_wikipedia_scc();
    let (partition_1, partition_2) = StochasticEvolution::new(&graph, 42).bisection();
    check_bisection(&graph, partition_1, partition_2);
}

#[test]
fn move_vertex_works() {
    let graph = graph_from_wikipedia_scc();
    let mut algorithm = StochasticEvolution::new(&graph, 0);

    let i_to_move = 3;

    assert!(algorithm.in_first_part(i_to_move));

    algorithm.move_vertex(i_to_move);

    assert!(!algorithm.in_first_part(i_to_move));
}

#[test]
fn gain_works() {
    let graph = graph_from_wikipedia_scc();
    let mut algorithm = StochasticEvolution::new(&graph, 0);

    let i_to_move = 3;

    let gain = algorithm.gain(i_to_move);
    let gain_back = algorithm.gain(i_to_move);

    assert_eq!(gain + gain_back, 0);
    assert_eq!(gain.abs(), gain_back.abs());
}

#[test]
fn cost_works() {
    let graph = graph_from_wikipedia_scc();
    let algorithm = StochasticEvolution::new(&graph, 0);

    let cost_1 = algorithm.cost();
    let cost_2 = algorithm.cost();

    assert_eq!(cost_1, cost_2);
    assert_eq!(cost_1, 2);
}

#[test]
fn gain_of_a_move_matches_the_cost_change() {
    let graph = HashTable::from_edges(&[(0, 1), (1, 2), (2, 0)]);
    let mut algorithm = StochasticEvolution::new(&graph, 0);
    assert_eq!(algorithm.cost(), 1);
    assert_eq!(algorithm.gain(1), 0);
    assert_eq!(algorithm.gain(2), 0);
    assert_eq!(algorithm.gain(0), 1);
    assert_eq!(algorithm.cost(), 1);
}

#[test]
fn bisection_is_balanced() {
    let graph = graph_with_multiple_cliques();
    for seed in 0..5 {
        let (first, second) = StochasticEvolution::new(&graph, seed).bisection();
        assert_eq!(first.len() + second.len(), 19);
        assert!(5 * first.len() <= 3 * 19);
        assert!(5 * second.len() <= 3 * 19);
        check_bisection(&graph, first, second);
    }
}

#[test]
fn bisection_of_three_vertices_splits_one_and_two() {
    let graph = HashTable::from_edges(&[(0, 1), (1, 2), (2, 0)]);
    let (first, second) = StochasticEvolution::new(&graph, 5).bisection();
    let mut sizes = [first.len(), second.len()];
    sizes.sort();
    assert_eq!(sizes, [1, 2]);
}

#[test]
fn bisection_with_custom_balance() {
    let graph = graph_with_multiple_cliques();
    let (first, second) = StochasticEvolution::new(&graph, 1).with_balance(1, 2).bisection();
    assert!(first.len() <= 10 && second.len() <= 10);
    check_bisection(&graph, first, second);
}

#[test]
fn bisection_of_empty_graph_is_empty() {
    let graph = HashTable::new();
    let (first, second) = StochasticEvolution::new(&graph, 0).bisection();
    assert!(first.is_empty() && second.is_empty());
}

#[test]
fn bisection_is_reproducible_for_a_seed() {
    let graph = graph_with_multiple_cliques();
    let first = StochasticEvolution::new(&graph, 11).bisection();
    let second = StochasticEvolution::new(&graph, 11).bisection();
    assert_eq!(first, second);
}
