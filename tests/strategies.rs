use graphalgorithms_feedback_arc_set::divide_and_conquer_by_bisection::DivideAndConquerByBisectionHeuristic;
use graphalgorithms_feedback_arc_set::divide_and_conquer_by_order_heuristic::DivideAndConquerByOrderHeuristic;
use graphalgorithms_feedback_arc_set::feedback_arc_set::FeedbackArcSet;
use graphalgorithms_feedback_arc_set::graphs::{
    graph_from_wikipedia_scc, graph_with_multiple_cliques, graph_with_simple_clique,
};
use graphalgorithms_feedback_arc_set::greedy::GreedyHeuristic;
use graphalgorithms_feedback_arc_set::hash_table::{Edge, HashTable};
use graphalgorithms_feedback_arc_set::simple_heuristic::SimpleHeuristic;
use graphalgorithms_feedback_arc_set::stupid::Stupid;
use std::collections::HashSet;

fn test_feedback_arc_set(fas: &[Edge], cyclic_graph: &HashTable) {
    let mut acyclic_graph = cyclic_graph.clone();
    for e in fas {
        assert!(cyclic_graph.has_edge(e.0, e.1));
        acyclic_graph.remove_edge(*e);
    }
    assert!(!acyclic_graph.is_cyclic(), "Graph still has cycles!");
}

fn is_subset(fas: &[Edge], edges: &[Edge]) -> bool {
    let edges: HashSet<Edge> = edges.iter().copied().collect();
    fas.iter().all(|e| edges.contains(e))
}

#[test]
fn lib_it_works() {
    let result = 2 + 2;
    assert_eq!(result, 4);
}

#[test]
fn stupid_it_works() {
    let graph = graph_with_multiple_cliques();
    let fas = Stupid::compute_fas(&graph);
    println!("{:?}", fas);
    test_feedback_arc_set(&fas, &graph);
    assert_eq!(fas.len(), 3);
}

#[test]
fn stupid_returns_nothing_for_acyclic_graph() {
    let graph = HashTable::complete(5);
    assert!(Stupid::compute_fas(&graph).is_empty());
}

#[test]
fn stupid_finds_one_edge_in_simple_clique() {
    let edges = [(0, 1), (1, 2), (2, 0)];
    let clique = HashTable::from_edges(&edges);
    let fas = Stupid::compute_fas(&clique);
    assert_eq!(fas.len(), 1);
    assert!(is_subset(&fas, &edges));
}

#[test]
fn divide_and_conquer_by_bisection_works_on_simple_clique() {
    let edges = [(0, 1), (1, 2), (2, 0)];
    let clique = HashTable::from_edges(&edges);

    let fas = DivideAndConquerByBisectionHeuristic { graph: &clique, seed: 0 }.feedback_arc_set();

    assert_eq!(fas.len(), 1);
    assert!(is_subset(&fas, &edges));
}

#[test]
fn divide_and_conquer_by_bisection_works_on_multiple_cliques() {
    let cyclic_graph = graph_with_multiple_cliques();
    let algorithm = DivideAndConquerByBisectionHeuristic::new(&cyclic_graph, 0);
    test_feedback_arc_set(&algorithm.feedback_arc_set(), &cyclic_graph);
}

#[test]
fn divide_and_conquer_by_bisection_works_on_wikipedia_scc() {
    let cyclic_graph = graph_from_wikipedia_scc();
    let algorithm = DivideAndConquerByBisectionHeuristic::new(&cyclic_graph, 0);
    test_feedback_arc_set(&algorithm.feedback_arc_set(), &cyclic_graph);
}

#[test]
fn divide_and_conquer_by_order_heuristic_works_on_simple_clique() {
    let edges = [(0, 1), (1, 2), (2, 0)];
    let clique = HashTable::from_edges(&edges);

    let fas = DivideAndConquerByOrderHeuristic { graph: &clique }.feedback_arc_set();

    assert_eq!(fas.len(), 1);
    assert!(is_subset(&fas, &edges));
}

#[test]
fn divide_and_conquer_by_order_heuristic_works_on_multiple_cliques() {
    let cyclic_graph = graph_with_multiple_cliques();
    let algorithm = DivideAndConquerByOrderHeuristic {
        graph: &cyclic_graph,
    };
    test_feedback_arc_set(&algorithm.feedback_arc_set(), &cyclic_graph);
}

#[test]
fn divide_and_conquer_by_order_heuristic_works_on_wikipedia_scc() {
    let cyclic_graph = graph_from_wikipedia_scc();
    let algorithm = DivideAndConquerByOrderHeuristic {
        graph: &cyclic_graph,
    };
    test_feedback_arc_set(&algorithm.feedback_arc_set(), &cyclic_graph);
}

#[test]
fn deterministic_on_simple_clique() {
    let clique = HashTable::from_edges(&[(1, 2), (2, 3), (3, 1)]);

    let edges = GreedyHeuristic { graph: &clique }.feedback_arc_set();

    assert_eq!(edges.len(), 1);
    assert_eq!(edges.get(0).unwrap().0, 2);
    assert_eq!(edges.get(0).unwrap().1, 3);
}

#[test]
fn feedback_arc_set_works_on_multiple_cliques() {
    let cyclic_graph = graph_with_multiple_cliques();
    let removable_edges = GreedyHeuristic { graph: &cyclic_graph }.feedback_arc_set();
    test_feedback_arc_set(&removable_edges, &cyclic_graph);
    assert_eq!(removable_edges.len(), 4);
}

#[test]
fn greedy_works_on_wikipedia_scc() {
    let cyclic_graph = graph_from_wikipedia_scc();
    let fas = GreedyHeuristic::new(&cyclic_graph).feedback_arc_set();
    test_feedback_arc_set(&fas, &cyclic_graph);
}

#[test]
fn greedy_is_idempotent() {
    let graph = graph_with_multiple_cliques();
    let first = GreedyHeuristic::new(&graph).feedback_arc_set();
    let second = GreedyHeuristic::new(&graph).feedback_arc_set();
    assert_eq!(first, second);
}

#[test]
fn order_heuristic_is_idempotent() {
    let graph = graph_from_wikipedia_scc();
    let first = DivideAndConquerByOrderHeuristic::new(&graph).feedback_arc_set();
    let second = DivideAndConquerByOrderHeuristic::new(&graph).feedback_arc_set();
    assert_eq!(first, second);
}

#[test]
fn simple_heuristic_works_on_multiple_cliques() {
    let cyclic_graph = graph_with_multiple_cliques();
    for seed in 0..20 {
        let fas = SimpleHeuristic::new(&cyclic_graph, seed).feedback_arc_set();
        test_feedback_arc_set(&fas, &cyclic_graph);
        assert!(fas.len() <= cyclic_graph.edge_count() / 2);
    }
}

#[test]
fn simple_heuristic_works_on_wikipedia_scc() {
    let cyclic_graph = graph_from_wikipedia_scc();
    let fas = SimpleHeuristic::new(&cyclic_graph, 7).feedback_arc_set();
    test_feedback_arc_set(&fas, &cyclic_graph);
    assert!(fas.len() <= 14 / 2);
}

#[test]
fn simple_heuristic_is_reproducible_for_a_seed() {
    let graph = graph_with_multiple_cliques();
    let first = SimpleHeuristic::new(&graph, 3).feedback_arc_set();
    let second = SimpleHeuristic::new(&graph, 3).feedback_arc_set();
    assert_eq!(first, second);
}

#[test]
fn every_strategy_finds_one_edge_of_a_triangle() {
    let clique = graph_with_simple_clique();
    let edges = [(0, 1), (1, 2), (2, 0)];
    for fas in [
        GreedyHeuristic::new(&clique).feedback_arc_set(),
        DivideAndConquerByOrderHeuristic::new(&clique).feedback_arc_set(),
        DivideAndConquerByBisectionHeuristic::new(&clique, 1).feedback_arc_set(),
    ] {
        assert_eq!(fas.len(), 1);
        assert!(is_subset(&fas, &edges));
    }
}

#[test]
fn strategies_return_nothing_on_acyclic_graph() {
    let graph = HashTable::complete(6);
    assert!(GreedyHeuristic::new(&graph).feedback_arc_set().is_empty());
    assert!(DivideAndConquerByOrderHeuristic::new(&graph).feedback_arc_set().is_empty());
    assert!(DivideAndConquerByBisectionHeuristic::new(&graph, 0).feedback_arc_set().is_empty());
}

#[test]
fn strategies_handle_self_loops() {
    let graph = HashTable::from_edges(&[(0, 0), (0, 1), (1, 0)]);
    test_feedback_arc_set(&GreedyHeuristic::new(&graph).feedback_arc_set(), &graph);
    test_feedback_arc_set(&DivideAndConquerByOrderHeuristic::new(&graph).feedback_arc_set(), &graph);
    test_feedback_arc_set(&DivideAndConquerByBisectionHeuristic::new(&graph, 0).feedback_arc_set(), &graph);
    test_feedback_arc_set(&SimpleHeuristic::new(&graph, 0).feedback_arc_set(), &graph);
    test_feedback_arc_set(&Stupid::compute_fas(&graph), &graph);
}

#[test]
fn strategies_on_empty_graph() {
    let graph = HashTable::new();
    assert!(GreedyHeuristic::new(&graph).feedback_arc_set().is_empty());
    assert!(SimpleHeuristic::new(&graph, 0).feedback_arc_set().is_empty());
    assert!(Stupid::compute_fas(&graph).is_empty());
}

#[test]
fn simple_heuristic_on_a_lone_self_loop_takes_it() {
    let graph = HashTable::from_edges(&[(0, 0)]);
    let fas = SimpleHeuristic::new(&graph, 0).feedback_arc_set();
    assert_eq!(fas, vec![(0, 0)]);
}

#[test]
fn simple_heuristic_halves_a_two_cycle() {
    let graph = HashTable::from_edges(&[(0, 1), (1, 0)]);
    for seed in 0..10 {
        let fas = SimpleHeuristic::new(&graph, seed).feedback_arc_set();
        assert_eq!(fas.len(), 1);
        test_feedback_arc_set(&fas, &graph);
    }
}
