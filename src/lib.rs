//! Feedback arc set heuristics and exact search on directed graphs, with the
//! graph model, cycle detection, strongly connected components, indegree
//! ordering and a stochastic bisection engine they are built from.

pub mod cycle;
pub mod divide_and_conquer_by_bisection;
pub mod divide_and_conquer_by_order_heuristic;
pub mod feedback_arc_set;
pub mod graphs;
pub mod greedy;
pub mod hash_table;
pub mod metis;
pub mod random;
pub mod simple_heuristic;
pub mod stochastic_evolution;
pub mod stupid;
pub mod tarjan;
pub mod topological_sort;
