use crate::hash_table::{Edge, HashTable, VertexId};
use vstd::prelude::*;

verus! {

/// Edges of a graph of nineteen vertices whose strongly connected components
/// are `{0}`, `{17}`, `{18}` and the sixteen other vertices.
pub open spec fn multiple_cliques_edges() -> Seq<Edge> {
    seq![
        (0, 1), (0, 7), (1, 2), (1, 3), (2, 4), (2, 5), (2, 6), (3, 7), (6, 8), (6, 9), (7, 9),
        (5, 10), (8, 10), (9, 10), (4, 11), (4, 12), (12, 11), (10, 13), (11, 13), (10, 14),
        (14, 15), (14, 16), (16, 15), (16, 17), (17, 18), (12, 18), (13, 2), (7, 1), (6, 7),
        (15, 10), (15, 13),
    ]
}

/// Edges of the strongly connected component example of Wikipedia, with the
/// vertices a to h numbered 1 to 8.
pub open spec fn wikipedia_scc_edges() -> Seq<Edge> {
    seq![
        (1, 2), (2, 3), (3, 4), (4, 3), (4, 8), (8, 4), (8, 7), (3, 7), (7, 6), (6, 7), (2, 6),
        (2, 5), (5, 6), (5, 1),
    ]
}

/// Edges of the cycle 0 -> 1 -> 2 -> 0.
pub open spec fn simple_clique_edges() -> Seq<Edge> {
    seq![(0, 1), (1, 2), (2, 0)]
}

/// Four strongly connected components, of sizes 1, 1, 1 and 16.
pub fn graph_with_multiple_cliques() -> (r: HashTable)
    ensures
        r@.wf(),
        r@.edges() == multiple_cliques_edges().to_set(),
        r@.edges().len() == 31,
        forall|v: VertexId| #[trigger] r@.vertices().contains(v) <==> 0 <= v <= 18,
{
    let edges: Vec<Edge> = vec![
        (0, 1), (0, 7), (1, 2), (1, 3), (2, 4), (2, 5), (2, 6), (3, 7), (6, 8), (6, 9), (7, 9),
        (5, 10), (8, 10), (9, 10), (4, 11), (4, 12), (12, 11), (10, 13), (11, 13), (10, 14),
        (14, 15), (14, 16), (16, 15), (16, 17), (17, 18), (12, 18), (13, 2), (7, 1), (6, 7),
        (15, 10), (15, 13),
    ];
    assert(edges@ =~= multiple_cliques_edges());
    let r = HashTable::from_edges(edges.as_slice());
    proof {
        let es = multiple_cliques_edges();
        assert(es.no_duplicates());
        es.unique_seq_to_set();
        assert forall|v: VertexId| r@.vertices().contains(v) <==> 0 <= v <= 18 by {
            if r@.vertices().contains(v) {
                let k = choose|k: int| 0 <= k < es.len() && (es[k].0 == v || es[k].1 == v);
            }
            if v == 0 { assert(es[0].0 == v); }
            if v == 1 { assert(es[0].1 == v); }
            if v == 2 { assert(es[2].1 == v); }
            if v == 3 { assert(es[3].1 == v); }
            if v == 4 { assert(es[4].1 == v); }
            if v == 5 { assert(es[5].1 == v); }
            if v == 6 { assert(es[6].1 == v); }
            if v == 7 { assert(es[1].1 == v); }
            if v == 8 { assert(es[8].1 == v); }
            if v == 9 { assert(es[9].1 == v); }
            if v == 10 { assert(es[11].1 == v); }
            if v == 11 { assert(es[14].1 == v); }
            if v == 12 { assert(es[15].1 == v); }
            if v == 13 { assert(es[17].1 == v); }
            if v == 14 { assert(es[19].1 == v); }
            if v == 15 { assert(es[20].1 == v); }
            if v == 16 { assert(es[21].1 == v); }
            if v == 17 { assert(es[23].1 == v); }
            if v == 18 { assert(es[24].1 == v); }
        }
    }
    r
}

/// Three strongly connected components: `{1, 2, 5}`, `{3, 4, 8}` and `{6, 7}`.
pub fn graph_from_wikipedia_scc() -> (r: HashTable)
    ensures
        r@.wf(),
        r@.edges() == wikipedia_scc_edges().to_set(),
        r@.edges().len() == 14,
        forall|v: VertexId| #[trigger] r@.vertices().contains(v) <==> 1 <= v <= 8,
{
    let edges: Vec<Edge> = vec![
        (1, 2), (2, 3), (3, 4), (4, 3), (4, 8), (8, 4), (8, 7), (3, 7), (7, 6), (6, 7), (2, 6),
        (2, 5), (5, 6), (5, 1),
    ];
    assert(edges@ =~= wikipedia_scc_edges());
    let r = HashTable::from_edges(edges.as_slice());
    proof {
        let es = wikipedia_scc_edges();
        assert(es.no_duplicates());
        es.unique_seq_to_set();
        assert forall|v: VertexId| r@.vertices().contains(v) <==> 1 <= v <= 8 by {
            if r@.vertices().contains(v) {
                let k = choose|k: int| 0 <= k < es.len() && (es[k].0 == v || es[k].1 == v);
            }
            if v == 1 { assert(es[0].0 == v); }
            if v == 2 { assert(es[0].1 == v); }
            if v == 3 { assert(es[1].1 == v); }
            if v == 4 { assert(es[2].1 == v); }
            if v == 5 { assert(es[11].1 == v); }
            if v == 6 { assert(es[8].1 == v); }
            if v == 7 { assert(es[6].1 == v); }
            if v == 8 { assert(es[4].1 == v); }
        }
    }
    r
}

/// The cycle 0 -> 1 -> 2 -> 0.
pub fn graph_with_simple_clique() -> (r: HashTable)
    ensures
        r@.wf(),
        r@.edges() == simple_clique_edges().to_set(),
        r@.edges().len() == 3,
        forall|v: VertexId| #[trigger] r@.vertices().contains(v) <==> 0 <= v <= 2,
{
    let edges: Vec<Edge> = vec![(0, 1), (1, 2), (2, 0)];
    assert(edges@ =~= simple_clique_edges());
    let r = HashTable::from_edges(edges.as_slice());
    proof {
        let es = simple_clique_edges();
        assert(es.no_duplicates());
        es.unique_seq_to_set();
        assert forall|v: VertexId| r@.vertices().contains(v) <==> 0 <= v <= 2 by {
            if r@.vertices().contains(v) {
                let k = choose|k: int| 0 <= k < es.len() && (es[k].0 == v || es[k].1 == v);
            }
            if v == 0 { assert(es[0].0 == v); }
            if v == 1 { assert(es[0].1 == v); }
            if v == 2 { assert(es[1].1 == v); }
        }
    }
    r
}

} // verus!
