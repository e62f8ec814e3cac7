use crate::feedback_arc_set::is_feedback_arc_set;
use crate::hash_table::{is_acyclic, lemma_push_contains, ranks_forward, Edge, HashTable};
use itertools::Itertools;
use vstd::prelude::*;

verus! {

/// Relies on itertools' `Itertools::combinations`: all `k`-element
/// selections of entries of `edges` at distinct positions, so for distinct
/// edges every set of `k` of them, each as one list.
#[verifier::external_body]
fn edge_combinations(edges: &Vec<Edge>, k: usize) -> (r: Vec<Vec<Edge>>)
    requires
        edges@.no_duplicates(),
    ensures
        forall|i: int| 0 <= i < r@.len() ==> (#[trigger] r@[i])@.len() == k && r@[i]@.no_duplicates(),
        forall|i: int, j: int| 0 <= i < r@.len() && 0 <= j < r@[i]@.len() ==> edges@.contains(#[trigger] r@[i]@[j]),
        forall|s: Set<Edge>| s.subset_of(edges@.to_set()) && s.len() == k ==> exists|i: int|
            0 <= i < r@.len() && #[trigger] r@[i]@.to_set() == s,
{
    edges.iter().copied().combinations(k).collect()
}

/// Exact search for small graphs: the first set of fewest edges, in order
/// of size, whose removal leaves the graph acyclic.
pub struct Stupid;

impl Stupid {
    /// `graph` without the edges of `removed`.
    fn without_edges(graph: &HashTable, removed: &Vec<Edge>) -> (r: HashTable)
        requires
            graph@.wf(),
        ensures
            r@.wf(),
            r@.edges() == graph@.edges().difference(removed@.to_set()),
    {
        let mut g = graph.clone();
        let mut k: usize = 0;
        while k < removed.len()
            invariant
                g@.wf(),
                k <= removed@.len(),
                g@.edges() == graph@.edges().difference(removed@.subrange(0, k as int).to_set()),
            decreases removed@.len() - k,
        {
            g.remove_edge(removed[k]);
            proof {
                lemma_push_contains(removed@.subrange(0, k as int), removed@[k as int]);
                assert(removed@.subrange(0, k + 1 as int) == removed@.subrange(0, k as int).push(removed@[k as int]));
                assert(g@.edges() =~= graph@.edges().difference(removed@.subrange(0, k + 1 as int).to_set()));
            }
            k = k + 1;
        }
        proof {
            assert(removed@.subrange(0, k as int) == removed@);
        }
        g
    }

    /// A feedback arc set of fewest edges among the candidates tried, by
    /// increasing size; empty for an acyclic graph.
    pub fn compute_fas(graph: &HashTable) -> (r: Vec<Edge>)
        requires
            graph@.wf(),
        ensures
            r@.no_duplicates(),
            is_feedback_arc_set(graph@, r@.to_set()),
            is_acyclic(graph@.edges()) ==> r@.len() == 0,
            forall|s: Set<Edge>| #[trigger] is_feedback_arc_set(graph@, s) ==> r@.len() <= s.len(),
    {
        let ghost m = graph@;
        proof {
            crate::hash_table::lemma_edges_finite(m);
        }
        if !graph.is_cyclic() {
            let r: Vec<Edge> = Vec::new();
            proof {
                assert(r@.to_set() =~= Set::<Edge>::empty());
                assert(graph@.edges().difference(r@.to_set()) =~= graph@.edges());
            }
            return r;
        }
        let edges = graph.all_edges();
        proof {
            assert forall|s: Set<Edge>| #[trigger] is_feedback_arc_set(m, s) implies s.len() > 0 by {
                vstd::set_lib::lemma_len_subset(s, m.edges());
                if s.len() == 0 {
                    assert(s =~= Set::<Edge>::empty());
                    assert(m.edges().difference(s) =~= m.edges());
                }
            }
        }
        let mut size: usize = 0;
        while size < edges.len()
            invariant
                m == graph@,
                m.edges().finite(),
                graph@.wf(),
                edges@.no_duplicates(),
                edges@.to_set() == graph@.edges(),
                !is_acyclic(graph@.edges()),
                size <= edges@.len(),
                forall|s: Set<Edge>| #[trigger] is_feedback_arc_set(m, s) ==> s.len() > size,
            decreases edges@.len() - size,
        {
            let idx = size + 1;
            let candidates = edge_combinations(&edges, idx);
            let mut c: usize = 0;
            while c < candidates.len()
                invariant
                    graph@.wf(),
                    edges@.no_duplicates(),
                    edges@.to_set() == graph@.edges(),
                    !is_acyclic(graph@.edges()),
                    forall|i: int| 0 <= i < candidates@.len() ==> (#[trigger] candidates@[i])@.len() == idx && candidates@[i]@.no_duplicates(),
                    forall|i: int, j: int| 0 <= i < candidates@.len() && 0 <= j < candidates@[i]@.len() ==> edges@.contains(#[trigger] candidates@[i]@[j]),
                    forall|s: Set<Edge>| s.subset_of(edges@.to_set()) && s.len() == idx ==> exists|i: int|
                        0 <= i < candidates@.len() && #[trigger] candidates@[i]@.to_set() == s,
                    m == graph@,
                    m.edges().finite(),
                    idx == size + 1,
                    size < edges@.len(),
                    forall|s: Set<Edge>| #[trigger] is_feedback_arc_set(m, s) ==> s.len() > size,
                    c <= candidates@.len(),
                    forall|i: int| 0 <= i < c ==> !is_feedback_arc_set(m, #[trigger] candidates@[i]@.to_set()),
                decreases candidates@.len() - c,
            {
                let acyclic_graph = Self::without_edges(graph, &candidates[c]);
                let ghost cand = candidates@[c as int]@;
                proof {
                    assert forall|e: Edge| cand.to_set().contains(e) implies m.edges().contains(e) by {
                        let q = choose|q: int| 0 <= q < cand.len() && cand[q] == e;
                        assert(edges@.contains(cand[q]));
                        assert(edges@.to_set().contains(e));
                    }
                    assert(candidates@[c as int]@ == cand);
                }
                if !acyclic_graph.is_cyclic() {
                    let mut permutation: Vec<Edge> = Vec::new();
                    let mut j: usize = 0;
                    while j < candidates[c].len()
                        invariant
                            c < candidates@.len(),
                            j <= candidates@[c as int]@.len(),
                            permutation@ == candidates@[c as int]@.subrange(0, j as int),
                        decreases candidates@[c as int]@.len() - j,
                    {
                        permutation.push(candidates[c][j]);
                        proof {
                            assert(permutation@ =~= candidates@[c as int]@.subrange(0, j + 1 as int));
                        }
                        j = j + 1;
                    }
                    proof {
                        let p = candidates@[c as int]@;
                        assert(permutation@ =~= p);
                        p.unique_seq_to_set();
                        assert forall|s: Set<Edge>| #[trigger] is_feedback_arc_set(m, s) implies permutation@.len() <= s.len() by {
                            assert(s.len() > size);
                        }
                        assert forall|e: Edge| permutation@.to_set().contains(e) implies graph@.edges().contains(e) by {
                            let q = choose|q: int| 0 <= q < p.len() && p[q] == e;
                            assert(edges@.contains(p[q]));
                            assert(edges@.to_set().contains(e));
                        }
                    }
                    return permutation;
                }
                c = c + 1;
            }
            proof {
                assert forall|s: Set<Edge>| #[trigger] is_feedback_arc_set(m, s) implies s.len() > size + 1 by {
                    assert(s.len() > size);
                    if s.len() == idx {
                        assert(s.subset_of(edges@.to_set()));
                        let i = choose|i: int| 0 <= i < candidates@.len() && #[trigger] candidates@[i]@.to_set() == s;
                        assert(!is_feedback_arc_set(m, candidates@[i]@.to_set()));
                    }
                }
            }
            size = size + 1;
        }
        let r = edges;
        proof {
            let rest = graph@.edges().difference(r@.to_set());
            assert(rest =~= Set::<Edge>::empty());
            let rank = |v: crate::hash_table::VertexId| 0int;
            assert(ranks_forward(rank, rest));
            r@.unique_seq_to_set();
            assert(is_feedback_arc_set(m, r@.to_set()));
        }
        r
    }
}

} // verus!
