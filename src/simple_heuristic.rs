use crate::feedback_arc_set::{is_feedback_arc_set, FeedbackArcSet};
use crate::hash_table::{lemma_push_contains, lemma_push_no_dup, ranks_forward, Direction, Edge, GraphModel, HashTable, VertexId};
use crate::random::seeded_rng;
use vstd::prelude::*;

verus! {

/// Heuristic of Berger and Shor: take any vertex, put its incoming or its
/// outgoing edges into the feedback arc set, whichever are fewer, and remove
/// the vertex; repeat until the graph is empty. The vertex is drawn from a
/// generator seeded with `seed`, so runs are reproducible.
pub struct SimpleHeuristic<'a> {
    pub graph: &'a HashTable,
    pub seed: u64,
}

/// No edge leads from a vertex to itself.
pub open spec fn has_no_self_loops(m: GraphModel) -> bool {
    forall|v: VertexId| !#[trigger] m.edges().contains((v, v))
}

/// Without self-loops, the edges of `g` are those that avoid `v`, those
/// that enter it and those that leave it, and these are disjoint.
proof fn lemma_split_at_vertex(g: GraphModel, v: VertexId)
    requires
        g.edges().finite(),
        forall|u: VertexId| !#[trigger] g.edges().contains((u, u)),
    ensures
        g.edges().len() == g.edges().filter(|e: Edge| e.0 != v && e.1 != v).len() + g.in_edges(v).len() + g.out_edges(v).len(),
{
    let all = g.edges();
    let rest = all.filter(|e: Edge| e.0 != v && e.1 != v);
    let inn = g.in_edges(v);
    let out = g.out_edges(v);
    all.lemma_len_filter(|e: Edge| e.0 != v && e.1 != v);
    all.lemma_len_filter(|e: Edge| e.1 == v);
    all.lemma_len_filter(|e: Edge| e.0 == v);
    assert(inn.disjoint(out)) by {
        assert forall|e: Edge| inn.contains(e) implies !out.contains(e) by {
            if out.contains(e) {
                assert(e == (v, v));
            }
        }
    }
    vstd::set_lib::lemma_set_disjoint_lens(inn, out);
    vstd::set_lib::lemma_len_union(inn, out);
    assert(rest.disjoint(inn + out));
    vstd::set_lib::lemma_set_disjoint_lens(rest, inn + out);
    assert(rest + (inn + out) =~= all);
}

/// Where a vertex stands in the order the heuristic builds: sources from
/// the front, vertices not yet taken, then sinks from the back.
spec fn before(front: Seq<VertexId>, back: Seq<VertexId>, u: VertexId, w: VertexId) -> bool {
    if front.contains(u) {
        !front.contains(w) || front.index_of(u) < front.index_of(w)
    } else if back.contains(u) {
        back.contains(w) && back.index_of(w) < back.index_of(u)
    } else {
        back.contains(w)
    }
}

/// State of the main loop over the graph `m`: `g` is `m` without the taken
/// vertices, and every edge not chosen that has a taken endpoint runs forward.
spec fn progress(m: GraphModel, g: GraphModel, fas: Seq<Edge>, front: Seq<VertexId>, back: Seq<VertexId>) -> bool {
    &&& g.wf()
    &&& front.no_duplicates()
    &&& back.no_duplicates()
    &&& forall|v: VertexId| #[trigger] front.contains(v) ==> !back.contains(v) && m.vertices().contains(v)
    &&& forall|v: VertexId| #[trigger] back.contains(v) ==> m.vertices().contains(v)
    &&& forall|v: VertexId| #[trigger] g.vertices().contains(v) <==> (m.vertices().contains(v) && !front.contains(v) && !back.contains(v))
    &&& g.edges() == m.edges().filter(|e: Edge| g.vertices().contains(e.0) && g.vertices().contains(e.1))
    &&& fas.no_duplicates()
    &&& forall|e: Edge| #[trigger] fas.contains(e) ==> m.edges().contains(e) && !(g.vertices().contains(e.0) && g.vertices().contains(e.1))
    &&& forall|e: Edge| #[trigger] m.edges().contains(e) && !fas.contains(e) && !(g.vertices().contains(e.0) && g.vertices().contains(e.1))
        ==> before(front, back, e.0, e.1)
}

impl<'a> SimpleHeuristic<'a> {
    pub fn new(graph: &'a HashTable, seed: u64) -> (r: Self)
        ensures
            r.graph() == graph,
    {
        Self { graph, seed }
    }

    pub open spec fn graph(&self) -> &'a HashTable {
        self.graph
    }

    /// Adds the edges of `chosen` to `fas`; they are edges of the working
    /// graph `g` that touch `v`, so none is in `fas` yet.
    fn take(fas: &mut Vec<Edge>, chosen: &Vec<Edge>, Ghost(m): Ghost<GraphModel>, Ghost(g): Ghost<GraphModel>, Ghost(v): Ghost<VertexId>)
        requires
            old(fas)@.no_duplicates(),
            chosen@.no_duplicates(),
            forall|e: Edge| #[trigger] chosen@.contains(e) ==> g.edges().contains(e),
            forall|e: Edge| #[trigger] old(fas)@.contains(e) ==> !(g.vertices().contains(e.0) && g.vertices().contains(e.1)),
            g.wf(),
        ensures
            final(fas)@.no_duplicates(),
            final(fas)@.len() == old(fas)@.len() + chosen@.len(),
            forall|e: Edge| #[trigger] final(fas)@.contains(e) <==> (old(fas)@.contains(e) || chosen@.contains(e)),
    {
        let mut k: usize = 0;
        let ghost f0 = fas@;
        while k < chosen.len()
            invariant
                fas@.no_duplicates(),
                k <= chosen@.len(),
                chosen@.no_duplicates(),
                forall|e: Edge| #[trigger] chosen@.contains(e) ==> g.edges().contains(e),
                forall|e: Edge| #[trigger] f0.contains(e) ==> !(g.vertices().contains(e.0) && g.vertices().contains(e.1)),
                forall|e: Edge| #[trigger] fas@.contains(e) <==> (f0.contains(e) || chosen@.subrange(0, k as int).contains(e)),
                fas@.len() == f0.len() + k,
                g.wf(),
            decreases chosen@.len() - k,
        {
            let e = chosen[k];
            let ghost before = fas@;
            proof {
                let c0 = chosen@.subrange(0, k as int);
                assert(chosen@.subrange(0, k + 1 as int) == c0.push(e));
                lemma_push_contains(c0, e);
                assert(chosen@.contains(e));
                assert(g.edges().contains(e));
                assert(g.out(e.0).contains(e.1));
                assert(g.vertices().contains(e.0));
                let i = g.ids.index_of(e.0);
                let j = choose|j: int| 0 <= j < g.adj[i].len() && g.adj[i][j] == e.1;
                assert(g.ids.contains(g.adj[i][j]));
                if c0.contains(e) {
                    let b = choose|b: int| 0 <= b < k && c0[b] == e;
                    assert(chosen@[b] == chosen@[k as int]);
                }
                lemma_push_no_dup(before, e);
                lemma_push_contains(before, e);
            }
            fas.push(e);
            k = k + 1;
        }
        proof {
            assert(chosen@.subrange(0, k as int) == chosen@);
        }
    }

    /// The feedback arc set the heuristic builds with the generator's draws;
    /// without self-loops it holds at most half of the edges.
    pub fn compute(&self) -> (r: Vec<Edge>)
        requires
            self.graph()@.wf(),
        ensures
            r@.no_duplicates(),
            is_feedback_arc_set(self.graph()@, r@.to_set()),
            has_no_self_loops(self.graph()@) ==> r@.len() <= self.graph()@.edges().len() / 2,
    {
        let ghost m = self.graph@;
        proof {
            crate::hash_table::lemma_edges_finite(m);
        }
        let mut rng = seeded_rng(self.seed);
        let mut graph = self.graph.clone();
        let mut fas: Vec<Edge> = Vec::new();
        let ghost mut front: Seq<VertexId> = Seq::empty();
        let ghost mut back: Seq<VertexId> = Seq::empty();
        proof {
            assert(graph@.edges() =~= m.edges().filter(|e: Edge| graph@.vertices().contains(e.0) && graph@.vertices().contains(e.1))) by {
                assert forall|e: Edge| #[trigger] m.edges().contains(e) implies graph@.vertices().contains(e.0) && graph@.vertices().contains(e.1) by {
                    assert(m.out(e.0).contains(e.1));
                    assert(m.ids.contains(e.0));
                    let i = m.ids.index_of(e.0);
                    let j = choose|j: int| 0 <= j < m.adj[i].len() && m.adj[i][j] == e.1;
                    assert(m.ids.contains(m.adj[i][j]));
                }
            }
        }
        while graph.order() > 0
            invariant
                m == self.graph@,
                m.wf(),
                m.edges().finite(),
                progress(m, graph@, fas@, front, back),
                has_no_self_loops(m) ==> 2 * fas@.len() + graph@.edges().len() <= m.edges().len(),
            decreases graph@.vertices().len(),
        {
            let ghost g = graph@;
            let v = graph.random_vertex(&mut rng);
            let edges_in = graph.edges(v, Direction::Inbound);
            let edges_out = graph.edges(v, Direction::Outbound);
            let ghost f0 = fas@;
            let to_front = edges_in.len() < edges_out.len();
            if to_front {
                proof {
                    assert forall|e: Edge| #[trigger] edges_in@.contains(e) implies g.edges().contains(e) by {
                        assert(edges_in@.to_set().contains(e));
                    }
                }
                Self::take(&mut fas, &edges_in, Ghost(m), Ghost(g), Ghost(v));
            } else {
                proof {
                    assert forall|e: Edge| #[trigger] edges_out@.contains(e) implies g.edges().contains(e) by {
                        assert(edges_out@.to_set().contains(e));
                    }
                }
                Self::take(&mut fas, &edges_out, Ghost(m), Ghost(g), Ghost(v));
            }
            graph.remove_vertex(v);
            proof {
                let f1 = front;
                let b1 = back;
                if to_front {
                    front = front.push(v);
                } else {
                    back = back.push(v);
                }
                lemma_push_contains(f1, v);
                lemma_push_contains(b1, v);
                lemma_push_no_dup(f1, v);
                lemma_push_no_dup(b1, v);
                if to_front {
                    crate::hash_table::lemma_index_of(front, f1.len() as int);
                    assert forall|u: VertexId| f1.contains(u) implies front.index_of(u) == f1.index_of(u) by {
                        let q = f1.index_of(u);
                        crate::hash_table::lemma_index_of(f1, q);
                        crate::hash_table::lemma_index_of(front, q);
                    }
                } else {
                    crate::hash_table::lemma_index_of(back, b1.len() as int);
                    assert forall|u: VertexId| b1.contains(u) implies back.index_of(u) == b1.index_of(u) by {
                        let q = b1.index_of(u);
                        crate::hash_table::lemma_index_of(b1, q);
                        crate::hash_table::lemma_index_of(back, q);
                    }
                }
                let g1 = graph@;
                assert(g1.vertices() =~= g.vertices().remove(v));
                assert forall|e: Edge| #[trigger] m.edges().contains(e) && !fas@.contains(e) && !(g1.vertices().contains(e.0) && g1.vertices().contains(e.1))
                    implies before(front, back, e.0, e.1) by {
                    if g.vertices().contains(e.0) && g.vertices().contains(e.1) {
                        assert(g.edges().contains(e));
                        if to_front {
                            if e.1 == v {
                                assert(g.in_edges(v).contains(e));
                                assert(edges_in@.to_set().contains(e));
                            }
                        } else {
                            if e.0 == v {
                                assert(g.out_edges(v).contains(e));
                                assert(edges_out@.to_set().contains(e));
                            }
                        }
                    } else {
                        assert(before(f1, b1, e.0, e.1));
                    }
                }
                assert forall|e: Edge| #[trigger] fas@.contains(e) implies m.edges().contains(e) && !(g1.vertices().contains(e.0) && g1.vertices().contains(e.1)) by {
                    if !f0.contains(e) {
                        if to_front {
                            assert(edges_in@.to_set().contains(e));
                        } else {
                            assert(edges_out@.to_set().contains(e));
                        }
                        assert(g.edges().contains(e));
                    }
                }
                assert(g1.edges() =~= m.edges().filter(|e: Edge| g1.vertices().contains(e.0) && g1.vertices().contains(e.1)));
                assert(g.vertices().contains(v));
                assert(g.vertices().finite()) by {
                    vstd::seq_lib::seq_to_set_is_finite(g.ids);
                }
                assert(progress(m, g1, fas@, front, back));
                if has_no_self_loops(m) {
                    m.edges().lemma_len_filter(|e: Edge| g.vertices().contains(e.0) && g.vertices().contains(e.1));
                    assert forall|u: VertexId| !#[trigger] g.edges().contains((u, u)) by {
                        assert(!m.edges().contains((u, u)));
                    }
                    lemma_split_at_vertex(g, v);
                    assert(g1.edges() =~= g.edges().filter(|e: Edge| e.0 != v && e.1 != v));
                    edges_in@.unique_seq_to_set();
                    edges_out@.unique_seq_to_set();
                }
            }
        }
        proof {
            let rank = |v: VertexId| if front.contains(v) {
                front.index_of(v)
            } else {
                front.len() + back.len() - back.index_of(v)
            };
            let rest = m.edges().difference(fas@.to_set());
            graph@.ids.unique_seq_to_set();
            assert(graph@.ids.len() == 0);
            assert forall|x: VertexId| !graph@.vertices().contains(x) by {}
            assert forall|e: Edge| #[trigger] rest.contains(e) implies rank(e.0) < rank(e.1) by {
                assert(graph@.vertices().len() == 0);
                assert(!graph@.vertices().contains(e.0));
                assert(m.out(e.0).contains(e.1));
                assert(m.ids.contains(e.0));
                let i = m.ids.index_of(e.0);
                let j = choose|j: int| 0 <= j < m.adj[i].len() && m.adj[i][j] == e.1;
                assert(m.ids.contains(m.adj[i][j]));
                assert(before(front, back, e.0, e.1));
                assert(m.vertices().contains(e.1));
                assert(!graph@.vertices().contains(e.1));
                assert(front.contains(e.0) || back.contains(e.0));
                assert(front.contains(e.1) || back.contains(e.1));
                if front.contains(e.0) {
                    crate::hash_table::lemma_index_of(front, front.index_of(e.0));
                }
                if front.contains(e.1) {
                    crate::hash_table::lemma_index_of(front, front.index_of(e.1));
                }
                if back.contains(e.0) {
                    crate::hash_table::lemma_index_of(back, back.index_of(e.0));
                }
                if back.contains(e.1) {
                    crate::hash_table::lemma_index_of(back, back.index_of(e.1));
                }
            }
            assert(ranks_forward(rank, rest));
            assert(fas@.to_set().subset_of(m.edges()));
        }
        fas
    }
}

impl<'a> FeedbackArcSet for SimpleHeuristic<'a> {
    open spec fn input(&self) -> GraphModel {
        self.graph@
    }

    /// Without self-loops, at most half of the edges.
    open spec fn describes(&self, fas: Set<Edge>) -> bool {
        has_no_self_loops(self.graph@) ==> fas.len() <= self.graph@.edges().len() / 2
    }

    fn feedback_arc_set(&self) -> (r: Vec<Edge>) {
        let r = self.compute();
        proof {
            r@.unique_seq_to_set();
        }
        r
    }
}

} // verus!
