use crate::feedback_arc_set::FeedbackArcSet;
use crate::hash_table::{Edge, GraphModel, HashTable, VertexId};
use crate::topological_sort::{in_degree, is_vertex_order, leftward, leftward_edges, lemma_leftward_is_fas, TopologicalSort};
use vstd::prelude::*;

verus! {

/// Heuristic of Eades, Smyth and Lin: the feedback arc set is every edge
/// that points backwards in a vertex order built by divide and conquer over
/// the indegrees.
pub struct DivideAndConquerByOrderHeuristic<'a> {
    pub graph: &'a HashTable,
}

impl<'a> DivideAndConquerByOrderHeuristic<'a> {
    pub fn new(graph: &'a HashTable) -> (r: Self)
        ensures
            r.graph == graph,
    {
        Self { graph }
    }
}

impl<'a> FeedbackArcSet for DivideAndConquerByOrderHeuristic<'a> {
    open spec fn input(&self) -> GraphModel {
        self.graph@
    }

    /// The edges that point backwards in the order built by `order`.
    open spec fn describes(&self, fas: Set<Edge>) -> bool {
        exists|s: Seq<VertexId>| is_esl_order(self.graph@, s) && fas == leftward(self.graph@, s)
    }

    fn feedback_arc_set(&self) -> (r: Vec<Edge>) {
        let ordering = order(self.graph.clone());
        proof {
            lemma_leftward_is_fas(self.graph@, ordering@);
        }
        leftward_edges(self.graph, ordering)
    }
}

/// The entries `lo..hi` of `v`.
fn sub_vec(v: &Vec<VertexId>, lo: usize, hi: usize) -> (r: Vec<VertexId>)
    requires
        lo <= hi <= v@.len(),
    ensures
        r@ == v@.subrange(lo as int, hi as int),
{
    let mut r: Vec<VertexId> = Vec::new();
    let mut i: usize = lo;
    while i < hi
        invariant
            lo <= i <= hi,
            hi <= v@.len(),
            r@ == v@.subrange(lo as int, i as int),
        decreases hi - i,
    {
        r.push(v[i]);
        proof {
            assert(r@ =~= v@.subrange(lo as int, i + 1 as int));
        }
        i = i + 1;
    }
    r
}

/// A graph with one vertex has at most one edge.
proof fn lemma_single_vertex(m: GraphModel)
    requires
        m.wf(),
        m.ids.len() == 1,
    ensures
        m.edge_count() <= 1,
{
    let row = m.adj[0];
    if row.len() >= 2 {
        assert(m.ids.contains(row[0]) && m.ids.contains(row[1]));
        assert(row[0] == m.ids[0] && row[1] == m.ids[0]);
        assert(row.no_duplicates());
    }
    assert(m.adj.drop_last() =~= Seq::<Seq<VertexId>>::empty());
    assert(crate::hash_table::total_len(m.adj.drop_last()) == 0);
}

/// The number of vertices is the length of the id list.
pub proof fn lemma_vertex_count(m: GraphModel)
    requires
        m.wf(),
    ensures
        m.vertices().finite(),
        m.vertices().len() == m.ids.len(),
{
    m.ids.unique_seq_to_set();
    vstd::seq_lib::seq_to_set_is_finite(m.ids);
}

/// `r` is `m` without vertex `v` and the edges that touch it.
pub open spec fn is_removal(m: GraphModel, v: VertexId, r: GraphModel) -> bool {
    &&& r.wf()
    &&& r.vertices() == m.vertices().remove(v)
    &&& forall|e: Edge| #[trigger] r.edges().contains(e) <==> (m.edges().contains(e) && e.0 != v && e.1 != v)
}

/// `a` is the subgraph of `m` induced by the vertices of `vs`.
pub open spec fn is_induced(m: GraphModel, vs: Set<VertexId>, a: GraphModel) -> bool {
    &&& a.wf()
    &&& a.vertices() == m.vertices().filter(|v: VertexId| vs.contains(v))
    &&& a.edges() == m.edges().filter(|e: Edge| vs.contains(e.0) && vs.contains(e.1))
}

/// `s` is an order that the divide and conquer of Eades, Smyth and Lin
/// builds for `m`: any order when there is no edge; for an odd number of
/// edges a vertex of least indegree, then such an order of the rest; else
/// such orders of the lower and of the upper half of the vertices by
/// indegree, one after the other.
pub open spec fn is_esl_order(m: GraphModel, s: Seq<VertexId>) -> bool
    decreases s.len(),
{
    &&& is_vertex_order(m, s)
    &&& if m.edge_count() == 0 {
        true
    } else if m.edge_count() % 2 == 1 {
        &&& s.len() > 0
        &&& forall|u: VertexId| #[trigger] m.vertices().contains(u) ==> in_degree(m, s[0]) <= in_degree(m, u)
        &&& exists|r: GraphModel| #[trigger] is_removal(m, s[0], r) && is_esl_order(r, s.drop_first())
    } else {
        let h = (s.len() / 2) as int;
        &&& s.len() >= 2
        &&& forall|i: int, j: int| 0 <= i < h <= j < s.len() ==> in_degree(m, #[trigger] s[i]) <= in_degree(m, #[trigger] s[j])
        &&& exists|a: GraphModel| #[trigger] is_induced(m, s.take(h).to_set(), a) && is_esl_order(a, s.take(h))
        &&& exists|b: GraphModel| #[trigger] is_induced(m, s.skip(h).to_set(), b) && is_esl_order(b, s.skip(h))
    }
}

/// A vertex order of `g` built by divide and conquer: with no edges any
/// order; with an odd number of edges a vertex of least indegree first and
/// the rest ordered recursively; otherwise the lower and the upper half by
/// indegree, each ordered recursively.
pub fn order(g: HashTable) -> (r: Vec<VertexId>)
    requires
        g@.wf(),
    ensures
        is_vertex_order(g@, r@),
        is_esl_order(g@, r@),
    decreases g@.ids.len(),
{
    let mut g = g;
    let ghost m = g@;
    let edge_count = g.edge_count();
    let sorted = TopologicalSort::new(&g).sort_by_indegree_asc();
    proof {
        lemma_vertex_count(m);
        sorted@.unique_seq_to_set();
    }
    if edge_count == 0 {
        g.vertices()
    } else if edge_count % 2 == 1 {
        proof {
            if sorted@.len() == 0 {
                assert(m.ids.len() == 0);
                assert(m.adj =~= Seq::<Seq<VertexId>>::empty());
            }
            assert(sorted@.to_set().contains(sorted@[0]));
        }
        let v = sorted[0];
        g.remove_vertex(v);
        proof {
            lemma_vertex_count(g@);
            assert(g@.vertices() == m.vertices().remove(v));
        }
        let ghost gr = g@;
        let mut s1 = order(g.clone());
        proof {
            assert forall|e: Edge| #[trigger] gr.edges().contains(e) <==> (m.edges().contains(e) && e.0 != v && e.1 != v) by {
                assert(gr.edges() == m.edges().filter(|e: Edge| e.0 != v && e.1 != v));
            }
            assert(gr.wf());
            assert(gr.vertices() == m.vertices().remove(v));
            assert(is_removal(m, v, gr));
            assert(is_esl_order(gr, s1@));
            assert(!s1@.to_set().contains(v));
            crate::hash_table::lemma_push_contains(Seq::<VertexId>::empty(), v);
        }
        let ghost t0 = s1@;
        s1.insert(0, v);
        proof {
            assert(s1@.subrange(1, s1@.len() as int) =~= t0);
            assert forall|a: int, b: int| 0 <= a < s1@.len() && 0 <= b < s1@.len() && a != b implies s1@[a] != s1@[b] by {
                if a == 0 {
                    assert(s1@[b] == s1@.subrange(1, s1@.len() as int)[b - 1]);
                    assert(s1@.subrange(1, s1@.len() as int).to_set().contains(s1@[b]));
                } else if b == 0 {
                    assert(s1@[a] == s1@.subrange(1, s1@.len() as int)[a - 1]);
                    assert(s1@.subrange(1, s1@.len() as int).to_set().contains(s1@[a]));
                }
            }
            assert forall|x: VertexId| s1@.contains(x) <==> m.vertices().contains(x) by {
                let tail = s1@.subrange(1, s1@.len() as int);
                if s1@.contains(x) {
                    let k = choose|k: int| 0 <= k < s1@.len() && s1@[k] == x;
                    if k > 0 {
                        assert(tail[k - 1] == x);
                        assert(tail.to_set().contains(x));
                    }
                }
                if m.vertices().contains(x) && x != v {
                    assert(tail.to_set().contains(x));
                    let k = choose|k: int| 0 <= k < tail.len() && tail[k] == x;
                    assert(s1@[k + 1] == x);
                }
                assert(s1@[0] == v);
            }
            assert(s1@.to_set() =~= m.vertices());
            assert(s1@.drop_first() =~= t0);
            assert(s1@[0] == v);
            assert forall|u: VertexId| #[trigger] m.vertices().contains(u) implies in_degree(m, s1@[0]) <= in_degree(m, u) by {
                assert(sorted@.to_set().contains(u));
                let j = choose|j: int| 0 <= j < sorted@.len() && sorted@[j] == u;
                if j > 0 {
                    assert(in_degree(m, sorted@[0]) <= in_degree(m, sorted@[j]));
                }
            }
            assert(is_removal(m, s1@[0], gr) && is_esl_order(gr, s1@.drop_first()));
            assert(m.edge_count() != 0);
            assert(m.edge_count() % 2 == 1);
            assert(is_vertex_order(m, s1@));
            assert(s1@.len() > 0);
            assert(is_esl_order(m, s1@));
        }
        s1
    } else {
        let half = sorted.len() / 2;
        let first_half = sub_vec(&sorted, 0, half);
        let second_half = sub_vec(&sorted, half, sorted.len());
        let g1 = HashTable::from_graph(&g, first_half.as_slice());
        let g2 = HashTable::from_graph(&g, second_half.as_slice());
        proof {
            if sorted@.len() < 2 {
                if sorted@.len() == 0 {
                    assert(m.adj =~= Seq::<Seq<VertexId>>::empty());
                } else {
                    lemma_single_vertex(m);
                }
            }
            lemma_vertex_count(g1@);
            lemma_vertex_count(g2@);
            first_half@.unique_seq_to_set();
            second_half@.unique_seq_to_set();
            assert(g1@.vertices().subset_of(first_half@.to_set()));
            assert(g2@.vertices().subset_of(second_half@.to_set()));
            vstd::set_lib::lemma_len_subset(g1@.vertices(), first_half@.to_set());
            vstd::set_lib::lemma_len_subset(g2@.vertices(), second_half@.to_set());
        }
        let mut s1 = order(g1);
        let s2 = order(g2);
        let ghost a = s1@;
        let ghost b = s2@;
        let mut s2 = s2;
        s1.append(&mut s2);
        proof {
            assert(s1@ == a + b);
            let f = first_half@;
            let h = second_half@;
            assert(sorted@ == f + h) by {
                assert(sorted@ =~= sorted@.subrange(0, half as int) + sorted@.subrange(half as int, sorted@.len() as int));
            }
            assert forall|x: VertexId| #[trigger] a.contains(x) implies f.contains(x) by {
                assert(a.to_set().contains(x));
                assert(g1@.vertices().contains(x));
            }
            assert forall|x: VertexId| #[trigger] b.contains(x) implies h.contains(x) by {
                assert(b.to_set().contains(x));
                assert(g2@.vertices().contains(x));
            }
            assert forall|i: int, j: int| 0 <= i < a.len() && 0 <= j < b.len() implies a[i] != b[j] by {
                assert(a.contains(a[i]) && b.contains(b[j]));
                if a[i] == b[j] {
                    let p = choose|p: int| 0 <= p < f.len() && f[p] == a[i];
                    let q = choose|q: int| 0 <= q < h.len() && h[q] == b[j];
                    assert(sorted@[p] == sorted@[f.len() + q]);
                }
            }
            vstd::seq_lib::lemma_no_dup_in_concat(a, b);
            assert forall|x: VertexId| s1@.to_set().contains(x) <==> m.vertices().contains(x) by {
                if m.vertices().contains(x) {
                    assert(sorted@.to_set().contains(x));
                    let k = choose|k: int| 0 <= k < sorted@.len() && sorted@[k] == x;
                    if k < half {
                        assert(f[k] == x);
                        assert(g1@.vertices().contains(x));
                        assert(a.to_set().contains(x));
                        let i = choose|i: int| 0 <= i < a.len() && a[i] == x;
                        assert(s1@[i] == x);
                    } else {
                        assert(h[k - half] == x);
                        assert(g2@.vertices().contains(x));
                        assert(b.to_set().contains(x));
                        let j = choose|j: int| 0 <= j < b.len() && b[j] == x;
                        assert(s1@[a.len() + j] == x);
                    }
                }
                if s1@.contains(x) {
                    let k = choose|k: int| 0 <= k < s1@.len() && s1@[k] == x;
                    if k < a.len() {
                        assert(a[k] == x);
                        assert(a.to_set().contains(x));
                    } else {
                        assert(b[k - a.len()] == x);
                        assert(b.to_set().contains(x));
                    }
                }
            }
            assert(s1@.to_set() =~= m.vertices());
            a.unique_seq_to_set();
            assert(a.to_set() =~= f.to_set()) by {
                assert forall|x: VertexId| a.to_set().contains(x) <==> f.to_set().contains(x) by {
                    if f.to_set().contains(x) {
                        assert(sorted@.contains(x)) by {
                            let q = choose|q: int| 0 <= q < f.len() && f[q] == x;
                            assert(sorted@[q] == x);
                        }
                        assert(g1@.vertices().contains(x));
                    }
                }
            }
            assert(a.len() == half);
            assert(s1@.len() == sorted@.len()) by {
                s1@.unique_seq_to_set();
            }
            let hh = (s1@.len() / 2) as int;
            assert(hh == half);
            assert(s1@.take(hh) =~= a);
            assert(s1@.skip(hh) =~= b);
            assert(b.to_set() =~= h.to_set()) by {
                assert forall|x: VertexId| b.to_set().contains(x) <==> h.to_set().contains(x) by {
                    if h.to_set().contains(x) {
                        assert(sorted@.contains(x)) by {
                            let q = choose|q: int| 0 <= q < h.len() && h[q] == x;
                            assert(sorted@[half + q] == x);
                        }
                        assert(g2@.vertices().contains(x));
                    }
                }
            }
            assert(is_induced(m, a.to_set(), g1@)) by {
                assert(g1@.vertices() =~= m.vertices().filter(|v: VertexId| a.to_set().contains(v)));
                assert(g1@.edges() =~= m.edges().filter(|e: Edge| a.to_set().contains(e.0) && a.to_set().contains(e.1)));
            }
            assert(is_induced(m, b.to_set(), g2@)) by {
                assert(g2@.vertices() =~= m.vertices().filter(|v: VertexId| b.to_set().contains(v)));
                assert(g2@.edges() =~= m.edges().filter(|e: Edge| b.to_set().contains(e.0) && b.to_set().contains(e.1)));
            }
            assert forall|i: int, j: int| 0 <= i < hh <= j < s1@.len() implies in_degree(m, #[trigger] s1@[i]) <= in_degree(m, #[trigger] s1@[j]) by {
                assert(a.to_set().contains(s1@[i]));
                assert(f.to_set().contains(s1@[i]));
                let p = choose|p: int| 0 <= p < f.len() && f[p] == s1@[i];
                assert(b.to_set().contains(s1@[j])) by {
                    assert(s1@[j] == b[j - a.len()]);
                }
                assert(h.to_set().contains(s1@[j]));
                let q = choose|q: int| 0 <= q < h.len() && h[q] == s1@[j];
                assert(sorted@[p] == s1@[i] && sorted@[half + q] == s1@[j]);
            }
            assert(is_esl_order(m, s1@));
        }
        s1
    }
}

} // verus!
