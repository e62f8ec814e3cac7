use crate::feedback_arc_set::is_feedback_arc_set;
use crate::hash_table::{ranks_forward, Direction, Edge, GraphModel, HashTable, VertexId};
use vstd::prelude::*;

verus! {

/// Number of edges entering `v`.
pub open spec fn in_degree(m: GraphModel, v: VertexId) -> nat {
    m.in_edges(v).len()
}

/// `order` lists each vertex of the graph once.
pub open spec fn is_vertex_order(m: GraphModel, order: Seq<VertexId>) -> bool {
    &&& order.no_duplicates()
    &&& order.to_set() == m.vertices()
}

/// Edges whose source stands at or after their target in `order`.
pub open spec fn leftward(m: GraphModel, order: Seq<VertexId>) -> Set<Edge> {
    m.edges().filter(|e: Edge| order.index_of(e.1) <= order.index_of(e.0))
}

/// Removing the leftward edges of a vertex order leaves an acyclic graph.
pub proof fn lemma_leftward_is_fas(m: GraphModel, order: Seq<VertexId>)
    ensures
        is_feedback_arc_set(m, leftward(m, order)),
{
    let rest = m.edges().difference(leftward(m, order));
    let rank = |v: VertexId| order.index_of(v);
    assert(ranks_forward(rank, rest));
}

spec fn has_key(s: Seq<(VertexId, usize)>, x: VertexId) -> bool {
    exists|a: int| 0 <= a < s.len() && (#[trigger] s[a]).0 == x
}

/// Orders the vertices of a graph by indegree.
pub struct TopologicalSort<'a> {
    graph: &'a HashTable,
}

impl<'a> TopologicalSort<'a> {
    pub fn new(graph: &'a HashTable) -> (r: Self)
        ensures
            r.graph() == graph,
    {
        Self { graph }
    }

    pub closed spec fn graph(&self) -> &'a HashTable {
        self.graph
    }

    /// All vertices in non-decreasing order of indegree; vertices of equal
    /// indegree keep their storage order.
    pub fn sort_by_indegree_asc(&self) -> (r: Vec<VertexId>)
        requires
            self.graph()@.wf(),
        ensures
            is_vertex_order(self.graph()@, r@),
            forall|i: int, j: int|
                0 <= i < j < r@.len() ==> in_degree(self.graph()@, #[trigger] r@[i]) <= in_degree(
                    self.graph()@,
                    #[trigger] r@[j],
                ),
            r@.len() == self.graph()@.ids.len(),
            forall|i: int, j: int|
                0 <= i < j < r@.len() && in_degree(self.graph()@, #[trigger] r@[i]) == in_degree(self.graph()@, #[trigger] r@[j])
                    ==> self.graph()@.ids.index_of(r@[i]) < self.graph()@.ids.index_of(r@[j]),
    {
        let ghost m = self.graph@;
        let vs = self.graph.vertices();
        let mut sorted: Vec<(VertexId, usize)> = Vec::new();
        let ghost mut origin: Seq<int> = Seq::empty();
        let mut i: usize = 0;
        while i < vs.len()
            invariant
                m == self.graph@,
                m.wf(),
                vs@ == m.ids,
                i <= vs@.len(),
                sorted@.len() == i,
                forall|a: int| 0 <= a < sorted@.len() ==> (#[trigger] sorted@[a]).1 == in_degree(m, sorted@[a].0),
                forall|a: int, b: int| 0 <= a < b < sorted@.len() ==> (#[trigger] sorted@[a]).1 <= (#[trigger] sorted@[b]).1,
                forall|a: int, b: int| 0 <= a < sorted@.len() && 0 <= b < sorted@.len() && a != b ==> (#[trigger] sorted@[a]).0 != (#[trigger] sorted@[b]).0,
                forall|x: VertexId| #[trigger] has_key(sorted@, x) <==> vs@.subrange(0, i as int).contains(x),
                origin.len() == sorted@.len(),
                forall|a: int| 0 <= a < origin.len() ==> 0 <= #[trigger] origin[a] < i && vs@[origin[a]] == sorted@[a].0,
                forall|a: int, b: int| 0 <= a < b < origin.len() && (#[trigger] sorted@[a]).1 == (#[trigger] sorted@[b]).1 ==> origin[a] < origin[b],
            decreases vs@.len() - i,
        {
            let v = vs[i];
            proof {
                assert(m.vertices().contains(v)) by {
                    assert(m.ids[i as int] == v);
                }
            }
            let inbound = self.graph.edges(v, Direction::Inbound);
            let d = inbound.len();
            proof {
                inbound@.unique_seq_to_set();
            }
            let mut pos: usize = 0;
            while pos < sorted.len() && sorted[pos].1 <= d
                invariant
                    pos <= sorted@.len(),
                    forall|a: int| 0 <= a < pos ==> (#[trigger] sorted@[a]).1 <= d,
                decreases sorted@.len() - pos,
            {
                pos = pos + 1;
            }
            let ghost old_sorted = sorted@;
            proof {
                assert(!vs@.subrange(0, i as int).contains(v)) by {
                    if vs@.subrange(0, i as int).contains(v) {
                        let b = choose|b: int| 0 <= b < i && vs@.subrange(0, i as int)[b] == v;
                        assert(vs@[b] == v);
                        assert(vs@.no_duplicates());
                    }
                }
            }
            sorted.insert(pos, (v, d));
            proof {
                assert(sorted@ == old_sorted.insert(pos as int, (v, d)));
                origin = origin.insert(pos as int, i as int);
                assert forall|a: int| 0 <= a < origin.len() implies 0 <= #[trigger] origin[a] < i + 1 && vs@[origin[a]] == sorted@[a].0 by {
                    if a < pos {
                        assert(sorted@[a] == old_sorted[a]);
                    } else if a > pos {
                        assert(sorted@[a] == old_sorted[a - 1]);
                    }
                }
                assert forall|a: int, b: int| 0 <= a < b < origin.len() && (#[trigger] sorted@[a]).1 == (#[trigger] sorted@[b]).1 implies origin[a] < origin[b] by {
                    if b == pos {
                        assert(sorted@[a] == old_sorted[a]);
                    } else if a == pos {
                        assert(sorted@[b] == old_sorted[b - 1]);
                        assert(old_sorted[pos as int].1 > d);
                        assert(old_sorted[pos as int].1 <= old_sorted[b - 1].1 || b - 1 == pos);
                    } else if b < pos {
                        assert(sorted@[a] == old_sorted[a] && sorted@[b] == old_sorted[b]);
                    } else if a > pos {
                        assert(sorted@[a] == old_sorted[a - 1] && sorted@[b] == old_sorted[b - 1]);
                    } else {
                        assert(sorted@[a] == old_sorted[a] && sorted@[b] == old_sorted[b - 1]);
                    }
                }
                assert(sorted@ == old_sorted.insert(pos as int, (v, d)));
                assert forall|a: int| 0 <= a < sorted@.len() implies (#[trigger] sorted@[a]).1 == in_degree(m, sorted@[a].0) by {
                    if a < pos {
                        assert(sorted@[a] == old_sorted[a]);
                    } else if a > pos {
                        assert(sorted@[a] == old_sorted[a - 1]);
                    }
                }
                assert forall|a: int, b: int| 0 <= a < b < sorted@.len() implies (#[trigger] sorted@[a]).1 <= (#[trigger] sorted@[b]).1 by {
                    if b < pos {
                        assert(sorted@[a] == old_sorted[a] && sorted@[b] == old_sorted[b]);
                    } else if b == pos {
                        assert(sorted@[a] == old_sorted[a]);
                    } else if a > pos {
                        assert(sorted@[a] == old_sorted[a - 1] && sorted@[b] == old_sorted[b - 1]);
                    } else if a == pos {
                        assert(sorted@[b] == old_sorted[b - 1]);
                        if pos < old_sorted.len() {
                            assert(!(old_sorted[pos as int].1 <= d));
                            assert(old_sorted[pos as int].1 <= old_sorted[b - 1].1 || b - 1 == pos);
                        }
                    } else {
                        assert(sorted@[a] == old_sorted[a] && sorted@[b] == old_sorted[b - 1]);
                    }
                }
                assert forall|a: int, b: int| 0 <= a < sorted@.len() && 0 <= b < sorted@.len() && a != b implies (#[trigger] sorted@[a]).0 != (#[trigger] sorted@[b]).0 by {
                    let a1 = if a < pos { a } else { a - 1 };
                    let b1 = if b < pos { b } else { b - 1 };
                    if a != pos && b != pos {
                        assert(sorted@[a] == old_sorted[a1] && sorted@[b] == old_sorted[b1]);
                    } else if a == pos {
                        assert(sorted@[b] == old_sorted[b1]);
                        assert(has_key(old_sorted, old_sorted[b1].0));
                        assert(vs@.subrange(0, i as int).contains(old_sorted[b1].0));
                    } else {
                        assert(sorted@[a] == old_sorted[a1]);
                        assert(has_key(old_sorted, old_sorted[a1].0));
                        assert(vs@.subrange(0, i as int).contains(old_sorted[a1].0));
                    }
                }
                let s0 = vs@.subrange(0, i as int);
                let s1 = vs@.subrange(0, i + 1 as int);
                assert(s1 == s0.push(v));
                crate::hash_table::lemma_push_contains(s0, v);
                assert forall|x: VertexId| #[trigger] has_key(sorted@, x) <==> s1.contains(x) by {
                    if has_key(sorted@, x) {
                        let a = choose|a: int| 0 <= a < sorted@.len() && (#[trigger] sorted@[a]).0 == x;
                        if a < pos {
                            assert(sorted@[a] == old_sorted[a]);
                            assert(has_key(old_sorted, x));
                        } else if a > pos {
                            assert(sorted@[a] == old_sorted[a - 1]);
                            assert(has_key(old_sorted, x));
                        }
                    }
                    if s1.contains(x) {
                        if x == v {
                            assert(sorted@[pos as int].0 == x);
                        } else {
                            assert(has_key(old_sorted, x));
                            let a2 = choose|a2: int| 0 <= a2 < old_sorted.len() && (#[trigger] old_sorted[a2]).0 == x;
                            if a2 < pos {
                                assert(sorted@[a2] == old_sorted[a2]);
                            } else {
                                assert(sorted@[a2 + 1] == old_sorted[a2]);
                            }
                        }
                    }
                }
            }
            i = i + 1;
        }
        let mut r: Vec<VertexId> = Vec::new();
        let mut k: usize = 0;
        while k < sorted.len()
            invariant
                k <= sorted@.len(),
                r@.len() == k,
                forall|a: int| 0 <= a < k ==> #[trigger] r@[a] == sorted@[a].0,
            decreases sorted@.len() - k,
        {
            r.push(sorted[k].0);
            k = k + 1;
        }
        proof {
            assert forall|a: int, b: int| 0 <= a < r@.len() && 0 <= b < r@.len() && a != b implies r@[a] != r@[b] by {
                assert(sorted@[a].0 != sorted@[b].0);
            }
            assert forall|x: VertexId| r@.contains(x) <==> m.vertices().contains(x) by {
                assert(vs@.subrange(0, vs@.len() as int) == vs@);
                if r@.contains(x) {
                    let a = choose|a: int| 0 <= a < r@.len() && r@[a] == x;
                    assert(sorted@[a].0 == x);
                    assert(has_key(sorted@, x));
                }
                if m.vertices().contains(x) {
                    assert(has_key(sorted@, x));
                    let a = choose|a: int| 0 <= a < sorted@.len() && (#[trigger] sorted@[a]).0 == x;
                    assert(r@[a] == x);
                }
            }
            assert(r@.to_set() =~= m.vertices());
            assert forall|i: int, j: int| 0 <= i < j < r@.len() implies in_degree(m, #[trigger] r@[i]) <= in_degree(m, #[trigger] r@[j]) by {
                assert(sorted@[i].1 <= sorted@[j].1);
            }
            assert forall|i: int, j: int|
                0 <= i < j < r@.len() && in_degree(m, #[trigger] r@[i]) == in_degree(m, #[trigger] r@[j])
                    implies m.ids.index_of(r@[i]) < m.ids.index_of(r@[j]) by {
                assert(sorted@[i].1 == sorted@[j].1);
                crate::hash_table::lemma_index_of(vs@, origin[i]);
                crate::hash_table::lemma_index_of(vs@, origin[j]);
            }
        }
        r
    }
}

/// The edges whose source stands at or after their target in `ordering`.
pub fn leftward_edges(graph: &HashTable, ordering: Vec<VertexId>) -> (r: Vec<Edge>)
    requires
        graph@.wf(),
        is_vertex_order(graph@, ordering@),
    ensures
        r@.no_duplicates(),
        r@.to_set() == leftward(graph@, ordering@),
{
    let ghost m = graph@;
    let ghost ord = ordering@;
    let mut result: Vec<Edge> = Vec::new();
    let mut source_idx: usize = 0;
    while source_idx < ordering.len()
        invariant
            m == graph@,
            m.wf(),
            ord == ordering@,
            is_vertex_order(m, ord),
            source_idx <= ord.len(),
            result@.no_duplicates(),
            forall|f: Edge| #[trigger] result@.contains(f) <==> (leftward(m, ord).contains(f)
                && ord.subrange(0, source_idx as int).contains(f.0)),
        decreases ord.len() - source_idx,
    {
        let source = ordering[source_idx];
        proof {
            assert(ord.to_set().contains(source));
        }
        let out = graph.edges(source, Direction::Outbound);
        let ghost r0 = result@;
        let ghost s0 = ord.subrange(0, source_idx as int);
        let ghost s1 = ord.subrange(0, source_idx + 1 as int);
        proof {
            assert(s1 == s0.push(source));
            crate::hash_table::lemma_push_contains(s0, source);
            assert(!s0.contains(source)) by {
                if s0.contains(source) {
                    let b = choose|b: int| 0 <= b < source_idx && s0[b] == source;
                    assert(ord[b] == source);
                }
            }
            assert(ord.index_of(source) == source_idx) by {
                crate::hash_table::lemma_index_of(ord, source_idx as int);
            }
        }
        let mut j: usize = 0;
        while j < out.len()
            invariant
                m == graph@,
                m.wf(),
                ord == ordering@,
                is_vertex_order(m, ord),
                source_idx < ord.len(),
                ord[source_idx as int] == source,
                ord.index_of(source) == source_idx,
                out@.no_duplicates(),
                out@.to_set() == m.out_edges(source),
                j <= out@.len(),
                result@.no_duplicates(),
                !s0.contains(source),
                forall|f: Edge| #[trigger] result@.contains(f) <==> (r0.contains(f) || (
                    exists|b: int| 0 <= b < j && out@[b] == f) && leftward(m, ord).contains(f)),
                forall|f: Edge| #[trigger] r0.contains(f) <==> (leftward(m, ord).contains(f)
                    && s0.contains(f.0)),
            decreases out@.len() - j,
        {
            let e = out[j];
            proof {
                assert(out@.to_set().contains(e));
                assert(m.edges().contains(e));
                assert(ord.to_set().contains(e.1));
            }
            let destination_idx = crate::hash_table::position(&ordering, e.1).unwrap();
            proof {
                crate::hash_table::lemma_index_of(ord, destination_idx as int);
            }
            let ghost q0 = result@;
            if destination_idx <= source_idx {
                proof {
                    if q0.contains(e) {
                        if r0.contains(e) {
                            assert(s0.contains(e.0));
                        } else {
                            let b = choose|b: int| 0 <= b < j && out@[b] == e;
                            assert(out@[j as int] == e);
                        }
                    }
                    crate::hash_table::lemma_push_no_dup(q0, e);
                    crate::hash_table::lemma_push_contains(q0, e);
                }
                result.push(e);
            }
            proof {
                assert forall|f: Edge| #[trigger] result@.contains(f) <==> (r0.contains(f) || (
                    exists|b: int| 0 <= b < j + 1 && out@[b] == f) && leftward(m, ord).contains(f)) by {
                    if exists|b: int| 0 <= b < j + 1 && out@[b] == f {
                        let b = choose|b: int| 0 <= b < j + 1 && out@[b] == f;
                        if b < j {
                            assert(exists|b2: int| 0 <= b2 < j && out@[b2] == f);
                        }
                    }
                    if exists|b: int| 0 <= b < j && out@[b] == f {
                        let b = choose|b: int| 0 <= b < j && out@[b] == f;
                        assert(0 <= b < j + 1 && out@[b] == f);
                    }
                }
            }
            j = j + 1;
        }
        proof {
            assert forall|f: Edge| #[trigger] result@.contains(f) <==> (leftward(m, ord).contains(f)
                && s1.contains(f.0)) by {
                if leftward(m, ord).contains(f) && f.0 == source {
                    assert(m.out_edges(source).contains(f));
                    assert(out@.contains(f));
                    let b = choose|b: int| 0 <= b < out@.len() && out@[b] == f;
                }
                if exists|b: int| 0 <= b < out@.len() && out@[b] == f {
                    let b = choose|b: int| 0 <= b < out@.len() && out@[b] == f;
                    assert(out@.to_set().contains(f));
                }
            }
        }
        source_idx = source_idx + 1;
    }
    proof {
        assert(ord.subrange(0, ord.len() as int) == ord);
        assert forall|f: Edge| result@.contains(f) <==> leftward(m, ord).contains(f) by {
            if leftward(m, ord).contains(f) {
                assert(m.out(f.0).contains(f.1));
                assert(m.vertices().contains(f.0));
                assert(ord.to_set().contains(f.0));
            }
        }
        assert(result@.to_set() =~= leftward(m, ord));
    }
    result
}

} // verus!
