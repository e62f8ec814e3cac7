use crate::divide_and_conquer_by_order_heuristic::lemma_vertex_count;
use crate::feedback_arc_set::{is_feedback_arc_set, FeedbackArcSet};
use crate::feedback_arc_set::{compact_rank, lemma_compact_rank};
use crate::hash_table::{
    is_acyclic, lemma_edge_endpoints, lemma_edges_finite, lemma_push_contains, lemma_push_no_dup, ranks_forward, Edge,
    GraphModel, HashTable, VertexId,
};
use crate::stochastic_evolution::StochasticEvolution;
use crate::divide_and_conquer_by_order_heuristic::is_induced;
use crate::stochastic_evolution::is_bisection;
use crate::tarjan::{in_reverse_topological_order, is_partition, parts_strongly_connected, reaches, StronglyConnectedComponents, Tarjan};
use vstd::prelude::*;

verus! {

/// Divide and conquer over strongly connected components: a graph of
/// several components is handled component by component; a single component
/// is bisected, the edges from the second part back into the first join the
/// feedback arc set, and both parts are handled in turn.
pub struct DivideAndConquerByBisectionHeuristic<'a> {
    pub graph: &'a HashTable,
    pub seed: u64,
}

impl<'a> DivideAndConquerByBisectionHeuristic<'a> {
    pub fn new(graph: &'a HashTable, seed: u64) -> (r: Self)
        ensures
            r.graph == graph,
            r.seed == seed,
    {
        Self { graph, seed }
    }
}

/// Adds to `fas` the edges of `more` it does not hold yet.
fn extend_unique(fas: &mut Vec<Edge>, more: &Vec<Edge>)
    requires
        old(fas)@.no_duplicates(),
    ensures
        final(fas)@.no_duplicates(),
        final(fas)@.to_set() == old(fas)@.to_set().union(more@.to_set()),
{
    let ghost f0 = fas@;
    let mut k: usize = 0;
    while k < more.len()
        invariant
            k <= more@.len(),
            fas@.no_duplicates(),
            forall|e: Edge| #[trigger] fas@.contains(e) <==> (f0.contains(e) || more@.subrange(0, k as int).contains(e)),
        decreases more@.len() - k,
    {
        let e = more[k];
        let ghost t = fas@;
        proof {
            lemma_push_contains(more@.subrange(0, k as int), e);
            assert(more@.subrange(0, k + 1 as int) == more@.subrange(0, k as int).push(e));
            lemma_push_contains(t, e);
        }
        if !edge_in(fas, e) {
            proof {
                lemma_push_no_dup(t, e);
            }
            fas.push(e);
        }
        k = k + 1;
    }
    proof {
        assert(more@.subrange(0, k as int) == more@);
        assert(fas@.to_set() =~= f0.to_set().union(more@.to_set()));
    }
}

/// Whether `e` occurs in `s`.
fn edge_in(s: &Vec<Edge>, e: Edge) -> (r: bool)
    ensures
        r == s@.contains(e),
{
    let mut i: usize = 0;
    while i < s.len()
        invariant
            i <= s@.len(),
            forall|k: int| 0 <= k < i ==> s@[k] != e,
        decreases s@.len() - i,
    {
        if s[i].0 == e.0 && s[i].1 == e.1 {
            return true;
        }
        i = i + 1;
    }
    false
}

/// The edges of `m` between two vertices of `part`.
pub open spec fn inner(m: GraphModel, part: Seq<VertexId>) -> Set<Edge> {
    m.edges().filter(|e: Edge| part.contains(e.0) && part.contains(e.1))
}

/// Fewer edges stay acyclic.
proof fn lemma_acyclic_subset(a: Set<Edge>, b: Set<Edge>)
    requires
        is_acyclic(a),
        b.subset_of(a),
    ensures
        is_acyclic(b),
{
    let r = choose|r: spec_fn(VertexId) -> int| ranks_forward(r, a);
    assert(ranks_forward(r, b));
}

/// A lower tier, of width `b`, ranks below a higher one.
proof fn lemma_tiers(k: int, c: int, d: int, b: int, x: int, y: int)
    requires
        d < c,
        0 <= x < b,
        0 <= y,
    ensures
        (k - c) * b + x < (k - d) * b + y,
{
    assert((k - d) * b >= (k - c) * b + b) by (nonlinear_arith)
        requires d < c, b > 0;
}

/// The strongly connected components of `m`: a partition of its vertices
/// into parts whose vertices reach each other, in reverse topological order.
pub open spec fn are_components(m: GraphModel, parts: Seq<Seq<VertexId>>) -> bool {
    &&& is_partition(parts, m.vertices())
    &&& in_reverse_topological_order(parts, m.edges())
    &&& parts_strongly_connected(parts, m.edges())
}

/// The split into several components: `subs[c]` is the subgraph of
/// component `c` and `fas` the union of the sets `fs[c]`.
pub open spec fn component_case(m: GraphModel, fas: Set<Edge>, parts: Seq<Seq<VertexId>>, subs: Seq<GraphModel>, fs: Seq<Set<Edge>>) -> bool {
    &&& are_components(m, parts)
    &&& parts.len() >= 2
    &&& subs.len() == parts.len()
    &&& fs.len() == parts.len()
    &&& forall|c: int| 0 <= c < parts.len() ==> is_induced(m, parts[c].to_set(), #[trigger] subs[c]) && subs[c].ids.len() < m.ids.len()
    &&& forall|e: Edge| fas.contains(e) <==> exists|c: int| 0 <= c < fs.len() && #[trigger] fs[c].contains(e)
}

/// A single component bisected into `v1` and `v2`, of subgraphs `a` and
/// `b`: `fas` is the edges from `v2` into `v1` with `f1` and `f2`.
pub open spec fn bisection_case(m: GraphModel, fas: Set<Edge>, v1: Seq<VertexId>, v2: Seq<VertexId>, a: GraphModel, b: GraphModel, f1: Set<Edge>, f2: Set<Edge>) -> bool {
    &&& exists|parts: Seq<Seq<VertexId>>| are_components(m, parts) && parts.len() == 1
    &&& is_bisection(v1, v2, m.vertices(), 3, 5)
    &&& is_induced(m, v1.to_set(), a)
    &&& is_induced(m, v2.to_set(), b)
    &&& a.ids.len() < m.ids.len()
    &&& b.ids.len() < m.ids.len()
    &&& forall|e: Edge| #[trigger] fas.contains(e) <==> ((m.edges().contains(e) && v2.contains(e.0) && v1.contains(e.1)) || f1.contains(e) || f2.contains(e))
}

/// What the divide and conquer returns for `m`: all edges of a graph of at
/// most one vertex; for several components the union of what it returns
/// for each; for one component, with a bisection of at most three fifths
/// per part (half rounded up for three vertices), the edges from the
/// second part into the first with what it returns for both parts.
pub open spec fn is_bisection_result(m: GraphModel, fas: Set<Edge>) -> bool
    decreases m.ids.len(),
{
    if m.ids.len() <= 1 {
        fas == m.edges()
    } else {
        ||| exists|parts: Seq<Seq<VertexId>>, subs: Seq<GraphModel>, fs: Seq<Set<Edge>>|
            #[trigger] component_case(m, fas, parts, subs, fs) && forall|c: int| 0 <= c < parts.len() ==> subs[c].ids.len() < m.ids.len()
                && is_bisection_result(#[trigger] subs[c], fs[c])
        ||| exists|v1: Seq<VertexId>, v2: Seq<VertexId>, a: GraphModel, b: GraphModel, f1: Set<Edge>, f2: Set<Edge>|
            #[trigger] bisection_case(m, fas, v1, v2, a, b, f1, f2) && a.ids.len() < m.ids.len() && b.ids.len() < m.ids.len()
                && is_bisection_result(a, f1) && is_bisection_result(b, f2)
    }
}

/// Every edge of `fas` joins two vertices of one strongly connected
/// component of `m`.
pub open spec fn within_components(m: GraphModel, fas: Set<Edge>) -> bool {
    exists|parts: Seq<Seq<VertexId>>|
        are_components(m, parts) && forall|e: Edge|
            #[trigger] fas.contains(e) ==> exists|c: int| 0 <= c < parts.len() && parts[c].contains(e.0) && parts[c].contains(e.1)
}

/// An edge that stays inside a strongly connected component lies on a cycle.
proof fn lemma_within_on_cycle(m: GraphModel, fas: Set<Edge>)
    requires
        within_components(m, fas),
    ensures
        forall|e: Edge| #[trigger] fas.contains(e) ==> reaches(m.edges(), e.1, e.0),
{
    let parts = choose|parts: Seq<Seq<VertexId>>|
        are_components(m, parts) && forall|e: Edge|
            #[trigger] fas.contains(e) ==> exists|c: int| 0 <= c < parts.len() && parts[c].contains(e.0) && parts[c].contains(e.1);
    assert forall|e: Edge| #[trigger] fas.contains(e) implies reaches(m.edges(), e.1, e.0) by {
        let c = choose|c: int| 0 <= c < parts.len() && parts[c].contains(e.0) && parts[c].contains(e.1);
        assert(parts[c].contains(e.1) && parts[c].contains(e.0));
    }
}

/// The feedback arc set the divide and conquer builds for `graph`.
fn fas_of(graph: &HashTable, seed: u64) -> (r: Vec<Edge>)
    requires
        graph@.wf(),
    ensures
        r@.no_duplicates(),
        is_feedback_arc_set(graph@, r@.to_set()),
        within_components(graph@, r@.to_set()),
        is_bisection_result(graph@, r@.to_set()),
    decreases graph@.ids.len(),
{
    let ghost m = graph@;
    proof {
        lemma_vertex_count(m);
        lemma_edges_finite(m);
    }
    let mut fas: Vec<Edge> = Vec::new();
    let sc_components = Tarjan::new(graph).strongly_connected_components();
    let ghost parts = sc_components@.map_values(|c: Vec<VertexId>| c@);
    proof {
        assert(are_components(m, parts));
        assert forall|e: Edge| #[trigger] m.edges().contains(e) && sc_components@.len() == 1 implies
            parts[0].contains(e.0) && parts[0].contains(e.1) by {
            lemma_edge_endpoints(m, e);
            let c0 = choose|c: int| 0 <= c < parts.len() && #[trigger] parts[c].contains(e.0);
            let c1 = choose|c: int| 0 <= c < parts.len() && #[trigger] parts[c].contains(e.1);
        }
    }
    if sc_components.len() == 1 {
        if graph.order() <= 1 {
            let all = graph.all_edges();
            proof {
                assert forall|e: Edge| #[trigger] all@.to_set().contains(e) implies exists|c: int| 0 <= c < parts.len() && parts[c].contains(e.0) && parts[c].contains(e.1) by {
                    assert(m.edges().contains(e));
                    assert(parts[0].contains(e.0) && parts[0].contains(e.1));
                }
                let rest = m.edges().difference(all@.to_set());
                assert(rest =~= Set::<Edge>::empty());
                let rank = |v: VertexId| 0int;
                assert(ranks_forward(rank, rest));
            }
            proof {
                assert(m.ids.len() <= 1);
            }
            return all;
        }
        let mut engine = StochasticEvolution::new(graph, seed);
        let (v_1, v_2) = engine.bisection();
        let cross = graph.edges_from_to(v_2.as_slice(), v_1.as_slice());
        let graph_from_v_1 = HashTable::from_graph(graph, v_1.as_slice());
        let graph_from_v_2 = HashTable::from_graph(graph, v_2.as_slice());
        proof {
            let n = m.vertices().len();
            v_1@.unique_seq_to_set();
            v_2@.unique_seq_to_set();
            lemma_vertex_count(graph_from_v_1@);
            lemma_vertex_count(graph_from_v_2@);
            assert(graph_from_v_1@.vertices() =~= v_1@.to_set());
            assert(graph_from_v_2@.vertices() =~= v_2@.to_set());
            assert(v_1@.len() < n);
            assert(v_2@.len() < n);
        }
        let fas_from_v_1 = fas_of(&graph_from_v_1, seed);
        let fas_from_v_2 = fas_of(&graph_from_v_2, seed);
        extend_unique(&mut fas, &cross);
        extend_unique(&mut fas, &fas_from_v_1);
        extend_unique(&mut fas, &fas_from_v_2);
        proof {
            let fv = fas@.to_set();
            let a = graph_from_v_1@;
            let b = graph_from_v_2@;
            let f1 = fas_from_v_1@.to_set();
            let f2 = fas_from_v_2@.to_set();
            assert(a.vertices() =~= m.vertices().filter(|v: VertexId| v_1@.to_set().contains(v)));
            assert(a.edges() =~= m.edges().filter(|e: Edge| v_1@.to_set().contains(e.0) && v_1@.to_set().contains(e.1)));
            assert(b.vertices() =~= m.vertices().filter(|v: VertexId| v_2@.to_set().contains(v)));
            assert(b.edges() =~= m.edges().filter(|e: Edge| v_2@.to_set().contains(e.0) && v_2@.to_set().contains(e.1)));
            assert(are_components(m, parts) && parts.len() == 1);
            assert forall|e: Edge| #[trigger] fv.contains(e) <==> ((m.edges().contains(e) && v_2@.contains(e.0) && v_1@.contains(e.1)) || f1.contains(e) || f2.contains(e)) by {
                assert(cross@.to_set().contains(e) <==> (m.edges().contains(e) && v_2@.contains(e.0) && v_1@.contains(e.1)));
            }
            assert(bisection_case(m, fv, v_1@, v_2@, a, b, f1, f2));
            assert(m.ids.len() > 1);
            assert(is_bisection_result(m, fv));
        }
        proof {
            let f = fas@.to_set();
            let e1 = graph_from_v_1@.edges().difference(fas_from_v_1@.to_set());
            let e2 = graph_from_v_2@.edges().difference(fas_from_v_2@.to_set());
            let r1 = choose|r: spec_fn(VertexId) -> int| ranks_forward(r, e1);
            let r2 = choose|r: spec_fn(VertexId) -> int| ranks_forward(r, e2);
            let s1 = v_1@.to_set();
            let s2 = v_2@.to_set();
            vstd::seq_lib::seq_to_set_is_finite(v_1@);
            vstd::seq_lib::seq_to_set_is_finite(v_2@);
            let b = s1.len() as int + 1;
            let rank = |v: VertexId| if s1.contains(v) {
                compact_rank(r1, s1, v)
            } else {
                b + compact_rank(r2, s2, v)
            };
            let rest = m.edges().difference(f);
            assert forall|e: Edge| #[trigger] rest.contains(e) implies rank(e.0) < rank(e.1) by {
                lemma_edge_endpoints(m, e);
                lemma_compact_rank(r1, s1, e.0, e.1);
                lemma_compact_rank(r2, s2, e.0, e.1);
                lemma_compact_rank(r2, s2, e.1, e.0);
                if s1.contains(e.0) && s1.contains(e.1) {
                    assert(graph_from_v_1@.edges().contains(e));
                    assert(e1.contains(e));
                } else if s2.contains(e.0) && s2.contains(e.1) {
                    assert(!s1.contains(e.0)) by {
                        assert(v_2@.contains(e.0));
                    }
                    assert(!s1.contains(e.1)) by {
                        assert(v_2@.contains(e.1));
                    }
                    assert(graph_from_v_2@.edges().contains(e));
                    assert(e2.contains(e));
                } else if s2.contains(e.0) && s1.contains(e.1) {
                    assert(cross@.to_set().contains(e));
                } else {
                    assert(s1.contains(e.0) && s2.contains(e.1));
                    assert(!s1.contains(e.1)) by {
                        assert(v_2@.contains(e.1));
                    }
                }
            }
            assert(ranks_forward(rank, rest));
            assert forall|e: Edge| #[trigger] f.contains(e) implies exists|c: int| 0 <= c < parts.len() && parts[c].contains(e.0) && parts[c].contains(e.1) by {
                assert(m.edges().contains(e));
                assert(parts[0].contains(e.0) && parts[0].contains(e.1));
            }
        }
    } else {
        let ghost mut subs: Seq<GraphModel> = Seq::empty();
        let ghost mut fs: Seq<Set<Edge>> = Seq::empty();
        let mut k: usize = 0;
        while k < sc_components.len()
            invariant
                subs.len() == k,
                fs.len() == k,
                forall|c: int| 0 <= c < k ==> is_induced(m, parts[c].to_set(), #[trigger] subs[c]) && subs[c].ids.len() < m.ids.len()
                    && is_bisection_result(subs[c], fs[c]),
                forall|e: Edge| fas@.to_set().contains(e) <==> exists|c: int| 0 <= c < fs.len() && #[trigger] fs[c].contains(e),
                are_components(m, parts),
                m == graph@,
                m.wf(),
                m.vertices().len() == m.ids.len(),
                m.vertices().finite(),
                m.edges().finite(),
                parts == sc_components@.map_values(|c: Vec<VertexId>| c@),
                is_partition(parts, m.vertices()),
                in_reverse_topological_order(parts, m.edges()),
                sc_components@.len() != 1,
                k <= sc_components@.len(),
                fas@.no_duplicates(),
                fas@.to_set().subset_of(m.edges()),
                forall|c: int| 0 <= c < k ==> is_acyclic(#[trigger] inner(m, parts[c]).difference(fas@.to_set())),
                forall|e: Edge| #[trigger] fas@.to_set().contains(e) ==> exists|c: int| 0 <= c < parts.len() && parts[c].contains(e.0) && parts[c].contains(e.1),
            decreases sc_components@.len() - k,
        {
            let graph_from_scc = HashTable::from_graph(graph, sc_components[k].as_slice());
            proof {
                let c = parts[k as int];
                assert(c == sc_components@[k as int]@);
                let other = if k == 0 { 1int } else { 0int };
                assert(parts[other].len() > 0);
                let x = parts[other][0];
                assert(parts[other].contains(x));
                assert(m.vertices().contains(x));
                assert(!c.contains(x));
                lemma_vertex_count(graph_from_scc@);
                assert(graph_from_scc@.vertices().subset_of(m.vertices().remove(x)));
                vstd::set_lib::lemma_len_subset(graph_from_scc@.vertices(), m.vertices().remove(x));
            }
            let fas_from_scc = fas_of(&graph_from_scc, seed);
            let ghost f0 = fas@.to_set();
            extend_unique(&mut fas, &fas_from_scc);
            proof {
                let g = graph_from_scc@;
                let fk = fas_from_scc@.to_set();
                let pk = parts[k as int];
                assert(pk == sc_components@[k as int]@);
                assert(g.vertices() =~= m.vertices().filter(|v: VertexId| pk.to_set().contains(v)));
                assert(g.edges() =~= m.edges().filter(|e: Edge| pk.to_set().contains(e.0) && pk.to_set().contains(e.1)));
                let subs0 = subs;
                let fs0 = fs;
                subs = subs.push(g);
                fs = fs.push(fk);
                assert forall|c: int| 0 <= c < k + 1 implies is_induced(m, parts[c].to_set(), #[trigger] subs[c]) && subs[c].ids.len() < m.ids.len()
                    && is_bisection_result(subs[c], fs[c]) by {
                    if c < k {
                        assert(subs[c] == subs0[c] && fs[c] == fs0[c]);
                    }
                }
                assert forall|e: Edge| fas@.to_set().contains(e) <==> exists|c: int| 0 <= c < fs.len() && #[trigger] fs[c].contains(e) by {
                    if fas@.to_set().contains(e) {
                        if f0.contains(e) {
                            let c = choose|c: int| 0 <= c < fs0.len() && #[trigger] fs0[c].contains(e);
                            assert(fs[c] == fs0[c]);
                        } else {
                            assert(fs[k as int] == fk);
                        }
                    }
                    if exists|c: int| 0 <= c < fs.len() && #[trigger] fs[c].contains(e) {
                        let c = choose|c: int| 0 <= c < fs.len() && #[trigger] fs[c].contains(e);
                        if c < k {
                            assert(fs0[c] == fs[c]);
                        }
                    }
                }
                let f1 = fas@.to_set();
                assert forall|c: int| 0 <= c < k + 1 implies is_acyclic(#[trigger] inner(m, parts[c]).difference(f1)) by {
                    if c < k {
                        assert(is_acyclic(inner(m, parts[c]).difference(f0)));
                        lemma_acyclic_subset(inner(m, parts[c]).difference(f0), inner(m, parts[c]).difference(f1));
                    } else {
                        assert(parts[c] == sc_components@[k as int]@);
                        let own = graph_from_scc@.edges().difference(fas_from_scc@.to_set());
                        assert(inner(m, parts[c]).difference(f1).subset_of(own));
                        lemma_acyclic_subset(own, inner(m, parts[c]).difference(f1));
                    }
                }
                assert forall|e: Edge| #[trigger] f1.contains(e) implies exists|c: int| 0 <= c < parts.len() && parts[c].contains(e.0) && parts[c].contains(e.1) by {
                    if !f0.contains(e) {
                        assert(fas_from_scc@.to_set().contains(e));
                        assert(graph_from_scc@.edges().contains(e));
                        assert(parts[k as int] == sc_components@[k as int]@);
                        assert(parts[k as int].contains(e.0) && parts[k as int].contains(e.1));
                    }
                }
            }
            k = k + 1;
        }
        proof {
            let f = fas@.to_set();
            let kk = parts.len() as int;
            let b = m.vertices().len() as int + 1;
            let rk = |c: int| choose|r: spec_fn(VertexId) -> int| ranks_forward(r, inner(m, parts[c]).difference(f));
            let comp = |v: VertexId| choose|c: int| 0 <= c < kk && #[trigger] parts[c].contains(v);
            let rank = |v: VertexId| (kk - comp(v)) * b + compact_rank(rk(comp(v)), parts[comp(v)].to_set(), v);
            let rest = m.edges().difference(f);
            assert forall|e: Edge| #[trigger] rest.contains(e) implies rank(e.0) < rank(e.1) by {
                lemma_edge_endpoints(m, e);
                let c = comp(e.0);
                let d = comp(e.1);
                assert(parts[c].contains(e.0));
                assert(parts[d].contains(e.1));
                assert(d <= c);
                vstd::seq_lib::seq_to_set_is_finite(parts[c]);
                vstd::seq_lib::seq_to_set_is_finite(parts[d]);
                assert(parts[c].to_set().subset_of(m.vertices())) by {
                    assert forall|x: VertexId| parts[c].to_set().contains(x) implies m.vertices().contains(x) by {
                        assert(parts[c].contains(x));
                    }
                }
                vstd::set_lib::lemma_len_subset(parts[c].to_set(), m.vertices());
                lemma_compact_rank(rk(c), parts[c].to_set(), e.0, e.1);
                lemma_compact_rank(rk(d), parts[d].to_set(), e.1, e.0);
                if d == c {
                    assert(inner(m, parts[c]).contains(e));
                    assert(is_acyclic(inner(m, parts[c]).difference(f)));
                    assert(inner(m, parts[c]).difference(f).contains(e));
                } else {
                    lemma_tiers(kk, c, d, b, compact_rank(rk(c), parts[c].to_set(), e.0), compact_rank(rk(d), parts[d].to_set(), e.1));
                }
            }
            assert(ranks_forward(rank, rest));
            if parts.len() == 0 {
                assert(m.ids.len() == 0) by {
                    if m.ids.len() > 0 {
                        assert(m.vertices().contains(m.ids[0]));
                    }
                }
                assert(f =~= m.edges()) by {
                    assert forall|e: Edge| m.edges().contains(e) implies false by {
                        lemma_edge_endpoints(m, e);
                    }
                }
            } else {
                assert(parts.len() >= 2);
                assert(m.ids.len() > 1) by {
                    let x = parts[0][0];
                    let y = parts[1][0];
                    assert(parts[0].contains(x) && parts[1].contains(y));
                    assert(x != y);
                    assert(m.vertices().contains(x) && m.vertices().contains(y));
                    assert(m.ids.contains(x) && m.ids.contains(y));
                    if m.ids.len() <= 1 {
                        let i = choose|i: int| 0 <= i < m.ids.len() && m.ids[i] == x;
                        let j = choose|j: int| 0 <= j < m.ids.len() && m.ids[j] == y;
                    }
                }
                assert(component_case(m, f, parts, subs, fs));
                assert(is_bisection_result(m, f));
            }
        }
    }
    fas
}

impl<'a> FeedbackArcSet for DivideAndConquerByBisectionHeuristic<'a> {
    open spec fn input(&self) -> GraphModel {
        self.graph@
    }

    /// The result of the divide and conquer, whose every edge joins two
    /// vertices of one strongly connected component, so lies on a cycle.
    open spec fn describes(&self, fas: Set<Edge>) -> bool {
        &&& is_bisection_result(self.graph@, fas)
        &&& within_components(self.graph@, fas)
        &&& forall|e: Edge| #[trigger] fas.contains(e) ==> reaches(self.graph@.edges(), e.1, e.0)
    }

    fn feedback_arc_set(&self) -> (r: Vec<Edge>) {
        let r = fas_of(self.graph, self.seed);
        proof {
            lemma_within_on_cycle(self.graph@, r@.to_set());
        }
        r
    }
}

} // verus!
