use crate::feedback_arc_set::FeedbackArcSet;
use crate::hash_table::{lemma_push_contains, lemma_push_no_dup, Direction, Edge, GraphModel, HashTable, VertexId};
use crate::topological_sort::{is_vertex_order, leftward, leftward_edges, lemma_leftward_is_fas};
use vstd::prelude::*;

verus! {

/// Greedy heuristic of Eades, Lin and Smyth: sinks are moved to the back of
/// a vertex sequence, sources to the front, and otherwise the vertex whose
/// outdegree most exceeds its indegree goes to the front; the feedback arc
/// set is every edge that points backwards in the sequence.
pub struct GreedyHeuristic<'a> {
    pub graph: &'a HashTable,
}

impl<'a> GreedyHeuristic<'a> {
    pub fn new(graph: &'a HashTable) -> (r: Self)
        ensures
            r.graph == graph,
    {
        Self { graph }
    }
}

/// Degree bookkeeping of one vertex of the shrinking graph.
struct FasNode {
    out_edges: Vec<VertexId>,
    in_edges: Vec<VertexId>,
    out_degree: usize,
    in_degree: usize,
    delta: i128,
    /// When the degrees last changed; among equal candidates the most
    /// recently changed vertex is placed first.
    stamp: u64,
}

/// `s` without the entries equal to `x`.
fn without(s: &Vec<VertexId>, x: VertexId) -> (r: Vec<VertexId>)
    ensures
        forall|y: VertexId| #[trigger] r@.contains(y) <==> (s@.contains(y) && y != x),
        r@.len() <= s@.len(),
        s@.no_duplicates() ==> r@.no_duplicates(),
{
    let mut r: Vec<VertexId> = Vec::new();
    let mut i: usize = 0;
    while i < s.len()
        invariant
            i <= s@.len(),
            r@.len() <= i,
            forall|y: VertexId| #[trigger] r@.contains(y) <==> (s@.subrange(0, i as int).contains(y) && y != x),
            s@.no_duplicates() ==> r@.no_duplicates(),
        decreases s@.len() - i,
    {
        let ghost r0 = r@;
        proof {
            if s@.no_duplicates() && s@.subrange(0, i as int).contains(s@[i as int]) {
                let b = choose|b: int| 0 <= b < i && s@.subrange(0, i as int)[b] == s@[i as int];
                assert(s@[b] == s@[i as int]);
            }
            if s@.no_duplicates() && !r0.contains(s@[i as int]) {
                lemma_push_no_dup(r0, s@[i as int]);
            }
            lemma_push_contains(s@.subrange(0, i as int), s@[i as int]);
            assert(s@.subrange(0, i + 1 as int) == s@.subrange(0, i as int).push(s@[i as int]));
            lemma_push_contains(r0, s@[i as int]);
        }
        if s[i] != x {
            r.push(s[i]);
        }
        i = i + 1;
    }
    proof {
        assert(s@.subrange(0, i as int) == s@);
    }
    r
}

/// The targets (or, for `sources`, the sources) of `edges`, in order.
fn ends(edges: &Vec<Edge>, sources: bool) -> (r: Vec<VertexId>)
    ensures
        r@.len() == edges@.len(),
        forall|j: int| 0 <= j < r@.len() ==> #[trigger] r@[j] == if sources {
            edges@[j].0
        } else {
            edges@[j].1
        },
{
    let mut r: Vec<VertexId> = Vec::new();
    let mut k: usize = 0;
    while k < edges.len()
        invariant
            k <= edges@.len(),
            r@.len() == k,
            forall|j: int| 0 <= j < k ==> #[trigger] r@[j] == if sources {
                edges@[j].0
            } else {
                edges@[j].1
            },
        decreases edges@.len() - k,
    {
        if sources {
            r.push(edges[k].0);
        } else {
            r.push(edges[k].1);
        }
        k = k + 1;
    }
    r
}

impl FasNode {
    /// Forgets vertex `other` as a neighbour.
    fn update_by_vertex_id(&mut self, other: VertexId)
        ensures
            forall|y: VertexId| #[trigger] final(self).out_edges@.contains(y) <==> (old(self).out_edges@.contains(y) && y != other),
            forall|y: VertexId| #[trigger] final(self).in_edges@.contains(y) <==> (old(self).in_edges@.contains(y) && y != other),
            final(self).out_degree == final(self).out_edges@.len(),
            final(self).in_degree == final(self).in_edges@.len(),
            final(self).delta == final(self).out_degree - final(self).in_degree,
            final(self).stamp == old(self).stamp,
            old(self).out_edges@.no_duplicates() ==> final(self).out_edges@.no_duplicates(),
            old(self).in_edges@.no_duplicates() ==> final(self).in_edges@.no_duplicates(),
    {
        self.in_edges = without(&self.in_edges, other);
        self.out_edges = without(&self.out_edges, other);
        self.out_degree = self.out_edges.len();
        self.in_degree = self.in_edges.len();
        self.delta = self.out_degree as i128 - self.in_degree as i128;
    }
}

/// Targets of `v` among the vertices not in `gone`.
pub open spec fn out_set(m: GraphModel, gone: Seq<VertexId>, v: VertexId) -> Set<VertexId> {
    Set::new(|w: VertexId| m.has_edge(v, w) && !gone.contains(w))
}

/// Sources of edges into `v` among the vertices not in `gone`.
pub open spec fn in_set(m: GraphModel, gone: Seq<VertexId>, v: VertexId) -> Set<VertexId> {
    Set::new(|u: VertexId| m.has_edge(u, v) && !gone.contains(u))
}

/// A vertex of `m` not in `gone`.
pub open spec fn remains(m: GraphModel, gone: Seq<VertexId>, v: VertexId) -> bool {
    m.vertices().contains(v) && !gone.contains(v)
}

/// Outdegree minus indegree of `v` in the graph left after removing `gone`.
pub open spec fn delta_in(m: GraphModel, gone: Seq<VertexId>, v: VertexId) -> int {
    out_set(m, gone, v).len() - in_set(m, gone, v).len()
}

/// Removing `v` after `gone` is a step of the greedy heuristic of kind
/// `kind`: 0, a sink of the remaining graph; 1, a source of it; 2, a vertex
/// of greatest outdegree minus indegree when the graph has neither.
pub open spec fn greedy_step(m: GraphModel, gone: Seq<VertexId>, v: VertexId, kind: int) -> bool {
    &&& remains(m, gone, v)
    &&& 0 <= kind <= 2
    &&& kind == 0 ==> out_set(m, gone, v) == Set::<VertexId>::empty()
    &&& kind == 1 ==> in_set(m, gone, v) == Set::<VertexId>::empty()
    &&& kind == 2 ==> forall|u: VertexId| #[trigger] remains(m, gone, u) ==> out_set(m, gone, u) != Set::<VertexId>::empty()
        && in_set(m, gone, u) != Set::<VertexId>::empty() && delta_in(m, gone, u) <= delta_in(m, gone, v)
}

/// `gone` lists removals, each a greedy step of the kind at the same place.
pub open spec fn greedy_run(m: GraphModel, gone: Seq<VertexId>, kinds: Seq<int>) -> bool {
    &&& gone.len() == kinds.len()
    &&& forall|k: int| 0 <= k < gone.len() ==> greedy_step(m, gone.take(k), #[trigger] gone[k], kinds[k])
}

/// The vertices removed as sources or by greatest difference, in order.
pub open spec fn heads(gone: Seq<VertexId>, kinds: Seq<int>) -> Seq<VertexId>
    decreases gone.len(),
{
    if gone.len() == 0 || kinds.len() != gone.len() {
        Seq::empty()
    } else if kinds.last() != 0 {
        heads(gone.drop_last(), kinds.drop_last()).push(gone.last())
    } else {
        heads(gone.drop_last(), kinds.drop_last())
    }
}

/// The vertices removed as sinks, in order.
pub open spec fn tails(gone: Seq<VertexId>, kinds: Seq<int>) -> Seq<VertexId>
    decreases gone.len(),
{
    if gone.len() == 0 || kinds.len() != gone.len() {
        Seq::empty()
    } else if kinds.last() == 0 {
        tails(gone.drop_last(), kinds.drop_last()).push(gone.last())
    } else {
        tails(gone.drop_last(), kinds.drop_last())
    }
}

/// The vertex sequence of a greedy run: sources and vertices of greatest
/// difference in the order of removal, then sinks in reverse order.
pub open spec fn greedy_sequence(gone: Seq<VertexId>, kinds: Seq<int>) -> Seq<VertexId> {
    heads(gone, kinds) + tails(gone, kinds).reverse()
}

/// The degree bookkeeping of a vertex matches the remaining graph.
spec fn node_ok(m: GraphModel, gone: Seq<VertexId>, e: (VertexId, FasNode)) -> bool {
    &&& e.1.out_edges@.no_duplicates()
    &&& e.1.in_edges@.no_duplicates()
    &&& e.1.out_edges@.to_set() == out_set(m, gone, e.0)
    &&& e.1.in_edges@.to_set() == in_set(m, gone, e.0)
    &&& e.1.out_degree == e.1.out_edges@.len()
    &&& e.1.in_degree == e.1.in_edges@.len()
    &&& e.1.delta == e.1.out_degree - e.1.in_degree
}

/// `f` is `o` with `x` forgotten as a neighbour.
spec fn updated(o: FasNode, f: FasNode, x: VertexId) -> bool {
    &&& forall|y: VertexId| #[trigger] f.out_edges@.contains(y) <==> (o.out_edges@.contains(y) && y != x)
    &&& forall|y: VertexId| #[trigger] f.in_edges@.contains(y) <==> (o.in_edges@.contains(y) && y != x)
    &&& o.out_edges@.no_duplicates() ==> f.out_edges@.no_duplicates()
    &&& o.in_edges@.no_duplicates() ==> f.in_edges@.no_duplicates()
    &&& f.out_degree == f.out_edges@.len()
    &&& f.in_degree == f.in_edges@.len()
    &&& f.delta == f.out_degree - f.in_degree
}

/// `f` has the neighbours and degrees of `o`.
spec fn same_node(o: FasNode, f: FasNode) -> bool {
    &&& f.out_edges == o.out_edges
    &&& f.in_edges == o.in_edges
    &&& f.out_degree == o.out_degree
    &&& f.in_degree == o.in_degree
    &&& f.delta == o.delta
}

spec fn touched(o: FasNode, f: FasNode, hit: bool, x: VertexId) -> bool {
    if hit {
        updated(o, f, x)
    } else {
        same_node(o, f)
    }
}

/// After `x` is removed, the bookkeeping of another remaining vertex is
/// right once `x` is forgotten where it was a neighbour.
proof fn lemma_node_after(m: GraphModel, gone: Seq<VertexId>, x: VertexId, removed: FasNode, o: (VertexId, FasNode), f: (VertexId, FasNode), hit: bool)
    requires
        node_ok(m, gone, (x, removed)),
        node_ok(m, gone, o),
        f.0 == o.0,
        remains(m, gone, o.0),
        o.0 != x,
        hit == (removed.out_edges@.contains(o.0) || removed.in_edges@.contains(o.0)),
        touched(o.1, f.1, hit, x),
    ensures
        node_ok(m, gone.push(x), f),
{
    let g1 = gone.push(x);
    let v = o.0;
    lemma_push_contains(gone, x);
    if hit {
        assert(f.1.out_edges@.to_set() =~= out_set(m, g1, v)) by {
            assert forall|w: VertexId| f.1.out_edges@.contains(w) <==> out_set(m, g1, v).contains(w) by {
                assert(o.1.out_edges@.to_set().contains(w) <==> out_set(m, gone, v).contains(w));
            }
        }
        assert(f.1.in_edges@.to_set() =~= in_set(m, g1, v)) by {
            assert forall|w: VertexId| f.1.in_edges@.contains(w) <==> in_set(m, g1, v).contains(w) by {
                assert(o.1.in_edges@.to_set().contains(w) <==> in_set(m, gone, v).contains(w));
            }
        }
    } else {
        assert(!out_set(m, gone, v).contains(x)) by {
            if out_set(m, gone, v).contains(x) {
                assert(in_set(m, gone, x).contains(v));
                assert(removed.in_edges@.to_set().contains(v));
            }
        }
        assert(!in_set(m, gone, v).contains(x)) by {
            if in_set(m, gone, v).contains(x) {
                assert(out_set(m, gone, x).contains(v));
                assert(removed.out_edges@.to_set().contains(v));
            }
        }
        assert(out_set(m, g1, v) =~= out_set(m, gone, v));
        assert(in_set(m, g1, v) =~= in_set(m, gone, v));
    }
}

/// Vertex ids of the entries, in order.
spec fn keys(nodes: Seq<(VertexId, FasNode)>) -> Seq<VertexId> {
    nodes.map_values(|p: (VertexId, FasNode)| p.0)
}

/// The vertices not yet placed, in storage order, with their degrees.
struct FasContainer {
    fas_nodes: Vec<(VertexId, FasNode)>,
    clock: u64,
    gone: Ghost<Seq<VertexId>>,
    kinds: Ghost<Seq<int>>,
}

/// Which vertex to place next.
enum Pick {
    Sink,
    Source,
    MaxDelta,
}

impl FasContainer {
    closed spec fn wf(&self) -> bool {
        keys(self.fas_nodes@).no_duplicates()
    }

    /// The entries are the vertices of `m` not yet removed, with degrees of
    /// the remaining graph, and the removals so far form a greedy run.
    closed spec fn tracks(&self, m: GraphModel) -> bool {
        let gone = self.gone@;
        &&& m.wf()
        &&& self.wf()
        &&& gone.no_duplicates()
        &&& forall|v: VertexId| #[trigger] keys(self.fas_nodes@).contains(v) <==> remains(m, gone, v)
        &&& forall|k: int| 0 <= k < self.fas_nodes@.len() ==> node_ok(m, gone, #[trigger] self.fas_nodes@[k])
        &&& greedy_run(m, gone, self.kinds@)
    }

    fn new(graph: &HashTable) -> (r: Self)
        requires
            graph@.wf(),
        ensures
            r.tracks(graph@),
            r.gone@ == Seq::<VertexId>::empty(),
            r.kinds@ == Seq::<int>::empty(),
    {
        let ghost m = graph@;
        let ids = graph.vertices();
        let mut fas_nodes: Vec<(VertexId, FasNode)> = Vec::new();
        let ghost none = Seq::<VertexId>::empty();
        let mut i: usize = 0;
        while i < ids.len()
            invariant
                m == graph@,
                m.wf(),
                ids@ == m.ids,
                ids@.no_duplicates(),
                ids@.to_set() == m.vertices(),
                i <= ids@.len(),
                keys(fas_nodes@) == ids@.subrange(0, i as int),
                none == Seq::<VertexId>::empty(),
                forall|k: int| 0 <= k < fas_nodes@.len() ==> node_ok(m, none, #[trigger] fas_nodes@[k]),
            decreases ids@.len() - i,
        {
            let vertex_id = ids[i];
            proof {
                assert(ids@.to_set().contains(vertex_id));
            }
            let outbound = graph.edges(vertex_id, Direction::Outbound);
            let inbound = graph.edges(vertex_id, Direction::Inbound);
            let out_edges = ends(&outbound, false);
            let in_edges = ends(&inbound, true);
            proof {
                assert forall|w: VertexId| out_edges@.contains(w) <==> out_set(m, none, vertex_id).contains(w) by {
                    assert(!none.contains(w));
                    if out_edges@.contains(w) {
                        let j = choose|j: int| 0 <= j < out_edges@.len() && out_edges@[j] == w;
                        let e = outbound@[j];
                        assert(outbound@.to_set().contains(e));
                        assert(m.out_edges(vertex_id).contains(e));
                        assert(m.edges().contains(e) && e.0 == vertex_id && e.1 == w);
                        assert(m.has_edge(vertex_id, w));
                    }
                    if out_set(m, none, vertex_id).contains(w) {
                        assert(m.out_edges(vertex_id).contains((vertex_id, w)));
                        assert(outbound@.contains((vertex_id, w)));
                        let j = choose|j: int| 0 <= j < outbound@.len() && outbound@[j] == (vertex_id, w);
                        assert(out_edges@[j] == w);
                    }
                }
                assert(out_edges@.to_set() =~= out_set(m, none, vertex_id));
                assert forall|a: int, b: int| 0 <= a < out_edges@.len() && 0 <= b < out_edges@.len() && a != b implies out_edges@[a] != out_edges@[b] by {
                    assert(outbound@.to_set().contains(outbound@[a]));
                    assert(outbound@.to_set().contains(outbound@[b]));
                }
                assert forall|u: VertexId| in_edges@.contains(u) <==> in_set(m, none, vertex_id).contains(u) by {
                    assert(!none.contains(u));
                    if in_edges@.contains(u) {
                        let j = choose|j: int| 0 <= j < in_edges@.len() && in_edges@[j] == u;
                        let e = inbound@[j];
                        assert(inbound@.to_set().contains(e));
                        assert(m.in_edges(vertex_id).contains(e));
                        assert(m.edges().contains(e) && e.1 == vertex_id && e.0 == u);
                        assert(m.has_edge(u, vertex_id));
                    }
                    if in_set(m, none, vertex_id).contains(u) {
                        assert(m.in_edges(vertex_id).contains((u, vertex_id)));
                        assert(inbound@.contains((u, vertex_id)));
                        let j = choose|j: int| 0 <= j < inbound@.len() && inbound@[j] == (u, vertex_id);
                        assert(in_edges@[j] == u);
                    }
                }
                assert(in_edges@.to_set() =~= in_set(m, none, vertex_id));
                assert forall|a: int, b: int| 0 <= a < in_edges@.len() && 0 <= b < in_edges@.len() && a != b implies in_edges@[a] != in_edges@[b] by {
                    assert(inbound@.to_set().contains(inbound@[a]));
                    assert(inbound@.to_set().contains(inbound@[b]));
                }
            }
            let out_degree = out_edges.len();
            let in_degree = in_edges.len();
            let delta = out_degree as i128 - in_degree as i128;
            let ghost before = fas_nodes@;
            fas_nodes.push((vertex_id, FasNode { out_edges, in_edges, out_degree, in_degree, delta, stamp: i as u64 }));
            proof {
                assert(keys(fas_nodes@) =~= keys(before).push(vertex_id));
                assert(ids@.subrange(0, i + 1 as int) =~= ids@.subrange(0, i as int).push(vertex_id));
                assert(keys(fas_nodes@) =~= ids@.subrange(0, i + 1 as int));
                assert forall|k: int| 0 <= k < fas_nodes@.len() implies node_ok(m, none, #[trigger] fas_nodes@[k]) by {
                    if k < before.len() {
                        assert(fas_nodes@[k] == before[k]);
                    }
                }
            }
            i = i + 1;
        }
        proof {
            assert(ids@.subrange(0, i as int) == ids@);
            assert forall|v: VertexId| #[trigger] keys(fas_nodes@).contains(v) <==> remains(m, none, v) by {
                assert(ids@.to_set().contains(v) <==> ids@.contains(v));
            }
        }
        Self { fas_nodes, clock: ids.len() as u64, gone: Ghost(none), kinds: Ghost(Seq::empty()) }
    }

    /// Position of the vertex to place next among the sinks, the sources,
    /// or the vertices of greatest outdegree minus indegree: of several
    /// candidates, the one whose degrees changed last.
    fn next(&self, pick: Pick) -> (r: Option<usize>)
        ensures
            match r {
                Some(k) => k < self.fas_nodes@.len() && (pick is Sink ==> self.fas_nodes@[k as int].1.out_degree == 0)
                    && (pick is Source ==> self.fas_nodes@[k as int].1.in_degree == 0) && (pick is MaxDelta ==> forall|j: int|
                    0 <= j < self.fas_nodes@.len() ==> #[trigger] self.fas_nodes@[j].1.delta <= self.fas_nodes@[k as int].1.delta),
                None => (pick is MaxDelta ==> self.fas_nodes@.len() == 0) && (pick is Sink ==> forall|j: int|
                    0 <= j < self.fas_nodes@.len() ==> #[trigger] self.fas_nodes@[j].1.out_degree != 0) && (pick is Source
                    ==> forall|j: int| 0 <= j < self.fas_nodes@.len() ==> #[trigger] self.fas_nodes@[j].1.in_degree != 0),
            },
    {
        let mut best: Option<usize> = None;
        let mut k: usize = 0;
        while k < self.fas_nodes.len()
            invariant
                k <= self.fas_nodes@.len(),
                match best {
                    Some(b) => b < k && (pick is Sink ==> self.fas_nodes@[b as int].1.out_degree == 0) && (pick is Source
                        ==> self.fas_nodes@[b as int].1.in_degree == 0) && (pick is MaxDelta ==> forall|j: int|
                        0 <= j < k ==> #[trigger] self.fas_nodes@[j].1.delta <= self.fas_nodes@[b as int].1.delta),
                    None => (pick is MaxDelta ==> k == 0) && (pick is Sink ==> forall|j: int|
                        0 <= j < k ==> #[trigger] self.fas_nodes@[j].1.out_degree != 0) && (pick is Source ==> forall|j: int|
                        0 <= j < k ==> #[trigger] self.fas_nodes@[j].1.in_degree != 0),
                },
            decreases self.fas_nodes@.len() - k,
        {
            let node = &self.fas_nodes[k].1;
            let better = match pick {
                Pick::Sink => node.out_degree == 0 && match best {
                    Some(b) => node.stamp > self.fas_nodes[b].1.stamp,
                    None => true,
                },
                Pick::Source => node.in_degree == 0 && match best {
                    Some(b) => node.stamp > self.fas_nodes[b].1.stamp,
                    None => true,
                },
                Pick::MaxDelta => match best {
                    Some(b) => {
                        let other = &self.fas_nodes[b].1;
                        node.delta > other.delta || (node.delta == other.delta && node.stamp > other.stamp)
                    },
                    None => true,
                },
            };
            if better {
                best = Some(k);
            }
            k = k + 1;
        }
        best
    }

    /// Removes the node of `vertex_id` and forgets it in all other nodes.
    fn delete_fas_node(&mut self, vertex_id: VertexId, Ghost(m): Ghost<GraphModel>, Ghost(kind): Ghost<int>)
        requires
            old(self).tracks(m),
            keys(old(self).fas_nodes@).contains(vertex_id),
            greedy_step(m, old(self).gone@, vertex_id, kind),
        ensures
            final(self).tracks(m),
            final(self).gone@ == old(self).gone@.push(vertex_id),
            final(self).kinds@ == old(self).kinds@.push(kind),
            forall|y: VertexId| #[trigger] keys(final(self).fas_nodes@).contains(y) <==> (keys(old(self).fas_nodes@).contains(y) && y != vertex_id),
            keys(final(self).fas_nodes@).len() + 1 == keys(old(self).fas_nodes@).len(),
    {
        let ghost ks = keys(self.fas_nodes@);
        let mut p: usize = 0;
        while p < self.fas_nodes.len() && self.fas_nodes[p].0 != vertex_id
            invariant
                ks == keys(self.fas_nodes@),
                p <= ks.len(),
                forall|b: int| 0 <= b < p ==> ks[b] != vertex_id,
            decreases ks.len() - p,
        {
            p = p + 1;
        }
        proof {
            if p == ks.len() {
                let b = choose|b: int| 0 <= b < ks.len() && ks[b] == vertex_id;
            }
            assert(ks[p as int] == vertex_id);
        }
        let ghost before = self.fas_nodes@;
        let (_, removed) = self.fas_nodes.remove(p);
        let ghost ks1 = keys(self.fas_nodes@);
        let ghost orig = self.fas_nodes@;
        proof {
            assert(orig == before.remove(p as int));
            assert(node_ok(m, self.gone@, before[p as int]));
            assert(before[p as int].1 == removed);
        }
        proof {
            assert(ks1 =~= ks.remove(p as int));
            assert forall|y: VertexId| #[trigger] ks1.contains(y) <==> (ks.contains(y) && y != vertex_id) by {
                if ks1.contains(y) {
                    let k = choose|k: int| 0 <= k < ks1.len() && ks1[k] == y;
                    if k < p {
                        assert(ks[k] == y);
                    } else {
                        assert(ks[k + 1] == y);
                    }
                }
                if ks.contains(y) && y != vertex_id {
                    let k = choose|k: int| 0 <= k < ks.len() && ks[k] == y;
                    if k < p {
                        assert(ks1[k] == y);
                    } else {
                        assert(ks1[k - 1] == y);
                    }
                }
            }
            assert forall|a: int, b: int| 0 <= a < ks1.len() && 0 <= b < ks1.len() && a != b implies ks1[a] != ks1[b] by {
                let a1 = if a < p { a } else { a + 1 };
                let b1 = if b < p { b } else { b + 1 };
                assert(ks1[a] == ks[a1] && ks1[b] == ks[b1]);
            }
        }
        let ghost gone = self.gone@;
        self.touch(&removed.out_edges, vertex_id);
        let ghost mid = self.fas_nodes@;
        self.touch(&removed.in_edges, vertex_id);
        proof {
            let fin = self.fas_nodes@;
            self.gone@ = gone.push(vertex_id);
            self.kinds@ = self.kinds@.push(kind);
            assert(keys(fin) == ks1);
            assert forall|k: int| 0 <= k < fin.len() implies node_ok(m, self.gone@, #[trigger] fin[k]) by {
                let k1 = if k < p { k } else { k + 1 };
                assert(orig[k] == before[k1]);
                assert(node_ok(m, gone, before[k1]));
                assert(ks1[k] == orig[k].0);
                assert(ks1.contains(orig[k].0));
                assert(keys(before).contains(orig[k].0));
                assert(remains(m, gone, orig[k].0));
                let h1 = removed.out_edges@.contains(orig[k].0);
                let h2 = removed.in_edges@.contains(orig[k].0);
                assert(touched(orig[k].1, mid[k].1, h1, vertex_id));
                assert(touched(mid[k].1, fin[k].1, h2, vertex_id));
                assert(touched(orig[k].1, fin[k].1, h1 || h2, vertex_id));
                lemma_node_after(m, gone, vertex_id, removed, orig[k], fin[k], h1 || h2);
            }
            lemma_push_contains(gone, vertex_id);
            lemma_push_no_dup(gone, vertex_id);
            assert forall|v: VertexId| #[trigger] keys(fin).contains(v) <==> remains(m, self.gone@, v) by {}
            assert forall|k: int| 0 <= k < self.gone@.len() implies greedy_step(m, self.gone@.take(k), #[trigger] self.gone@[k], self.kinds@[k]) by {
                if k < gone.len() {
                    assert(self.gone@.take(k) =~= gone.take(k));
                } else {
                    assert(self.gone@.take(k) =~= gone);
                }
            }
        }
    }

    /// Forgets `vertex_id` in the nodes of `neighbours`, in their order, and
    /// marks each as just changed.
    fn touch(&mut self, neighbours: &Vec<VertexId>, vertex_id: VertexId)
        requires
            keys(old(self).fas_nodes@).no_duplicates(),
        ensures
            keys(final(self).fas_nodes@) == keys(old(self).fas_nodes@),
            final(self).fas_nodes@.len() == old(self).fas_nodes@.len(),
            final(self).gone == old(self).gone,
            final(self).kinds == old(self).kinds,
            forall|k: int| 0 <= k < old(self).fas_nodes@.len() ==> touched(old(self).fas_nodes@[k].1, #[trigger] final(self).fas_nodes@[k].1,
                neighbours@.contains(old(self).fas_nodes@[k].0), vertex_id),
    {
        let ghost ks = keys(self.fas_nodes@);
        let ghost orig = self.fas_nodes@;
        let mut j: usize = 0;
        while j < neighbours.len()
            invariant
                ks == keys(self.fas_nodes@),
                ks == keys(orig),
                ks.no_duplicates(),
                orig == old(self).fas_nodes@,
                self.gone == old(self).gone,
                self.kinds == old(self).kinds,
                self.fas_nodes@.len() == orig.len(),
                j <= neighbours@.len(),
                forall|k: int| 0 <= k < orig.len() ==> touched(orig[k].1, #[trigger] self.fas_nodes@[k].1,
                    neighbours@.subrange(0, j as int).contains(orig[k].0), vertex_id),
            decreases neighbours@.len() - j,
        {
            let other = neighbours[j];
            let ghost n0 = neighbours@.subrange(0, j as int);
            proof {
                assert(neighbours@.subrange(0, j + 1 as int) == n0.push(other));
                lemma_push_contains(n0, other);
            }
            let mut q: usize = 0;
            while q < self.fas_nodes.len() && self.fas_nodes[q].0 != other
                invariant
                    q <= self.fas_nodes@.len(),
                    ks == keys(self.fas_nodes@),
                    forall|b: int| 0 <= b < q ==> ks[b] != other,
                decreases self.fas_nodes@.len() - q,
            {
                q = q + 1;
            }
            let ghost cur = self.fas_nodes@;
            if q < self.fas_nodes.len() {
                let stamp = self.clock;
                self.fas_nodes[q].1.update_by_vertex_id(vertex_id);
                self.fas_nodes[q].1.stamp = stamp;
                if self.clock < u64::MAX {
                    self.clock = self.clock + 1;
                }
                proof {
                    assert(keys(self.fas_nodes@) =~= keys(cur));
                    assert(ks[q as int] == other);
                    assert forall|k: int| 0 <= k < orig.len() implies touched(orig[k].1, #[trigger] self.fas_nodes@[k].1,
                        neighbours@.subrange(0, j + 1 as int).contains(orig[k].0), vertex_id) by {
                        assert(ks[k] == orig[k].0);
                        if k == q {
                            assert(touched(orig[k].1, cur[k].1, n0.contains(orig[k].0), vertex_id));
                        } else {
                            assert(self.fas_nodes@[k] == cur[k]);
                            assert(orig[k].0 != other);
                        }
                    }
                }
            } else {
                proof {
                    assert forall|k: int| 0 <= k < orig.len() implies touched(orig[k].1, #[trigger] self.fas_nodes@[k].1,
                        neighbours@.subrange(0, j + 1 as int).contains(orig[k].0), vertex_id) by {
                        assert(ks[k] == orig[k].0);
                        assert(orig[k].0 != other);
                    }
                }
            }
            j = j + 1;
        }
        proof {
            assert(neighbours@.subrange(0, j as int) == neighbours@);
        }
    }

}

/// `a` and `b` have no element in common.
spec fn apart(a: Seq<VertexId>, b: Seq<VertexId>) -> bool {
    forall|y: VertexId| #[trigger] a.contains(y) ==> !b.contains(y)
}

/// Bookkeeping of the main loop: every vertex is placed in `s1` or `s2`
/// or still waits in `ks`, and in one place only.
spec fn placement(m: GraphModel, s1: Seq<VertexId>, s2: Seq<VertexId>, ks: Seq<VertexId>) -> bool {
    &&& s1.no_duplicates()
    &&& s2.no_duplicates()
    &&& apart(s1, s2)
    &&& apart(ks, s1)
    &&& apart(ks, s2)
    &&& forall|y: VertexId| #[trigger] m.vertices().contains(y) <==> (s1.contains(y) || s2.contains(y) || ks.contains(y))
}

impl<'a> GreedyHeuristic<'a> {
    /// The entry at `k` is a greedy step of kind `kind`, given what the
    /// search for it found.
    proof fn lemma_step(c: &FasContainer, m: GraphModel, k: int, kind: int)
        requires
            c.tracks(m),
            0 <= k < c.fas_nodes@.len(),
            0 <= kind <= 2,
            kind == 0 ==> c.fas_nodes@[k].1.out_degree == 0,
            kind == 1 ==> c.fas_nodes@[k].1.in_degree == 0,
            kind == 2 ==> forall|j: int| 0 <= j < c.fas_nodes@.len() ==> (#[trigger] c.fas_nodes@[j]).1.out_degree != 0
                && c.fas_nodes@[j].1.in_degree != 0 && c.fas_nodes@[j].1.delta <= c.fas_nodes@[k].1.delta,
        ensures
            greedy_step(m, c.gone@, c.fas_nodes@[k].0, kind),
            keys(c.fas_nodes@).contains(c.fas_nodes@[k].0),
    {
        let gone = c.gone@;
        let e = c.fas_nodes@[k];
        assert(keys(c.fas_nodes@)[k] == e.0);
        assert(keys(c.fas_nodes@).contains(e.0));
        assert(remains(m, gone, e.0));
        assert(node_ok(m, gone, e));
        e.1.out_edges@.unique_seq_to_set();
        e.1.in_edges@.unique_seq_to_set();
        if kind == 0 {
            assert(out_set(m, gone, e.0) =~= Set::<VertexId>::empty());
        }
        if kind == 1 {
            assert(in_set(m, gone, e.0) =~= Set::<VertexId>::empty());
        }
        if kind == 2 {
            assert forall|u: VertexId| #[trigger] remains(m, gone, u) implies out_set(m, gone, u) != Set::<VertexId>::empty()
                && in_set(m, gone, u) != Set::<VertexId>::empty() && delta_in(m, gone, u) <= delta_in(m, gone, e.0) by {
                assert(keys(c.fas_nodes@).contains(u));
                let j = choose|j: int| 0 <= j < keys(c.fas_nodes@).len() && keys(c.fas_nodes@)[j] == u;
                let f = c.fas_nodes@[j];
                assert(f.0 == u);
                assert(node_ok(m, gone, f));
                f.1.out_edges@.unique_seq_to_set();
                f.1.in_edges@.unique_seq_to_set();
                assert(f.1.out_edges@.to_set().contains(f.1.out_edges@[0]));
                assert(f.1.in_edges@.to_set().contains(f.1.in_edges@[0]));
            }
        }
    }

    /// Removes `v` as a greedy step of kind `kind` and places it at the end
    /// of `s`: the heads for sources and picks by difference, the tails for
    /// sinks.
    fn place(container: &mut FasContainer, s: &mut Vec<VertexId>, other: &Vec<VertexId>, v: VertexId, Ghost(m): Ghost<GraphModel>, Ghost(kind): Ghost<int>)
        requires
            old(container).tracks(m),
            keys(old(container).fas_nodes@).contains(v),
            greedy_step(m, old(container).gone@, v, kind),
            kind != 0 ==> placement(m, old(s)@, other@, keys(old(container).fas_nodes@)),
            kind == 0 ==> placement(m, other@, old(s)@, keys(old(container).fas_nodes@)),
            kind != 0 ==> old(s)@ == heads(old(container).gone@, old(container).kinds@) && other@ == tails(old(container).gone@, old(container).kinds@),
            kind == 0 ==> old(s)@ == tails(old(container).gone@, old(container).kinds@) && other@ == heads(old(container).gone@, old(container).kinds@),
        ensures
            final(container).tracks(m),
            kind != 0 ==> placement(m, final(s)@, other@, keys(final(container).fas_nodes@)),
            kind == 0 ==> placement(m, other@, final(s)@, keys(final(container).fas_nodes@)),
            kind != 0 ==> final(s)@ == heads(final(container).gone@, final(container).kinds@) && other@ == tails(final(container).gone@, final(container).kinds@),
            kind == 0 ==> final(s)@ == tails(final(container).gone@, final(container).kinds@) && other@ == heads(final(container).gone@, final(container).kinds@),
            keys(final(container).fas_nodes@).len() + 1 == keys(old(container).fas_nodes@).len(),
    {
        let ghost s0 = s@;
        let ghost g0 = container.gone@;
        let ghost k0 = container.kinds@;
        proof {
            lemma_push_no_dup(s0, v);
            lemma_push_contains(s0, v);
        }
        s.push(v);
        container.delete_fas_node(v, Ghost(m), Ghost(kind));
        proof {
            let g1 = container.gone@;
            let k1 = container.kinds@;
            assert(g1.drop_last() =~= g0);
            assert(k1.drop_last() =~= k0);
            assert(g1.last() == v && k1.last() == kind);
        }
    }

    /// The vertex sequence: sources and picked vertices from the front,
    /// sinks from the back.
    pub fn ordering(&self) -> (r: Vec<VertexId>)
        requires
            self.graph@.wf(),
        ensures
            is_vertex_order(self.graph@, r@),
            exists|gone: Seq<VertexId>, kinds: Seq<int>|
                greedy_run(self.graph@, gone, kinds) && gone.to_set() == self.graph@.vertices() && r@ == greedy_sequence(gone, kinds),
    {
        let ghost m = self.graph@;
        let mut container = FasContainer::new(self.graph);
        let mut s1: Vec<VertexId> = Vec::new();
        let mut s2: Vec<VertexId> = Vec::new();
        proof {
            assert forall|y: VertexId| #[trigger] m.vertices().contains(y) <==> (s1@.contains(y) || s2@.contains(y) || keys(container.fas_nodes@).contains(y)) by {
                assert(keys(container.fas_nodes@).to_set().contains(y) <==> m.vertices().contains(y));
            }
        }
        while container.fas_nodes.len() > 0
            invariant
                m == self.graph@,
                container.tracks(m),
                placement(m, s1@, s2@, keys(container.fas_nodes@)),
                s1@ == heads(container.gone@, container.kinds@),
                s2@ == tails(container.gone@, container.kinds@),
            decreases container.fas_nodes@.len(),
        {
            match container.next(Pick::Sink) {
                Some(k) => {
                    let v = container.fas_nodes[k].0;
                    proof {
                        Self::lemma_step(&container, m, k as int, 0);
                    }
                    Self::place(&mut container, &mut s2, &s1, v, Ghost(m), Ghost(0));
                },
                None => match container.next(Pick::Source) {
                    Some(k) => {
                        let v = container.fas_nodes[k].0;
                        proof {
                            Self::lemma_step(&container, m, k as int, 1);
                        }
                        Self::place(&mut container, &mut s1, &s2, v, Ghost(m), Ghost(1));
                    },
                    None => {
                        let k = container.next(Pick::MaxDelta).unwrap();
                        let v = container.fas_nodes[k].0;
                        proof {
                            Self::lemma_step(&container, m, k as int, 2);
                        }
                        Self::place(&mut container, &mut s1, &s2, v, Ghost(m), Ghost(2));
                    },
                },
            }
        }
        let mut order = s1;
        let ghost first = order@;
        let mut k: usize = s2.len();
        while k > 0
            invariant
                placement(m, first, s2@, Seq::<VertexId>::empty()),
                k <= s2@.len(),
                order@.no_duplicates(),
                forall|y: VertexId| #[trigger] order@.contains(y) <==> (first.contains(y) || s2@.subrange(k as int, s2@.len() as int).contains(y)),
                order@ == first + s2@.subrange(k as int, s2@.len() as int).reverse(),
            decreases k,
        {
            let x = s2[k - 1];
            let ghost o0 = order@;
            proof {
                let t = s2@.subrange(k as int, s2@.len() as int);
                let u = s2@.subrange(k - 1, s2@.len() as int);
                assert(s2@.contains(x)) by {
                    assert(s2@[k - 1] == x);
                }
                if t.contains(x) {
                    let b = choose|b: int| 0 <= b < t.len() && t[b] == x;
                    assert(s2@[k + b] == x);
                }
                lemma_push_no_dup(o0, x);
                lemma_push_contains(o0, x);
                assert forall|y: VertexId| u.contains(y) <==> (y == x || t.contains(y)) by {
                    if u.contains(y) {
                        let b = choose|b: int| 0 <= b < u.len() && u[b] == y;
                        if b > 0 {
                            assert(t[b - 1] == y);
                        }
                    }
                    if t.contains(y) {
                        let b = choose|b: int| 0 <= b < t.len() && t[b] == y;
                        assert(u[b + 1] == y);
                    }
                    assert(u[0] == x);
                }
            }
            order.push(x);
            proof {
                assert(s2@.subrange(k - 1, s2@.len() as int).reverse() =~= s2@.subrange(k as int, s2@.len() as int).reverse().push(x));
                assert(order@ =~= first + s2@.subrange(k - 1, s2@.len() as int).reverse());
            }
            k = k - 1;
        }
        proof {
            assert(s2@.subrange(0, s2@.len() as int) == s2@);
            assert(order@.to_set() =~= m.vertices());
            let gone = container.gone@;
            assert(order@ == greedy_sequence(gone, container.kinds@));
            assert forall|v: VertexId| gone.to_set().contains(v) <==> m.vertices().contains(v) by {
                if m.vertices().contains(v) && !gone.contains(v) {
                    assert(remains(m, gone, v));
                    assert(keys(container.fas_nodes@).contains(v));
                }
                if gone.contains(v) {
                    let k = choose|k: int| 0 <= k < gone.len() && gone[k] == v;
                    assert(greedy_step(m, gone.take(k), gone[k], container.kinds@[k]));
                }
            }
            assert(gone.to_set() =~= m.vertices());
        }
        order
    }
}

impl<'a> FeedbackArcSet for GreedyHeuristic<'a> {
    open spec fn input(&self) -> GraphModel {
        self.graph@
    }

    /// The edges that point backwards in the vertex sequence of a greedy run.
    open spec fn describes(&self, fas: Set<Edge>) -> bool {
        exists|gone: Seq<VertexId>, kinds: Seq<int>|
            greedy_run(self.graph@, gone, kinds) && gone.to_set() == self.graph@.vertices() && fas == leftward(
                self.graph@,
                greedy_sequence(gone, kinds),
            )
    }

    /// The edges that point backwards in the vertex sequence.
    fn feedback_arc_set(&self) -> (r: Vec<Edge>) {
        let order = self.ordering();
        let ghost s = order@;
        proof {
            lemma_leftward_is_fas(self.graph@, s);
        }
        let r = leftward_edges(self.graph, order);
        proof {
            let (gone, kinds) = choose|gone: Seq<VertexId>, kinds: Seq<int>|
                greedy_run(self.graph@, gone, kinds) && gone.to_set() == self.graph@.vertices() && s == greedy_sequence(gone, kinds);
            assert(r@.to_set() == leftward(self.graph@, greedy_sequence(gone, kinds)));
        }
        r
    }
}

} // verus!
