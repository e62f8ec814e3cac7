use crate::hash_table::{Edge, GraphModel, HashTable, VertexId};
use vstd::prelude::*;

verus! {

/// `parts` splits `vs`: no part is empty or repeats a vertex, no two parts
/// share a vertex, and together they hold exactly the vertices of `vs`.
pub open spec fn is_partition(parts: Seq<Seq<VertexId>>, vs: Set<VertexId>) -> bool {
    &&& forall|c: int| 0 <= c < parts.len() ==> (#[trigger] parts[c]).len() > 0 && parts[c].no_duplicates()
    &&& forall|c: int, d: int, x: VertexId|
        0 <= c < parts.len() && 0 <= d < parts.len() && c != d && #[trigger] parts[c].contains(x) ==> !(#[trigger] parts[d].contains(x))
    &&& forall|x: VertexId| vs.contains(x) <==> exists|c: int| 0 <= c < parts.len() && #[trigger] parts[c].contains(x)
}

/// Every edge of `es` runs inside one part or from a part to an earlier one,
/// so the parts come in reverse topological order of the condensation.
pub open spec fn in_reverse_topological_order(parts: Seq<Seq<VertexId>>, es: Set<Edge>) -> bool {
    forall|c: int, d: int, e: Edge|
        0 <= c < parts.len() && 0 <= d < parts.len() && #[trigger] es.contains(e) && #[trigger] parts[c].contains(e.0)
            && #[trigger] parts[d].contains(e.1) ==> d <= c
}

/// `path` is a walk of at least one vertex along edges of `es`.
pub open spec fn is_path(es: Set<Edge>, path: Seq<VertexId>) -> bool {
    &&& path.len() >= 1
    &&& forall|k: int| 0 <= k < path.len() - 1 ==> #[trigger] es.contains((path[k], path[k + 1]))
}

/// Some walk along edges of `es` leads from `u` to `w`.
pub open spec fn reaches(es: Set<Edge>, u: VertexId, w: VertexId) -> bool {
    exists|path: Seq<VertexId>| is_path(es, path) && path[0] == u && path.last() == w
}

/// Along a walk the component never moves to a later one.
proof fn lemma_path_parts(parts: Seq<Seq<VertexId>>, m: GraphModel, path: Seq<VertexId>, c: int, k: int)
    requires
        m.wf(),
        is_partition(parts, m.vertices()),
        in_reverse_topological_order(parts, m.edges()),
        is_path(m.edges(), path),
        0 <= c < parts.len(),
        parts[c].contains(path[0]),
        0 <= k < path.len(),
    ensures
        forall|d: int| 0 <= d < parts.len() && #[trigger] parts[d].contains(path[k]) ==> d <= c,
    decreases k,
{
    if k == 0 {
        assert forall|d: int| 0 <= d < parts.len() && #[trigger] parts[d].contains(path[k]) implies d <= c by {
            if d != c {
                assert(!parts[d].contains(path[0]));
            }
        }
    } else {
        lemma_path_parts(parts, m, path, c, k - 1);
        let j = k - 1;
        assert(m.edges().contains((path[j], path[j + 1])));
        let e = (path[k - 1], path[k]);
        assert(e == (path[j], path[j + 1]));
        crate::hash_table::lemma_edge_endpoints(m, e);
        let d0 = choose|d0: int| 0 <= d0 < parts.len() && #[trigger] parts[d0].contains(path[k - 1]);
        assert forall|d: int| 0 <= d < parts.len() && #[trigger] parts[d].contains(path[k]) implies d <= c by {
            assert(parts[d0].contains(e.0));
            assert(parts[d].contains(e.1));
        }
    }
}

/// Vertices that reach each other lie in the same part of a partition in
/// reverse topological order.
pub proof fn lemma_mutually_reachable_same_component(
    parts: Seq<Seq<VertexId>>,
    m: GraphModel,
    u: VertexId,
    w: VertexId,
    c: int,
    d: int,
)
    requires
        m.wf(),
        is_partition(parts, m.vertices()),
        in_reverse_topological_order(parts, m.edges()),
        0 <= c < parts.len(),
        0 <= d < parts.len(),
        parts[c].contains(u),
        parts[d].contains(w),
        reaches(m.edges(), u, w),
        reaches(m.edges(), w, u),
    ensures
        c == d,
{
    let there = choose|path: Seq<VertexId>| is_path(m.edges(), path) && path[0] == u && path.last() == w;
    let back = choose|path: Seq<VertexId>| is_path(m.edges(), path) && path[0] == w && path.last() == u;
    lemma_path_parts(parts, m, there, c, there.len() - 1);
    lemma_path_parts(parts, m, back, d, back.len() - 1);
}

/// `path` walks along the position graph `succ`.
pub open spec fn is_index_path(succ: Seq<Vec<usize>>, path: Seq<int>) -> bool {
    &&& path.len() >= 1
    &&& forall|k: int| 0 <= k < path.len() ==> 0 <= #[trigger] path[k] < succ.len()
    &&& forall|k: int| 0 <= k < path.len() - 1 ==> succ[#[trigger] path[k]]@.contains(path[k + 1] as usize)
}

/// Some walk along `succ` leads from position `a` to position `b`.
#[verifier::opaque]
pub open spec fn index_reaches(succ: Seq<Vec<usize>>, a: int, b: int) -> bool {
    exists|path: Seq<int>| #[trigger] is_index_path(succ, path) && path[0] == a && path.last() == b
}

pub proof fn lemma_reach_refl(succ: Seq<Vec<usize>>, a: int)
    requires
        0 <= a < succ.len(),
    ensures
        index_reaches(succ, a, a),
{
    let path = seq![a];
    assert(is_index_path(succ, path));
    reveal(index_reaches);
}

pub proof fn lemma_reach_edge(succ: Seq<Vec<usize>>, a: int, b: int)
    requires
        0 <= a < succ.len(),
        succ[a]@.contains(b as usize),
        0 <= b < succ.len(),
    ensures
        index_reaches(succ, a, b),
{
    let path = seq![a, b];
    assert(path[1] as usize == b as usize);
    assert(is_index_path(succ, path));
    reveal(index_reaches);
}

pub proof fn lemma_reach_trans(succ: Seq<Vec<usize>>, a: int, b: int, c: int)
    requires
        index_reaches(succ, a, b),
        index_reaches(succ, b, c),
    ensures
        index_reaches(succ, a, c),
{
    reveal(index_reaches);
    let p = choose|path: Seq<int>| #[trigger] is_index_path(succ, path) && path[0] == a && path.last() == b;
    let q = choose|path: Seq<int>| #[trigger] is_index_path(succ, path) && path[0] == b && path.last() == c;
    let r = p + q.drop_first();
    assert forall|k: int| 0 <= k < r.len() implies 0 <= #[trigger] r[k] < succ.len() by {
        if k < p.len() {
            assert(r[k] == p[k]);
        } else {
            assert(r[k] == q[k - p.len() + 1]);
        }
    }
    assert forall|k: int| 0 <= k < r.len() - 1 implies succ[#[trigger] r[k]]@.contains(r[k + 1] as usize) by {
        if k < p.len() - 1 {
            assert(r[k] == p[k] && r[k + 1] == p[k + 1]);
        } else if k == p.len() - 1 {
            assert(r[k] == p[k] && p[k] == q[0] && r[k + 1] == q[1]);
        } else {
            assert(r[k] == q[k - p.len() + 1] && r[k + 1] == q[k - p.len() + 2]);
        }
    }
    assert(is_index_path(succ, r));
    if q.len() == 1 {
        assert(r =~= p);
    } else {
        assert(r.last() == q.last());
    }
}

/// Any two vertices of one part reach each other.
pub open spec fn parts_strongly_connected(parts: Seq<Seq<VertexId>>, es: Set<Edge>) -> bool {
    forall|c: int, u: VertexId, w: VertexId|
        0 <= c < parts.len() && #[trigger] parts[c].contains(u) && #[trigger] parts[c].contains(w) ==> reaches(es, u, w)
}

/// A walk over positions is a walk over the vertices stored there.
proof fn lemma_index_reach_to_reach(m: GraphModel, succ: Seq<Vec<usize>>, a: int, b: int)
    requires
        m.wf(),
        m.indexed_by(succ.map_values(|row: Vec<usize>| row@)),
        m.ids.len() <= usize::MAX,
        0 <= a < m.ids.len(),
        index_reaches(succ, a, b),
    ensures
        reaches(m.edges(), m.ids[a], m.ids[b]),
{
    reveal(index_reaches);
    let p = choose|path: Seq<int>| #[trigger] is_index_path(succ, path) && path[0] == a && path.last() == b;
    let sv = succ.map_values(|row: Vec<usize>| row@);
    let q = p.map_values(|i: int| m.ids[i]);
    assert forall|k: int| 0 <= k < q.len() - 1 implies #[trigger] m.edges().contains((q[k], q[k + 1])) by {
        let i = p[k];
        assert(0 <= i < succ.len() && succ[i]@.contains(p[k + 1] as usize));
        assert(sv[i] == succ[i]@);
        let j = choose|j: int| 0 <= j < sv[i].len() && sv[i][j] == p[k + 1] as usize;
        assert(0 <= p[k + 1] < succ.len());
        crate::hash_table::lemma_indexed_edge(m, sv, i, p[k + 1] as usize);
    }
    assert(is_path(m.edges(), q));
    assert(q[0] == m.ids[a] && q.last() == m.ids[b]);
}

/// Splits the vertices of a graph into strongly connected components.
pub trait StronglyConnectedComponents {
    /// The graph being split.
    spec fn model(&self) -> GraphModel;

    fn strongly_connected_components(&mut self) -> (r: Vec<Vec<VertexId>>)
        requires
            old(self).model().wf(),
        ensures
            is_partition(r@.map_values(|c: Vec<VertexId>| c@), old(self).model().vertices()),
            in_reverse_topological_order(r@.map_values(|c: Vec<VertexId>| c@), old(self).model().edges()),
            parts_strongly_connected(r@.map_values(|c: Vec<VertexId>| c@), old(self).model().edges()),
    ;
}

struct Vertex {
    id: VertexId,
    index: Option<usize>,
    low_link: usize,
    on_stack: bool,
}

/// Number of vertices not yet visited.
spec fn unvisited(s: Seq<Vertex>) -> nat
    decreases s.len(),
{
    if s.len() == 0 {
        0
    } else {
        unvisited(s.drop_last()) + if s.last().index is Some {
            0nat
        } else {
            1nat
        }
    }
}

proof fn lemma_unvisited_mono(a: Seq<Vertex>, b: Seq<Vertex>, v: int)
    requires
        a.len() == b.len(),
        forall|i: int| 0 <= i < a.len() ==> (#[trigger] a[i]).index is Some ==> b[i].index is Some,
    ensures
        unvisited(b) <= unvisited(a),
        0 <= v < a.len() && a[v].index is None && b[v].index is Some ==> unvisited(b) + 1 <= unvisited(a),
    decreases a.len(),
{
    if a.len() > 0 {
        lemma_unvisited_mono(a.drop_last(), b.drop_last(), v);
    }
}

proof fn lemma_unvisited_visit(a: Seq<Vertex>, b: Seq<Vertex>, v: int)
    requires
        a.len() == b.len(),
        0 <= v < a.len(),
        a[v].index is None,
        b[v].index is Some,
        forall|i: int| 0 <= i < a.len() && i != v ==> ((#[trigger] a[i]).index is Some <==> b[i].index is Some),
    ensures
        unvisited(b) + 1 == unvisited(a),
    decreases a.len(),
{
    if v < a.len() - 1 {
        lemma_unvisited_visit(a.drop_last(), b.drop_last(), v);
    } else {
        lemma_unvisited_same(a.drop_last(), b.drop_last());
    }
}

proof fn lemma_unvisited_same(a: Seq<Vertex>, b: Seq<Vertex>)
    requires
        a.len() == b.len(),
        forall|i: int| 0 <= i < a.len() ==> ((#[trigger] a[i]).index is Some <==> b[i].index is Some),
    ensures
        unvisited(b) == unvisited(a),
    decreases a.len(),
{
    if a.len() > 0 {
        lemma_unvisited_same(a.drop_last(), b.drop_last());
    }
}

proof fn lemma_unvisited_all(a: Seq<Vertex>)
    requires
        forall|i: int| 0 <= i < a.len() ==> (#[trigger] a[i]).index is None,
    ensures
        unvisited(a) == a.len(),
    decreases a.len(),
{
    if a.len() > 0 {
        lemma_unvisited_all(a.drop_last());
    }
}

proof fn lemma_unvisited_none(a: Seq<Vertex>, v: int)
    requires
        0 <= v < a.len(),
        a[v].index is None,
    ensures
        unvisited(a) > 0,
    decreases a.len(),
{
    if v < a.len() - 1 {
        lemma_unvisited_none(a.drop_last(), v);
    }
}

/// Tarjan's algorithm for strongly connected components.
pub struct Tarjan<'a> {
    graph: &'a HashTable,
    vertices: Vec<Vertex>,
    stack: Vec<usize>,
    index: usize,
    sccs: Vec<Vec<VertexId>>,
    succ: Vec<Vec<usize>>,
    owner: Ghost<Seq<int>>,
    finished: Ghost<Seq<bool>>,
    link: Ghost<Seq<int>>,
    roots: Ghost<Map<int, int>>,
}

impl<'a> Tarjan<'a> {
    pub fn new(graph: &'a HashTable) -> (r: Self)
        ensures
            r.model() == graph@,
    {
        Self {
            graph,
            vertices: Vec::new(),
            stack: Vec::new(),
            index: 0,
            sccs: Vec::new(),
            succ: Vec::new(),
            owner: Ghost(Seq::empty()),
            finished: Ghost(Seq::empty()),
            link: Ghost(Seq::empty()),
            roots: Ghost(Map::empty()),
        }
    }

    closed spec fn n(&self) -> int {
        self.vertices@.len() as int
    }

    closed spec fn visited(&self, i: int) -> bool {
        self.vertices@[i].index is Some
    }

    closed spec fn idx(&self, i: int) -> int {
        self.vertices@[i].index.unwrap() as int
    }

    closed spec fn low(&self, i: int) -> int {
        self.vertices@[i].low_link as int
    }

    closed spec fn parts(&self) -> Seq<Seq<VertexId>> {
        self.sccs@.map_values(|c: Vec<VertexId>| c@)
    }

    closed spec fn remaining(&self) -> nat {
        unvisited(self.vertices@)
    }

    /// Bookkeeping is consistent with the components `parts`: vertices are
    /// unvisited, on the stack, or owned by exactly one component, which
    /// lists their id.
    closed spec fn inv_parts(&self, parts: Seq<Seq<VertexId>>) -> bool {
        let n = self.n();
        let m = self.graph@;
        let succ = self.succ@;
        let stack = self.stack@;
        let owner = self.owner@;
        &&& m.wf()
        &&& m.ids.len() == n
        &&& n <= usize::MAX
        &&& succ.len() == n
        &&& forall|i: int, j: int| 0 <= i < n && 0 <= j < succ[i]@.len() ==> (#[trigger] succ[i]@[j]) < n
        &&& forall|i: int| 0 <= i < n ==> (#[trigger] self.vertices@[i]).id == m.ids[i]
        &&& self.index + unvisited(self.vertices@) == n
        &&& stack.no_duplicates()
        &&& forall|k: int| 0 <= k < stack.len() ==> (#[trigger] stack[k] as int) < n
        &&& forall|i: int| 0 <= i < n ==> ((#[trigger] self.vertices@[i]).on_stack <==> stack.contains(i as usize))
        &&& forall|i: int| 0 <= i < n && #[trigger] self.vertices@[i].on_stack ==> self.visited(i)
        &&& forall|i: int| 0 <= i < n && #[trigger] self.visited(i) ==> self.low(i) <= self.idx(i) && self.idx(i) < self.index
        &&& owner.len() == n
        &&& forall|i: int| 0 <= i < n ==> ((#[trigger] owner[i] >= 0) <==> (self.visited(i) && !self.vertices@[i].on_stack))
        &&& forall|i: int| 0 <= i < n ==> #[trigger] owner[i] < parts.len()
        &&& forall|c: int| 0 <= c < parts.len() ==> (#[trigger] parts[c]).no_duplicates()
        &&& forall|c: int, i: int| 0 <= c < parts.len() && 0 <= i < n ==> (#[trigger] parts[c].contains(m.ids[i]) <==> #[trigger] owner[i] == c)
        &&& forall|c: int, x: VertexId| 0 <= c < parts.len() && #[trigger] parts[c].contains(x) ==> m.ids.contains(x)
    }

    closed spec fn inv(&self) -> bool {
        &&& self.inv_parts(self.parts())
        &&& forall|c: int| 0 <= c < self.parts().len() ==> (#[trigger] self.parts()[c]).len() > 0
    }

    /// Successor `w` of a finished vertex `i` is already in a component, or
    /// still on the stack with an index no lower than the low link of `i`.
    closed spec fn settled(&self, i: int, w: int) -> bool {
        &&& self.visited(w)
        &&& (self.owner@[w] >= 0 || (self.vertices@[w].on_stack && self.low(i) <= self.idx(w)))
    }

    /// The stack lists vertices by increasing index; a finished vertex has
    /// only settled successors; a vertex in a component is finished, and
    /// its successors are in the same or an earlier component.
    closed spec fn ordered(&self) -> bool {
        self.ordered_except(-1)
    }

    /// As `ordered`, except that the successors of vertices of component
    /// `c` are not constrained yet.
    closed spec fn ordered_except(&self, c: int) -> bool {
        let n = self.n();
        let succ = self.succ@;
        let stack = self.stack@;
        let owner = self.owner@;
        let fin = self.finished@;
        &&& fin.len() == n
        &&& forall|i: int| 0 <= i < n && #[trigger] fin[i] ==> self.visited(i)
        &&& forall|p: int, q: int| 0 <= p < q < stack.len() ==> self.idx(#[trigger] stack[p] as int) < self.idx(#[trigger] stack[q] as int)
        &&& forall|i: int, j: int| 0 <= i < n && fin[i] && 0 <= j < succ[i]@.len() ==> self.settled(i, #[trigger] succ[i]@[j] as int)
        &&& forall|i: int| 0 <= i < n && #[trigger] owner[i] >= 0 ==> fin[i]
        &&& forall|i: int, j: int| 0 <= i < n && owner[i] >= 0 && owner[i] != c && 0 <= j < succ[i]@.len() ==> 0 <= owner[#[trigger] succ[i]@[j] as int] <= owner[i]
    }

    /// Every vertex on the stack reaches a stack vertex whose index is its
    /// low link, and every emitted vertex and the root of its component
    /// reach each other.
    closed spec fn connected(&self) -> bool {
        let n = self.n();
        let succ = self.succ@;
        &&& self.link@.len() == n
        &&& forall|x: int| 0 <= x < n && self.vertices@[x].on_stack ==> 0 <= #[trigger] self.link@[x] < n
            && self.vertices@[self.link@[x]].on_stack && self.idx(self.link@[x]) == self.low(x)
            && index_reaches(succ, x, self.link@[x])
        &&& forall|i: int| 0 <= i < n && #[trigger] self.owner@[i] >= 0 ==> self.roots@.dom().contains(self.owner@[i])
            && index_reaches(succ, i, self.roots@[self.owner@[i]]) && index_reaches(succ, self.roots@[self.owner@[i]], i)
    }

    /// Everything visited from `base` on has an index and a low link of at least `base`.
    closed spec fn above(&self, base: int) -> bool {
        &&& forall|k: int| 0 <= k < self.stack@.len() ==> self.idx(#[trigger] self.stack@[k] as int) >= base
        &&& forall|i: int| 0 <= i < self.n() && #[trigger] self.visited(i) && self.idx(i) >= base ==> self.low(i) >= base
    }

    /// Lowering the low link of a visited vertex to a value of at least
    /// `base` keeps the bookkeeping.
    proof fn lemma_lower_low(before: Self, after: Self, v: int, base: int, z: int)
        requires
            before.inv(),
            before.above(base),
            0 <= v < before.n(),
            before.visited(v),
            before.graph == after.graph,
            before.stack == after.stack,
            before.index == after.index,
            before.sccs == after.sccs,
            before.succ == after.succ,
            before.owner == after.owner,
            before.finished == after.finished,
            before.ordered(),
            !before.finished@[v],
            before.connected(),
            before.vertices@[v].on_stack,
            before.roots == after.roots,
            0 <= z < before.n(),
            before.vertices@[z].on_stack,
            before.idx(z) == after.low(v),
            index_reaches(before.succ@, v, z),
            after.link@ == before.link@.update(v, z),
            after.vertices@.len() == before.vertices@.len(),
            forall|i: int| 0 <= i < before.n() && i != v ==> after.vertices@[i] == before.vertices@[i],
            after.vertices@[v].id == before.vertices@[v].id,
            after.vertices@[v].index == before.vertices@[v].index,
            after.vertices@[v].on_stack == before.vertices@[v].on_stack,
            base <= after.low(v) <= before.low(v),
        ensures
            after.inv(),
            after.above(base),
            after.ordered(),
            after.connected(),
            forall|i: int| 0 <= i < before.n() ==> (#[trigger] after.visited(i) <==> before.visited(i))
                && after.idx(i) == before.idx(i) && (i != v ==> after.low(i) == before.low(i)),
    {
        lemma_unvisited_same(before.vertices@, after.vertices@);
        Self::lemma_ordered_frame(before, after, v);
        Self::lemma_lower_low_connected(before, after, v, z);
        assert forall|i: int| 0 <= i < after.n() implies ((#[trigger] after.vertices@[i]).on_stack <==> after.stack@.contains(i as usize)) by {
            assert(before.vertices@[i].on_stack <==> before.stack@.contains(i as usize));
        }
        assert forall|i: int| 0 <= i < after.n() implies ((#[trigger] after.owner@[i] >= 0) <==> (after.visited(i) && !after.vertices@[i].on_stack)) by {
            assert((before.owner@[i] >= 0) <==> (before.visited(i) && !before.vertices@[i].on_stack));
        }
        assert forall|i: int| 0 <= i < after.n() && #[trigger] after.visited(i) implies after.low(i) <= after.idx(i) && after.idx(i) < after.index by {
            assert(before.visited(i));
        }
        assert forall|i: int| 0 <= i < after.n() && #[trigger] after.vertices@[i].on_stack implies after.visited(i) by {
            assert(before.vertices@[i].on_stack);
        }
        assert forall|k: int| 0 <= k < after.stack@.len() implies after.idx(#[trigger] after.stack@[k] as int) >= base by {
            assert(before.idx(before.stack@[k] as int) >= base);
        }
        assert forall|i: int| 0 <= i < after.n() && #[trigger] after.visited(i) && after.idx(i) >= base implies after.low(i) >= base by {
            assert(before.visited(i));
        }
    }

    /// The ordering facts survive a change of the low link of an unfinished
    /// vertex `v` and anything that leaves the other marks alone.
    proof fn lemma_ordered_frame(a: Self, b: Self, v: int)
        requires
            a.ordered(),
            a.stack == b.stack,
            a.succ == b.succ,
            a.owner == b.owner,
            a.finished == b.finished,
            a.vertices@.len() == b.vertices@.len(),
            a.succ@.len() == a.n(),
            forall|k: int| 0 <= k < a.stack@.len() ==> (#[trigger] a.stack@[k] as int) < a.n(),
            forall|i: int, j: int| 0 <= i < a.n() && 0 <= j < a.succ@[i]@.len() ==> (#[trigger] a.succ@[i]@[j]) < a.n(),
            0 <= v < a.n() ==> !a.finished@[v],
            forall|i: int| 0 <= i < a.n() && i != v ==> b.vertices@[i] == a.vertices@[i],
            0 <= v < a.n() ==> b.vertices@[v].index == a.vertices@[v].index && b.vertices@[v].on_stack == a.vertices@[v].on_stack,
        ensures
            b.ordered(),
    {
        assert forall|i: int| 0 <= i < b.n() && #[trigger] b.finished@[i] implies b.visited(i) by {
            assert(a.visited(i));
        }
        assert forall|p: int, q: int| 0 <= p < q < b.stack@.len() implies b.idx(#[trigger] b.stack@[p] as int) < b.idx(#[trigger] b.stack@[q] as int) by {
            assert(a.idx(a.stack@[p] as int) < a.idx(a.stack@[q] as int));
        }
        assert forall|i: int, j: int| 0 <= i < b.n() && b.finished@[i] && 0 <= j < b.succ@[i]@.len() implies b.settled(i, #[trigger] b.succ@[i]@[j] as int) by {
            assert(a.settled(i, a.succ@[i]@[j] as int));
            assert(i != v);
        }
    }

    /// Lowering the low link of `v` to the index of a stack vertex `z` it
    /// reaches keeps the reachability facts, with `z` as its new link.
    proof fn lemma_lower_low_connected(before: Self, after: Self, v: int, z: int)
        requires
            before.connected(),
            0 <= v < before.n(),
            before.vertices@[v].on_stack,
            before.stack == after.stack,
            before.succ == after.succ,
            before.owner == after.owner,
            before.roots == after.roots,
            after.vertices@.len() == before.vertices@.len(),
            forall|i: int| 0 <= i < before.n() && i != v ==> after.vertices@[i] == before.vertices@[i],
            after.vertices@[v].index == before.vertices@[v].index,
            after.vertices@[v].on_stack == before.vertices@[v].on_stack,
            0 <= z < before.n(),
            before.vertices@[z].on_stack,
            before.idx(z) == after.low(v),
            index_reaches(before.succ@, v, z),
            after.link@ == before.link@.update(v, z),
        ensures
            after.connected(),
    {
        assert forall|x: int| 0 <= x < after.n() && after.vertices@[x].on_stack implies 0 <= #[trigger] after.link@[x] < after.n()
            && after.vertices@[after.link@[x]].on_stack && after.idx(after.link@[x]) == after.low(x) && index_reaches(after.succ@, x, after.link@[x]) by {
            assert(before.vertices@[x].on_stack);
            if x != v {
                assert(before.vertices@[before.link@[x]].on_stack);
            }
        }
        assert forall|i: int| 0 <= i < after.n() && #[trigger] after.owner@[i] >= 0 implies after.roots@.dom().contains(after.owner@[i])
            && index_reaches(after.succ@, i, after.roots@[after.owner@[i]]) && index_reaches(after.succ@, after.roots@[after.owner@[i]], i) by {
            assert(before.owner@[i] >= 0);
        }
    }

    /// The reachability facts depend only on the marks, links and roots.
    proof fn lemma_connected_frame(a: Self, b: Self)
        requires
            a.connected(),
            a.vertices == b.vertices,
            a.succ == b.succ,
            a.owner == b.owner,
            a.link == b.link,
            a.roots == b.roots,
        ensures
            b.connected(),
    {
        assert forall|x: int| 0 <= x < b.n() && b.vertices@[x].on_stack implies 0 <= #[trigger] b.link@[x] < b.n()
            && b.vertices@[b.link@[x]].on_stack && b.idx(b.link@[x]) == b.low(x) && index_reaches(b.succ@, x, b.link@[x]) by {
            assert(a.vertices@[x].on_stack);
        }
        assert forall|i: int| 0 <= i < b.n() && #[trigger] b.owner@[i] >= 0 implies b.roots@.dom().contains(b.owner@[i])
            && index_reaches(b.succ@, i, b.roots@[b.owner@[i]]) && index_reaches(b.succ@, b.roots@[b.owner@[i]], i) by {
            assert(a.owner@[i] >= 0);
        }
    }

    /// Bookkeeping does not depend on the list of emitted components.
    proof fn lemma_frame(a: Self, b: Self, p: Seq<Seq<VertexId>>, base: int)
        requires
            a.inv_parts(p),
            a.above(base),
            a.graph == b.graph,
            a.stack == b.stack,
            a.index == b.index,
            a.succ == b.succ,
            a.owner == b.owner,
            a.vertices == b.vertices,
        ensures
            b.inv_parts(p),
            b.above(base),
    {
        assert forall|i: int| 0 <= i < b.n() implies ((#[trigger] b.vertices@[i]).on_stack <==> b.stack@.contains(i as usize)) by {
            assert(a.vertices@[i].on_stack <==> a.stack@.contains(i as usize));
        }
        assert forall|i: int| 0 <= i < b.n() implies ((#[trigger] b.owner@[i] >= 0) <==> (b.visited(i) && !b.vertices@[i].on_stack)) by {
            assert((a.owner@[i] >= 0) <==> (a.visited(i) && !a.vertices@[i].on_stack));
        }
        assert forall|i: int| 0 <= i < b.n() && #[trigger] b.visited(i) implies b.low(i) <= b.idx(i) && b.idx(i) < b.index by {
            assert(a.visited(i));
        }
        assert forall|i: int| 0 <= i < b.n() && #[trigger] b.vertices@[i].on_stack implies b.visited(i) by {
            assert(a.vertices@[i].on_stack);
        }
        assert forall|k: int| 0 <= k < b.stack@.len() implies b.idx(#[trigger] b.stack@[k] as int) >= base by {
            assert(a.idx(a.stack@[k] as int) >= base);
        }
        assert forall|i: int| 0 <= i < b.n() && #[trigger] b.visited(i) && b.idx(i) >= base implies b.low(i) >= base by {
            assert(a.visited(i));
        }
    }

    /// Following links down the stack, every vertex at or above the root
    /// at `bottom` of a component being closed reaches the root.
    proof fn lemma_reach_root(t: Self, bottom: int, q: int)
        requires
            t.inv(),
            t.ordered(),
            t.connected(),
            0 <= bottom <= q < t.stack@.len(),
            t.low(t.stack@[bottom] as int) == t.idx(t.stack@[bottom] as int),
            forall|r: int| bottom < r < t.stack@.len() ==> t.low(#[trigger] t.stack@[r] as int) < t.idx(t.stack@[r] as int)
                && t.low(t.stack@[bottom] as int) <= t.low(t.stack@[r] as int),
        ensures
            index_reaches(t.succ@, t.stack@[q] as int, t.stack@[bottom] as int),
        decreases q - bottom,
    {
        let x = t.stack@[q] as int;
        if q == bottom {
            lemma_reach_refl(t.succ@, x);
        } else {
            assert(t.stack@.contains(x as usize));
            assert(t.vertices@[x].on_stack);
            let z = t.link@[x];
            assert(t.vertices@[z].on_stack);
            assert(t.stack@.contains(z as usize));
            let r = choose|r: int| 0 <= r < t.stack@.len() && t.stack@[r] == z as usize;
            if r >= q {
                if r > q {
                    assert(t.idx(t.stack@[q] as int) < t.idx(t.stack@[r] as int));
                }
            }
            if r < bottom {
                assert(t.idx(t.stack@[r] as int) < t.idx(t.stack@[bottom] as int));
            }
            Self::lemma_reach_root(t, bottom, r);
            lemma_reach_trans(t.succ@, x, z, t.stack@[bottom] as int);
        }
    }

    /// Pops the stack down to `v`, which sits at position `bottom`, and emits
    /// the popped vertices as one component.
    fn close_component(&mut self, v: usize, Ghost(base): Ghost<int>, Ghost(bottom): Ghost<int>)
        requires
            old(self).inv(),
            old(self).above(base),
            old(self).ordered(),
            0 <= v < old(self).n(),
            0 <= bottom < old(self).stack@.len(),
            old(self).stack@[bottom] == v,
            old(self).visited(v as int),
            old(self).low(v as int) == old(self).idx(v as int),
            forall|q: int| bottom <= q < old(self).stack@.len() ==> old(self).finished@[#[trigger] old(self).stack@[q] as int]
                && old(self).low(v as int) <= old(self).low(old(self).stack@[q] as int),
            old(self).connected(),
            forall|q: int| bottom <= q < old(self).stack@.len() ==> index_reaches(old(self).succ@, v as int, #[trigger] old(self).stack@[q] as int),
            forall|q: int| bottom < q < old(self).stack@.len() ==> old(self).low(#[trigger] old(self).stack@[q] as int) < old(self).idx(old(self).stack@[q] as int),
        ensures
            final(self).connected(),
            final(self).inv(),
            final(self).above(base),
            final(self).ordered(),
            final(self).stack@ == old(self).stack@.subrange(0, bottom),
            final(self).graph == old(self).graph,
            final(self).succ@ == old(self).succ@,
            final(self).index == old(self).index,
            final(self).finished == old(self).finished,
            final(self).vertices@.len() == old(self).vertices@.len(),
            forall|i: int| 0 <= i < old(self).n() ==> #[trigger] final(self).vertices@[i].index == old(self).vertices@[i].index
                && final(self).vertices@[i].low_link == old(self).vertices@[i].low_link,
            forall|i: int| 0 <= i < old(self).n() && #[trigger] old(self).owner@[i] >= 0 ==> final(self).owner@[i] == old(self).owner@[i],
    {
        let ghost s2 = *old(self);
            let ghost c = self.sccs@.len() as int;
            let ghost seg = s2.stack@.subrange(bottom, s2.stack@.len() as int);
            proof {
                assert forall|x: usize| #[trigger] seg.contains(x) implies s2.finished@[x as int] && (x as int) < s2.n() by {
                    let a = choose|a: int| 0 <= a < seg.len() && seg[a] == x;
                    assert(s2.stack@[bottom + a] == x);
                }
                assert forall|x: usize| #[trigger] seg.contains(x) implies index_reaches(s2.succ@, x as int, v as int)
                    && index_reaches(s2.succ@, v as int, x as int) by {
                    let a = choose|a: int| 0 <= a < seg.len() && seg[a] == x;
                    assert(s2.stack@[bottom + a] == x);
                    assert forall|r: int| bottom < r < s2.stack@.len() implies s2.low(#[trigger] s2.stack@[r] as int) < s2.idx(s2.stack@[r] as int)
                        && s2.low(s2.stack@[bottom] as int) <= s2.low(s2.stack@[r] as int) by {}
                    Self::lemma_reach_root(s2, bottom, bottom + a);
                }
                assert forall|x: usize, j: int| #[trigger] seg.contains(x) && 0 <= j < s2.succ@[x as int]@.len()
                    implies s2.owner@[s2.succ@[x as int]@[j] as int] >= 0 || seg.contains(#[trigger] s2.succ@[x as int]@[j]) by {
                    let a = choose|a: int| 0 <= a < seg.len() && seg[a] == x;
                    assert(s2.stack@[bottom + a] == x);
                    assert(s2.finished@[x as int]);
                    let u = s2.succ@[x as int]@[j];
                    assert(s2.settled(x as int, u as int));
                    assert(s2.low(v as int) <= s2.low(x as int));
                    if s2.owner@[u as int] < 0 {
                        assert(s2.stack@.contains(u));
                        let q = choose|q: int| 0 <= q < s2.stack@.len() && s2.stack@[q] == u;
                        if q < bottom {
                            assert(s2.idx(s2.stack@[q] as int) < s2.idx(s2.stack@[bottom] as int));
                        } else {
                            assert(seg[q - bottom] == u);
                        }
                    }
                }
            }
            let mut members: Vec<VertexId> = Vec::new();
            let mut closed = false;
            while !closed
                invariant
                    s2 == *old(self),
                    self.inv_parts(self.parts().push(members@)),
                    forall|d: int| 0 <= d < self.parts().len() ==> (#[trigger] self.parts()[d]).len() > 0,
                    self.parts() == s2.parts(),
                    c == self.parts().len(),
                    self.above(base),
                    self.graph == s2.graph,
                    self.succ@ == s2.succ@,
                    self.n() == s2.n(),
                    self.index == s2.index,
                    self.vertices@.len() == s2.vertices@.len(),
                    forall|i: int| 0 <= i < s2.n() ==> #[trigger] self.vertices@[i].index == s2.vertices@[i].index
                        && self.vertices@[i].low_link == s2.vertices@[i].low_link,
                    0 <= v < s2.n(),
                    self.low(v as int) == self.idx(v as int),
                    !closed ==> self.stack@.len() > s2.stack@.subrange(0, bottom).len() && self.stack@[s2.stack@.subrange(0, bottom).len() as int] == v
                        && self.stack@.subrange(0, s2.stack@.subrange(0, bottom).len() as int) == s2.stack@.subrange(0, bottom),
                    closed ==> self.stack@ == s2.stack@.subrange(0, bottom) && members@.len() > 0,
                    self.ordered_except(c),
                    self.finished == s2.finished,
                    self.stack@.len() >= bottom,
                    self.stack@.len() <= s2.stack@.len(),
                    self.stack@ == s2.stack@.subrange(0, self.stack@.len() as int),
                    bottom == s2.stack@.subrange(0, bottom).len(),
                    seg == s2.stack@.subrange(bottom, s2.stack@.len() as int),
                    s2.inv(),
                    s2.ordered(),
                    c == s2.parts().len(),
                    forall|i: int| 0 <= i < s2.n() && #[trigger] self.owner@[i] == c ==> seg.contains(i as usize),
                    forall|i: int| 0 <= i < s2.n() && #[trigger] s2.owner@[i] >= 0 ==> self.owner@[i] == s2.owner@[i],
                    forall|x: usize| #[trigger] seg.contains(x) ==> self.owner@[x as int] == c || self.stack@.contains(x),
                    forall|x: usize| #[trigger] seg.contains(x) ==> s2.finished@[x as int] && (x as int) < s2.n(),
                    forall|x: usize| #[trigger] seg.contains(x) ==> index_reaches(s2.succ@, x as int, v as int)
                        && index_reaches(s2.succ@, v as int, x as int),
                    self.connected(),
                    self.link == s2.link,
                    forall|i: int| 0 <= i < s2.n() && self.owner@[i] >= 0 && self.owner@[i] != c ==> #[trigger] self.roots@[self.owner@[i]] == s2.roots@[self.owner@[i]],
                decreases self.stack@.len(),
            {
                let ghost s3 = *self;
                let ghost s3_members = members@;
                proof {
                    assert(s3.parts().push(s3_members)[c] == s3_members);
                }
                let w = self.stack.pop().unwrap();
                self.vertices[w].on_stack = false;
                let id = self.vertices[w].id;
                proof {
                    self.owner@ = self.owner@.update(w as int, c);
                    self.roots@ = self.roots@.insert(c, v as int);
                    let p = s3.parts().push(members@);
                    assert(s3.stack@ == self.stack@.push(w));
                    assert(!self.stack@.contains(w)) by {
                        if self.stack@.contains(w) {
                            let q = choose|q: int| 0 <= q < self.stack@.len() && self.stack@[q] == w;
                            assert(s3.stack@[q] == s3.stack@[s3.stack@.len() - 1]);
                        }
                    }
                    assert(s3.owner@[w as int] < 0);
                    assert(!members@.contains(id)) by {
                        assert(p[c] == members@);
                        if members@.contains(id) {
                            assert(p[c].contains(self.graph@.ids[w as int]));
                        }
                    }
                    crate::hash_table::lemma_push_no_dup(members@, id);
                    crate::hash_table::lemma_push_contains(members@, id);
                    assert(forall|x: usize| #[trigger] s3.stack@.contains(x) <==> (self.stack@.contains(x) || x == w)) by {
                        crate::hash_table::lemma_push_contains(self.stack@, w);
                    }
                }
                members.push(id);
                if w == v {
                    closed = true;
                }
                proof {
                    let m = self.graph@;
                    let p = self.parts().push(members@);
                    let before_parts = s3.parts().push(s3_members);
                    lemma_unvisited_mono(s3.vertices@, self.vertices@, 0);
                    lemma_unvisited_mono(self.vertices@, s3.vertices@, 0);
                    assert forall|i: int| 0 <= i < self.n() && i != w implies self.vertices@[i] == s3.vertices@[i] by {}
                    assert forall|i: int| 0 <= i < self.n() implies ((#[trigger] self.vertices@[i]).on_stack <==> self.stack@.contains(i as usize)) by {
                        if i != w {
                            assert(s3.vertices@[i].on_stack <==> s3.stack@.contains(i as usize));
                        }
                    }
                    assert forall|d: int, i: int| 0 <= d < p.len() && 0 <= i < self.n() implies (#[trigger] p[d].contains(m.ids[i]) <==> #[trigger] self.owner@[i] == d) by {
                        assert(before_parts[d].contains(m.ids[i]) <==> s3.owner@[i] == d);
                        if d == c {
                            assert(p[d] == s3_members.push(id));
                            assert(before_parts[d] == s3_members);
                            if i != w {
                                assert(m.ids.no_duplicates());
                                assert(m.ids[i] != m.ids[w as int]);
                            }
                        } else {
                            assert(p[d] == before_parts[d]);
                            if i == w {
                                assert(s3.owner@[w as int] < 0);
                            }
                        }
                    }
                    assert forall|d: int, x: VertexId| 0 <= d < p.len() && #[trigger] p[d].contains(x) implies m.ids.contains(x) by {
                        if d == c {
                            assert(p[d] == s3_members.push(id));
                            if x == id {
                                assert(m.ids[w as int] == id);
                            } else {
                                assert(before_parts[d].contains(x));
                            }
                        } else {
                            assert(p[d] == before_parts[d]);
                        }
                    }
                    assert forall|d: int| 0 <= d < p.len() implies (#[trigger] p[d]).no_duplicates() by {
                        if d == c {
                            assert(p[d] == s3_members.push(id));
                        } else {
                            assert(p[d] == before_parts[d]);
                        }
                    }
                    if w != v {
                        assert(s3.stack@[s3.stack@.len() - 1] == w);
                        assert(s3.stack@.len() - 1 != s2.stack@.subrange(0, bottom).len());
                        assert(self.stack@.subrange(0, s2.stack@.subrange(0, bottom).len() as int) =~= s3.stack@.subrange(0, s2.stack@.subrange(0, bottom).len() as int));
                    } else {
                        assert(s3.stack@.no_duplicates());
                        assert(s3.stack@.len() - 1 == s2.stack@.subrange(0, bottom).len());
                        assert(self.stack@ =~= s3.stack@.subrange(0, s2.stack@.subrange(0, bottom).len() as int));
                    }
                    assert forall|i: int| 0 <= i < self.n() implies ((#[trigger] self.owner@[i] >= 0) <==> (self.visited(i) && !self.vertices@[i].on_stack)) by {
                        if i != w {
                            assert((s3.owner@[i] >= 0) <==> (s3.visited(i) && !s3.vertices@[i].on_stack));
                        }
                    }
                    assert forall|i: int| 0 <= i < self.n() && #[trigger] self.visited(i) implies self.low(i) <= self.idx(i) && self.idx(i) < self.index by {
                        assert(s3.visited(i));
                    }
                    assert forall|i: int| 0 <= i < self.n() && #[trigger] self.vertices@[i].on_stack implies self.visited(i) by {
                        assert(s3.vertices@[i].on_stack);
                    }
                    assert forall|i: int| 0 <= i < self.n() implies #[trigger] self.owner@[i] < p.len() by {
                        assert(s3.owner@[i] < before_parts.len());
                    }
                    assert forall|k: int| 0 <= k < self.stack@.len() implies (#[trigger] self.stack@[k] as int) < self.n() by {
                        assert(self.stack@[k] == s3.stack@[k]);
                    }
                    assert(self.stack@.no_duplicates());
                    assert(self.index + unvisited(self.vertices@) == self.n());
                    assert(self.inv_parts(p));
                    assert(s3.stack@ == s2.stack@.subrange(0, s3.stack@.len() as int));
                    assert(self.stack@ =~= s2.stack@.subrange(0, self.stack@.len() as int)) by {
                        assert(self.stack@ =~= s3.stack@.subrange(0, self.stack@.len() as int));
                        assert(s3.stack@.subrange(0, self.stack@.len() as int) =~= s2.stack@.subrange(0, self.stack@.len() as int));
                    }
                    assert(seg.contains(w)) by {
                        assert(s3.stack@.len() - 1 >= bottom);
                        assert(s3.stack@[s3.stack@.len() - 1] == w);
                        assert(s2.stack@.subrange(0, s3.stack@.len() as int)[s3.stack@.len() - 1] == w);
                        assert(s2.stack@[s3.stack@.len() - 1] == w);
                        assert(seg[s3.stack@.len() - 1 - bottom] == w);
                    }
                    assert forall|i: int| 0 <= i < self.n() && #[trigger] self.finished@[i] implies self.visited(i) by {
                        assert(s3.visited(i));
                    }
                    assert forall|a: int, b: int| 0 <= a < b < self.stack@.len() implies self.idx(#[trigger] self.stack@[a] as int) < self.idx(#[trigger] self.stack@[b] as int) by {
                        assert(self.stack@[a] == s3.stack@[a] && self.stack@[b] == s3.stack@[b]);
                        assert(s3.idx(s3.stack@[a] as int) < s3.idx(s3.stack@[b] as int));
                    }
                    assert forall|i: int, j: int| 0 <= i < self.n() && self.finished@[i] && 0 <= j < self.succ@[i]@.len() implies self.settled(i, #[trigger] self.succ@[i]@[j] as int) by {
                        assert(s3.settled(i, s3.succ@[i]@[j] as int));
                    }
                    assert forall|i: int| 0 <= i < self.n() && #[trigger] self.owner@[i] >= 0 implies self.finished@[i] by {
                        if i != w {
                            assert(s3.owner@[i] >= 0);
                        }
                    }
                    assert forall|i: int, j: int| 0 <= i < self.n() && self.owner@[i] >= 0 && self.owner@[i] != c && 0 <= j < self.succ@[i]@.len() implies 0 <= self.owner@[#[trigger] self.succ@[i]@[j] as int] <= self.owner@[i] by {
                        assert(i != w);
                        assert(s3.owner@[i] >= 0);
                        let u = self.succ@[i]@[j] as int;
                        assert(0 <= s3.owner@[u] <= s3.owner@[i]);
                    }
                    assert(self.ordered_except(c));
                    assert forall|x: int| 0 <= x < self.n() && self.vertices@[x].on_stack implies 0 <= #[trigger] self.link@[x] < self.n()
                        && self.vertices@[self.link@[x]].on_stack && self.idx(self.link@[x]) == self.low(x) && index_reaches(self.succ@, x, self.link@[x]) by {
                        assert(x != w);
                        assert(s3.vertices@[x].on_stack);
                        let z = s3.link@[x];
                        assert(s3.vertices@[z].on_stack);
                        if z == w as int {
                            assert(self.stack@.contains(x as usize));
                            let qx = choose|qx: int| 0 <= qx < self.stack@.len() && self.stack@[qx] == x as usize;
                            assert(s3.stack@[qx] == x as usize);
                            assert(s3.idx(s3.stack@[qx] as int) < s3.idx(s3.stack@[s3.stack@.len() - 1] as int));
                        }
                    }
                    assert forall|i: int| 0 <= i < self.n() && #[trigger] self.owner@[i] >= 0 implies self.roots@.dom().contains(self.owner@[i])
                        && index_reaches(self.succ@, i, self.roots@[self.owner@[i]]) && index_reaches(self.succ@, self.roots@[self.owner@[i]], i) by {
                        if i == w {
                            assert(seg.contains(w));
                        } else {
                            assert(s3.owner@[i] >= 0);
                            if s3.owner@[i] == c {
                                assert(seg.contains(i as usize));
                            }
                        }
                    }
                    assert forall|i: int| 0 <= i < s2.n() && self.owner@[i] >= 0 && self.owner@[i] != c implies #[trigger] self.roots@[self.owner@[i]] == s2.roots@[self.owner@[i]] by {
                        assert(i != w);
                        assert(s3.owner@[i] >= 0);
                    }
                    assert forall|x: usize| #[trigger] seg.contains(x) implies self.owner@[x as int] == c || self.stack@.contains(x) by {
                        if x != w {
                            assert(s3.owner@[x as int] == c || s3.stack@.contains(x));
                            if s3.stack@.contains(x) {
                                let q = choose|q: int| 0 <= q < s3.stack@.len() && s3.stack@[q] == x;
                                if q == s3.stack@.len() - 1 {
                                } else {
                                    assert(self.stack@[q] == x);
                                }
                            }
                        }
                    }
                    assert forall|k: int| 0 <= k < self.stack@.len() implies self.idx(#[trigger] self.stack@[k] as int) >= base by {
                        assert(self.stack@[k] == s3.stack@[k]);
                        assert(s3.idx(s3.stack@[k] as int) >= base);
                    }
                    assert forall|i: int| 0 <= i < self.n() && #[trigger] self.visited(i) && self.idx(i) >= base implies self.low(i) >= base by {
                        assert(s3.visited(i));
                    }
                }
            }
            let ghost s6 = *self;
            let ghost pending = members@;
            self.sccs.push(members);
            proof {
                assert(self.parts() =~= s2.parts().push(pending));
                Self::lemma_frame(s6, *self, s2.parts().push(pending), base);
                Self::lemma_ordered_frame(s6, *self, -1);
                Self::lemma_connected_frame(s6, *self);
                assert forall|d: int| 0 <= d < self.parts().len() implies (#[trigger] self.parts()[d]).len() > 0 by {
                    if d < s2.parts().len() {
                        assert(self.parts()[d] == s2.parts()[d]);
                    }
                }
                assert(self.inv());
                assert(self.above(base));
            }
    }

    /// Visits position `v`, then closes a component at `v` when its low
    /// link is its own index.
    #[verifier::rlimit(60)]
    fn scc(&mut self, v: usize, Ghost(base): Ghost<int>)
        requires
            old(self).inv(),
            old(self).above(base),
            old(self).ordered(),
            old(self).connected(),
            0 <= v < old(self).n(),
            !old(self).visited(v as int),
            base <= old(self).index,
        ensures
            final(self).inv(),
            final(self).above(base),
            final(self).ordered(),
            final(self).connected(),
            final(self).vertices@[v as int].on_stack || final(self).low(v as int) == final(self).idx(v as int),
            forall|q: int| old(self).stack@.len() <= q < final(self).stack@.len() ==> index_reaches(final(self).succ@, v as int, #[trigger] final(self).stack@[q] as int)
                && final(self).low(final(self).stack@[q] as int) < final(self).idx(final(self).stack@[q] as int),
            final(self).finished@[v as int],
            forall|i: int| 0 <= i < old(self).n() && #[trigger] old(self).visited(i) ==> final(self).finished@[i] == old(self).finished@[i],
            forall|i: int| 0 <= i < old(self).n() && #[trigger] old(self).owner@[i] >= 0 ==> final(self).owner@[i] == old(self).owner@[i],
            final(self).stack@.len() > old(self).stack@.len() ==> final(self).stack@[old(self).stack@.len() as int] == v,
            forall|q: int| old(self).stack@.len() <= q < final(self).stack@.len() ==> final(self).finished@[#[trigger] final(self).stack@[q] as int]
                && final(self).low(v as int) <= final(self).low(final(self).stack@[q] as int),
            final(self).graph == old(self).graph,
            final(self).succ@ == old(self).succ@,
            final(self).n() == old(self).n(),
            final(self).visited(v as int),
            final(self).idx(v as int) == old(self).index,
            final(self).index >= old(self).index,
            final(self).remaining() < old(self).remaining(),
            forall|i: int| 0 <= i < old(self).n() && #[trigger] old(self).visited(i) ==> final(self).visited(i)
                && final(self).idx(i) == old(self).idx(i) && final(self).low(i) == old(self).low(i),
            forall|i: int| 0 <= i < old(self).n() && !old(self).visited(i) && #[trigger] final(self).visited(i) ==> final(self).idx(i) >= old(self).index,
            final(self).stack@.len() >= old(self).stack@.len(),
            final(self).stack@.subrange(0, old(self).stack@.len() as int) == old(self).stack@,
            final(self).low(v as int) == final(self).idx(v as int) ==> final(self).stack@ == old(self).stack@,
        decreases old(self).remaining(),
    {
        let ghost s0 = *old(self);
        proof {
            lemma_unvisited_none(self.vertices@, v as int);
        }
        let at = self.index;
        self.vertices[v].index = Some(at);
        self.vertices[v].low_link = at;
        self.index = self.index + 1;
        self.stack.push(v);
        self.vertices[v].on_stack = true;
        proof {
            assert forall|i: int| 0 <= i < s0.n() && i != v implies self.vertices@[i] == s0.vertices@[i] by {}
            lemma_unvisited_visit(s0.vertices@, self.vertices@, v as int);
            lemma_unvisited_mono(s0.vertices@, self.vertices@, v as int);
            crate::hash_table::lemma_push_no_dup(s0.stack@, v);
            crate::hash_table::lemma_push_contains(s0.stack@, v);
            assert(self.stack@ == s0.stack@.push(v));
            assert(self.stack@.subrange(0, s0.stack@.len() as int) =~= s0.stack@);
            assert forall|i: int| 0 <= i < s0.n() implies ((#[trigger] self.vertices@[i]).on_stack <==> self.stack@.contains(i as usize)) by {
                if i != v {
                    assert(s0.vertices@[i].on_stack <==> s0.stack@.contains(i as usize));
                }
            }
            assert forall|i: int| 0 <= i < s0.n() implies ((#[trigger] self.owner@[i] >= 0) <==> (self.visited(i) && !self.vertices@[i].on_stack)) by {
                if i != v {
                    assert((s0.owner@[i] >= 0) <==> (s0.visited(i) && !s0.vertices@[i].on_stack));
                } else {
                    assert(!s0.visited(i));
                }
            }
            assert forall|i: int| 0 <= i < s0.n() && #[trigger] self.visited(i) implies self.low(i) <= self.idx(i) && self.idx(i) < self.index by {
                if i != v {
                    assert(s0.visited(i));
                }
            }
            assert(self.parts() == s0.parts());
            assert(self.inv_parts(self.parts()));
            assert(self.inv());
            assert forall|k: int| 0 <= k < self.stack@.len() implies self.idx(#[trigger] self.stack@[k] as int) >= base by {
                if k < s0.stack@.len() {
                    assert(self.stack@[k] == s0.stack@[k]);
                    assert(s0.idx(s0.stack@[k] as int) >= base);
                }
            }
            assert forall|i: int| 0 <= i < self.n() && #[trigger] self.visited(i) && self.idx(i) >= base implies self.low(i) >= base by {
                if i != v {
                    assert(s0.visited(i));
                }
            }
            assert(self.above(base));
            assert forall|i: int| 0 <= i < self.n() && #[trigger] self.finished@[i] implies self.visited(i) by {
                assert(s0.visited(i));
            }
            assert forall|p: int, q: int| 0 <= p < q < self.stack@.len() implies self.idx(#[trigger] self.stack@[p] as int) < self.idx(#[trigger] self.stack@[q] as int) by {
                if q < s0.stack@.len() {
                    assert(s0.idx(s0.stack@[p] as int) < s0.idx(s0.stack@[q] as int));
                } else {
                    assert(s0.visited(s0.stack@[p] as int));
                }
            }
            assert forall|i: int, j: int| 0 <= i < self.n() && self.finished@[i] && 0 <= j < self.succ@[i]@.len() implies self.settled(i, #[trigger] self.succ@[i]@[j] as int) by {
                assert(s0.settled(i, s0.succ@[i]@[j] as int));
                assert(i != v);
            }
            assert(self.ordered());
            let s_pre = *self;
            self.link@ = self.link@.update(v as int, v as int);
            Self::lemma_frame(s_pre, *self, s_pre.parts(), base);
            Self::lemma_ordered_frame(s_pre, *self, -1);
            assert(self.parts() == s_pre.parts());
            lemma_reach_refl(self.succ@, v as int);
            assert forall|x: int| 0 <= x < self.n() && self.vertices@[x].on_stack implies 0 <= #[trigger] self.link@[x] < self.n()
                && self.vertices@[self.link@[x]].on_stack && self.idx(self.link@[x]) == self.low(x) && index_reaches(self.succ@, x, self.link@[x]) by {
                if x != v {
                    assert(s0.vertices@[x].on_stack);
                    assert(s0.vertices@[s0.link@[x]].on_stack);
                    assert(s0.link@[x] != v) by {
                        assert(!s0.vertices@[v as int].on_stack);
                    }
                }
            }
            assert forall|i: int| 0 <= i < self.n() && #[trigger] self.owner@[i] >= 0 implies self.roots@.dom().contains(self.owner@[i])
                && index_reaches(self.succ@, i, self.roots@[self.owner@[i]]) && index_reaches(self.succ@, self.roots@[self.owner@[i]], i) by {
                assert(s0.owner@[i] >= 0);
            }
            assert(self.connected());
        }
        let mut k: usize = 0;
        while k < self.succ[v].len()
            invariant
                s0 == *old(self),
                self.inv(),
                self.above(base),
                self.graph == s0.graph,
                self.succ@ == s0.succ@,
                self.n() == s0.n(),
                0 <= v < s0.n(),
                self.visited(v as int),
                self.idx(v as int) == s0.index,
                !s0.visited(v as int),
                self.low(v as int) >= base,
                self.index >= s0.index + 1,
                base <= s0.index,
                k <= self.succ@[v as int]@.len(),
                self.remaining() < s0.remaining(),
                forall|i: int| 0 <= i < s0.n() && #[trigger] s0.visited(i) ==> self.visited(i)
                    && self.idx(i) == s0.idx(i) && self.low(i) == s0.low(i),
                forall|i: int| 0 <= i < s0.n() && !s0.visited(i) && #[trigger] self.visited(i) ==> self.idx(i) >= s0.index,
                self.stack@.len() > s0.stack@.len(),
                self.stack@[s0.stack@.len() as int] == v,
                self.stack@.subrange(0, s0.stack@.len() as int) == s0.stack@,
                self.ordered(),
                !self.finished@[v as int],
                forall|i: int| 0 <= i < s0.n() && #[trigger] s0.visited(i) ==> self.finished@[i] == s0.finished@[i],
                forall|i: int| 0 <= i < s0.n() && #[trigger] s0.owner@[i] >= 0 ==> self.owner@[i] == s0.owner@[i],
                forall|q: int| s0.stack@.len() < q < self.stack@.len() ==> self.finished@[#[trigger] self.stack@[q] as int]
                    && self.low(v as int) <= self.low(self.stack@[q] as int),
                forall|jj: int| 0 <= jj < k ==> self.settled(v as int, #[trigger] self.succ@[v as int]@[jj] as int),
                self.connected(),
                self.vertices@[v as int].on_stack,
                forall|q: int| s0.stack@.len() <= q < self.stack@.len() ==> index_reaches(self.succ@, v as int, #[trigger] self.stack@[q] as int),
                forall|q: int| s0.stack@.len() < q < self.stack@.len() ==> self.low(#[trigger] self.stack@[q] as int) < self.idx(self.stack@[q] as int),
            decreases self.succ@[v as int]@.len() - k,
        {
            let w = self.succ[v][k];
            let ghost s1 = *self;
            match self.vertices[w].index {
                None => {
                    self.scc(w, Ghost(base));
                    let lw = self.vertices[w].low_link;
                    if lw < self.vertices[v].low_link {
                        let ghost s4 = *self;
                        proof {
                            assert(s4.visited(w as int) && s4.idx(w as int) >= base);
                            assert(lw >= base);
                        }
                        self.vertices[v].low_link = lw;
                        proof {
                            assert(s4.vertices@[w as int].on_stack);
                            let z = s4.link@[w as int];
                            lemma_reach_edge(s4.succ@, v as int, w as int);
                            lemma_reach_trans(s4.succ@, v as int, w as int, z);
                            self.link@ = s4.link@.update(v as int, z);
                            Self::lemma_lower_low(s4, *self, v as int, base, z);
                        }
                    }
                },
                Some(iw) => {
                    if self.vertices[w].on_stack {
                        if iw < self.vertices[v].low_link {
                            let ghost s4 = *self;
                            proof {
                                assert(self.stack@.contains(w));
                                let q = choose|q: int| 0 <= q < self.stack@.len() && self.stack@[q] == w;
                                assert(s4.idx(self.stack@[q] as int) >= base);
                            }
                            self.vertices[v].low_link = iw;
                            proof {
                                lemma_reach_edge(s4.succ@, v as int, w as int);
                                self.link@ = s4.link@.update(v as int, w as int);
                                Self::lemma_lower_low(s4, *self, v as int, base, w as int);
                            }
                        }
                    }
                },
            }
            proof {
                assert(self.stack@.subrange(0, s1.stack@.len() as int) == s1.stack@);
                assert forall|q: int| s0.stack@.len() <= q < self.stack@.len() implies index_reaches(self.succ@, v as int, #[trigger] self.stack@[q] as int) by {
                    if q < s1.stack@.len() {
                        assert(self.stack@[q] == self.stack@.subrange(0, s1.stack@.len() as int)[q]);
                        assert(index_reaches(s1.succ@, v as int, s1.stack@[q] as int));
                    } else {
                        assert(index_reaches(self.succ@, w as int, self.stack@[q] as int));
                        lemma_reach_edge(self.succ@, v as int, w as int);
                        lemma_reach_trans(self.succ@, v as int, w as int, self.stack@[q] as int);
                    }
                }
                assert forall|q: int| s0.stack@.len() < q < self.stack@.len() implies self.low(#[trigger] self.stack@[q] as int) < self.idx(self.stack@[q] as int) by {
                    if q < s1.stack@.len() {
                        assert(self.stack@[q] == self.stack@.subrange(0, s1.stack@.len() as int)[q]);
                        let x = s1.stack@[q] as int;
                        assert(s1.low(x) < s1.idx(x));
                        assert(s1.visited(x));
                        assert(x != v) by {
                            assert(s1.stack@[s0.stack@.len() as int] == v);
                            assert(s1.stack@.no_duplicates());
                        }
                    }
                }
                assert forall|i: int| 0 <= i < s0.n() && #[trigger] s0.visited(i) implies self.finished@[i] == s0.finished@[i] by {
                    assert(s1.visited(i));
                }
                assert(!self.finished@[v as int]) by {
                    assert(s1.visited(v as int));
                }
                assert forall|i: int| 0 <= i < s0.n() && #[trigger] s0.owner@[i] >= 0 implies self.owner@[i] == s0.owner@[i] by {
                    assert(s1.owner@[i] >= 0);
                }
                assert forall|q: int| s0.stack@.len() < q < self.stack@.len() implies self.finished@[#[trigger] self.stack@[q] as int]
                    && self.low(v as int) <= self.low(self.stack@[q] as int) by {
                    if q < s1.stack@.len() {
                        assert(self.stack@[q] == self.stack@.subrange(0, s1.stack@.len() as int)[q]);
                        let x = s1.stack@[q] as int;
                        assert(s1.finished@[x] && s1.low(v as int) <= s1.low(x));
                        assert(s1.visited(x));
                    } else {
                        assert(self.finished@[self.stack@[q] as int]);
                    }
                }
                assert forall|jj: int| 0 <= jj < k + 1 implies self.settled(v as int, #[trigger] self.succ@[v as int]@[jj] as int) by {
                    let u = self.succ@[v as int]@[jj] as int;
                    if jj < k {
                        assert(s1.settled(v as int, u));
                        assert(s1.visited(u));
                        if s1.owner@[u] < 0 {
                            assert(s1.stack@.contains(u as usize));
                            let q = choose|q: int| 0 <= q < s1.stack@.len() && s1.stack@[q] == u as usize;
                            assert(self.stack@[q] == self.stack@.subrange(0, s1.stack@.len() as int)[q]);
                            assert(self.stack@.contains(u as usize));
                        }
                    } else {
                        assert(u == w as int);
                    }
                }
                assert forall|i: int| 0 <= i < s0.n() && #[trigger] s0.visited(i) implies self.visited(i)
                    && self.idx(i) == s0.idx(i) && self.low(i) == s0.low(i) by {
                    assert(s1.visited(i));
                    assert(i != v);
                }
                assert forall|i: int| 0 <= i < s0.n() && !s0.visited(i) && #[trigger] self.visited(i) implies self.idx(i) >= s0.index by {
                    if i == v {
                    } else if s1.visited(i) {
                        assert(s1.idx(i) >= s0.index);
                        assert(self.idx(i) == s1.idx(i));
                    } else {
                        assert(s1.index >= s0.index);
                    }
                }
                assert(self.stack@.subrange(0, s0.stack@.len() as int) =~= s0.stack@) by {
                    assert(self.stack@.subrange(0, s1.stack@.len() as int).subrange(0, s0.stack@.len() as int) =~= self.stack@.subrange(0, s0.stack@.len() as int));
                }
                assert(self.stack@[s0.stack@.len() as int] == self.stack@.subrange(0, s1.stack@.len() as int)[s0.stack@.len() as int]);
            }
            k = k + 1;
        }
        let ghost s_loop = *self;
        proof {
            let s5 = *self;
            self.finished@ = self.finished@.update(v as int, true);
            Self::lemma_frame(s5, *self, s5.parts(), base);
            Self::lemma_connected_frame(s5, *self);
            assert(self.parts() == s5.parts());
            assert forall|i: int| 0 <= i < self.n() && #[trigger] self.finished@[i] implies self.visited(i) by {
                if i != v {
                    assert(s5.finished@[i]);
                }
            }
            assert forall|i: int, j: int| 0 <= i < self.n() && self.finished@[i] && 0 <= j < self.succ@[i]@.len() implies self.settled(i, #[trigger] self.succ@[i]@[j] as int) by {
                if i != v {
                    assert(s5.settled(i, s5.succ@[i]@[j] as int));
                }
            }
            assert forall|i: int| 0 <= i < self.n() && #[trigger] self.owner@[i] >= 0 implies self.finished@[i] by {
                assert(s5.finished@[i]);
            }
            assert(self.ordered());
            assert forall|i: int| 0 <= i < s0.n() && !s0.visited(i) && #[trigger] self.visited(i) implies self.idx(i) >= s0.index by {
                assert(s_loop.visited(i));
            }
            assert forall|i: int| 0 <= i < s0.n() && #[trigger] s0.visited(i) implies self.finished@[i] == s0.finished@[i] by {
                assert(s_loop.finished@[i] == s0.finished@[i]);
                assert(i != v);
            }
        }
        if self.vertices[v].low_link == at {
            let ghost s2 = *self;
            self.close_component(v, Ghost(base), Ghost(s0.stack@.len() as int));
            proof {
                assert forall|i: int| 0 <= i < s0.n() && !s0.visited(i) && #[trigger] self.visited(i) implies self.idx(i) >= s0.index by {
                    assert(self.vertices@[i].index == s2.vertices@[i].index);
                    assert(s_loop.vertices@[i].index == s2.vertices@[i].index);
                    assert(s_loop.visited(i));
                    assert(s_loop.idx(i) >= s0.index);
                }
                assert forall|i: int| 0 <= i < s0.n() && #[trigger] s0.visited(i) implies self.finished@[i] == s0.finished@[i] by {
                    assert(s_loop.finished@[i] == s0.finished@[i]);
                    assert(i != v);
                }
            }
        }
    }
}

impl<'a> Tarjan<'a> {
    fn initial_tarjan_nodes(&self) -> (r: Vec<Vertex>)
        requires
            self.graph@.wf(),
        ensures
            r@.len() == self.graph@.ids.len(),
            forall|i: int| 0 <= i < r@.len() ==> (#[trigger] r@[i]).index is None && !r@[i].on_stack
                && r@[i].id == self.graph@.ids[i],
    {
        let ids = self.graph.vertices();
        let mut r: Vec<Vertex> = Vec::new();
        let mut i: usize = 0;
        while i < ids.len()
            invariant
                ids@ == self.graph@.ids,
                i <= ids@.len(),
                r@.len() == i,
                forall|a: int| 0 <= a < r@.len() ==> (#[trigger] r@[a]).index is None && !r@[a].on_stack
                    && r@[a].id == ids@[a],
            decreases ids@.len() - i,
        {
            r.push(Vertex { id: ids[i], index: None, low_link: 0, on_stack: false });
            i = i + 1;
        }
        r
    }
}

impl<'a> StronglyConnectedComponents for Tarjan<'a> {
    closed spec fn model(&self) -> GraphModel {
        self.graph@
    }

    fn strongly_connected_components(&mut self) -> (r: Vec<Vec<VertexId>>)
    {
        self.vertices = self.initial_tarjan_nodes();
        self.succ = self.graph.index_adjacency();
        self.stack = Vec::new();
        self.index = 0;
        self.sccs = Vec::new();
        let n = self.vertices.len();
        proof {
            self.owner@ = Seq::new(n as nat, |i: int| -1int);
            self.finished@ = Seq::new(n as nat, |i: int| false);
            self.link@ = Seq::new(n as nat, |i: int| 0int);
            self.roots@ = Map::empty();
            lemma_unvisited_all(self.vertices@);
            assert(self.parts() =~= Seq::<Seq<VertexId>>::empty());
            let sv = self.succ@.map_values(|row: Vec<usize>| row@);
            assert forall|i: int, j: int| 0 <= i < n && 0 <= j < self.succ@[i]@.len() implies (#[trigger] self.succ@[i]@[j]) < n by {
                assert(sv[i] == self.succ@[i]@);
            }
            assert(self.inv());
            assert(self.ordered());
            assert(self.connected());
        }
        let mut i: usize = 0;
        while i < n
            invariant
                self.inv(),
                self.ordered(),
                self.connected(),
                self.graph@.indexed_by(self.succ@.map_values(|row: Vec<usize>| row@)),
                self.graph == old(self).graph,
                self.stack@ == Seq::<usize>::empty(),
                self.n() == n,
                i <= n,
                forall|a: int| 0 <= a < i ==> #[trigger] self.visited(a),
            decreases n - i,
        {
            if self.vertices[i].index.is_none() {
                let ghost s1 = *self;
                let ghost base = self.index as int;
                proof {
                    assert(self.above(base));
                }
                self.scc(i, Ghost(base));
                proof {
                    assert(self.low(i as int) >= base);
                    assert forall|a: int| 0 <= a < i + 1 implies #[trigger] self.visited(a) by {
                        if a < i {
                            assert(s1.visited(a));
                        }
                    }
                }
            }
            i = i + 1;
        }
        let r = crate::hash_table::copy_rows(&self.sccs);
        proof {
            let parts = self.parts();
            let m = self.graph@;
            assert(r@.map_values(|c: Vec<VertexId>| c@) == parts);
            assert forall|c: int, d: int, x: VertexId|
                0 <= c < parts.len() && 0 <= d < parts.len() && c != d && #[trigger] parts[c].contains(x) implies !(#[trigger] parts[d].contains(x)) by {
                assert(m.ids.contains(x));
                let k = choose|k: int| 0 <= k < m.ids.len() && m.ids[k] == x;
                assert(parts[c].contains(m.ids[k]) <==> self.owner@[k] == c);
                assert(parts[d].contains(m.ids[k]) <==> self.owner@[k] == d);
            }
            let sv = self.succ@.map_values(|row: Vec<usize>| row@);
            assert forall|c: int, u: VertexId, w: VertexId|
                0 <= c < parts.len() && #[trigger] parts[c].contains(u) && #[trigger] parts[c].contains(w) implies reaches(m.edges(), u, w) by {
                assert(m.ids.contains(u));
                assert(m.ids.contains(w));
                let i = choose|i: int| 0 <= i < m.ids.len() && m.ids[i] == u;
                let k = choose|k: int| 0 <= k < m.ids.len() && m.ids[k] == w;
                assert(parts[c].contains(m.ids[i]) <==> self.owner@[i] == c);
                assert(parts[c].contains(m.ids[k]) <==> self.owner@[k] == c);
                assert(self.owner@[i] >= 0 && self.owner@[k] >= 0);
                let rt = self.roots@[c];
                lemma_reach_trans(self.succ@, i, rt, k);
                lemma_index_reach_to_reach(m, self.succ@, i, k);
            }
            assert forall|c: int, d: int, e: Edge|
                0 <= c < parts.len() && 0 <= d < parts.len() && #[trigger] m.edges().contains(e) && #[trigger] parts[c].contains(e.0)
                    && #[trigger] parts[d].contains(e.1) implies d <= c by {
                assert(m.ids.contains(e.0));
                assert(m.ids.contains(e.1));
                let i = choose|i: int| 0 <= i < m.ids.len() && m.ids[i] == e.0;
                let k = choose|k: int| 0 <= k < m.ids.len() && m.ids[k] == e.1;
                crate::hash_table::lemma_indexed_edge(m, sv, i, k as usize);
                let j = choose|j: int| 0 <= j < sv[i].len() && sv[i][j] == k as usize;
                assert(sv[i] == self.succ@[i]@);
                assert(parts[c].contains(m.ids[i]) <==> self.owner@[i] == c);
                assert(parts[d].contains(m.ids[k]) <==> self.owner@[k] == d);
                assert(self.visited(i) && !self.vertices@[i].on_stack);
                assert(0 <= self.owner@[self.succ@[i]@[j] as int] <= self.owner@[i]);
            }
            assert forall|x: VertexId| m.vertices().contains(x) <==> exists|c: int| 0 <= c < parts.len() && #[trigger] parts[c].contains(x) by {
                if m.vertices().contains(x) {
                    let k = choose|k: int| 0 <= k < m.ids.len() && m.ids[k] == x;
                    assert(self.visited(k));
                    assert(!self.vertices@[k].on_stack);
                    let c = self.owner@[k];
                    assert(parts[c].contains(m.ids[k]));
                }
                if exists|c: int| 0 <= c < parts.len() && #[trigger] parts[c].contains(x) {
                    let c = choose|c: int| 0 <= c < parts.len() && #[trigger] parts[c].contains(x);
                    assert(m.ids.contains(x));
                }
            }
        }
        r
    }
}

} // verus!
