use crate::tarjan::{index_reaches, lemma_reach_edge, lemma_reach_refl, lemma_reach_trans};
use crate::hash_table::{lemma_indexed_edge, is_acyclic, ranks_forward, Edge, HashTable, VertexId};
use vstd::prelude::*;

verus! {

/// Every listed successor position has a higher rank than its source.
pub open spec fn index_ranked(succ: Seq<Seq<usize>>, rank: spec_fn(int) -> int) -> bool {
    forall|i: int, j: int|
        0 <= i < succ.len() && 0 <= j < succ[i].len() ==> rank(i) < rank(#[trigger] succ[i][j] as int)
}

/// The position graph `succ` admits a ranking, that is, it has no cycle.
pub open spec fn index_acyclic(succ: Seq<Seq<usize>>) -> bool {
    exists|rank: spec_fn(int) -> int| index_ranked(succ, rank)
}

/// A graph is acyclic exactly when its position graph is.
pub proof fn lemma_index_acyclic(g: &HashTable, succ: Seq<Seq<usize>>)
    requires
        g@.wf(),
        g@.indexed_by(succ),
    ensures
        index_acyclic(succ) <==> is_acyclic(g@.edges()),
{
    let m = g@;
    if is_acyclic(m.edges()) {
        let big = choose|rank: spec_fn(VertexId) -> int| ranks_forward(rank, m.edges());
        let rank = |i: int| big(m.ids[i]);
        assert forall|i: int, j: int|
            0 <= i < succ.len() && 0 <= j < succ[i].len() implies rank(i) < rank(
            #[trigger] succ[i][j] as int,
        ) by {
            let k = succ[i][j];
            assert(succ[i].contains(k));
            lemma_indexed_edge(m, succ, i, k);
            assert(m.edges().contains((m.ids[i], m.ids[k as int])));
        }
        assert(index_ranked(succ, rank));
    }
    if index_acyclic(succ) {
        let small = choose|rank: spec_fn(int) -> int| index_ranked(succ, rank);
        let rank = |v: VertexId| small(m.ids.index_of(v));
        assert forall|e: Edge| #[trigger] m.edges().contains(e) implies rank(e.0) < rank(e.1) by {
            assert(m.out(e.0).contains(e.1));
            assert(m.ids.contains(e.0));
            let i = m.ids.index_of(e.0);
            crate::hash_table::lemma_index_of(m.ids, i);
            let b = choose|b: int| 0 <= b < m.adj[i].len() && m.adj[i][b] == e.1;
            let k = succ[i][b];
            assert(m.ids[k as int] == e.1);
            crate::hash_table::lemma_index_of(m.ids, k as int);
            assert(small(i) < small(succ[i][b] as int));
        }
        assert(ranks_forward(rank, m.edges()));
    }
}

/// Along a path, ranks never decrease.
proof fn lemma_path_rank(succ: Seq<Seq<usize>>, path: Seq<usize>, rank: spec_fn(int) -> int, p: int, q: int)
    requires
        index_ranked(succ, rank),
        forall|k: int| 0 <= k < path.len() ==> (#[trigger] path[k] as int) < succ.len(),
        forall|k: int| 0 <= k < path.len() - 1 ==> succ[#[trigger] path[k] as int].contains(path[k + 1]),
        0 <= p <= q < path.len(),
    ensures
        rank(path[p] as int) <= rank(path[q] as int),
    decreases q - p,
{
    if p < q {
        lemma_path_rank(succ, path, rank, p, q - 1);
        let a = path[q - 1] as int;
        assert(succ[a].contains(path[q]));
        let j = choose|j: int| 0 <= j < succ[a].len() && succ[a][j] == path[q];
    }
}

/// Position `c` lies on a cycle of the position graph `succ`.
pub open spec fn on_cycle(succ: Seq<Vec<usize>>, c: int) -> bool {
    exists|d: int| 0 <= c < succ.len() && 0 <= d < succ.len() && #[trigger] succ[c]@.contains(d as usize) && index_reaches(succ, d, c)
}

/// Consecutive entries of a walk reach each other along it.
proof fn lemma_walk_reach(succ: Seq<Vec<usize>>, path: Seq<usize>, a: int, b: int)
    requires
        forall|k: int| 0 <= k < path.len() ==> (#[trigger] path[k] as int) < succ.len(),
        forall|k: int| 0 <= k < path.len() - 1 ==> succ[#[trigger] path[k] as int]@.contains(path[k + 1]),
        0 <= a <= b < path.len(),
    ensures
        index_reaches(succ, path[a] as int, path[b] as int),
    decreases b - a,
{
    if a == b {
        lemma_reach_refl(succ, path[a] as int);
    } else {
        lemma_walk_reach(succ, path, a, b - 1);
        assert(succ[path[b - 1] as int]@.contains(path[b]));
        lemma_reach_edge(succ, path[b - 1] as int, path[b] as int);
        lemma_reach_trans(succ, path[a] as int, path[b - 1] as int, path[b] as int);
    }
}

struct Vertex {
    id: VertexId,
    visited: bool,
    on_stack: bool,
}

/// Number of vertices not yet visited.
spec fn unvisited(s: Seq<Vertex>) -> nat
    decreases s.len(),
{
    if s.len() == 0 {
        0
    } else {
        unvisited(s.drop_last()) + if s.last().visited {
            0nat
        } else {
            1nat
        }
    }
}

proof fn lemma_unvisited_mono(a: Seq<Vertex>, b: Seq<Vertex>, v: int)
    requires
        a.len() == b.len(),
        forall|i: int| 0 <= i < a.len() ==> (#[trigger] a[i]).visited ==> b[i].visited,
    ensures
        unvisited(b) <= unvisited(a),
        0 <= v < a.len() && !a[v].visited && b[v].visited ==> unvisited(b) < unvisited(a),
    decreases a.len(),
{
    if a.len() > 0 {
        lemma_unvisited_mono(a.drop_last(), b.drop_last(), v);
    }
}

/// Depth-first cycle detection over one graph.
pub struct CycleDetection<'a> {
    graph: &'a HashTable,
    vertices: Vec<Vertex>,
    succ: Vec<Vec<usize>>,
    path: Ghost<Seq<usize>>,
    fin: Ghost<Seq<int>>,
    clock: Ghost<int>,
}

impl<'a> CycleDetection<'a> {
    pub fn new(graph: &'a HashTable) -> (r: Self)
        ensures
            r.graph() == graph,
    {
        Self {
            graph,
            vertices: Vec::new(),
            succ: Vec::new(),
            path: Ghost(Seq::empty()),
            fin: Ghost(Seq::empty()),
            clock: Ghost(0),
        }
    }

    /// The graph examined.
    pub closed spec fn graph(&self) -> &'a HashTable {
        self.graph
    }

    /// The rows of positions the search walks.
    pub closed spec fn succ_rows(&self) -> Seq<Vec<usize>> {
        self.succ@
    }

    /// The position graph the search walks.
    pub closed spec fn succ_view(&self) -> Seq<Seq<usize>> {
        self.succ@.map_values(|row: Vec<usize>| row@)
    }

    /// Positions on the current search path, from the root.
    pub closed spec fn path_view(&self) -> Seq<usize> {
        self.path@
    }

    /// Number of positions.
    pub closed spec fn n(&self) -> int {
        self.vertices@.len() as int
    }

    pub closed spec fn visited(&self, i: int) -> bool {
        self.vertices@[i].visited
    }

    /// Positions not yet visited.
    pub closed spec fn remaining(&self) -> nat {
        unvisited(self.vertices@)
    }

    /// Position `i` was visited and left the path again.
    pub closed spec fn done(&self, i: int) -> bool {
        self.vertices@[i].visited && !self.vertices@[i].on_stack
    }

    /// Marks are consistent: the vertices on the stack form a path, and every
    /// finished vertex has only finished successors, which finished earlier.
    pub closed spec fn inv(&self) -> bool {
        let n = self.vertices@.len();
        let succ = self.succ_view();
        let path = self.path@;
        let fin = self.fin@;
        &&& succ.len() == n
        &&& n <= usize::MAX
        &&& fin.len() == n
        &&& forall|i: int, j: int| 0 <= i < n && 0 <= j < succ[i].len() ==> (#[trigger] succ[i][j]) < n
        &&& forall|i: int| 0 <= i < n && (#[trigger] self.vertices@[i]).on_stack ==> self.vertices@[i].visited
        &&& path.no_duplicates()
        &&& forall|k: int| 0 <= k < path.len() ==> (#[trigger] path[k] as int) < n
        &&& forall|i: int| 0 <= i < n ==> ((#[trigger] self.vertices@[i]).on_stack <==> path.contains(i as usize))
        &&& forall|k: int| 0 <= k < path.len() - 1 ==> succ[#[trigger] path[k] as int].contains(path[k + 1])
        &&& forall|i: int| 0 <= i < n && #[trigger] self.done(i) ==> fin[i] < self.clock@
        &&& forall|i: int, j: int| 0 <= i < n && self.done(i) && 0 <= j < succ[i].len() ==> self.done(#[trigger] succ[i][j] as int)
            && fin[succ[i][j] as int] < fin[i]
    }

    fn initial_cycle_vertices(&self) -> (r: Vec<Vertex>)
        requires
            self.graph@.wf(),
        ensures
            r@.len() == self.graph@.ids.len(),
            forall|i: int| 0 <= i < r@.len() ==> !(#[trigger] r@[i]).visited && !r@[i].on_stack,
    {
        let ids = self.graph.vertices();
        let mut r: Vec<Vertex> = Vec::new();
        let mut i: usize = 0;
        while i < ids.len()
            invariant
                i <= ids@.len(),
                r@.len() == i,
                forall|a: int| 0 <= a < r@.len() ==> !(#[trigger] r@[a]).visited && !r@[a].on_stack,
            decreases ids@.len() - i,
        {
            r.push(Vertex { id: ids[i], visited: false, on_stack: false });
            i = i + 1;
        }
        r
    }

    /// Marks every position unvisited and off the stack, ready for
    /// `is_cyclic_util`.
    pub fn reset(&mut self)
        requires
            old(self).graph()@.wf(),
        ensures
            final(self).inv(),
            final(self).graph() == old(self).graph(),
            final(self).path_view() == Seq::<usize>::empty(),
            final(self).n() == old(self).graph()@.ids.len(),
            old(self).graph()@.indexed_by(final(self).succ_view()),
            forall|i: int| 0 <= i < final(self).n() ==> !#[trigger] final(self).visited(i),
    {
        self.vertices = self.initial_cycle_vertices();
        self.succ = self.graph.index_adjacency();
        let n = self.vertices.len();
        proof {
            self.path@ = Seq::empty();
            self.fin@ = Seq::new(n as nat, |i: int| 0int);
            self.clock@ = 0;
            assert(self.inv());
        }
    }

    /// Whether the graph has a cycle.
    pub fn is_cyclic(&mut self) -> (r: bool)
        requires
            old(self).graph()@.wf(),
        ensures
            final(self).graph() == old(self).graph(),
            r == !is_acyclic(old(self).graph()@.edges()),
    {
        self.reset();
        let n = self.vertices.len();
        proof {
            lemma_index_acyclic(self.graph, self.succ_view());
        }
        let ghost s0 = *self;
        let mut i: usize = 0;
        while i < n
            invariant
                self.inv(),
                self.graph == old(self).graph,
                index_acyclic(self.succ_view()) <==> is_acyclic(old(self).graph()@.edges()),
                self.path_view() == Seq::<usize>::empty(),
                self.n() == n,
                i <= n,
                forall|a: int| 0 <= a < i ==> #[trigger] self.done(a),
            decreases n - i,
        {
            let ghost s1 = *self;
            if self.is_cyclic_util(i) {
                return true;
            }
            proof {
                assert forall|a: int| 0 <= a < i + 1 implies #[trigger] self.done(a) by {
                    if a < i {
                        assert(s1.done(a));
                    }
                }
            }
            i = i + 1;
        }
        proof {
            let fin = self.fin@;
            let succ = self.succ_view();
            let rank = |a: int| -fin[a];
            assert forall|a: int, j: int| 0 <= a < succ.len() && 0 <= j < succ[a].len() implies rank(a) < rank(#[trigger] succ[a][j] as int) by {
                assert(self.done(a));
            }
            assert(index_ranked(succ, rank));
        }
        false
    }

    /// Searches depth first from position `v`; reports whether it met a vertex
    /// on the current path, which closes a cycle.
    pub fn is_cyclic_util(&mut self, v: usize) -> (r: bool)
        requires
            old(self).inv(),
            v < old(self).succ_view().len(),
            old(self).path_view().len() > 0 ==> old(self).succ_view()[old(self).path_view().last() as int].contains(v),
        ensures
            final(self).graph() == old(self).graph(),
            final(self).succ_view() == old(self).succ_view(),
            final(self).succ_rows() == old(self).succ_rows(),
            r ==> !index_acyclic(old(self).succ_view()),
            r ==> exists|c: int| #[trigger] on_cycle(old(self).succ_rows(), c) && index_reaches(old(self).succ_rows(), v as int, c),
            !r ==> {
                &&& final(self).inv()
                &&& final(self).path_view() == old(self).path_view()
                &&& final(self).n() == old(self).n()
                &&& final(self).done(v as int)
                &&& forall|i: int| 0 <= i < old(self).n() && #[trigger] old(self).visited(i) ==> final(self).visited(i)
                &&& forall|i: int| 0 <= i < old(self).n() && old(self).done(i) ==> #[trigger] final(self).done(i)
                &&& final(self).remaining() <= old(self).remaining()
            },
        decreases old(self).remaining(),
    {
        let ghost s0 = *old(self);
        if self.vertices[v].on_stack {
            proof {
                let succ = s0.succ_view();
                let path = s0.path@;
                assert(path.contains(v));
                let p = choose|p: int| 0 <= p < path.len() && path[p] == v;
                if index_acyclic(succ) {
                    let rank = choose|rank: spec_fn(int) -> int| index_ranked(succ, rank);
                    lemma_path_rank(succ, path, rank, p, path.len() - 1);
                    let u = path.last() as int;
                    let j = choose|j: int| 0 <= j < succ[u].len() && succ[u][j] == v;
                    assert(rank(u) < rank(succ[u][j] as int));
                }
                let rows = s0.succ@;
                assert forall|k: int| 0 <= k < path.len() - 1 implies rows[#[trigger] path[k] as int]@.contains(path[k + 1]) by {
                    assert(succ[path[k] as int] == rows[path[k] as int]@);
                }
                let top = path.last();
                assert(succ[top as int] == rows[top as int]@);
                assert(rows[top as int]@.contains(v));
                lemma_reach_refl(rows, v as int);
                if p == path.len() - 1 {
                    assert(on_cycle(rows, v as int));
                } else {
                    let d = path[p + 1];
                    lemma_walk_reach(rows, path, p + 1, path.len() - 1);
                    lemma_reach_edge(rows, top as int, v as int);
                    lemma_reach_trans(rows, d as int, top as int, v as int);
                    assert(rows[path[p] as int]@.contains(path[p + 1]));
                    assert(on_cycle(rows, v as int));
                }
                assert(rows == old(self).succ_rows());
                assert(on_cycle(old(self).succ_rows(), v as int) && index_reaches(old(self).succ_rows(), v as int, v as int));
            }
            return true;
        }
        if self.vertices[v].visited {
            return false;
        }
        self.vertices[v].visited = true;
        self.vertices[v].on_stack = true;
        proof {
            self.path@ = self.path@.push(v);
            assert forall|i: int| 0 <= i < s0.vertices@.len() implies ((#[trigger] self.vertices@[i]).on_stack <==> self.path@.contains(i as usize)) by {
                crate::hash_table::lemma_push_contains(s0.path@, v);
            }
            crate::hash_table::lemma_push_no_dup(s0.path@, v);
            lemma_unvisited_mono(s0.vertices@, self.vertices@, v as int);
            assert(self.vertices@ == s0.vertices@.update(v as int, self.vertices@[v as int]));
            assert(forall|i: int| 0 <= i < s0.n() && i != v ==> self.vertices@[i] == s0.vertices@[i]);
            assert(self.succ_view() == s0.succ_view());
            assert(forall|k: int| 0 <= k < self.path@.len() - 1 ==> self.succ_view()[#[trigger] self.path@[k] as int].contains(self.path@[k + 1]));
            assert(forall|i: int| 0 <= i < s0.n() && #[trigger] self.done(i) ==> s0.done(i));
            assert(forall|i: int| 0 <= i < s0.n() && #[trigger] self.done(i) ==> self.fin@[i] < self.clock@);
            assert(self.inv());
        }
        let mut k: usize = 0;
        while k < self.succ[v].len()
            invariant
                s0 == *old(self),
                self.inv(),
                self.graph == s0.graph,
                self.succ_view() == s0.succ_view(),
                self.succ_rows() == s0.succ_rows(),
                self.path@ == s0.path@.push(v),
                self.vertices@.len() == s0.vertices@.len(),
                v < s0.vertices@.len(),
                self.vertices@[v as int].on_stack,
                k <= self.succ_view()[v as int].len(),
                forall|jj: int| 0 <= jj < k ==> self.done(#[trigger] self.succ_view()[v as int][jj] as int),
                forall|i: int| 0 <= i < s0.n() && #[trigger] s0.visited(i) ==> self.visited(i),
                forall|i: int| 0 <= i < s0.vertices@.len() && s0.done(i) ==> #[trigger] self.done(i),
                unvisited(self.vertices@) < unvisited(s0.vertices@),
            decreases self.succ_view()[v as int].len() - k,
        {
            let w = self.succ[v][k];
            proof {
                assert(self.succ_view()[v as int][k as int] == w);
            }
            let ghost s1 = *self;
            if self.is_cyclic_util(w) {
                proof {
                    let rows = s0.succ@;
                    let c = choose|c: int| #[trigger] on_cycle(rows, c) && index_reaches(rows, w as int, c);
                    assert(self.succ_view()[v as int] == rows[v as int]@);
                    assert(rows[v as int]@.contains(w));
                    lemma_reach_edge(rows, v as int, w as int);
                    lemma_reach_trans(rows, v as int, w as int, c);
                }
                return true;
            }
            proof {
                assert forall|jj: int| 0 <= jj < k + 1 implies self.done(#[trigger] self.succ_view()[v as int][jj] as int) by {
                    if jj < k {
                        assert(s1.done(s1.succ_view()[v as int][jj] as int));
                    }
                }
            }
            k = k + 1;
        }
        let ghost s2 = *self;
        self.vertices[v].on_stack = false;
        proof {
            self.path@ = s0.path@;
            self.fin@ = self.fin@.update(v as int, self.clock@);
            self.clock@ = self.clock@ + 1;
            lemma_unvisited_mono(s2.vertices@, self.vertices@, v as int);
            assert forall|i: int| 0 <= i < s0.vertices@.len() implies ((#[trigger] self.vertices@[i]).on_stack <==> self.path@.contains(i as usize)) by {
                if i != v {
                    assert(s2.vertices@[i].on_stack <==> s2.path@.contains(i as usize));
                    crate::hash_table::lemma_push_contains(s0.path@, v);
                } else {
                    assert(!s0.path@.contains(v));
                }
            }
            assert forall|i: int, j: int| 0 <= i < self.vertices@.len() && self.done(i) && 0 <= j < self.succ_view()[i].len() implies self.done(#[trigger] self.succ_view()[i][j] as int)
                && self.fin@[self.succ_view()[i][j] as int] < self.fin@[i] by {
                let w = self.succ_view()[i][j] as int;
                if i == v {
                    assert(s2.done(w));
                    assert(w != v);
                } else {
                    assert(s2.done(i));
                }
            }
        }
        proof {
            assert(self.vertices@ == s2.vertices@.update(v as int, self.vertices@[v as int]));
            assert(self.done(v as int));
            assert(forall|i: int| 0 <= i < s0.n() && #[trigger] s0.visited(i) ==> self.visited(i));
            assert forall|i: int| 0 <= i < s0.n() && s0.done(i) implies #[trigger] self.done(i) by {
                if i != v {
                    assert(s2.done(i));
                }
            }
            assert(self.remaining() <= s0.remaining());
            assert forall|i: int| 0 <= i < self.n() && #[trigger] self.done(i) implies self.fin@[i] < self.clock@ by {
                if i != v {
                    assert(s2.done(i));
                }
            }
            assert(forall|k: int| 0 <= k < self.path@.len() - 1 ==> self.succ_view()[#[trigger] self.path@[k] as int].contains(self.path@[k + 1]));
            assert(self.inv());
        }
        false
    }
}

impl HashTable {
    /// Whether the graph has a cycle.
    pub fn is_cyclic(&self) -> (r: bool)
        requires
            self@.wf(),
        ensures
            r == !is_acyclic(self@.edges()),
    {
        CycleDetection::new(self).is_cyclic()
    }
}

} // verus!
