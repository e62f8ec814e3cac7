use vstd::prelude::*;

verus! {

/// Identifier of a vertex; it carries no meaning beyond identity.
pub type VertexId = u32;

/// A directed edge `(source, target)`.
pub type Edge = (VertexId, VertexId);

/// Selects the incoming or the outgoing edges of a vertex.
pub enum Direction {
    Inbound,
    Outbound,
}

/// Mathematical model of a graph: the vertex ids in storage order and, at the
/// same position, the targets of each vertex's outgoing edges.
pub struct GraphModel {
    pub ids: Seq<VertexId>,
    pub adj: Seq<Seq<VertexId>>,
}

/// Sum of the lengths of the rows.
pub open spec fn total_len(rows: Seq<Seq<VertexId>>) -> nat
    decreases rows.len(),
{
    if rows.len() == 0 {
        0
    } else {
        total_len(rows.drop_last()) + rows.last().len()
    }
}

impl GraphModel {
    /// Ids are unique, each row is duplicate free and names known vertices
    /// only, and the number of edges fits in a `usize`.
    pub open spec fn wf(self) -> bool {
        &&& self.adj.len() == self.ids.len()
        &&& self.ids.no_duplicates()
        &&& forall|i: int| 0 <= i < self.adj.len() ==> (#[trigger] self.adj[i]).no_duplicates()
        &&& forall|i: int, j: int|
            0 <= i < self.adj.len() && 0 <= j < self.adj[i].len() ==> self.ids.contains(
                #[trigger] self.adj[i][j],
            )
        &&& total_len(self.adj) <= usize::MAX
    }

    pub open spec fn vertices(self) -> Set<VertexId> {
        self.ids.to_set()
    }

    /// Outgoing neighbours of `u` (empty for an unknown vertex).
    pub open spec fn out(self, u: VertexId) -> Seq<VertexId> {
        if self.ids.contains(u) {
            self.adj[self.ids.index_of(u)]
        } else {
            Seq::empty()
        }
    }

    pub open spec fn has_edge(self, u: VertexId, v: VertexId) -> bool {
        self.out(u).contains(v)
    }

    pub open spec fn edges(self) -> Set<Edge> {
        Set::new(|e: Edge| self.has_edge(e.0, e.1))
    }

    /// Edges leaving `v`.
    pub open spec fn out_edges(self, v: VertexId) -> Set<Edge> {
        self.edges().filter(|e: Edge| e.0 == v)
    }

    /// Edges entering `v`.
    pub open spec fn in_edges(self, v: VertexId) -> Set<Edge> {
        self.edges().filter(|e: Edge| e.1 == v)
    }

    /// `succ` lists, for each stored vertex, the positions of its targets.
    pub open spec fn indexed_by(self, succ: Seq<Seq<usize>>) -> bool {
        &&& succ.len() == self.ids.len()
        &&& forall|i: int| 0 <= i < succ.len() ==> (#[trigger] succ[i]).len() == self.adj[i].len()
        &&& forall|i: int, j: int|
            0 <= i < succ.len() && 0 <= j < succ[i].len() ==> (#[trigger] succ[i][j]) < self.ids.len()
                && self.ids[succ[i][j] as int] == self.adj[i][j]
    }

    pub open spec fn edge_count(self) -> nat {
        total_len(self.adj)
    }
}

/// `rank` sends every edge of `es` from a lower to a higher rank.
pub open spec fn ranks_forward(rank: spec_fn(VertexId) -> int, es: Set<Edge>) -> bool {
    forall|e: Edge| #[trigger] es.contains(e) ==> rank(e.0) < rank(e.1)
}

/// A set of edges is acyclic when some ranking of the vertices sends every
/// edge from a lower to a higher rank.
pub open spec fn is_acyclic(es: Set<Edge>) -> bool {
    exists|rank: spec_fn(VertexId) -> int| ranks_forward(rank, es)
}

/// The index of a vertex is the one position that holds it.
pub proof fn lemma_index_of(ids: Seq<VertexId>, i: int)
    requires
        ids.no_duplicates(),
        0 <= i < ids.len(),
    ensures
        ids.contains(ids[i]),
        ids.index_of(ids[i]) == i,
{
    assert(ids.contains(ids[i]));
}

/// Changing one row changes the total by the difference of the lengths.
pub proof fn lemma_total_len_update(rows: Seq<Seq<VertexId>>, i: int, r: Seq<VertexId>)
    requires
        0 <= i < rows.len(),
    ensures
        total_len(rows.update(i, r)) == total_len(rows) - rows[i].len() + r.len(),
    decreases rows.len(),
{
    if i == rows.len() - 1 {
        assert(rows.update(i, r).drop_last() =~= rows.drop_last());
    } else {
        lemma_total_len_update(rows.drop_last(), i, r);
        assert(rows.update(i, r).drop_last() =~= rows.drop_last().update(i, r));
    }
}

/// The row of a stored vertex is its list of outgoing neighbours.
pub proof fn lemma_out_at(m: GraphModel, i: int)
    requires
        m.wf(),
        0 <= i < m.ids.len(),
    ensures
        m.out(m.ids[i]) == m.adj[i],
{
    lemma_index_of(m.ids, i);
}

/// Two well-formed models with the same rows for every vertex have the same edges.
pub proof fn lemma_same_out_same_edges(a: GraphModel, b: GraphModel)
    requires
        forall|u: VertexId| #[trigger] a.out(u) == b.out(u),
    ensures
        a.edges() == b.edges(),
{
    assert forall|e: Edge| a.edges().contains(e) <==> b.edges().contains(e) by {
        assert(a.out(e.0) == b.out(e.0));
    }
    assert(a.edges() =~= b.edges());
}

/// A prefix of the rows holds no more than all of them.
pub proof fn lemma_total_len_prefix(rows: Seq<Seq<VertexId>>, i: int)
    requires
        0 <= i <= rows.len(),
    ensures
        total_len(rows.subrange(0, i)) <= total_len(rows),
        i < rows.len() ==> total_len(rows.subrange(0, i + 1)) == total_len(rows.subrange(0, i))
            + rows[i].len(),
    decreases rows.len(),
{
    if i < rows.len() {
        assert(rows.subrange(0, i + 1).drop_last() =~= rows.subrange(0, i));
    }
    if i == rows.len() {
        assert(rows.subrange(0, i) =~= rows);
    } else {
        lemma_total_len_prefix(rows.drop_last(), i);
        assert(rows.drop_last().subrange(0, i) =~= rows.subrange(0, i));
    }
}

/// Removing a row removes its length from the total.
pub proof fn lemma_total_len_remove(rows: Seq<Seq<VertexId>>, i: int)
    requires
        0 <= i < rows.len(),
    ensures
        total_len(rows.remove(i)) == total_len(rows) - rows[i].len(),
    decreases rows.len(),
{
    if i == rows.len() - 1 {
        assert(rows.remove(i) =~= rows.drop_last());
    } else {
        lemma_total_len_remove(rows.drop_last(), i);
        assert(rows.remove(i).drop_last() =~= rows.drop_last().remove(i));
    }
}

/// Removing the entry at `j` keeps the others and no more.
pub proof fn lemma_seq_remove(s: Seq<VertexId>, j: int)
    requires
        s.no_duplicates(),
        0 <= j < s.len(),
    ensures
        s.remove(j).no_duplicates(),
        forall|x: VertexId| #[trigger] s.remove(j).contains(x) <==> (s.contains(x) && x != s[j]),
{
    let r = s.remove(j);
    assert forall|a: int, b: int| 0 <= a < r.len() && 0 <= b < r.len() && a != b implies r[a] != r[b] by {
        let a1 = if a < j { a } else { a + 1 };
        let b1 = if b < j { b } else { b + 1 };
        assert(r[a] == s[a1] && r[b] == s[b1]);
    }
    assert forall|x: VertexId| #[trigger] r.contains(x) <==> (s.contains(x) && x != s[j]) by {
        if r.contains(x) {
            let a = choose|a: int| 0 <= a < r.len() && r[a] == x;
            let a1 = if a < j { a } else { a + 1 };
            assert(s[a1] == x);
        }
        if s.contains(x) && x != s[j] {
            let a = choose|a: int| 0 <= a < s.len() && s[a] == x;
            if a < j {
                assert(r[a] == x);
            } else {
                assert(r[a - 1] == x);
            }
        }
    }
}

/// What a sequence holds after a push.
pub proof fn lemma_push_contains<A>(s: Seq<A>, x: A)
    ensures
        forall|f: A| #[trigger] s.push(x).contains(f) <==> (s.contains(f) || f == x),
{
    assert forall|f: A| #[trigger] s.push(x).contains(f) <==> (s.contains(f) || f == x) by {
        if s.push(x).contains(f) {
            let k = choose|k: int| 0 <= k < s.push(x).len() && s.push(x)[k] == f;
            if k < s.len() {
                assert(s[k] == f);
            }
        }
        if s.contains(f) {
            let k = choose|k: int| 0 <= k < s.len() && s[k] == f;
            assert(s.push(x)[k] == f);
        }
        assert(s.push(x)[s.len() as int] == x);
    }
}

/// Pushing a new element keeps a sequence free of duplicates.
pub proof fn lemma_push_no_dup<A>(s: Seq<A>, x: A)
    requires
        s.no_duplicates(),
        !s.contains(x),
    ensures
        s.push(x).no_duplicates(),
{
    assert forall|a: int, b: int| 0 <= a < s.len() + 1 && 0 <= b < s.len() + 1 && a != b implies s.push(x)[a] != s.push(x)[b] by {
        if a == s.len() {
            assert(s[b] == s.push(x)[b]);
        } else if b == s.len() {
            assert(s[a] == s.push(x)[a]);
        }
    }
}

/// Positions in an index table name exactly the edges of the graph.
pub proof fn lemma_indexed_edge(m: GraphModel, succ: Seq<Seq<usize>>, i: int, k: usize)
    requires
        m.wf(),
        m.indexed_by(succ),
        0 <= i < m.ids.len(),
        k < m.ids.len(),
    ensures
        succ[i].contains(k) <==> m.edges().contains((m.ids[i], m.ids[k as int])),
{
    lemma_out_at(m, i);
    if succ[i].contains(k) {
        let j = choose|j: int| 0 <= j < succ[i].len() && succ[i][j] == k;
        assert(m.adj[i][j] == m.ids[k as int]);
    }
    if m.adj[i].contains(m.ids[k as int]) {
        let j = choose|j: int| 0 <= j < m.adj[i].len() && m.adj[i][j] == m.ids[k as int];
        assert(m.ids[succ[i][j] as int] == m.ids[k as int]);
        assert(succ[i][j] == k);
    }
}

/// The edges leaving the first `k` stored vertices form a finite set.
proof fn lemma_edges_prefix_finite(m: GraphModel, k: int)
    requires
        m.wf(),
        0 <= k <= m.ids.len(),
    ensures
        m.edges().filter(|e: Edge| m.ids.subrange(0, k).contains(e.0)).finite(),
    decreases k,
{
    let part = m.edges().filter(|e: Edge| m.ids.subrange(0, k).contains(e.0));
    if k == 0 {
        assert(part =~= Set::<Edge>::empty());
    } else {
        lemma_edges_prefix_finite(m, k - 1);
        let before = m.edges().filter(|e: Edge| m.ids.subrange(0, k - 1).contains(e.0));
        let u = m.ids[k - 1];
        let row = m.adj[k - 1].to_set().map(|w: VertexId| (u, w));
        vstd::seq_lib::seq_to_set_is_finite(m.adj[k - 1]);
        m.adj[k - 1].to_set().lemma_map_finite(|w: VertexId| (u, w));
        lemma_out_at(m, k - 1);
        lemma_push_contains(m.ids.subrange(0, k - 1), u);
        assert(m.ids.subrange(0, k) == m.ids.subrange(0, k - 1).push(u));
        assert forall|e: Edge| part.contains(e) <==> (before + row).contains(e) by {
            if part.contains(e) && e.0 == u {
                assert(m.adj[k - 1].to_set().contains(e.1));
            }
            if row.contains(e) {
                let targets = m.adj[k - 1].to_set();
                let w = choose|w: VertexId| #[trigger] targets.contains(w) && (u, w) == e;
                assert(m.out(u).contains(w));
            }
        }
        assert(part =~= before + row);
    }
}

/// Both endpoints of an edge are vertices.
pub proof fn lemma_edge_endpoints(m: GraphModel, e: Edge)
    requires
        m.wf(),
        m.edges().contains(e),
    ensures
        m.vertices().contains(e.0),
        m.vertices().contains(e.1),
{
    assert(m.out(e.0).contains(e.1));
    assert(m.ids.contains(e.0));
    let i = m.ids.index_of(e.0);
    let j = choose|j: int| 0 <= j < m.adj[i].len() && m.adj[i][j] == e.1;
    assert(m.ids.contains(m.adj[i][j]));
}

/// A graph has finitely many edges.
pub proof fn lemma_edges_finite(m: GraphModel)
    requires
        m.wf(),
    ensures
        m.edges().finite(),
{
    lemma_edges_prefix_finite(m, m.ids.len() as int);
    assert(m.ids.subrange(0, m.ids.len() as int) == m.ids);
    assert(m.edges().filter(|e: Edge| m.ids.subrange(0, m.ids.len() as int).contains(e.0)) =~= m.edges());
}

/// A directed graph stored as a table from vertex to outgoing neighbours,
/// in the order in which the vertices were added.
pub struct HashTable {
    ids: Vec<VertexId>,
    adj: Vec<Vec<VertexId>>,
}

impl View for HashTable {
    type V = GraphModel;

    closed spec fn view(&self) -> GraphModel {
        GraphModel { ids: self.ids@, adj: self.adj@.map_values(|row: Vec<VertexId>| row@) }
    }
}

/// Position of `x` in `row`, if any.
pub fn position(row: &Vec<VertexId>, x: VertexId) -> (r: Option<usize>)
    ensures
        match r {
            Some(i) => i < row@.len() && row@[i as int] == x,
            None => !row@.contains(x),
        },
{
    let mut i: usize = 0;
    while i < row.len()
        invariant
            i <= row@.len(),
            forall|k: int| 0 <= k < i ==> row@[k] != x,
        decreases row@.len() - i,
    {
        if row[i] == x {
            return Some(i);
        }
        i = i + 1;
    }
    None
}

impl HashTable {
    /// Creates a graph without vertices.
    pub fn new() -> (r: Self)
        ensures
            r@.wf(),
            r@.vertices() == Set::<VertexId>::empty(),
            r@.edges() == Set::<Edge>::empty(),
            r@.edge_count() == 0,
    {
        let r = HashTable { ids: Vec::new(), adj: Vec::new() };
        assert(r@.adj =~= Seq::<Seq<VertexId>>::empty());
        assert(r@.ids =~= Seq::<VertexId>::empty());
        assert(r@.vertices() =~= Set::<VertexId>::empty());
        assert(r@.edges() =~= Set::<Edge>::empty());
        r
    }

    /// Position of vertex `v` in storage, if it is known.
    fn find(&self, v: VertexId) -> (r: Option<usize>)
        requires
            self@.wf(),
        ensures
            match r {
                Some(i) => i < self@.ids.len() && self@.ids[i as int] == v && self@.ids.index_of(v)
                    == i,
                None => !self@.vertices().contains(v),
            },
    {
        let r = position(&self.ids, v);
        if let Some(i) = r {
            proof {
                lemma_index_of(self@.ids, i as int);
            }
        }
        r
    }
    /// Adds vertex `v` without edges; a known vertex is left as it is.
    pub fn add_vertex(&mut self, v: VertexId)
        requires
            old(self)@.wf(),
        ensures
            final(self)@.wf(),
            final(self)@.vertices() == old(self)@.vertices().insert(v),
            final(self)@.edges() == old(self)@.edges(),
            final(self)@.edge_count() == old(self)@.edge_count(),
            forall|u: VertexId| #[trigger] final(self)@.out(u) == old(self)@.out(u),
    {
        if self.find(v).is_none() {
            let ghost m0 = self@;
            self.ids.push(v);
            self.adj.push(Vec::new());
            let ghost m1 = self@;
            proof {
                assert(m1.adj =~= m0.adj.push(Seq::empty()));
                assert(m1.adj.drop_last() =~= m0.adj);
                assert(m1.ids =~= m0.ids.push(v));
                assert forall|i: int, j: int|
                    0 <= i < m1.adj.len() && 0 <= j < m1.adj[i].len() implies m1.ids.contains(
                    #[trigger] m1.adj[i][j],
                ) by {
                    assert(m0.adj[i][j] == m1.adj[i][j]);
                    assert(m0.ids.contains(m0.adj[i][j]));
                    let k = choose|k: int| 0 <= k < m0.ids.len() && m0.ids[k] == m0.adj[i][j];
                    assert(m1.ids[k] == m0.ids[k]);
                }
                assert forall|u: VertexId| #[trigger] m1.out(u) == m0.out(u) by {
                    if m0.ids.contains(u) {
                        let k = m0.ids.index_of(u);
                        lemma_out_at(m0, k);
                        assert(m1.ids[k] == u);
                        lemma_out_at(m1, k);
                    } else if u == v {
                        lemma_out_at(m1, m0.ids.len() as int);
                    } else {
                        assert(!m1.ids.contains(u));
                    }
                }
                lemma_same_out_same_edges(m1, m0);
                assert forall|x: VertexId| m1.ids.contains(x) <==> (m0.ids.contains(x) || x == v) by {
                    if m0.ids.contains(x) {
                        let k = choose|k: int| 0 <= k < m0.ids.len() && m0.ids[k] == x;
                        assert(m1.ids[k] == x);
                    }
                    if x == v {
                        assert(m1.ids[m0.ids.len() as int] == x);
                    }
                }
                assert(m1.vertices() =~= m0.vertices().insert(v));
            }
        }
    }

    /// Adds the directed edge `e`, and its endpoints where they are new.
    pub fn add_edge(&mut self, e: Edge)
        requires
            old(self)@.wf(),
            old(self)@.edge_count() < usize::MAX,
        ensures
            final(self)@.wf(),
            final(self)@.vertices() == old(self)@.vertices().insert(e.0).insert(e.1),
            final(self)@.edges() == old(self)@.edges().insert(e),
            final(self)@.edge_count() <= old(self)@.edge_count() + 1,
    {
        self.add_vertex(e.0);
        self.add_vertex(e.1);
        let i = self.find(e.0).unwrap();
        let ghost m0 = self@;
        proof {
            lemma_out_at(m0, i as int);
        }
        if position(&self.adj[i], e.1).is_none() {
            self.adj[i].push(e.1);
            let ghost m1 = self@;
            proof {
                assert(m1.adj =~= m0.adj.update(i as int, m0.adj[i as int].push(e.1)));
                lemma_total_len_update(m0.adj, i as int, m0.adj[i as int].push(e.1));
                assert(m1.ids == m0.ids);
                assert forall|k: int| 0 <= k < m1.adj.len() implies (
                #[trigger] m1.adj[k]).no_duplicates() by {
                    if k == i {
                        assert(m0.adj[k].no_duplicates());
                    }
                }
                assert forall|k: int, j: int|
                    0 <= k < m1.adj.len() && 0 <= j < m1.adj[k].len() implies m1.ids.contains(
                    #[trigger] m1.adj[k][j],
                ) by {
                    if k == i && j == m0.adj[k].len() {
                        assert(m0.vertices().contains(e.1));
                    } else {
                        assert(m1.adj[k][j] == m0.adj[k][j]);
                    }
                }
                assert forall|u: VertexId|
                    #[trigger] m1.out(u) == (if u == e.0 {
                        m0.out(u).push(e.1)
                    } else {
                        m0.out(u)
                    }) by {
                    if m0.ids.contains(u) {
                        lemma_index_of(m0.ids, m0.ids.index_of(u));
                    }
                }
                assert(m1.edges() =~= m0.edges().insert(e)) by {
                    assert forall|f: Edge| m1.edges().contains(f) <==> m0.edges().insert(e).contains(f) by {
                        assert(m1.out(f.0) == (if f.0 == e.0 {
                            m0.out(f.0).push(e.1)
                        } else {
                            m0.out(f.0)
                        }));
                        if f.0 == e.0 {
                            assert(m0.out(f.0).push(e.1)[m0.out(f.0).len() as int] == e.1);
                            if m0.out(f.0).contains(f.1) {
                                let j = choose|j: int| 0 <= j < m0.out(f.0).len() && m0.out(f.0)[j] == f.1;
                                assert(m1.out(f.0)[j] == f.1);
                            }
                        }
                    }
                }
            }
        } else {
            proof {
                assert(self@.edges() =~= self@.edges().insert(e));
            }
        }
    }
    /// Builds the graph of the given edges; their endpoints become its vertices.
    pub fn from_edges(edges: &[Edge]) -> (r: Self)
        ensures
            r@.wf(),
            r@.edges() == edges@.to_set(),
            forall|v: VertexId| #[trigger] r@.vertices().contains(v) <==> exists|k: int|
                0 <= k < edges@.len() && (edges@[k].0 == v || edges@[k].1 == v),
    {
        let mut d = HashTable::new();
        Self::add_all_edges(&mut d, edges);
        d
    }

    /// Builds the graph of the given vertices and edges.
    pub fn from_vertices_and_edges(vertices: &[VertexId], edges: &[Edge]) -> (r: Self)
        ensures
            r@.wf(),
            r@.edges() == edges@.to_set(),
            forall|v: VertexId| #[trigger] r@.vertices().contains(v) <==> (vertices@.contains(v)
                || exists|k: int| 0 <= k < edges@.len() && (edges@[k].0 == v || edges@[k].1 == v)),
    {
        let mut d = HashTable::new();
        let mut i: usize = 0;
        while i < vertices.len()
            invariant
                d@.wf(),
                i <= vertices@.len(),
                d@.edges() == Set::<Edge>::empty(),
                d@.edge_count() == 0,
                d@.vertices() == vertices@.subrange(0, i as int).to_set(),
            decreases vertices@.len() - i,
        {
            d.add_vertex(vertices[i]);
            proof {
                let s0 = vertices@.subrange(0, i as int);
                let s1 = vertices@.subrange(0, i + 1 as int);
                let x0 = vertices@[i as int];
                assert forall|x: VertexId| s1.contains(x) <==> s0.to_set().insert(x0).contains(x) by {
                    if s1.contains(x) {
                        let k = choose|k: int| 0 <= k < i + 1 && s1[k] == x;
                        if k < i {
                            assert(s0[k] == x);
                        }
                    }
                    if s0.contains(x) {
                        let k = choose|k: int| 0 <= k < i && s0[k] == x;
                        assert(s1[k] == x);
                    }
                    assert(s1[i as int] == x0);
                }
                assert(s1.to_set() =~= s0.to_set().insert(x0));
            }
            i = i + 1;
        }
        proof {
            assert(vertices@.subrange(0, i as int) =~= vertices@);
        }
        let ghost before = d@.vertices();
        Self::add_all_edges(&mut d, edges);
        d
    }

    /// Adds every edge of `edges` to `d`.
    fn add_all_edges(d: &mut Self, edges: &[Edge])
        requires
            old(d)@.wf(),
            old(d)@.edge_count() == 0,
            old(d)@.edges() == Set::<Edge>::empty(),
        ensures
            final(d)@.wf(),
            final(d)@.edges() == edges@.to_set(),
            forall|v: VertexId| #[trigger] final(d)@.vertices().contains(v) <==> (old(
                d,
            )@.vertices().contains(v) || exists|k: int|
                0 <= k < edges@.len() && (edges@[k].0 == v || edges@[k].1 == v)),
    {
        let ghost start = d@.vertices();
        let mut i: usize = 0;
        while i < edges.len()
            invariant
                d@.wf(),
                i <= edges@.len(),
                d@.edge_count() <= i,
                d@.edges() == edges@.subrange(0, i as int).to_set(),
                forall|v: VertexId| #[trigger] d@.vertices().contains(v) <==> (start.contains(v)
                    || exists|k: int| 0 <= k < i && (edges@[k].0 == v || edges@[k].1 == v)),
            decreases edges@.len() - i,
        {
            let e = edges[i];
            d.add_edge(e);
            proof {
                let s0 = edges@.subrange(0, i as int);
                let s1 = edges@.subrange(0, i + 1 as int);
                assert forall|x: Edge| s1.contains(x) <==> s0.to_set().insert(e).contains(x) by {
                    if s1.contains(x) {
                        let k = choose|k: int| 0 <= k < i + 1 && s1[k] == x;
                        if k < i {
                            assert(s0[k] == x);
                        }
                    }
                    if s0.contains(x) {
                        let k = choose|k: int| 0 <= k < i && s0[k] == x;
                        assert(s1[k] == x);
                    }
                    assert(s1[i as int] == e);
                }
                assert(s1.to_set() =~= s0.to_set().insert(e));
                assert forall|v: VertexId| #[trigger] d@.vertices().contains(v) <==> (start.contains(v)
                    || exists|k: int| 0 <= k < i + 1 && (edges@[k].0 == v || edges@[k].1 == v)) by {
                    if exists|k: int| 0 <= k < i + 1 && (edges@[k].0 == v || edges@[k].1 == v) {
                        let k = choose|k: int| 0 <= k < i + 1 && (edges@[k].0 == v || edges@[k].1 == v);
                        if k < i {
                            assert(exists|k: int| 0 <= k < i && (edges@[k].0 == v || edges@[k].1 == v));
                        }
                    }
                }
            }
            i = i + 1;
        }
        proof {
            assert(edges@.subrange(0, i as int) =~= edges@);
        }
    }

    /// Number of vertices.
    pub fn order(&self) -> (r: usize)
        requires
            self@.wf(),
        ensures
            r == self@.vertices().len(),
    {
        proof {
            self@.ids.unique_seq_to_set();
        }
        self.ids.len()
    }

    /// Number of outgoing neighbours of `u`.
    pub fn degree(&self, u: VertexId) -> (r: usize)
        requires
            self@.wf(),
            self@.vertices().contains(u),
        ensures
            r == self@.out(u).len(),
    {
        let i = self.find(u).unwrap();
        proof {
            lemma_out_at(self@, i as int);
        }
        self.adj[i].len()
    }

    /// Number of edges.
    pub fn edge_count(&self) -> (r: usize)
        requires
            self@.wf(),
        ensures
            r == self@.edge_count(),
    {
        let mut sum: usize = 0;
        let mut i: usize = 0;
        while i < self.adj.len()
            invariant
                self@.wf(),
                i <= self@.adj.len(),
                sum == total_len(self@.adj.subrange(0, i as int)),
            decreases self@.adj.len() - i,
        {
            proof {
                lemma_total_len_prefix(self@.adj, i as int);
                lemma_total_len_prefix(self@.adj, i + 1);
            }
            sum = sum + self.adj[i].len();
            i = i + 1;
        }
        proof {
            assert(self@.adj.subrange(0, i as int) =~= self@.adj);
        }
        sum
    }

    /// All vertices, in storage order.
    pub fn vertices(&self) -> (r: Vec<VertexId>)
        requires
            self@.wf(),
        ensures
            r@ == self@.ids,
            r@.no_duplicates(),
            r@.to_set() == self@.vertices(),
    {
        let r = self.ids.clone();
        assert(r@ =~= self@.ids);
        r
    }

    /// Outgoing neighbours of `v`; empty for an unknown vertex.
    pub fn neighborhood(&self, v: &VertexId) -> (r: &[VertexId])
        requires
            self@.wf(),
        ensures
            r@ == self@.out(*v),
    {
        match self.find(*v) {
            Some(i) => {
                proof {
                    lemma_out_at(self@, i as int);
                }
                self.adj[i].as_slice()
            },
            None => &[],
        }
    }

    /// Whether the edge `(u, v)` exists.
    pub fn has_edge(&self, u: VertexId, v: VertexId) -> (r: bool)
        requires
            self@.wf(),
        ensures
            r == self@.has_edge(u, v),
            r == self@.edges().contains((u, v)),
    {
        match self.find(u) {
            Some(i) => {
                proof {
                    lemma_out_at(self@, i as int);
                }
                position(&self.adj[i], v).is_some()
            },
            None => false,
        }
    }
    /// Deletes `v` from every row.
    fn purge_target(&mut self, v: VertexId)
        requires
            old(self)@.wf(),
        ensures
            final(self)@.ids == old(self)@.ids,
            final(self)@.adj.len() == old(self)@.adj.len(),
            total_len(final(self)@.adj) <= total_len(old(self)@.adj),
            forall|a: int| 0 <= a < old(self)@.adj.len() ==> (#[trigger] final(self)@.adj[a]).no_duplicates(),
            forall|a: int, x: VertexId|
                0 <= a < old(self)@.adj.len() ==> (#[trigger] final(self)@.adj[a].contains(x) <==> (
                old(self)@.adj[a].contains(x) && x != v)),
    {
        let ghost m0 = self@;
        let mut k: usize = 0;
        while k < self.adj.len()
            invariant
                self@.ids == m0.ids,
                self@.adj.len() == m0.adj.len(),
                k <= m0.adj.len(),
                total_len(self@.adj) <= total_len(m0.adj),
                m0.wf(),
                forall|a: int| 0 <= a < m0.adj.len() ==> (#[trigger] self@.adj[a]).no_duplicates(),
                forall|a: int, x: VertexId|
                    0 <= a < k ==> (#[trigger] self@.adj[a].contains(x) <==> (
                    m0.adj[a].contains(x) && x != v)),
                forall|a: int| k <= a < m0.adj.len() ==> #[trigger] self@.adj[a] == m0.adj[a],
            decreases m0.adj.len() - k,
        {
            if let Some(j) = position(&self.adj[k], v) {
                let ghost before = self@;
                proof {
                    lemma_seq_remove(before.adj[k as int], j as int);
                    lemma_total_len_update(before.adj, k as int, before.adj[k as int].remove(j as int));
                }
                self.adj[k].remove(j);
                proof {
                    assert(self@.adj =~= before.adj.update(k as int, before.adj[k as int].remove(j as int)));
                }
            }
            k = k + 1;
        }
    }

    /// Removes vertex `v` and every edge that touches it.
    pub fn remove_vertex(&mut self, v: VertexId)
        requires
            old(self)@.wf(),
        ensures
            final(self)@.wf(),
            final(self)@.vertices() == old(self)@.vertices().remove(v),
            final(self)@.edges() == old(self)@.edges().filter(|e: Edge| e.0 != v && e.1 != v),
    {
        let ghost m0 = self@;
        self.purge_target(v);
        let ghost m1 = self@;
        if let Some(i) = position(&self.ids, v) {
            proof {
                lemma_index_of(m0.ids, i as int);
            }
            self.ids.remove(i);
            self.adj.remove(i);
            let ghost m2 = self@;
            proof {
                assert(m2.ids =~= m1.ids.remove(i as int));
                assert(m2.adj =~= m1.adj.remove(i as int));
                lemma_total_len_remove(m1.adj, i as int);
                lemma_seq_remove(m1.ids, i as int);
                assert forall|a: int, b: int|
                    0 <= a < m2.adj.len() && 0 <= b < m2.adj[a].len() implies m2.ids.contains(
                    #[trigger] m2.adj[a][b],
                ) by {
                    let a1 = if a < i { a } else { a + 1 };
                    assert(m2.adj[a] == m1.adj[a1]);
                    let x = m2.adj[a][b];
                    assert(m1.adj[a1].contains(x));
                    assert(m0.adj[a1][m0.adj[a1].index_of(x)] == x);
                    assert(m0.ids.contains(x));
                }
                assert forall|a: int| 0 <= a < m2.adj.len() implies (#[trigger] m2.adj[a]).no_duplicates() by {
                    let a1 = if a < i { a } else { a + 1 };
                    assert(m2.adj[a] == m1.adj[a1]);
                }
                assert forall|u: VertexId, x: VertexId| u != v implies (#[trigger] m2.out(u).contains(x) <==> (m0.out(u).contains(x) && x != v)) by {
                    if m0.ids.contains(u) {
                        let a1 = m0.ids.index_of(u);
                        lemma_index_of(m0.ids, a1);
                        lemma_out_at(m0, a1);
                        let a = if a1 < i { a1 } else { a1 - 1 };
                        assert(m2.ids[a] == u);
                        lemma_index_of(m2.ids, a);
                        assert(m2.adj[a] == m1.adj[a1]);
                    } else {
                        assert(!m2.ids.contains(u));
                    }
                }
                assert(!m2.ids.contains(v));
                assert(m2.vertices() =~= m0.vertices().remove(v));
                assert forall|e: Edge| m2.edges().contains(e) <==> m0.edges().filter(|e: Edge| e.0 != v && e.1 != v).contains(e) by {
                    if e.0 != v {
                        assert(m2.out(e.0).contains(e.1) <==> (m0.out(e.0).contains(e.1) && e.1 != v));
                    }
                }
                assert(m2.edges() =~= m0.edges().filter(|e: Edge| e.0 != v && e.1 != v));
            }
        } else {
            proof {
                assert forall|a: int, b: int|
                    0 <= a < m1.adj.len() && 0 <= b < m1.adj[a].len() implies m1.ids.contains(
                    #[trigger] m1.adj[a][b],
                ) by {
                    let x = m1.adj[a][b];
                    assert(m1.adj[a].contains(x));
                    assert(m0.adj[a][m0.adj[a].index_of(x)] == x);
                }
                assert forall|u: VertexId, x: VertexId| #[trigger] m1.out(u).contains(x) <==> (m0.out(u).contains(x) && x != v) by {
                    if m0.ids.contains(u) {
                        lemma_index_of(m0.ids, m0.ids.index_of(u));
                    }
                }
                assert(m1.vertices() =~= m0.vertices().remove(v));
                assert(m1.edges() =~= m0.edges().filter(|e: Edge| e.0 != v && e.1 != v));
            }
        }
    }
    /// Removes the edge `e` if it exists; the vertices stay.
    pub fn remove_edge(&mut self, e: Edge)
        requires
            old(self)@.wf(),
        ensures
            final(self)@.wf(),
            final(self)@.vertices() == old(self)@.vertices(),
            final(self)@.edges() == old(self)@.edges().remove(e),
    {
        let ghost m0 = self@;
        if let Some(i) = self.find(e.0) {
            proof {
                lemma_out_at(m0, i as int);
            }
            if let Some(j) = position(&self.adj[i], e.1) {
                proof {
                    lemma_seq_remove(m0.adj[i as int], j as int);
                    lemma_total_len_update(m0.adj, i as int, m0.adj[i as int].remove(j as int));
                }
                self.adj[i].remove(j);
                let ghost m1 = self@;
                proof {
                    assert(m1.adj =~= m0.adj.update(i as int, m0.adj[i as int].remove(j as int)));
                    assert forall|a: int| 0 <= a < m1.adj.len() implies (#[trigger] m1.adj[a]).no_duplicates() by {
                        if a == i {
                            assert(m0.adj[a].no_duplicates());
                        }
                    }
                    assert forall|a: int, b: int|
                        0 <= a < m1.adj.len() && 0 <= b < m1.adj[a].len() implies m1.ids.contains(
                        #[trigger] m1.adj[a][b],
                    ) by {
                        let x = m1.adj[a][b];
                        assert(m1.adj[a].contains(x));
                        assert(m0.adj[a][m0.adj[a].index_of(x)] == x);
                    }
                    assert forall|u: VertexId, x: VertexId| #[trigger] m1.out(u).contains(x) <==> (m0.out(u).contains(x) && (u, x) != e) by {
                        if m0.ids.contains(u) {
                            lemma_index_of(m0.ids, m0.ids.index_of(u));
                        }
                    }
                    assert(m1.vertices() =~= m0.vertices());
                    assert forall|f: Edge| m1.edges().contains(f) <==> m0.edges().remove(e).contains(f) by {
                        assert(m1.out(f.0).contains(f.1) <==> (m0.out(f.0).contains(f.1) && (f.0, f.1) != e));
                    }
                    assert(m1.edges() =~= m0.edges().remove(e));
                }
                return;
            }
        }
        proof {
            assert(!m0.edges().contains(e));
            assert(m0.edges() =~= m0.edges().remove(e));
        }
    }

    /// The edges of `v` in direction `d`: `(v, w)` for outgoing, `(w, v)` for incoming.
    pub fn edges(&self, v: VertexId, d: Direction) -> (r: Vec<Edge>)
        requires
            self@.wf(),
            self@.vertices().contains(v),
        ensures
            r@.no_duplicates(),
            r@.to_set() == match d {
                Direction::Inbound => self@.in_edges(v),
                Direction::Outbound => self@.out_edges(v),
            },
    {
        let ghost m = self@;
        let mut r: Vec<Edge> = Vec::new();
        match d {
            Direction::Outbound => {
                let i = self.find(v).unwrap();
                proof {
                    lemma_out_at(m, i as int);
                }
                let row = &self.adj[i];
                let mut j: usize = 0;
                while j < row.len()
                    invariant
                        m == self@,
                        m.wf(),
                        i < m.adj.len(),
                        row@ == m.adj[i as int],
                        m.out(v) == row@,
                        j <= row@.len(),
                        r@.no_duplicates(),
                        forall|f: Edge| #[trigger] r@.contains(f) <==> (f.0 == v && exists|b: int| 0 <= b < j && row@[b] == f.1),
                    decreases row@.len() - j,
                {
                    let ghost r0 = r@;
                    let ghost x = (v, row@[j as int]);
                    proof {
                        assert(row@.no_duplicates());
                        if r0.contains(x) {
                            let b = choose|b: int| 0 <= b < j && row@[b] == row@[j as int];
                        }
                        lemma_push_no_dup(r0, x);
                        lemma_push_contains(r0, x);
                    }
                    r.push((v, row[j]));
                    proof {
                        assert(r@ == r0.push(x));
                        assert forall|f: Edge| #[trigger] r@.contains(f) <==> (f.0 == v && exists|b: int| 0 <= b < j + 1 && row@[b] == f.1) by {
                            if f.0 == v && exists|b: int| 0 <= b < j + 1 && row@[b] == f.1 {
                                let b = choose|b: int| 0 <= b < j + 1 && row@[b] == f.1;
                                if b < j {
                                    assert(r0.contains(f));
                                }
                            }
                        }
                    }
                    j = j + 1;
                }
                proof {
                    assert forall|f: Edge| r@.contains(f) <==> m.out_edges(v).contains(f) by {
                        if f.0 == v && m.out(v).contains(f.1) {
                            let b = choose|b: int| 0 <= b < row@.len() && row@[b] == f.1;
                        }
                    }
                    assert(r@.to_set() =~= m.out_edges(v));
                }
            },
            Direction::Inbound => {
                let mut k: usize = 0;
                while k < self.adj.len()
                    invariant
                        m == self@,
                        m.wf(),
                        k <= m.adj.len(),
                        r@.no_duplicates(),
                        forall|f: Edge| #[trigger] r@.contains(f) ==> exists|a: int| 0 <= a < k && m.ids[a] == f.0,
                        forall|f: Edge| #[trigger] r@.contains(f) <==> (f.1 == v && exists|a: int| 0 <= a < k && m.ids[a] == f.0 && m.adj[a].contains(v)),
                    decreases m.adj.len() - k,
                {
                    if position(&self.adj[k], v).is_some() {
                        let ghost f0 = (m.ids[k as int], v);
                        let ghost r0 = r@;
                        proof {
                            if r0.contains(f0) {
                                let a = choose|a: int| 0 <= a < k && m.ids[a] == f0.0;
                                assert(m.ids.no_duplicates());
                            }
                            lemma_push_no_dup(r0, f0);
                            lemma_push_contains(r0, f0);
                        }
                        r.push((self.ids[k], v));
                        proof {
                            assert(r@ == r0.push(f0));
                            assert forall|f: Edge| #[trigger] r@.contains(f) implies exists|a: int| 0 <= a < k + 1 && m.ids[a] == f.0 by {
                                if r0.contains(f) {
                                    let a = choose|a: int| 0 <= a < k && m.ids[a] == f.0;
                                    assert(0 <= a < k + 1 && m.ids[a] == f.0);
                                } else {
                                    assert(m.ids[k as int] == f.0);
                                }
                            }
                            assert forall|f: Edge| #[trigger] r@.contains(f) <==> (f.1 == v && exists|a: int| 0 <= a < k + 1 && m.ids[a] == f.0 && m.adj[a].contains(v)) by {
                                if r@.contains(f) && !r0.contains(f) {
                                    assert(m.ids[k as int] == f.0 && m.adj[k as int].contains(v));
                                }
                                if f.1 == v && exists|a: int| 0 <= a < k + 1 && m.ids[a] == f.0 && m.adj[a].contains(v) {
                                    let a = choose|a: int| 0 <= a < k + 1 && m.ids[a] == f.0 && m.adj[a].contains(v);
                                    if a < k {
                                        assert(r0.contains(f));
                                    }
                                }
                            }
                        }
                    } else {
                        proof {
                            assert forall|f: Edge| #[trigger] r@.contains(f) <==> (f.1 == v && exists|a: int| 0 <= a < k + 1 && m.ids[a] == f.0 && m.adj[a].contains(v)) by {
                                if f.1 == v && exists|a: int| 0 <= a < k + 1 && m.ids[a] == f.0 && m.adj[a].contains(v) {
                                    let a = choose|a: int| 0 <= a < k + 1 && m.ids[a] == f.0 && m.adj[a].contains(v);
                                    assert(a != k);
                                }
                            }
                        }
                    }
                    k = k + 1;
                }
                proof {
                    assert forall|f: Edge| r@.contains(f) <==> m.in_edges(v).contains(f) by {
                        if r@.contains(f) {
                            let a = choose|a: int| 0 <= a < k && m.ids[a] == f.0 && m.adj[a].contains(v);
                            lemma_out_at(m, a);
                        }
                        if m.in_edges(v).contains(f) {
                            assert(m.out(f.0).contains(v));
                            assert(m.ids.contains(f.0));
                            let a = m.ids.index_of(f.0);
                            lemma_out_at(m, a);
                        }
                    }
                    assert(r@.to_set() =~= m.in_edges(v));
                }
            },
        }
        r
    }
    /// Every edge of the graph, each once.
    pub fn all_edges(&self) -> (r: Vec<Edge>)
        requires
            self@.wf(),
        ensures
            r@.no_duplicates(),
            r@.to_set() == self@.edges(),
    {
        let ghost m = self@;
        let mut r: Vec<Edge> = Vec::new();
        let mut k: usize = 0;
        while k < self.ids.len()
            invariant
                m == self@,
                m.wf(),
                k <= m.ids.len(),
                r@.no_duplicates(),
                forall|f: Edge| #[trigger] r@.contains(f) <==> (m.edges().contains(f) && exists|a: int| 0 <= a < k && m.ids[a] == f.0),
            decreases m.ids.len() - k,
        {
            let u = self.ids[k];
            proof {
                assert(m.vertices().contains(u)) by { assert(m.ids[k as int] == u); }
            }
            let mut out = self.edges(u, Direction::Outbound);
            let ghost r0 = r@;
            let ghost o = out@;
            proof {
                assert forall|x: int, y: int| 0 <= x < r0.len() && 0 <= y < o.len() implies r0[x] != o[y] by {
                    assert(r0.contains(r0[x]));
                    assert(o.to_set().contains(o[y]));
                    if r0[x] == o[y] {
                        let a = choose|a: int| 0 <= a < k && m.ids[a] == r0[x].0;
                        assert(m.ids.no_duplicates());
                        assert(m.ids[k as int] == u);
                    }
                }
                vstd::seq_lib::lemma_no_dup_in_concat(r0, o);
            }
            r.append(&mut out);
            proof {
                assert(r@ == r0 + o);
                assert forall|f: Edge| #[trigger] r@.contains(f) <==> (m.edges().contains(f) && exists|a: int| 0 <= a < k + 1 && m.ids[a] == f.0) by {
                    if r@.contains(f) {
                        let q = choose|q: int| 0 <= q < r@.len() && r@[q] == f;
                        if q < r0.len() {
                            assert(r0.contains(f));
                            let a = choose|a: int| 0 <= a < k && m.ids[a] == f.0;
                            assert(0 <= a < k + 1 && m.ids[a] == f.0);
                        } else {
                            assert(o[q - r0.len()] == f);
                            assert(o.to_set().contains(f));
                            assert(m.ids[k as int] == f.0);
                        }
                    }
                    if m.edges().contains(f) && exists|a: int| 0 <= a < k + 1 && m.ids[a] == f.0 {
                        let a = choose|a: int| 0 <= a < k + 1 && m.ids[a] == f.0;
                        if a < k {
                            assert(r0.contains(f));
                            let q = choose|q: int| 0 <= q < r0.len() && r0[q] == f;
                            assert(r@[q] == f);
                        } else {
                            assert(m.out_edges(u).contains(f));
                            assert(o.to_set().contains(f));
                            let q = choose|q: int| 0 <= q < o.len() && o[q] == f;
                            assert(r@[r0.len() + q] == f);
                        }
                    }
                }
            }
            k = k + 1;
        }
        proof {
            assert forall|f: Edge| r@.contains(f) <==> m.edges().contains(f) by {
                if m.edges().contains(f) {
                    assert(m.out(f.0).contains(f.1));
                    assert(m.ids.contains(f.0));
                    let a = choose|a: int| 0 <= a < m.ids.len() && m.ids[a] == f.0;
                }
            }
            assert(r@.to_set() =~= m.edges());
        }
        r
    }

    /// The subgraph induced by the vertices of `subset`: the vertices of the
    /// graph that `subset` names, and the edges between two of them.
    pub fn from_graph(graph: &HashTable, subset: &[VertexId]) -> (r: HashTable)
        requires
            graph@.wf(),
        ensures
            r@.wf(),
            r@.vertices() == graph@.vertices().filter(|v: VertexId| subset@.contains(v)),
            r@.edges() == graph@.edges().filter(|e: Edge| subset@.contains(e.0) && subset@.contains(e.1)),
    {
        let ghost m = graph@;
        let all = graph.vertices();
        let mut g = graph.clone();
        let mut k: usize = 0;
        while k < all.len()
            invariant
                m == graph@,
                all@ == m.ids,
                k <= all@.len(),
                g@.wf(),
                g@.vertices() == m.vertices().filter(|v: VertexId| subset@.contains(v) || !all@.subrange(0, k as int).contains(v)),
                g@.edges() == m.edges().filter(|e: Edge| (subset@.contains(e.0) || !all@.subrange(0, k as int).contains(e.0)) && (subset@.contains(e.1) || !all@.subrange(0, k as int).contains(e.1))),
            decreases all@.len() - k,
        {
            let u = all[k];
            let ghost s0 = all@.subrange(0, k as int);
            let ghost s1 = all@.subrange(0, k + 1 as int);
            proof {
                lemma_push_contains(s0, u);
                assert(s1 == s0.push(u));
            }
            if !slice_contains(subset, u) {
                g.remove_vertex(u);
            }
            proof {
                assert(g@.vertices() =~= m.vertices().filter(|v: VertexId| subset@.contains(v) || !s1.contains(v)));
                assert(g@.edges() =~= m.edges().filter(|e: Edge| (subset@.contains(e.0) || !s1.contains(e.0)) && (subset@.contains(e.1) || !s1.contains(e.1))));
            }
            k = k + 1;
        }
        proof {
            assert(all@.subrange(0, k as int) == m.ids);
            assert(g@.vertices() =~= m.vertices().filter(|v: VertexId| subset@.contains(v)));
            assert forall|e: Edge| g@.edges().contains(e) <==> m.edges().filter(|e: Edge| subset@.contains(e.0) && subset@.contains(e.1)).contains(e) by {
                if m.edges().contains(e) {
                    assert(m.out(e.0).contains(e.1));
                    assert(m.ids.contains(e.0));
                    let i = m.ids.index_of(e.0);
                    let j = choose|j: int| 0 <= j < m.adj[i].len() && m.adj[i][j] == e.1;
                    assert(m.ids.contains(m.adj[i][j]));
                }
            }
            assert(g@.edges() =~= m.edges().filter(|e: Edge| subset@.contains(e.0) && subset@.contains(e.1)));
        }
        g
    }

    /// The edges that run from a vertex of `from` to a vertex of `to`.
    pub fn edges_from_to(&self, from: &[VertexId], to: &[VertexId]) -> (r: Vec<Edge>)
        requires
            self@.wf(),
        ensures
            r@.no_duplicates(),
            r@.to_set() == self@.edges().filter(|e: Edge| from@.contains(e.0) && to@.contains(e.1)),
    {
        let all = self.all_edges();
        let mut r: Vec<Edge> = Vec::new();
        let mut k: usize = 0;
        while k < all.len()
            invariant
                k <= all@.len(),
                all@.no_duplicates(),
                r@.no_duplicates(),
                forall|f: Edge| #[trigger] r@.contains(f) <==> (exists|a: int| 0 <= a < k && all@[a] == f) && from@.contains(f.0) && to@.contains(f.1),
            decreases all@.len() - k,
        {
            let e = all[k];
            let ghost r0 = r@;
            if slice_contains(from, e.0) && slice_contains(to, e.1) {
                proof {
                    if r0.contains(e) {
                        let a = choose|a: int| 0 <= a < k && all@[a] == e;
                    }
                    lemma_push_no_dup(r0, e);
                    lemma_push_contains(r0, e);
                }
                r.push(e);
            }
            proof {
                assert forall|f: Edge| #[trigger] r@.contains(f) <==> (exists|a: int| 0 <= a < k + 1 && all@[a] == f) && from@.contains(f.0) && to@.contains(f.1) by {
                    if exists|a: int| 0 <= a < k + 1 && all@[a] == f {
                        let a = choose|a: int| 0 <= a < k + 1 && all@[a] == f;
                        if a < k {
                            assert(exists|a: int| 0 <= a < k && all@[a] == f);
                        }
                    }
                    if exists|a: int| 0 <= a < k && all@[a] == f {
                        let a = choose|a: int| 0 <= a < k && all@[a] == f;
                        assert(0 <= a < k + 1 && all@[a] == f);
                    }
                }
            }
            k = k + 1;
        }
        proof {
            assert forall|f: Edge| r@.contains(f) <==> self@.edges().filter(|e: Edge| from@.contains(e.0) && to@.contains(e.1)).contains(f) by {
                assert(all@.to_set().contains(f) <==> self@.edges().contains(f));
                if all@.contains(f) {
                    let a = choose|a: int| 0 <= a < all@.len() && all@[a] == f;
                }
            }
            assert(r@.to_set() =~= self@.edges().filter(|e: Edge| from@.contains(e.0) && to@.contains(e.1)));
        }
        r
    }
    /// For each stored vertex, the storage positions of its targets.
    pub fn index_adjacency(&self) -> (r: Vec<Vec<usize>>)
        requires
            self@.wf(),
        ensures
            self@.indexed_by(r@.map_values(|row: Vec<usize>| row@)),
    {
        let ghost m = self@;
        let mut r: Vec<Vec<usize>> = Vec::new();
        let mut i: usize = 0;
        while i < self.adj.len()
            invariant
                m == self@,
                m.wf(),
                i <= m.adj.len(),
                r@.len() == i,
                forall|a: int| 0 <= a < i ==> (#[trigger] r@[a])@.len() == m.adj[a].len(),
                forall|a: int, b: int| 0 <= a < i && 0 <= b < m.adj[a].len() ==> (#[trigger] r@[a]@[b]) < m.ids.len()
                    && m.ids[r@[a]@[b] as int] == m.adj[a][b],
            decreases m.adj.len() - i,
        {
            let mut row: Vec<usize> = Vec::new();
            let mut j: usize = 0;
            while j < self.adj[i].len()
                invariant
                    m == self@,
                    m.wf(),
                    i < m.adj.len(),
                    j <= m.adj[i as int].len(),
                    row@.len() == j,
                    forall|b: int| 0 <= b < j ==> (#[trigger] row@[b]) < m.ids.len() && m.ids[row@[b] as int] == m.adj[i as int][b],
                decreases m.adj[i as int].len() - j,
            {
                proof {
                    assert(m.ids.contains(m.adj[i as int][j as int]));
                }
                let k = self.find(self.adj[i][j]).unwrap();
                row.push(k);
                j = j + 1;
            }
            r.push(row);
            i = i + 1;
        }
        proof {
            let v = r@.map_values(|row: Vec<usize>| row@);
            assert forall|a: int, b: int| 0 <= a < v.len() && 0 <= b < v[a].len() implies (#[trigger] v[a][b]) < m.ids.len()
                && m.ids[v[a][b] as int] == m.adj[a][b] by {
                assert(v[a] == r@[a]@);
            }
        }
        r
    }
    /// A clique of size `n`, directed acyclically: the vertices `0..n` and an
    /// edge `(u, v)` for all `u < v < n`.
    pub fn complete(n: usize) -> (r: HashTable)
        requires
            n * n < usize::MAX,
        ensures
            r@.wf(),
            forall|e: Edge| #[trigger] r@.edges().contains(e) <==> (e.0 < e.1 && (e.1 as int) < n),
            forall|v: VertexId| #[trigger] r@.vertices().contains(v) <==> (v as int) < n,
    {
        proof {
            if n > u32::MAX as usize {
                let big = 4294967296int;
                assert((n as int) * (n as int) >= big * big) by (nonlinear_arith)
                    requires n as int >= big, big >= 0;
                assert(big * big == 18446744073709551616int);
                assert(usize::MAX <= u64::MAX);
            }
        }
        let mut graph = HashTable::new();
        let mut x: usize = 0;
        while x < n
            invariant
                n <= u32::MAX as usize,
                x <= n,
                graph@.wf(),
                graph@.edge_count() == 0,
                graph@.edges() == Set::<Edge>::empty(),
                forall|y: VertexId| #[trigger] graph@.vertices().contains(y) <==> (y as int) < x,
            decreases n - x,
        {
            graph.add_vertex(x as VertexId);
            x = x + 1;
        }
        let mut u: usize = 0;
        while u < n
            invariant
                n * n < usize::MAX,
                n <= u32::MAX as usize,
                u <= n,
                graph@.wf(),
                graph@.edge_count() <= u * n,
                forall|e: Edge| #[trigger] graph@.edges().contains(e) <==> (e.0 < e.1 && (e.1 as int) < n && (e.0 as int) < u),
                forall|y: VertexId| #[trigger] graph@.vertices().contains(y) <==> (y as int) < n,
            decreases n - u,
        {
            let mut v: usize = u + 1;
            while v < n
                invariant
                    n * n < usize::MAX,
                    n <= u32::MAX as usize,
                    u < n,
                    u + 1 <= v <= n,
                    graph@.wf(),
                    graph@.edge_count() <= u * n + v,
                    forall|e: Edge| #[trigger] graph@.edges().contains(e) <==> (e.0 < e.1 && (e.1 as int) < n && ((e.0 as int) < u || ((e.0 as int) == u && (e.1 as int) < v))),
                    forall|y: VertexId| #[trigger] graph@.vertices().contains(y) <==> (y as int) < n,
                decreases n - v,
            {
                proof {
                    assert(u * n + v < n * n) by (nonlinear_arith)
                        requires u < n, v < n;
                }
                graph.add_edge((u as VertexId, v as VertexId));
                v = v + 1;
            }
            proof {
                assert(u * n + n == (u + 1) * n) by (nonlinear_arith);
            }
            u = u + 1;
        }
        graph
    }
}

impl Clone for HashTable {
    fn clone(&self) -> (r: Self)
        ensures
            r@ == self@,
    {
        let r = HashTable { ids: self.ids.clone(), adj: copy_rows(&self.adj) };
        assert(r.ids@ =~= self.ids@);
        assert(r@.adj =~= self@.adj);
        r
    }
}

/// A copy of each row.
pub fn copy_rows(rows: &Vec<Vec<VertexId>>) -> (r: Vec<Vec<VertexId>>)
    ensures
        r@.map_values(|row: Vec<VertexId>| row@) == rows@.map_values(|row: Vec<VertexId>| row@),
{
    let mut out: Vec<Vec<VertexId>> = Vec::new();
    let mut k: usize = 0;
    while k < rows.len()
        invariant
            k <= rows@.len(),
            out@.len() == k,
            forall|a: int| 0 <= a < k ==> (#[trigger] out@[a])@ == rows@[a]@,
        decreases rows@.len() - k,
    {
        let row = rows[k].clone();
        assert(row@ =~= rows@[k as int]@);
        out.push(row);
        k = k + 1;
    }
    assert(out@.map_values(|row: Vec<VertexId>| row@) =~= rows@.map_values(|row: Vec<VertexId>| row@));
    out
}

/// Whether `x` occurs in `s`.
pub fn slice_contains(s: &[VertexId], x: VertexId) -> (r: bool)
    ensures
        r == s@.contains(x),
{
    let mut i: usize = 0;
    while i < s.len()
        invariant
            i <= s@.len(),
            forall|k: int| 0 <= k < i ==> s@[k] != x,
        decreases s@.len() - i,
    {
        if s[i] == x {
            return true;
        }
        i = i + 1;
    }
    false
}

} // verus!
