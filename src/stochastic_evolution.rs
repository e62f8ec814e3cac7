use crate::hash_table::{lemma_push_contains, lemma_push_no_dup, total_len, HashTable, VertexId};
use crate::random::{draw_below, seeded_rng};
use rand::rngs::StdRng;
use vstd::prelude::*;

verus! {

/// Rounds without improvement the search allows.
pub const PATIENCE: i64 = 10;

/// The threshold bound a round starts from.
pub const INITIAL_P: i64 = -1;

/// How far the threshold bound drops after a round that left the cost as it was.
pub const P_STEP: i64 = 2;

/// What the search does after a round.
pub struct RoundOutcome {
    /// The round beat the best cost: its bisection becomes the best.
    pub save: bool,
    pub counter: i64,
    pub p: i64,
    /// The counter ran past the patience: the search ends.
    pub stop: bool,
}

/// The counter after an improving round, no lower than `i64::MIN`.
pub open spec fn relaxed(counter: i64) -> i64 {
    if counter >= i64::MIN + PATIENCE {
        (counter - PATIENCE) as i64
    } else {
        i64::MIN
    }
}

/// The decision after a round that moved the cost from `c_pre` to `c_post`:
/// a round that beats `best_cost` saves the bisection and relaxes the
/// counter by the patience, any other round adds one; a round that left the
/// cost unchanged lowers the threshold bound `p` by the step, any other
/// resets it; the search stops once the counter exceeds the patience.
pub fn next_round(counter: i64, p: i64, best_cost: usize, c_pre: usize, c_post: usize) -> (r: RoundOutcome)
    requires
        counter <= PATIENCE,
        i64::MIN < p < 0,
    ensures
        r.save == (c_post < best_cost),
        r.counter == if c_post < best_cost {
            relaxed(counter)
        } else {
            (counter + 1) as i64
        },
        r.p == if c_post == c_pre {
            if p >= i64::MIN + 1 + P_STEP {
                (p - P_STEP) as i64
            } else {
                p
            }
        } else {
            INITIAL_P
        },
        r.stop == (r.counter > PATIENCE),
        i64::MIN < r.p < 0,
{
    let save = c_post < best_cost;
    let counter = if save {
        if counter >= i64::MIN + PATIENCE {
            counter - PATIENCE
        } else {
            i64::MIN
        }
    } else {
        counter + 1
    };
    let p = if c_post == c_pre {
        if p >= i64::MIN + 1 + P_STEP {
            p - P_STEP
        } else {
            p
        }
    } else {
        INITIAL_P
    };
    RoundOutcome { save, counter, p, stop: counter > PATIENCE }
}

/// Progress of a perturbation round: the first part, the sizes of both
/// parts, and the positions moved into the first and into the second part,
/// in the order of the moves.
pub struct Round {
    pub first: Set<usize>,
    pub a: nat,
    pub b: nat,
    pub into_first: Seq<usize>,
    pub into_second: Seq<usize>,
}

/// The round after the positions `0..k` were offered a move: position `i`
/// moves when its gain, the drop in cost the move would bring, exceeds the
/// threshold `p + draws[i]`.
pub open spec fn moves(succ: Seq<Seq<usize>>, n: nat, p: int, draws: Seq<u64>, start: Round, k: nat) -> Round
    decreases k,
{
    if k == 0 {
        start
    } else {
        let r = moves(succ, n, p, draws, start, (k - 1) as nat);
        let i = (k - 1) as usize;
        let gain = crossing(succ, r.first, n as int) - crossing(succ, toggled(r.first, i), n as int);
        if gain > p + draws[k - 1] {
            if r.first.contains(i) {
                Round {
                    first: r.first.remove(i),
                    a: (r.a - 1) as nat,
                    b: r.b + 1,
                    into_first: r.into_first,
                    into_second: r.into_second.push(i),
                }
            } else {
                Round {
                    first: r.first.insert(i),
                    a: r.a + 1,
                    b: (r.b - 1) as nat,
                    into_first: r.into_first.push(i),
                    into_second: r.into_second,
                }
            }
        } else {
            r
        }
    }
}

/// Undoes the moves into the first part, latest first, until it fits.
pub open spec fn undo_first(n: nat, num: nat, den: nat, r: Round) -> Round
    decreases r.into_first.len(),
{
    if !fits(r.a, n, num, den) && r.into_first.len() > 0 {
        let x = r.into_first.last();
        undo_first(n, num, den, Round {
            first: r.first.remove(x),
            a: (r.a - 1) as nat,
            b: r.b + 1,
            into_first: r.into_first.drop_last(),
            into_second: r.into_second,
        })
    } else {
        r
    }
}

/// Undoes the moves into the second part, latest first, until it fits.
pub open spec fn undo_second(n: nat, num: nat, den: nat, r: Round) -> Round
    decreases r.into_second.len(),
{
    if !fits(r.b, n, num, den) && r.into_second.len() > 0 {
        let x = r.into_second.last();
        undo_second(n, num, den, Round {
            first: r.first.insert(x),
            a: r.a + 1,
            b: (r.b - 1) as nat,
            into_first: r.into_first,
            into_second: r.into_second.drop_last(),
        })
    } else {
        r
    }
}

/// The first part after a whole round: every position offered a move in
/// turn, then the moves into the larger part undone until it fits.
pub open spec fn perturbed(succ: Seq<Seq<usize>>, n: nat, p: int, draws: Seq<u64>, first: Set<usize>, sizes: (nat, nat), num: nat, den: nat) -> Set<usize> {
    let start = Round { first, a: sizes.0, b: sizes.1, into_first: Seq::empty(), into_second: Seq::empty() };
    let r = moves(succ, n, p, draws, start, n);
    if r.a > r.b {
        undo_first(n, num, den, r).first
    } else {
        undo_second(n, num, den, r).first
    }
}

/// `first` with position `i` moved to or from it.
pub open spec fn toggled(first: Set<usize>, i: usize) -> Set<usize> {
    if first.contains(i) {
        first.remove(i)
    } else {
        first.insert(i)
    }
}

/// `(first, second)` is a bisection of `vs` whose parts are no larger than
/// `fits` allows.
pub open spec fn is_bisection(first: Seq<VertexId>, second: Seq<VertexId>, vs: Set<VertexId>, num: nat, den: nat) -> bool {
    &&& first.no_duplicates()
    &&& second.no_duplicates()
    &&& forall|v: VertexId| #[trigger] first.contains(v) ==> !second.contains(v)
    &&& forall|v: VertexId|
        #![trigger first.contains(v)]
        #![trigger second.contains(v)]
        #![trigger vs.contains(v)]
        vs.contains(v) <==> (first.contains(v) || second.contains(v))
    &&& fits(first.len(), vs.len(), num, den)
    &&& fits(second.len(), vs.len(), num, den)
}

/// With the default fraction 3/5 every part of a bisection holds at most
/// three fifths of the vertices, except for one or three vertices, which no
/// split can share out so evenly.
pub proof fn lemma_default_balance(first: Seq<VertexId>, second: Seq<VertexId>, vs: Set<VertexId>)
    requires
        is_bisection(first, second, vs, 3, 5),
        vs.len() != 1,
        vs.len() != 3,
    ensures
        5 * first.len() <= 3 * vs.len(),
        5 * second.len() <= 3 * vs.len(),
{
}

/// Targets in `row` that lie in `first`.
pub open spec fn count_in(row: Seq<usize>, first: Set<usize>) -> nat
    decreases row.len(),
{
    if row.len() == 0 {
        0
    } else {
        count_in(row.drop_last(), first) + if first.contains(row.last()) {
            1nat
        } else {
            0nat
        }
    }
}

/// Among the first `k` positions, the edges that leave a position outside
/// `first` (the second part) for one inside it (the first part).
pub open spec fn crossing(succ: Seq<Seq<usize>>, first: Set<usize>, k: int) -> nat
    decreases k,
{
    if k <= 0 {
        0
    } else {
        crossing(succ, first, k - 1) + if first.contains((k - 1) as usize) {
            0nat
        } else {
            count_in(succ[k - 1], first)
        }
    }
}

/// A part of `size` out of `n` vertices is small enough when it holds at
/// most the fraction `num / den` of them, or no more than half rounded up
/// (no split does better for one or three vertices).
pub open spec fn fits(size: nat, n: nat, num: nat, den: nat) -> bool {
    size * den <= num * n || 2 * size <= n + 1
}

/// `first` and `second` split the positions `0..n`.
pub open spec fn splits(first: Seq<usize>, second: Seq<usize>, n: nat) -> bool {
    &&& first.no_duplicates()
    &&& second.no_duplicates()
    &&& first.len() + second.len() == n
    &&& forall|i: usize| #[trigger] first.contains(i) ==> (i as int) < n && !second.contains(i)
    &&& forall|i: usize| #[trigger] second.contains(i) ==> (i as int) < n
    &&& forall|i: usize| (i as int) < n ==> #[trigger] first.contains(i) || #[trigger] second.contains(i)
}

/// The first positions `0..n/2` and the rest.
fn initial_bisection(vertices_count: usize) -> (r: (Vec<usize>, Vec<usize>))
    ensures
        splits(r.0@, r.1@, vertices_count as nat),
        r.0@.len() == vertices_count / 2,
        forall|i: usize| #[trigger] r.0@.contains(i) <==> (i as int) < vertices_count / 2,
{
    let half = vertices_count / 2;
    let mut first: Vec<usize> = Vec::new();
    let mut second: Vec<usize> = Vec::new();
    let mut i: usize = 0;
    while i < vertices_count
        invariant
            i <= vertices_count,
            half == vertices_count / 2,
            first@.len() == if i < half { i } else { half },
            second@.len() == if i < half { 0 } else { i - half },
            forall|k: int| 0 <= k < first@.len() ==> #[trigger] first@[k] == k,
            forall|k: int| 0 <= k < second@.len() ==> #[trigger] second@[k] == half + k,
        decreases vertices_count - i,
    {
        if i < half {
            first.push(i);
        } else {
            second.push(i);
        }
        i = i + 1;
    }
    proof {
        assert forall|x: usize| #[trigger] first@.contains(x) implies (x as int) < vertices_count && !second@.contains(x) by {
            let k = choose|k: int| 0 <= k < first@.len() && first@[k] == x;
            if second@.contains(x) {
                let q = choose|q: int| 0 <= q < second@.len() && second@[q] == x;
            }
        }
        assert forall|x: usize| #[trigger] second@.contains(x) implies (x as int) < vertices_count by {
            let k = choose|k: int| 0 <= k < second@.len() && second@[k] == x;
        }
        assert forall|x: usize| (x as int) < vertices_count implies #[trigger] first@.contains(x) || #[trigger] second@.contains(x) by {
            if x < half {
                assert(first@[x as int] == x);
            } else {
                assert(second@[x - half] == x);
            }
        }
    }
    proof {
        assert forall|x: usize| #[trigger] first@.contains(x) <==> (x as int) < vertices_count / 2 by {
            if (x as int) < vertices_count / 2 {
                assert(first@[x as int] == x);
            }
            if first@.contains(x) {
                let k = choose|k: int| 0 <= k < first@.len() && first@[k] == x;
            }
        }
    }
    (first, second)
}

/// Position of `x` in `s`, if any.
fn find_index(s: &Vec<usize>, x: usize) -> (r: Option<usize>)
    ensures
        match r {
            Some(k) => k < s@.len() && s@[k as int] == x,
            None => !s@.contains(x),
        },
{
    let mut i: usize = 0;
    while i < s.len()
        invariant
            i <= s@.len(),
            forall|k: int| 0 <= k < i ==> s@[k] != x,
        decreases s@.len() - i,
    {
        if s[i] == x {
            return Some(i);
        }
        i = i + 1;
    }
    None
}

/// Whether `x` occurs in `s`.
fn holds(s: &Vec<usize>, x: usize) -> (r: bool)
    ensures
        r == s@.contains(x),
{
    find_index(s, x).is_some()
}

/// Moving the entry at `pos` of `a` to the end of `b` keeps a split.
proof fn lemma_move(a: Seq<usize>, b: Seq<usize>, pos: int, n: nat)
    requires
        splits(a, b, n),
        0 <= pos < a.len(),
    ensures
        splits(a.remove(pos), b.push(a[pos]), n),
        a.remove(pos).to_set() == a.to_set().remove(a[pos]),
{
    let x = a[pos];
    let a1 = a.remove(pos);
    let b1 = b.push(x);
    assert forall|y: usize| #[trigger] a1.contains(y) <==> (a.contains(y) && y != x) by {
        if a1.contains(y) {
            let k = choose|k: int| 0 <= k < a1.len() && a1[k] == y;
            if k < pos {
                assert(a[k] == y);
            } else {
                assert(a[k + 1] == y);
            }
        }
        if a.contains(y) && y != x {
            let k = choose|k: int| 0 <= k < a.len() && a[k] == y;
            if k < pos {
                assert(a1[k] == y);
            } else {
                assert(a1[k - 1] == y);
            }
        }
    }
    assert forall|p: int, q: int| 0 <= p < a1.len() && 0 <= q < a1.len() && p != q implies a1[p] != a1[q] by {
        let p_at = if p < pos { p } else { p + 1 };
        let q_at = if q < pos { q } else { q + 1 };
        assert(a1[p] == a[p_at] && a1[q] == a[q_at]);
    }
    assert(a.contains(x));
    assert(!b.contains(x));
    lemma_push_contains(b, x);
    lemma_push_no_dup(b, x);
    assert(a1.to_set() =~= a.to_set().remove(x));
}

/// Bisection of a graph by stochastic evolution (Saab): local moves of
/// single vertices between two parts, kept when they lower the number of
/// edges that run from the second part back into the first.
pub struct StochasticEvolution<'a> {
    graph: &'a HashTable,
    current_bisection: (Vec<usize>, Vec<usize>),
    best_bisection: (Vec<usize>, Vec<usize>),
    vertices: Vec<VertexId>,
    succ: Vec<Vec<usize>>,
    rng: StdRng,
    alpha_num: u64,
    alpha_den: u64,
}

impl<'a> StochasticEvolution<'a> {
    pub closed spec fn graph(&self) -> &'a HashTable {
        self.graph
    }

    /// Number of vertices.
    pub closed spec fn n(&self) -> nat {
        self.vertices@.len()
    }

    /// The position graph of the vertices.
    pub closed spec fn succ_view(&self) -> Seq<Seq<usize>> {
        self.succ@.map_values(|row: Vec<usize>| row@)
    }

    /// The current bisection, as positions.
    pub closed spec fn current(&self) -> (Seq<usize>, Seq<usize>) {
        (self.current_bisection.0@, self.current_bisection.1@)
    }

    /// The best bisection found so far, as positions.
    pub closed spec fn best(&self) -> (Seq<usize>, Seq<usize>) {
        (self.best_bisection.0@, self.best_bisection.1@)
    }

    /// The vertex at each position.
    pub closed spec fn ids(&self) -> Seq<VertexId> {
        self.vertices@
    }

    /// Positions in the first part of the current bisection.
    pub closed spec fn first(&self) -> Set<usize> {
        self.current_bisection.0@.to_set()
    }

    /// Size of the first and of the second part.
    pub closed spec fn sizes(&self) -> (nat, nat) {
        (self.current_bisection.0@.len(), self.current_bisection.1@.len())
    }

    /// The balance fraction.
    pub closed spec fn alpha(&self) -> (nat, nat) {
        (self.alpha_num as nat, self.alpha_den as nat)
    }

    /// Edges from the second part into the first.
    pub open spec fn cost_spec(&self) -> nat {
        crossing(self.succ_view(), self.first(), self.n() as int)
    }

    /// The parts split the positions and the position graph matches the graph.
    pub closed spec fn shape(&self) -> bool {
        let n = self.n();
        &&& self.graph@.wf()
        &&& n <= usize::MAX
        &&& self.vertices@ == self.graph@.ids
        &&& self.graph@.indexed_by(self.succ_view())
        &&& splits(self.current_bisection.0@, self.current_bisection.1@, n)
        &&& splits(self.best_bisection.0@, self.best_bisection.1@, n)
        &&& fits(self.best_bisection.0@.len(), n, self.alpha_num as nat, self.alpha_den as nat)
        &&& fits(self.best_bisection.1@.len(), n, self.alpha_num as nat, self.alpha_den as nat)
        &&& self.alpha_den > 0
        &&& 2 * self.alpha_num >= self.alpha_den
    }

    /// A well-formed engine has the shape that `cost`, `gain` and
    /// `move_vertex` need.
    pub proof fn lemma_wf_shape(&self)
        requires
            self.wf(),
        ensures
            self.shape(),
    {
    }

    /// The first part is the set of positions of the current bisection's
    /// first list, and every other position below `n` is in the second.
    pub proof fn lemma_first_is_current(&self)
        requires
            self.shape(),
        ensures
            self.first() == self.current().0.to_set(),
            splits(self.current().0, self.current().1, self.n()),
    {
    }

    /// Besides, both parts of the current bisection are small enough.
    pub closed spec fn wf(&self) -> bool {
        let n = self.n();
        &&& self.shape()
        &&& fits(self.current_bisection.0@.len(), n, self.alpha_num as nat, self.alpha_den as nat)
        &&& fits(self.current_bisection.1@.len(), n, self.alpha_num as nat, self.alpha_den as nat)
        &&& fits(self.best_bisection.0@.len(), n, self.alpha_num as nat, self.alpha_den as nat)
        &&& fits(self.best_bisection.1@.len(), n, self.alpha_num as nat, self.alpha_den as nat)
        &&& self.alpha_den > 0
        &&& 2 * self.alpha_num >= self.alpha_den
    }

    /// A bisection engine for `graph` with balance fraction 3/5, drawing from
    /// a generator seeded with `seed`.
    pub fn new(graph: &'a HashTable, seed: u64) -> (r: Self)
        requires
            graph@.wf(),
        ensures
            r.wf(),
            r.shape(),
            r.graph() == graph,
            r.n() == graph@.ids.len(),
            r.alpha() == (3nat, 5nat),
            forall|i: usize| #[trigger] r.first().contains(i) <==> (i as int) < r.n() / 2,
    {
        let vertices = graph.vertices();
        let succ = graph.index_adjacency();
        let count = vertices.len();
        assert(vertices@.len() == count);
        let r = Self {
            graph,
            current_bisection: initial_bisection(vertices.len()),
            best_bisection: initial_bisection(vertices.len()),
            vertices,
            succ,
            rng: seeded_rng(seed),
            alpha_num: 3,
            alpha_den: 5,
        };
        proof {
            let n = r.n();
            assert(2 * (n - n / 2) <= n + 1);
        }
        r
    }

    /// The same engine with balance fraction `num / den`, at least one half.
    pub fn with_balance(self, num: u64, den: u64) -> (r: Self)
        requires
            self.wf(),
            den > 0,
            2 * num >= den,
            num <= den,
        ensures
            r.wf(),
            r.graph() == self.graph(),
            r.alpha() == (num as nat, den as nat),
    {
        let mut r = self;
        r.alpha_num = num;
        r.alpha_den = den;
        r.current_bisection = initial_bisection(r.vertices.len());
        r.best_bisection = initial_bisection(r.vertices.len());
        proof {
            let n = r.n();
            assert(2 * (n - n / 2) <= n + 1);
        }
        r
    }

    /// Whether position `i` is in the first part.
    pub fn in_first_part(&self, i: usize) -> (r: bool)
        ensures
            r == self.first().contains(i),
    {
        holds(&self.current_bisection.0, i)
    }

    /// Moves position `i` to the other part.
    pub fn move_vertex(&mut self, i: usize)
        requires
            old(self).shape(),
            i < old(self).n(),
        ensures
            final(self).shape(),
            final(self).graph() == old(self).graph(),
            final(self).n() == old(self).n(),
            final(self).succ_view() == old(self).succ_view(),
            final(self).alpha() == old(self).alpha(),
            final(self).best() == old(self).best(),
            splits(final(self).current().0, final(self).current().1, final(self).n()),
            final(self).first() == if old(self).first().contains(i) {
                old(self).first().remove(i)
            } else {
                old(self).first().insert(i)
            },
            old(self).first().contains(i) ==> final(self).sizes().0 + 1 == old(self).sizes().0
                && final(self).sizes().1 == old(self).sizes().1 + 1,
            !old(self).first().contains(i) ==> final(self).sizes().0 == old(self).sizes().0 + 1
                && final(self).sizes().1 + 1 == old(self).sizes().1,
            final(self).graph()@.wf(),
            final(self).ids() == old(self).ids(),
    {
        let ghost a = self.current_bisection.0@;
        let ghost b = self.current_bisection.1@;
        match find_index(&self.current_bisection.0, i) {
            Some(pos) => {
                proof {
                    lemma_move(a, b, pos as int, self.n());
                }
                let x = self.current_bisection.0.remove(pos);
                self.current_bisection.1.push(x);
                proof {
                    assert(self.current_bisection.0@ == a.remove(pos as int));
                    assert(self.current_bisection.1@ == b.push(i));
                }
            },
            None => {
                let pos = find_index(&self.current_bisection.1, i).unwrap();
                proof {
                    assert(splits(b, a, self.n())) by {
                        assert forall|y: usize| #[trigger] b.contains(y) implies (y as int) < self.n() && !a.contains(y) by {
                            if a.contains(y) {
                                assert(!b.contains(y));
                            }
                        }
                    }
                    lemma_move(b, a, pos as int, self.n());
                    lemma_push_contains(a, i);
                    assert(!a.contains(i));
                    assert(a.push(i).to_set() =~= a.to_set().insert(i));
                }
                let x = self.current_bisection.1.remove(pos);
                self.current_bisection.0.push(x);
                proof {
                    assert(self.current_bisection.1@ == b.remove(pos as int));
                    assert(self.current_bisection.0@ == a.push(i));
                    let a1 = self.current_bisection.0@;
                    let b1 = self.current_bisection.1@;
                    assert(splits(b1, a1, self.n()));
                    assert forall|y: usize| #[trigger] a1.contains(y) implies (y as int) < self.n() && !b1.contains(y) by {
                        if b1.contains(y) {
                            assert(!a1.contains(y));
                        }
                    }
                }
            },
        }
    }
    /// Number of edges from the second part into the first.
    pub fn cost(&self) -> (r: usize)
        requires
            self.shape(),
        ensures
            r == self.cost_spec(),
    {
        let ghost m = self.graph@;
        let ghost succ = self.succ_view();
        let ghost first = self.first();
        let mut cost: usize = 0;
        let mut i: usize = 0;
        while i < self.vertices.len()
            invariant
                self.shape(),
                m == self.graph@,
                succ == self.succ_view(),
                first == self.first(),
                i <= self.n(),
                cost == crossing(succ, first, i as int),
                cost <= total_len(m.adj.subrange(0, i as int)),
            decreases self.n() - i,
        {
            proof {
                crate::hash_table::lemma_total_len_prefix(m.adj, i as int);
                crate::hash_table::lemma_total_len_prefix(m.adj, i + 1);
                assert(succ[i as int] == self.succ@[i as int]@);
            }
            if !holds(&self.current_bisection.0, i) {
                let row = &self.succ[i];
                let ghost base = cost;
                let mut j: usize = 0;
                while j < row.len()
                    invariant
                        self.shape(),
                        m == self.graph@,
                        first == self.first(),
                        row@ == succ[i as int],
                        row@.len() == m.adj[i as int].len(),
                        i < self.n(),
                        j <= row@.len(),
                        base <= total_len(m.adj.subrange(0, i as int)),
                        total_len(m.adj.subrange(0, i + 1 as int)) == total_len(m.adj.subrange(0, i as int)) + m.adj[i as int].len(),
                        total_len(m.adj.subrange(0, i + 1 as int)) <= usize::MAX,
                        cost == base + count_in(row@.subrange(0, j as int), first),
                        cost <= base + j,
                    decreases row@.len() - j,
                {
                    proof {
                        assert(row@.subrange(0, j + 1 as int).drop_last() =~= row@.subrange(0, j as int));
                        crate::hash_table::lemma_total_len_prefix(m.adj, i as int);
                    }
                    if holds(&self.current_bisection.0, row[j]) {
                        cost = cost + 1;
                    }
                    j = j + 1;
                }
                proof {
                    assert(row@.subrange(0, j as int) =~= row@);
                }
            }
            i = i + 1;
        }
        cost
    }

    /// The drop in cost if position `i` alone moved to the other part; the
    /// bisection is the same afterwards.
    pub fn gain(&mut self, i: usize) -> (r: i128)
        requires
            old(self).shape(),
            i < old(self).n(),
        ensures
            final(self).shape(),
            old(self).wf() ==> final(self).wf(),
            final(self).graph() == old(self).graph(),
            final(self).n() == old(self).n(),
            final(self).succ_view() == old(self).succ_view(),
            final(self).alpha() == old(self).alpha(),
            final(self).best() == old(self).best(),
            final(self).first() == old(self).first(),
            final(self).sizes() == old(self).sizes(),
            final(self).ids() == old(self).ids(),
            r == old(self).cost_spec() - crossing(old(self).succ_view(), toggled(old(self).first(), i), old(self).n() as int),
    {
        let cost_current = self.cost();
        self.move_vertex(i);
        let cost_if_moved = self.cost();
        self.move_vertex(i);
        proof {
            let f = old(self).first();
            if f.contains(i) {
                assert(f.remove(i).insert(i) =~= f);
            } else {
                assert(f.insert(i).remove(i) =~= f);
            }
        }
        cost_current as i128 - cost_if_moved as i128
    }
    /// Whether a part of `size` vertices is small enough.
    fn part_fits(&self, size: usize) -> (r: bool)
        ensures
            r == fits(size as nat, self.n(), self.alpha().0, self.alpha().1),
    {
        let n = self.vertices.len();
        proof {
            assert((size as nat) * (self.alpha_den as nat) <= u64::MAX * u64::MAX) by (nonlinear_arith)
                requires size <= u64::MAX, self.alpha_den <= u64::MAX;
            assert((self.alpha_num as nat) * (n as nat) <= u64::MAX * u64::MAX) by (nonlinear_arith)
                requires n <= u64::MAX, self.alpha_num <= u64::MAX;
        }
        (size as u128) * (self.alpha_den as u128) <= (self.alpha_num as u128) * (n as u128)
            || 2 * (size as u128) <= (n as u128) + 1
    }

    /// One round of moves with thresholds drawn from `p..0`: the round of
    /// `perturb_with` for some draws below `-p`, one per position.
    fn perturb(&mut self, p: i64)
        requires
            old(self).wf(),
            i64::MIN < p < 0,
        ensures
            final(self).wf(),
            final(self).graph() == old(self).graph(),
            final(self).n() == old(self).n(),
            final(self).succ_view() == old(self).succ_view(),
            final(self).alpha() == old(self).alpha(),
            final(self).best() == old(self).best(),
            final(self).ids() == old(self).ids(),
            exists|draws: Seq<u64>|
                draws.len() == old(self).n() && (forall|k: int| 0 <= k < draws.len() ==> (#[trigger] draws[k] as int) < -p)
                    && final(self).first() == perturbed(old(self).succ_view(), old(self).n(), p as int, draws,
                    old(self).first(), old(self).sizes(), old(self).alpha().0, old(self).alpha().1),
    {
        let n = self.vertices.len();
        let mut draws: Vec<u64> = Vec::new();
        let mut k: usize = 0;
        while k < n
            invariant
                self.graph == old(self).graph,
                self.current_bisection == old(self).current_bisection,
                self.best_bisection == old(self).best_bisection,
                self.vertices == old(self).vertices,
                self.succ == old(self).succ,
                self.alpha_num == old(self).alpha_num,
                self.alpha_den == old(self).alpha_den,
                n == self.vertices@.len(),
                k <= n,
                i64::MIN < p < 0,
                draws@.len() == k,
                forall|j: int| 0 <= j < k ==> (#[trigger] draws@[j] as int) < -p,
            decreases n - k,
        {
            draws.push(draw_below(&mut self.rng, (0 - p) as u64));
            k = k + 1;
        }
        let ghost s1 = *self;
        proof {
            assert(s1.wf() == old(self).wf());
            assert(s1.first() == old(self).first());
        }
        self.perturb_with(p, &draws);
    }

    /// One round of moves with the thresholds `p + draws[i]`: every position
    /// whose gain beats its threshold moves; if that leaves a part too large,
    /// the moves into it are undone, latest first, until it fits again.
    fn perturb_with(&mut self, p: i64, draws: &Vec<u64>)
        requires
            old(self).wf(),
            i64::MIN < p < 0,
            draws@.len() == old(self).n(),
        ensures
            final(self).first() == perturbed(old(self).succ_view(), old(self).n(), p as int, draws@, old(self).first(),
                old(self).sizes(), old(self).alpha().0, old(self).alpha().1),
            final(self).wf(),
            final(self).graph() == old(self).graph(),
            final(self).n() == old(self).n(),
            final(self).succ_view() == old(self).succ_view(),
            final(self).alpha() == old(self).alpha(),
            final(self).best() == old(self).best(),
            final(self).ids() == old(self).ids(),
    {
        let ghost s0 = *old(self);
        let ghost a0 = self.sizes().0;
        let ghost b0 = self.sizes().1;
        let ghost start = Round { first: self.first(), a: a0, b: b0, into_first: Seq::empty(), into_second: Seq::empty() };
        let ghost (num, den) = self.alpha();
        let n = self.vertices.len();
        let mut s1: Vec<usize> = Vec::new();
        let mut s2: Vec<usize> = Vec::new();
        let mut i: usize = 0;
        while i < n
            invariant
                s0 == *old(self),
                self.shape(),
                n == self.n(),
                self.graph() == s0.graph(),
                self.n() == s0.n(),
                self.succ_view() == s0.succ_view(),
                self.alpha() == s0.alpha(),
                self.best() == s0.best(),
                self.ids() == s0.ids(),
                a0 == s0.sizes().0,
                b0 == s0.sizes().1,
                i <= n,
                i64::MIN < p < 0,
                s1@.no_duplicates(),
                s2@.no_duplicates(),
                forall|x: usize| #[trigger] s1@.contains(x) ==> x < i && self.first().contains(x),
                forall|x: usize| #[trigger] s2@.contains(x) ==> x < i && !self.first().contains(x),
                self.sizes().0 <= a0 + s1@.len(),
                self.sizes().1 <= b0 + s2@.len(),
                draws@.len() == n,
                moves(s0.succ_view(), n as nat, p as int, draws@, start, i as nat) == (Round {
                    first: self.first(),
                    a: self.sizes().0,
                    b: self.sizes().1,
                    into_first: s1@,
                    into_second: s2@,
                }),
            decreases n - i,
        {
            let g = self.gain(i);
            let draw = draws[i];
            let threshold = p as i128 + draw as i128;
            if g > threshold {
                let ghost f0 = self.first();
                self.move_vertex(i);
                let ghost t1 = s1@;
                let ghost t2 = s2@;
                proof {
                    lemma_push_contains(t1, i);
                    lemma_push_contains(t2, i);
                    if t1.contains(i) {}
                    if t2.contains(i) {}
                }
                if self.in_first_part(i) {
                    proof {
                        lemma_push_no_dup(t1, i);
                    }
                    s1.push(i);
                } else {
                    proof {
                        lemma_push_no_dup(t2, i);
                    }
                    s2.push(i);
                }
            }
            i = i + 1;
        }
        let ghost r1 = moves(s0.succ_view(), n as nat, p as int, draws@, start, n as nat);
        proof {
            assert(fits(a0, n as nat, self.alpha().0, self.alpha().1));
            assert(fits(b0, n as nat, self.alpha().0, self.alpha().1));
            assert(self.sizes().0 + self.sizes().1 == n);
        }
        if self.current_bisection.0.len() > self.current_bisection.1.len() {
            while !self.part_fits(self.current_bisection.0.len()) && s1.len() > 0
                invariant
                    self.shape(),
                    n == self.n(),
                    self.graph() == s0.graph(),
                    self.n() == s0.n(),
                    self.succ_view() == s0.succ_view(),
                    self.alpha() == s0.alpha(),
                    self.best() == s0.best(),
                    self.ids() == s0.ids(),
                    fits(a0, n as nat, self.alpha().0, self.alpha().1),
                    s1@.no_duplicates(),
                    forall|x: usize| #[trigger] s1@.contains(x) ==> x < n && self.first().contains(x),
                    num == self.alpha().0,
                    den == self.alpha().1,
                    s2@ == r1.into_second,
                    undo_first(n as nat, num, den, Round {
                        first: self.first(),
                        a: self.sizes().0,
                        b: self.sizes().1,
                        into_first: s1@,
                        into_second: s2@,
                    }) == undo_first(n as nat, num, den, r1),
                    self.sizes().0 <= a0 + s1@.len(),
                    self.sizes().0 + self.sizes().1 == n,
                    fits(self.sizes().1, n as nat, self.alpha().0, self.alpha().1),
                decreases s1@.len(),
            {
                let ghost t1 = s1@;
                let x = s1.pop().unwrap();
                proof {
                    assert(t1 == s1@.push(x));
                    assert(t1.contains(x)) by {
                        assert(t1[t1.len() - 1] == x);
                    }
                    lemma_push_contains(s1@, x);
                    assert(!s1@.contains(x)) by {
                        if s1@.contains(x) {
                            let q = choose|q: int| 0 <= q < s1@.len() && s1@[q] == x;
                            assert(t1[q] == t1[t1.len() - 1]);
                        }
                    }
                }
                let ghost f0 = self.first();
                self.move_vertex(x);
                proof {
                    assert forall|y: usize| #[trigger] s1@.contains(y) implies y < n && self.first().contains(y) by {
                        assert(t1.contains(y));
                    }
                }
            }
            proof {
                if s1@.len() == 0 {
                    assert(self.sizes().0 <= a0);
                    let (num, den) = self.alpha();
                    assert(self.sizes().0 * den <= a0 * den) by (nonlinear_arith)
                        requires self.sizes().0 <= a0;
                }
            }
        } else {
            while !self.part_fits(self.current_bisection.1.len()) && s2.len() > 0
                invariant
                    self.shape(),
                    n == self.n(),
                    self.graph() == s0.graph(),
                    self.n() == s0.n(),
                    self.succ_view() == s0.succ_view(),
                    self.alpha() == s0.alpha(),
                    self.best() == s0.best(),
                    self.ids() == s0.ids(),
                    fits(b0, n as nat, self.alpha().0, self.alpha().1),
                    s2@.no_duplicates(),
                    forall|x: usize| #[trigger] s2@.contains(x) ==> x < n && !self.first().contains(x),
                    num == self.alpha().0,
                    den == self.alpha().1,
                    s1@ == r1.into_first,
                    undo_second(n as nat, num, den, Round {
                        first: self.first(),
                        a: self.sizes().0,
                        b: self.sizes().1,
                        into_first: s1@,
                        into_second: s2@,
                    }) == undo_second(n as nat, num, den, r1),
                    self.sizes().1 <= b0 + s2@.len(),
                    self.sizes().0 + self.sizes().1 == n,
                    fits(self.sizes().0, n as nat, self.alpha().0, self.alpha().1),
                decreases s2@.len(),
            {
                let ghost t2 = s2@;
                let x = s2.pop().unwrap();
                proof {
                    assert(t2 == s2@.push(x));
                    assert(t2.contains(x)) by {
                        assert(t2[t2.len() - 1] == x);
                    }
                    lemma_push_contains(s2@, x);
                    assert(!s2@.contains(x)) by {
                        if s2@.contains(x) {
                            let q = choose|q: int| 0 <= q < s2@.len() && s2@[q] == x;
                            assert(t2[q] == t2[t2.len() - 1]);
                        }
                    }
                }
                let ghost f0 = self.first();
                self.move_vertex(x);
                proof {
                    assert forall|y: usize| #[trigger] s2@.contains(y) implies y < n && !self.first().contains(y) by {
                        assert(t2.contains(y));
                    }
                }
            }
            proof {
                if s2@.len() == 0 {
                    assert(self.sizes().1 <= b0);
                    let (num, den) = self.alpha();
                    assert(self.sizes().1 * den <= b0 * den) by (nonlinear_arith)
                        requires self.sizes().1 <= b0;
                }
            }
        }
    }
    /// Vertices at the given positions.
    fn ids_at(&self, positions: &Vec<usize>) -> (r: Vec<VertexId>)
        requires
            self.shape(),
            forall|i: int| 0 <= i < positions@.len() ==> (#[trigger] positions@[i] as int) < self.n(),
        ensures
            r@.len() == positions@.len(),
            forall|i: int| 0 <= i < positions@.len() ==> #[trigger] r@[i] == self.ids()[positions@[i] as int],
    {
        let mut r: Vec<VertexId> = Vec::new();
        let mut k: usize = 0;
        while k < positions.len()
            invariant
                self.shape(),
                forall|i: int| 0 <= i < positions@.len() ==> (#[trigger] positions@[i] as int) < self.n(),
                k <= positions@.len(),
                r@.len() == k,
                forall|i: int| 0 <= i < k ==> #[trigger] r@[i] == self.ids()[positions@[i] as int],
            decreases positions@.len() - k,
        {
            r.push(self.vertices[positions[k]]);
            k = k + 1;
        }
        r
    }

    /// Runs stochastic evolution and returns the best bisection found, as
    /// two sets of vertices. A round that beats the best cost so far saves
    /// the bisection and earns ten more rounds; any other round uses one up,
    /// and the search stops when the budget is spent. While the cost stays
    /// the same the threshold is lowered by two, to allow worse moves.
    pub fn bisection(&mut self) -> (r: (Vec<VertexId>, Vec<VertexId>))
        requires
            old(self).wf(),
        ensures
            final(self).wf(),
            final(self).graph() == old(self).graph(),
            is_bisection(r.0@, r.1@, old(self).graph()@.vertices(), old(self).alpha().0, old(self).alpha().1),
            forall|i: int| 0 <= i < final(self).n() ==> (r.0@.contains(#[trigger] final(self).ids()[i]) <==> final(self).best().0.contains(i as usize)),
            crossing(old(self).succ_view(), final(self).best().0.to_set(), old(self).n() as int) <= old(self).cost_spec(),
            final(self).succ_view() == old(self).succ_view(),
            final(self).n() == old(self).n(),
            final(self).ids() == old(self).ids(),
    {
        let initial_r: i64 = PATIENCE;
        let mut p: i64 = INITIAL_P;
        let mut counter: i64 = 0;
        self.best_bisection = (self.current_bisection.0.clone(), self.current_bisection.1.clone());
        proof {
            assert(self.best_bisection.0@ =~= self.current_bisection.0@);
            assert(self.best_bisection.1@ =~= self.current_bisection.1@);
        }
        let mut best_cost = self.cost();
        let ghost s0 = *old(self);
        proof {
            assert(self.best().0 == self.current().0);
            assert(self.first() == s0.first());
        }
        loop
            invariant_except_break
                counter <= initial_r,
            invariant
                self.wf(),
                self.graph() == s0.graph(),
                self.alpha() == s0.alpha(),
                self.ids() == s0.ids(),
                self.succ_view() == s0.succ_view(),
                self.n() == s0.n(),
                best_cost == crossing(s0.succ_view(), self.best().0.to_set(), s0.n() as int),
                best_cost <= s0.cost_spec(),
                i64::MIN < p < 0,
                initial_r == PATIENCE,
            decreases best_cost, initial_r - counter,
        {
            let c_pre = self.cost();
            self.perturb(p);
            let c_post = self.cost();
            let step = next_round(counter, p, best_cost, c_pre, c_post);
            if step.save {
                self.best_bisection = (self.current_bisection.0.clone(), self.current_bisection.1.clone());
                proof {
                    assert(self.best_bisection.0@ =~= self.current_bisection.0@);
                    assert(self.best_bisection.1@ =~= self.current_bisection.1@);
                    assert(self.best().0.to_set() == self.first());
                }
                best_cost = c_post;
            }
            counter = step.counter;
            p = step.p;
            if step.stop {
                break;
            }
        }
        proof {
            let (b1, b2) = self.best();
            assert forall|i: int| 0 <= i < b1.len() implies (#[trigger] b1[i] as int) < self.n() by {
                assert(b1.contains(b1[i]));
            }
            assert forall|i: int| 0 <= i < b2.len() implies (#[trigger] b2[i] as int) < self.n() by {
                assert(b2.contains(b2[i]));
            }
        }
        let first = self.ids_at(&self.best_bisection.0);
        let second = self.ids_at(&self.best_bisection.1);
        proof {
            let m = self.graph@;
            let (b1, b2) = self.best();
            let ids = self.ids();
            assert(ids.no_duplicates());
            assert forall|v: VertexId| #[trigger] first@.contains(v) <==> exists|k: int| 0 <= k < b1.len() && ids[b1[k] as int] == v by {
                if first@.contains(v) {
                    let k = choose|k: int| 0 <= k < first@.len() && first@[k] == v;
                    assert(first@[k] == ids[b1[k] as int]);
                }
                if exists|k: int| 0 <= k < b1.len() && ids[b1[k] as int] == v {
                    let k = choose|k: int| 0 <= k < b1.len() && ids[b1[k] as int] == v;
                    assert(first@[k] == v);
                }
            }
            assert forall|v: VertexId| #[trigger] second@.contains(v) <==> exists|k: int| 0 <= k < b2.len() && ids[b2[k] as int] == v by {
                if second@.contains(v) {
                    let k = choose|k: int| 0 <= k < second@.len() && second@[k] == v;
                    assert(second@[k] == ids[b2[k] as int]);
                }
                if exists|k: int| 0 <= k < b2.len() && ids[b2[k] as int] == v {
                    let k = choose|k: int| 0 <= k < b2.len() && ids[b2[k] as int] == v;
                    assert(second@[k] == v);
                }
            }
            assert forall|a: int, b: int| 0 <= a < first@.len() && 0 <= b < first@.len() && a != b implies first@[a] != first@[b] by {
                assert(b1.contains(b1[a]) && b1.contains(b1[b]));
            }
            assert forall|a: int, b: int| 0 <= a < second@.len() && 0 <= b < second@.len() && a != b implies second@[a] != second@[b] by {
                assert(b2.contains(b2[a]) && b2.contains(b2[b]));
            }
            assert forall|v: VertexId| #[trigger] first@.contains(v) implies !second@.contains(v) by {
                let k = choose|k: int| 0 <= k < b1.len() && ids[b1[k] as int] == v;
                assert(b1.contains(b1[k]));
                if second@.contains(v) {
                    let q = choose|q: int| 0 <= q < b2.len() && ids[b2[q] as int] == v;
                    assert(b2.contains(b2[q]));
                    assert(b1[k] == b2[q]);
                }
            }
            assert forall|v: VertexId| m.vertices().contains(v) <==> (first@.contains(v) || second@.contains(v)) by {
                if m.vertices().contains(v) {
                    let i = choose|i: int| 0 <= i < ids.len() && ids[i] == v;
                    let iu = i as usize;
                    if b1.contains(iu) {
                        let k = choose|k: int| 0 <= k < b1.len() && b1[k] == iu;
                        assert(ids[b1[k] as int] == v);
                    } else {
                        assert(b2.contains(iu));
                        let k = choose|k: int| 0 <= k < b2.len() && b2[k] == iu;
                        assert(ids[b2[k] as int] == v);
                    }
                }
                if first@.contains(v) {
                    let k = choose|k: int| 0 <= k < b1.len() && ids[b1[k] as int] == v;
                    assert(b1.contains(b1[k]));
                }
                if second@.contains(v) {
                    let k = choose|k: int| 0 <= k < b2.len() && ids[b2[k] as int] == v;
                    assert(b2.contains(b2[k]));
                }
            }
            m.ids.unique_seq_to_set();
        }
        (first, second)
    }
}

} // verus!
