use crate::hash_table::{is_acyclic, Edge, GraphModel, VertexId};
use vstd::prelude::*;

verus! {

/// `fas` is a set of edges of the graph whose removal leaves it acyclic.
pub open spec fn is_feedback_arc_set(m: GraphModel, fas: Set<Edge>) -> bool {
    &&& fas.subset_of(m.edges())
    &&& is_acyclic(m.edges().difference(fas))
}

/// The rank of `v` counted among the vertices of `vs`: how many of them
/// `rank` puts lower.
pub open spec fn compact_rank(rank: spec_fn(VertexId) -> int, vs: Set<VertexId>, v: VertexId) -> int {
    vs.filter(|u: VertexId| rank(u) < rank(v)).len() as int
}

/// Counted ranks lie in `0..=|vs|` and keep the order of `rank` inside `vs`.
pub proof fn lemma_compact_rank(rank: spec_fn(VertexId) -> int, vs: Set<VertexId>, a: VertexId, b: VertexId)
    requires
        vs.finite(),
    ensures
        0 <= compact_rank(rank, vs, a) <= vs.len(),
        vs.contains(a) && vs.contains(b) && rank(a) < rank(b) ==> compact_rank(rank, vs, a) < compact_rank(rank, vs, b),
{
    let sa = vs.filter(|u: VertexId| rank(u) < rank(a));
    let sb = vs.filter(|u: VertexId| rank(u) < rank(b));
    vs.lemma_len_filter(|u: VertexId| rank(u) < rank(a));
    vs.lemma_len_filter(|u: VertexId| rank(u) < rank(b));
    if vs.contains(a) && vs.contains(b) && rank(a) < rank(b) {
        assert(sb.contains(a));
        assert(sa.subset_of(sb.remove(a)));
        vstd::set_lib::lemma_len_subset(sa, sb.remove(a));
    }
}

/// A strategy that computes a feedback arc set of the graph it holds; the
/// graph itself is left unchanged.
pub trait FeedbackArcSet {
    /// The graph the strategy works on.
    spec fn input(&self) -> GraphModel;

    /// What the strategy's result is, beyond a feedback arc set.
    spec fn describes(&self, fas: Set<Edge>) -> bool;

    fn feedback_arc_set(&self) -> (r: Vec<Edge>)
        requires
            self.input().wf(),
        ensures
            r@.no_duplicates(),
            is_feedback_arc_set(self.input(), r@.to_set()),
            self.describes(r@.to_set()),
    ;
}

} // verus!
