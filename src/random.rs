use crate::hash_table::{HashTable, VertexId};
use rand::rngs::StdRng;
use rand::{Rng, SeedableRng};
use vstd::prelude::*;

verus! {

#[verifier::external_type_specification]
#[verifier::external_body]
pub struct ExStdRng(StdRng);

/// Relies on rand's `SeedableRng::seed_from_u64`: a generator whose draws
/// are fixed by `seed`.
#[verifier::external_body]
pub(crate) fn seeded_rng(seed: u64) -> StdRng {
    StdRng::seed_from_u64(seed)
}

/// Relies on rand's `Rng::gen_range`: a value of `0..bound`. The call
/// panics on an empty range, which `requires` rules out.
#[verifier::external_body]
pub(crate) fn draw_below(rng: &mut StdRng, bound: u64) -> (r: u64)
    requires
        bound > 0,
    ensures
        r < bound,
{
    rng.gen_range(0..bound)
}

impl HashTable {
    /// A vertex drawn uniformly at random; the graph must not be empty.
    pub fn random_vertex(&self, rng: &mut StdRng) -> (r: VertexId)
        requires
            self@.wf(),
            self@.vertices().len() > 0,
        ensures
            self@.vertices().contains(r),
    {
        let vs = self.vertices();
        proof {
            vs@.unique_seq_to_set();
        }
        let idx = draw_below(rng, vs.len() as u64) as usize;
        proof {
            assert(vs@.to_set().contains(vs@[idx as int]));
        }
        vs[idx]
    }
}

} // verus!
