use vstd::prelude::*;

verus! {

#[verifier::external_type_specification]
#[verifier::external_body]
pub struct ExStdRng(rand::rngs::StdRng);

/// A seedable pseudo-random source. Each planner run draws all of its
/// randomness from one explicitly constructed instance, so a run is
/// reproducible from its seed.
pub struct RandomSource {
    rng: rand::rngs::StdRng,
}

impl RandomSource {
    /// Relies on rand's `SeedableRng::seed_from_u64`: builds a
    /// deterministic generator from a 64-bit seed.
    #[verifier::external_body]
    pub fn from_seed(seed: u64) -> RandomSource {
        RandomSource { rng: <rand::rngs::StdRng as rand::SeedableRng>::seed_from_u64(seed) }
    }

    /// Relies on rand's `Rng::gen_range`: returns a value of the
    /// half-open range `[0, bound)`, and panics only on an empty
    /// range, which the precondition rules out. Nothing more is
    /// assumed of the value.
    #[verifier::external_body]
    pub fn next_below(&mut self, bound: u64) -> (r: u64)
        requires
            bound >= 1,
        ensures
            r < bound,
    {
        rand::Rng::gen_range(&mut self.rng, 0..bound)
    }
}

/// A value of the half-open range `[low, high)`, drawn from `source`.
pub fn next_in_range(source: &mut RandomSource, low: i64, high: i64) -> (r: i64)
    requires
        low < high,
        -crate::geom::COORD_LIMIT <= low,
        high <= crate::geom::COORD_LIMIT,
    ensures
        low <= r < high,
{
    let span: u64 = (high - low) as u64;
    let offset = source.next_below(span);
    low + (offset as i64)
}

/// A point drawn coordinate-wise from the box `[low, high)`.
pub fn sample_point(source: &mut RandomSource, low: &Vec<i64>, high: &Vec<i64>) -> (p: Vec<i64>)
    requires
        low@.len() == high@.len(),
        crate::geom::in_limits(low@),
        crate::geom::in_limits(high@),
        forall|k: int| 0 <= k < low@.len() ==> #[trigger] low@[k] < high@[k],
    ensures
        p@.len() == low@.len(),
        forall|k: int| 0 <= k < p@.len() ==> low@[k] <= #[trigger] p@[k] < high@[k],
{
    let n = low.len();
    let mut p: Vec<i64> = Vec::new();
    let mut k: usize = 0;
    while k < n
        invariant
            0 <= k <= n,
            n == low@.len() == high@.len(),
            crate::geom::in_limits(low@),
            crate::geom::in_limits(high@),
            forall|j: int| 0 <= j < n ==> #[trigger] low@[j] < high@[j],
            p@.len() == k,
            forall|j: int| 0 <= j < k ==> low@[j] <= #[trigger] p@[j] < high@[j],
        decreases n - k,
    {
        let c = next_in_range(source, low[k], high[k]);
        p.push(c);
        k = k + 1;
    }
    p
}

} // verus!
