//! Weighted random choice among candidates.
use vstd::prelude::*;
use rand::distributions::{Distribution, WeightedIndex};

verus! {

/// Relies on rand's `WeightedIndex::new` and its `Distribution::sample`
/// driven by `thread_rng`: `new` fails only on an empty list or a zero total
/// (no weight of `u64` is negative, and their total in `u128` cannot
/// overflow), and `sample` returns the index whose cumulative range holds a
/// uniform draw below the total, so an index of positive weight.
#[verifier::external_body]
pub(crate) fn pick_weighted(weights: &Vec<u64>) -> (r: usize)
    requires
        exists|i: int| 0 <= i < weights@.len() && weights@[i] > 0,
    ensures
        r < weights@.len(),
        weights@[r as int] > 0,
{
    let wide: Vec<u128> = weights.iter().map(|w| *w as u128).collect();
    let distribution = WeightedIndex::new(&wide).unwrap();
    distribution.sample(&mut rand::thread_rng())
}

} // verus!
