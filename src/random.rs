use vstd::prelude::*;
use rand::distributions::{IndependentSample, Weighted, WeightedChoice};
use rand::Rng;

verus! {

/// The sum of the weights.
pub open spec fn weight_total(weights: Seq<u32>) -> int
    decreases weights.len(),
{
    if weights.len() == 0 {
        0
    } else {
        weight_total(weights.drop_last()) + weights.last()
    }
}

/// Relies on `rand::Rng::gen_range` on `rand::thread_rng()`: a value in `[low, high)`.
/// It panics when `low >= high`.
#[verifier::external_body]
pub(crate) fn random_range(low: i32, high: i32) -> (r: i32)
    requires
        low < high,
    ensures
        low <= r < high,
{
    rand::thread_rng().gen_range(low, high)
}

/// Relies on `rand::random::<bool>`: a coin flip.
#[verifier::external_body]
pub(crate) fn random_bool() -> bool {
    rand::random::<bool>()
}

/// Relies on `rand::distributions::WeightedChoice`, sampled with `rand::thread_rng()`:
/// the index of an entry, drawn in proportion to its weight, so never one of weight 0.
/// `WeightedChoice::new` panics on an empty table and on a total weight of 0 or above
/// `u32::MAX`.
#[verifier::external_body]
pub(crate) fn weighted_index(weights: &Vec<u32>) -> (r: usize)
    requires
        weights@.len() > 0,
        0 < weight_total(weights@) <= u32::MAX,
    ensures
        r < weights@.len(),
        weights@[r as int] > 0,
{
    let mut items: Vec<Weighted<usize>> =
        weights.iter().enumerate().map(|(i, w)| Weighted { weight: *w, item: i }).collect();
    WeightedChoice::new(&mut items).ind_sample(&mut rand::thread_rng())
}

} // verus!
