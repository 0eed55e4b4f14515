use vstd::prelude::*;

use rand::distributions::Distribution;
use rand::distributions::WeightedIndex;
use rand::seq::SliceRandom;
use rand::Rng;

verus! {

/// A number drawn by `rand::Rng::gen_range(0..n)` from the thread's generator.
/// Nothing is stated of which value comes out but that it lies in `0..n`.
#[verifier::external_body]
pub(crate) fn random_below(n: usize) -> (r: usize)
    requires
        n > 0,
    ensures
        r < n,
{
    rand::thread_rng().gen_range(0..n)
}

/// An element picked by `rand::seq::SliceRandom::choose` with the thread's generator.
/// Nothing is stated of which element comes out but that it is one of `items`.
#[verifier::external_body]
pub(crate) fn random_choice<T: Copy>(items: &[T]) -> (r: T)
    requires
        items@.len() > 0,
    ensures
        items@.contains(r),
{
    *items.choose(&mut rand::thread_rng()).unwrap()
}

/// The sum of a sequence of weights.
pub open spec fn weight_sum(weights: Seq<u128>) -> int
    decreases weights.len(),
{
    if weights.len() == 0 {
        0
    } else {
        weight_sum(weights.drop_last()) + weights.last()
    }
}

/// An index drawn from `rand::distributions::WeightedIndex` built from `weights`
/// (`WeightedIndex::new` followed by `Distribution::sample` with the thread's generator).
/// Each index is drawn with a probability proportional to its weight; stated is only that
/// the index is in range and that its weight is not zero.
#[verifier::external_body]
pub(crate) fn weighted_random_index(weights: &[u128]) -> (r: usize)
    requires
        weights@.len() > 0,
        weight_sum(weights@) > 0,
        weight_sum(weights@) <= u128::MAX,
    ensures
        r < weights@.len(),
        weights@[r as int] > 0,
{
    WeightedIndex::new(weights).unwrap().sample(&mut rand::thread_rng())
}

} // verus!
