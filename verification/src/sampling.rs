//! Random draws. What the random number generator decides enters the library
//! here and nowhere else.

use vstd::prelude::*;
use rand::distributions::Distribution;
use rand::distributions::WeightedError;
use rand::distributions::WeightedIndex;
use rand::rngs::ThreadRng;
use rand::seq::SliceRandom;
use crate::tally::sum_upto;

verus! {

/// A `rand::distributions::WeightedIndex` over `u64` weights: a table from which
/// indices are drawn with chances in proportion to the weights. Nothing of its
/// inside is known here.
#[verifier::external_body]
pub struct WeightTable {
    inner: WeightedIndex<u64>,
}

/// `rand::distributions::WeightedError`, the reason for which no table was made.
#[verifier::external_type_specification]
#[verifier::external_body]
pub struct ExWeightedError(WeightedError);

/// `rand::rngs::ThreadRng`, the random number generator of the thread.
#[verifier::external_type_specification]
#[verifier::external_body]
pub struct ExThreadRng(ThreadRng);

/// The weights that a table of weights was made with.
pub uninterp spec fn weights_of(table: WeightTable) -> Seq<u64>;

/// The sum of the first `n` weights.
pub open spec fn weight_upto(weights: Seq<u64>, n: int) -> nat {
    sum_upto(|i: int| weights[i] as nat, n)
}

/// The sum of all weights.
pub open spec fn total_weight(weights: Seq<u64>) -> nat {
    weight_upto(weights, weights.len() as int)
}

/// `WeightedIndex::new` on a slice of `u64`: it makes the table of the weights,
/// and fails where there is no weight or where all weights are zero. The sum of
/// the weights has to fit a `u64`: the outside function adds them up unchecked.
#[verifier::external_body]
pub(crate) fn new_weight_table(weights: &Vec<u64>) -> (made: Result<WeightTable, WeightedError>)
    requires
        total_weight(weights@) <= u64::MAX,
    ensures
        made.is_ok() == (weights@.len() > 0 && total_weight(weights@) > 0),
        made.is_ok() ==> weights_of(made.unwrap()) == weights@,
{
    match WeightedIndex::new(weights.as_slice()) {
        Ok(inner) => Ok(WeightTable { inner }),
        Err(reason) => Err(reason),
    }
}

/// `rand::thread_rng`: the random number generator of the thread. Nothing is
/// known of what it will give.
#[verifier::external_body]
pub(crate) fn thread_generator() -> ThreadRng {
    rand::thread_rng()
}

/// `Distribution::sample` of a `WeightedIndex`: whatever is drawn is the index of
/// one of the weights, and of one that is not zero.
#[verifier::external_body]
pub(crate) fn sample_weight_table(table: &WeightTable, rng: &mut ThreadRng) -> (index: usize)
    ensures
        index < weights_of(*table).len(),
        weights_of(*table)[index as int] > 0,
{
    table.inner.sample(rng)
}

/// `SliceRandom::shuffle`: the items change places, none is lost and none is added.
#[verifier::external_body]
pub(crate) fn shuffle(order: &mut Vec<usize>, rng: &mut ThreadRng)
    ensures
        final(order)@.to_multiset() == old(order)@.to_multiset(),
{
    order.shuffle(rng);
}

} // verus!
