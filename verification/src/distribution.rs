//! A distribution over the moves of a position, from which moves are drawn with
//! chances in proportion to their weights.

use vstd::prelude::*;
use crate::sampling::{new_weight_table, sample_weight_table, thread_generator, total_weight,
    weight_upto, weights_of, WeightTable};
use crate::tally::lemma_sum_grows;

verus! {

/// Why no distribution can be made of given weights.
#[derive(Clone, Copy, Debug, PartialEq, Eq, Structural)]
pub enum DistributionError {
    /// there is no weight
    NoWeights,
    /// the sum of the weights does not fit 64 bits
    TooHeavy,
    /// every weight is zero
    AllWeightsZero,
}

/// A distribution over the indices of its weights.
pub struct MoveDistribution {
    weights: Vec<u64>,
    table: WeightTable,
}

/// What `MoveDistribution::new` returns for given weights, but for the
/// distribution that it makes.
pub open spec fn distribution_error(weights: Seq<u64>) -> Option<DistributionError> {
    if weights.len() == 0 {
        Some(DistributionError::NoWeights)
    } else if total_weight(weights) > u64::MAX {
        Some(DistributionError::TooHeavy)
    } else if total_weight(weights) == 0 {
        Some(DistributionError::AllWeightsZero)
    } else {
        None
    }
}

impl MoveDistribution {
    /// The weights of the distribution.
    pub closed spec fn weights(&self) -> Seq<u64> {
        self.weights@
    }

    /// The table of the distribution is that of its weights, of which there is at
    /// least one.
    pub closed spec fn wf(&self) -> bool {
        &&& weights_of(self.table) == self.weights@
        &&& self.weights@.len() > 0
    }

    /// The distribution with the given weights. There has to be a weight, the sum
    /// of the weights has to fit 64 bits, and one weight at least must not be zero.
    pub fn new(weights: Vec<u64>) -> (made: Result<MoveDistribution, DistributionError>)
        ensures
            match distribution_error(weights@) {
                Some(e) => made == Err::<MoveDistribution, DistributionError>(e),
                None => made.is_ok() && made.unwrap().wf() && made.unwrap().weights() == weights@,
            },
    {
        if weights.len() == 0 {
            return Err(DistributionError::NoWeights);
        }
        let ghost each = |i: int| weights@[i] as nat;
        let mut total: u64 = 0;
        for i in 0..weights.len()
            invariant
                total == weight_upto(weights@, i as int),
                each == (|i: int| weights@[i] as nat),
        {
            if weights[i] > u64::MAX - total {
                proof {
                    lemma_sum_grows(each, i + 1, weights@.len() as int);
                }
                return Err(DistributionError::TooHeavy);
            }
            total += weights[i];
        }
        if total == 0 {
            return Err(DistributionError::AllWeightsZero);
        }
        match new_weight_table(&weights) {
            Ok(table) => Ok(MoveDistribution { weights, table }),
            Err(_) => Err(DistributionError::NoWeights),
        }
    }

    /// The number of weights.
    pub fn len(&self) -> (n: usize)
        ensures
            n == self.weights().len(),
    {
        self.weights.len()
    }

    /// The weight with the number `index`.
    pub fn weight(&self, index: usize) -> (w: u64)
        requires
            index < self.weights().len(),
        ensures
            w == self.weights()[index as int],
    {
        self.weights[index]
    }

    /// Draws an index. Whatever is drawn is the index of a weight that is not zero.
    pub fn sample(&self) -> (index: usize)
        requires
            self.wf(),
        ensures
            index < self.weights().len(),
            self.weights()[index as int] > 0,
    {
        let mut rng = thread_generator();
        sample_weight_table(&self.table, &mut rng)
    }
}

} // verus!
