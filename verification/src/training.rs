//! The settings of a training run.

use crate::expr::Decimal;
use vstd::prelude::*;

verus! {

/// How much data is drawn, how it is cut into batches, and how the losses are weighted.
#[derive(Clone, Copy, Debug, PartialEq, Eq, Structural)]
pub struct TrainingPlan {
    pub num_samples: usize,
    pub num_steps: usize,
    pub num_bits: usize,
    pub batch_size: usize,
    pub epochs: usize,
    pub learning_rate: Decimal,
    pub alpha: Decimal,
    pub beta: Decimal,
}

impl TrainingPlan {
    /// The settings of the probe.
    pub fn new() -> (plan: TrainingPlan)
        ensures
            plan.num_samples == 5000,
            plan.num_steps == 20,
            plan.num_bits == 64,
            plan.batch_size == 512,
            plan.epochs == 150,
            plan.learning_rate == (Decimal { digits: 2, places: 2 }),
            plan.alpha == (Decimal { digits: 5, places: 1 }),
            plan.beta == (Decimal { digits: 5, places: 1 }),
    {
        TrainingPlan {
            num_samples: 5000,
            num_steps: 20,
            num_bits: 64,
            batch_size: 512,
            epochs: 150,
            learning_rate: Decimal { digits: 2, places: 2 },
            alpha: Decimal { digits: 5, places: 1 },
            beta: Decimal { digits: 5, places: 1 },
        }
    }
}

/// Whether the losses of an epoch, counted from 1, are printed: those of the first one and of
/// every tenth.
pub fn prints_epoch(epoch: usize) -> (prints: bool)
    ensures
        prints == (epoch % 10 == 0 || epoch == 1),
{
    epoch % 10 == 0 || epoch == 1
}

} // verus!
