//! The optimization strategies a workflow's parameters can be tuned with.
//! The numeric optimizers themselves work in floating point and live with
//! the caller.

use vstd::prelude::*;

verus! {

/// An optimization strategy.
#[derive(Clone, Copy, Debug, PartialEq, Eq, Structural)]
pub enum OptimizationStrategy {
    SCGO,
    GradientDescent,
    EvolutionaryAlgorithm,
    ParticleSwarm,
}

impl OptimizationStrategy {
    /// Whether an optimizer exists for the strategy: SCGO and gradient
    /// descent do, the others do not yet.
    pub fn is_implemented(&self) -> (r: bool)
        ensures
            r == (*self == OptimizationStrategy::SCGO || *self == OptimizationStrategy::GradientDescent),
    {
        match self {
            OptimizationStrategy::SCGO => true,
            OptimizationStrategy::GradientDescent => true,
            _ => false,
        }
    }
}

} // verus!
