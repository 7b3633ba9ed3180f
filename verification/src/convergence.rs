//! The modes of convergence of a sequence of random variables.

use vstd::prelude::*;

verus! {

/// Types of probabilistic convergence.
#[derive(Debug, Clone, Copy, PartialEq, Eq, Structural)]
pub enum ConvergenceType {
    AlmostSure,
    InProbability,
    InLp { p: u32 },
    InDistribution,
}

} // verus!
