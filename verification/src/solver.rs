//! Outcome of a constraint solve. The solver itself works on
//! floating-point positions and runs outside the verified engine.

use vstd::prelude::*;

verus! {

/// Outcome of a solve pass.
#[derive(Clone, Copy, Debug, PartialEq, Eq, Structural)]
pub enum SolveStatus {
    Converged,
    MaxIterations,
}

} // verus!
