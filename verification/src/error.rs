//! The conditions under which the library gives up.

use vstd::prelude::*;

verus! {

/// Why an operation of this crate did not produce its result.
#[derive(Debug, Clone, Copy, PartialEq, Eq, Structural)]
pub enum CoverError {
    /// An instance breaks one of the rules every instance must obey.
    MalformedInstance,
    /// No fresh subset turned up within the number of draws allowed.
    GenerationExhausted,
    /// The solver reported that no assignment satisfies the model.
    InfeasibleModel,
    /// The solver could not complete, or answered with an assignment that
    /// does not fit the model.
    SolverFailure,
}

} // verus!
