//! Inference engines: they answer queries for the distribution of some
//! variables of a model, given evidence.

pub mod importance_sampling;
pub mod mcmc;
pub mod order;
pub mod tally;
pub mod uniqueness;
pub mod variable_elimination;

use vstd::prelude::*;
use crate::factor::Factor;
use crate::util::JeromeError;
use crate::variable::{Assignment, Variable};

pub use importance_sampling::ImportanceSamplingEngine;
pub use mcmc::McmcEngine;
pub use variable_elimination::VariableEliminationEngine;

verus! {

/// An engine that answers queries for the joint distribution of some
/// variables given the evidence that the engine was made with.
pub trait ConditionalInferenceEngine<T: Copy> {
    /// Whether the engine is in a state in which it can answer.
    spec fn ready(&self) -> bool;

    /// The joint distribution of `variables` given the evidence.
    fn infer(&mut self, variables: &Vec<Variable>) -> (r: Result<Factor<T>, JeromeError>)
        requires
            old(self).ready(),
        ensures
            final(self).ready(),
            r is Ok ==> r->Ok_0.wf(),
    ;
}

/// An engine that answers queries for the most probable assignment to some
/// variables given the evidence that the engine was made with.
pub trait MapInferenceEngine {
    /// The most probable assignment to `variables` given the evidence.
    fn infer(&self, variables: &Vec<Variable>) -> Result<Assignment, JeromeError>;
}

} // verus!
