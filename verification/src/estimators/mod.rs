//! Estimators: they estimate the parameters of a factor or of a model from
//! a dataset of full assignments.

pub mod mle;

use vstd::prelude::*;
use crate::util::JeromeError;
use crate::variable::Assignment;

pub use mle::LocalMLEstimator;
pub use mle::ModelMLEstimator;

verus! {

/// Whether every assignment of a dataset is valid.
pub open spec fn sound(dataset: Seq<Assignment>) -> bool {
    forall|i: int| 0 <= i < dataset.len() ==> (#[trigger] dataset[i]).wf()
}

/// The ability to estimate parameters from a dataset.
pub trait Estimator<R> {
    /// Whether the estimator is in a state in which it can estimate.
    spec fn ready(&self) -> bool;

    /// The parameters estimated from `dataset`.
    fn estimate(&mut self, dataset: &Vec<Assignment>) -> (r: Result<R, JeromeError>)
        requires
            old(self).ready(),
            sound(dataset@),
        ensures
            final(self).ready(),
    ;
}

} // verus!
