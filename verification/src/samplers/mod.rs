//! Samplers: they draw assignments at random from a model.

pub mod forward;
pub mod gibbs;
pub mod likelihood;

use vstd::prelude::*;
use crate::variable::Assignment;

pub use forward::ForwardSampler;
pub use gibbs::GibbsSampler;
pub use likelihood::LikelihoodWeightedSampler;

verus! {

/// A sampler whose draws may depend on the draws before.
pub trait Sampler {
    /// Whether the sampler is in a state from which it can draw.
    spec fn ready(&self) -> bool;

    /// Whether the sampler is in a state that one draw can bring it to from
    /// the state of `before`.
    spec fn follows(&self, before: &Self) -> bool;

    /// Draws an assignment.
    fn sample(&mut self) -> (a: Assignment)
        requires
            old(self).ready(),
        ensures
            final(self).ready(),
            final(self).follows(old(self)),
            a.wf(),
    ;
}

/// Whether each of the states `trail` of a sampler but the first follows
/// the one before it: the sampler went through them, one draw at a time.
pub open spec fn chained<S: Sampler>(trail: Seq<S>) -> bool {
    forall|k: int| 0 <= k < trail.len() - 1 ==> (#[trigger] trail[k + 1]).follows(&trail[k])
}

/// A sampler whose draws do not depend on each other.
pub trait IndependentSampler {
    /// Whether the sampler can draw.
    spec fn ready(&self) -> bool;

    /// Draws an assignment.
    fn ind_sample(&self) -> (a: Assignment)
        requires
            self.ready(),
        ensures
            a.wf(),
    ;
}

/// An assignment drawn, and its weight.
pub struct WeightedSample<T>(pub Assignment, pub T);

/// A sampler of weighted assignments whose draws may depend on the draws
/// before.
pub trait WeightedSampler<T> {
    /// Whether the sampler is in a state from which it can draw.
    spec fn ready(&self) -> bool;

    /// Draws a weighted assignment.
    fn weighted_sample(&mut self) -> (s: WeightedSample<T>)
        requires
            old(self).ready(),
        ensures
            final(self).ready(),
            s.0.wf(),
    ;
}

/// A sampler of weighted assignments whose draws do not depend on each
/// other.
pub trait IndependentWeightedSampler<T>: WeightedSampler<T> {
    /// Draws a weighted assignment.
    fn ind_weighted_sample(&self) -> (s: WeightedSample<T>)
        requires
            self.ready(),
        ensures
            s.0.wf(),
    ;
}

} // verus!
