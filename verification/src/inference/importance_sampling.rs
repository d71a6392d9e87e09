//! Approximate inference by importance sampling: normalized likelihood
//! weighting.

use vstd::prelude::*;
use crate::factor::{Factor, made_by_new, Table};
use crate::inference::ConditionalInferenceEngine;
use crate::inference::tally::{lemma_tallied_prefix, record, tallied, zeros};
use crate::inference::variable_elimination::normalized_from;
use crate::layout::{measure, volume};
use crate::model::directed::DirectedModel;
use crate::samplers::likelihood::LikelihoodWeightedSampler;
use crate::scope::{copy_scope, lemma_covers_within, subset, within};
use crate::util::JeromeError;
use crate::variable::{Assignment, dims, extents, Variable};
use crate::weight::{Arithmetic, Chance, exact};

verus! {

/// Whether `r` is the factor over `scope` made of the tallied `entries`:
/// the table is made into a factor and then normalized.
pub open spec fn estimated<T: Copy, A: Arithmetic<T>>(
    w: &A,
    scope: Seq<Variable>,
    entries: Seq<T>,
    r: Result<Factor<T>, JeromeError>,
) -> bool {
    exists|made: Result<Factor<T>, JeromeError>|
        #[trigger] made_by_new::<T, A>(w, scope, dims(scope), entries, false, made) && match made {
            Ok(g) => normalized_from::<T, A>(w, &g, r),
            Err(e) => r == Err::<Factor<T>, JeromeError>(e),
        }
}

/// The factor over `scope` with the tallied entries `data`, normalized.
pub fn estimate<T: Copy, A: Arithmetic<T>>(scope: Vec<Variable>, shape: Vec<usize>, data: Vec<T>, w: &A) -> (r: Result<
    Factor<T>,
    JeromeError,
>)
    requires
        shape@ == dims(scope@),
        data@.len() == volume(shape@),
        exact::<T, A>(w),
    ensures
        estimated::<T, A>(w, scope@, data@, r),
        r is Ok ==> r->Ok_0.wf() && (r->Ok_0.spec_is_identity() || r->Ok_0.spec_scope() == scope@),
{
    let table = Table::from_shape_vec(shape, data).unwrap();
    let made = Factor::new(scope, table, false, w);
    match made {
        Ok(g) => {
            let r = g.normalize(w);
            proof {
                assert(made_by_new::<T, A>(w, scope@, dims(scope@), data@, false, made) && normalized_from::<T, A>(
                    w,
                    &g,
                    r,
                ));
            }
            r
        },
        Err(e) => {
            proof {
                assert(made_by_new::<T, A>(w, scope@, dims(scope@), data@, false, made));
            }
            Err(e)
        },
    }
}

/// An engine for directed models that estimates the distribution of the
/// queried variables from weighted samples.
pub struct ImportanceSamplingEngine<'a, T, A, C> {
    model: &'a DirectedModel<T>,
    sampler: LikelihoodWeightedSampler<'a, T, A, C>,
    samples: usize,
    w: &'a A,
}

impl<'a, T: Copy, A: Arithmetic<T>, C: Chance<T>> ImportanceSamplingEngine<'a, T, A, C> {
    /// The sampler of the engine.
    pub closed spec fn sampler(&self) -> LikelihoodWeightedSampler<'a, T, A, C> {
        self.sampler
    }

    /// The number of samples that the engine draws for an answer.
    pub closed spec fn samples(&self) -> usize {
        self.samples
    }

    /// The validity of an engine: its sampler is valid and draws from its
    /// model.
    pub closed spec fn wf(&self) -> bool {
        &&& self.sampler.wf()
        &&& self.sampler.model() == *self.model
        &&& self.sampler.arithmetic() == self.w
    }

    /// An engine for `model` given `evidence` that draws `samples` samples
    /// for each answer.
    pub fn new(model: &'a DirectedModel<T>, evidence: &'a Assignment, samples: usize, w: &'a A, chance: &'a C) -> (engine:
        Self)
        requires
            model.wf(),
            model.samplable::<A>(w),
            evidence.wf(),
            exact::<T, A>(w),
        ensures
            engine.wf(),
            engine.samples() == samples,
            engine.sampler().model() == *model,
            engine.sampler().evidence() == *evidence,
            engine.sampler().arithmetic() == w,
    {
        ImportanceSamplingEngine { model, sampler: LikelihoodWeightedSampler::new(model, evidence, w, chance), samples, w }
    }

    /// Whether `r` answers the query for `query` from the weighted samples
    /// `drawn`, each of which the sampler can draw.
    pub open spec fn answers(
        &self,
        query: Seq<Variable>,
        drawn: Seq<(Map<Variable, usize>, T)>,
        r: Result<Factor<T>, JeromeError>,
    ) -> bool {
        &&& drawn.len() == self.samples()
        &&& forall|i: int| 0 <= i < drawn.len() ==> self.sampler().draws((#[trigger] drawn[i]).0, drawn[i].1)
        &&& estimated::<T, A>(
            self.sampler().arithmetic(),
            query,
            tallied::<T, A>(self.sampler().arithmetic(), query, drawn, drawn.len()),
            r,
        )
    }

    /// The distribution of `variables` given the evidence, estimated from
    /// weighted samples: the weight of each sample is added to the entry of
    /// its assignment, and the table is normalized.
    pub fn answer(&self, variables: &Vec<Variable>) -> (r: Result<Factor<T>, JeromeError>)
        requires
            self.wf(),
        ensures
            if !within(variables@, self.sampler().model().order()) {
                r is Err && r->Err_0 is InvalidScope
            } else if volume(dims(variables@)) > usize::MAX {
                r is Err && r->Err_0 is General
            } else {
                exists|drawn: Seq<(Map<Variable, usize>, T)>| #[trigger] self.answers(variables@, drawn, r)
            },
            r is Ok ==> r->Ok_0.wf(),
    {
        let order = self.model.topological_order();
        if !subset(variables, &order) {
            return Err(JeromeError::InvalidScope);
        }
        let scope = copy_scope(variables);
        let shape = extents(&scope);
        let size = match measure(&shape) {
            Some(n) => n,
            None => {
                return Err(JeromeError::General("The table is too large".to_owned()));
            },
        };
        let mut data = zeros(size, self.w);
        let ghost mut drawn: Seq<(Map<Variable, usize>, T)> = Seq::empty();
        let mut i: usize = 0;
        while i < self.samples
            invariant
                self.wf(),
                exact::<T, A>(self.w),
                scope@ == variables@,
                shape@ == dims(scope@),
                within(scope@, self.sampler().model().order()),
                i <= self.samples,
                drawn.len() == i,
                forall|j: int| 0 <= j < i ==> self.sampler().draws((#[trigger] drawn[j]).0, drawn[j].1),
                data@.len() == volume(shape@),
                data@ == tallied::<T, A>(self.w, scope@, drawn, i as nat),
            decreases self.samples - i,
        {
            let s = self.sampler.get_sample();
            let ghost so_far = drawn;
            proof {
                lemma_covers_within(scope@, self.sampler().model().order(), s.0@);
                drawn = so_far.push((s.0@, s.1));
                assert(drawn.take(so_far.len() as int) =~= so_far);
                lemma_tallied_prefix::<T, A>(self.w, scope@, so_far, drawn, i as nat);
            }
            let _ = record(&mut data, &shape, &scope, &s.0, s.1, self.w);
            i += 1;
        }
        let r = estimate(scope, shape, data, self.w);
        proof {
            assert(self.answers(variables@, drawn, r));
        }
        r
    }
}

impl<'a, T: Copy, A: Arithmetic<T>, C: Chance<T>> ConditionalInferenceEngine<T> for ImportanceSamplingEngine<'a, T, A, C> {
    open spec fn ready(&self) -> bool {
        self.wf()
    }

    fn infer(&mut self, variables: &Vec<Variable>) -> (r: Result<Factor<T>, JeromeError>)
        ensures
            *final(self) == *old(self),
            if !within(variables@, old(self).sampler().model().order()) {
                r is Err && r->Err_0 is InvalidScope
            } else if volume(dims(variables@)) > usize::MAX {
                r is Err && r->Err_0 is General
            } else {
                exists|drawn: Seq<(Map<Variable, usize>, T)>| #[trigger] old(self).answers(variables@, drawn, r)
            },
    {
        self.answer(variables)
    }
}

} // verus!
