//! Approximate inference by Markov chain Monte Carlo.

use vstd::prelude::*;
use crate::factor::Factor;
use crate::inference::ConditionalInferenceEngine;
use crate::inference::importance_sampling::{estimate, estimated};
use crate::inference::tally::{lemma_tallied_prefix, record, tallied, zeros};
use crate::layout::{measure, volume};
use crate::samplers::{chained, Sampler};
use crate::scope::copy_scope;
use crate::util::JeromeError;
use crate::variable::{covers, dims, extents, Variable};
use crate::weight::{Arithmetic, exact, spec_unit, unit};

verus! {

/// An engine that estimates the distribution of the queried variables from
/// the draws of a sampler, each of which counts once.
pub struct McmcEngine<'a, T, S: Sampler, A> {
    sampler: &'a mut S,
    samples: usize,
    w: &'a A,
    one: T,
}

impl<'a, T: Copy, S: Sampler, A: Arithmetic<T>> McmcEngine<'a, T, S, A> {
    /// The number of samples that the engine draws for an answer.
    pub closed spec fn samples(&self) -> usize {
        self.samples
    }

    /// The arithmetic of the engine.
    pub closed spec fn arithmetic(&self) -> &A {
        self.w
    }

    /// The sampler that the engine draws from, in the state that it is in.
    pub closed spec fn chain(&self) -> S {
        *self.sampler
    }

    /// The validity of an engine: its sampler can draw, and it holds the
    /// one of its arithmetic, the weight of a draw.
    pub closed spec fn wf(&self) -> bool {
        &&& self.sampler.ready()
        &&& exact::<T, A>(self.w)
        &&& self.one == spec_unit::<T, A>(self.w)
    }

    /// An engine that draws `samples` samples from `sampler` for each
    /// answer. The sampler first makes `burnin` draws that are not
    /// counted.
    pub fn new(sampler: &'a mut S, burnin: usize, samples: usize, w: &'a A) -> (engine: Self)
        requires
            old(sampler).ready(),
            exact::<T, A>(w),
        ensures
            engine.wf(),
            engine.samples() == samples,
            engine.arithmetic() == w,
            exists|trail: Seq<S>|
                #![trigger chained(trail)]
                trail.len() == burnin + 1 && trail[0] == *old(sampler) && trail[burnin as int] == engine.chain()
                    && chained(trail),
    {
        let ghost mut trail: Seq<S> = seq![*sampler];
        let mut i: usize = 0;
        while i < burnin
            invariant
                sampler.ready(),
                i <= burnin,
                trail.len() == i + 1,
                trail[0] == *old(sampler),
                trail[i as int] == *sampler,
                chained(trail),
            decreases burnin - i,
        {
            let ghost before = trail;
            let _ = sampler.sample();
            proof {
                trail = before.push(*sampler);
                assert forall|k: int| 0 <= k < trail.len() - 1 implies (#[trigger] trail[k + 1]).follows(&trail[k]) by {
                    if k < i {
                        assert(before[k + 1].follows(&before[k]));
                    }
                }
            }
            i += 1;
        }
        let engine = McmcEngine { sampler, samples, w, one: unit(w) };
        proof {
            assert(trail.len() == burnin + 1 && trail[0] == *old(sampler) && trail[burnin as int] == engine.chain()
                && chained(trail));
        }
        engine
    }
}

/// Whether each of `drawn` counts once.
pub open spec fn counted_once<T, A: Arithmetic<T>>(w: &A, drawn: Seq<(Map<Variable, usize>, T)>) -> bool {
    forall|i: int| 0 <= i < drawn.len() ==> (#[trigger] drawn[i]).1 == spec_unit::<T, A>(w)
}

impl<'a, T: Copy, S: Sampler, A: Arithmetic<T>> McmcEngine<'a, T, S, A> {
    /// Whether `r` is what the engine makes of the draws `drawn` for the
    /// query for `query`. Each draw counts once. The engine stops at the
    /// first draw that leaves a queried variable without a state, and the
    /// query has no answer. If every draw gives each queried variable a
    /// state, the engine makes as many draws as it was told to, adds one to
    /// the entry of the assignment of each, and normalizes the table.
    pub open spec fn tallies(
        &self,
        query: Seq<Variable>,
        drawn: Seq<(Map<Variable, usize>, T)>,
        r: Result<Factor<T>, JeromeError>,
    ) -> bool {
        &&& drawn.len() <= self.samples()
        &&& counted_once::<T, A>(self.arithmetic(), drawn)
        &&& forall|i: int| 0 <= i < drawn.len() - 1 ==> covers((#[trigger] drawn[i]).0, query)
        &&& if forall|i: int| 0 <= i < drawn.len() ==> covers((#[trigger] drawn[i]).0, query) {
            &&& drawn.len() == self.samples()
            &&& estimated::<T, A>(
                self.arithmetic(),
                query,
                tallied::<T, A>(self.arithmetic(), query, drawn, drawn.len()),
                r,
            )
        } else {
            r is Err && r->Err_0 is InvalidScope
        }
    }

    /// Whether `r` answers the query for `query` from draws of the sampler.
    /// A table over the queried variables that is too large to be held
    /// cannot be counted in.
    pub open spec fn answers(&self, query: Seq<Variable>, r: Result<Factor<T>, JeromeError>) -> bool {
        if volume(dims(query)) > usize::MAX {
            r is Err && r->Err_0 is General
        } else {
            exists|drawn: Seq<(Map<Variable, usize>, T)>| #[trigger] self.tallies(query, drawn, r)
        }
    }

    /// Whether the sampler went from its state in `before` to its state in
    /// this engine by draws, one for each sample that `r` is made of: no
    /// more than the engine was told to make, and all of them where `r` is
    /// an answer.
    pub open spec fn drew_since(&self, before: &Self, r: Result<Factor<T>, JeromeError>) -> bool {
        exists|trail: Seq<S>|
            #![trigger chained(trail)]
            {
                &&& 1 <= trail.len() <= before.samples() + 1
                &&& trail[0] == before.chain()
                &&& trail.last() == self.chain()
                &&& chained(trail)
                &&& r is Ok ==> trail.len() == before.samples() + 1
            }
    }

    /// The distribution of `variables`, estimated from the draws of the
    /// sampler: each draw adds one to the entry of its assignment, and the
    /// table is normalized. Every draw has to give a state to each of
    /// `variables`.
    pub fn answer(&mut self, variables: &Vec<Variable>) -> (r: Result<Factor<T>, JeromeError>)
        requires
            old(self).wf(),
        ensures
            final(self).wf(),
            final(self).samples() == old(self).samples(),
            final(self).arithmetic() == old(self).arithmetic(),
            old(self).answers(variables@, r),
            final(self).drew_since(old(self), r),
            r is Ok ==> r->Ok_0.wf(),
    {
        let ghost mut trail: Seq<S> = seq![*self.sampler];
        proof {
            assert(chained(trail));
        }
        let scope = copy_scope(variables);
        let shape = extents(&scope);
        let size = match measure(&shape) {
            Some(n) => n,
            None => {
                proof {
                    assert(trail.last() == self.chain());
                }
                return Err(JeromeError::General("The table is too large".to_owned()));
            },
        };
        let one = self.one;
        let mut data = zeros(size, self.w);
        let ghost mut drawn: Seq<(Map<Variable, usize>, T)> = Seq::empty();
        let mut i: usize = 0;
        while i < self.samples
            invariant
                self.wf(),
                self.samples == old(self).samples,
                self.w == old(self).w,
                self.one == old(self).one,
                exact::<T, A>(self.w),
                one == spec_unit::<T, A>(self.w),
                scope@ == variables@,
                shape@ == dims(scope@),
                i <= self.samples,
                volume(dims(variables@)) <= usize::MAX,
                trail.len() == i + 1,
                trail[0] == old(self).chain(),
                trail[i as int] == *self.sampler,
                chained(trail),
                drawn.len() == i,
                counted_once::<T, A>(self.w, drawn),
                forall|j: int| 0 <= j < i ==> covers((#[trigger] drawn[j]).0, scope@),
                data@.len() == volume(shape@),
                data@ == tallied::<T, A>(self.w, scope@, drawn, i as nat),
            decreases self.samples - i,
        {
            let ghost went = trail;
            let a = self.sampler.sample();
            let ghost so_far = drawn;
            proof {
                trail = went.push(*self.sampler);
                assert forall|k: int| 0 <= k < trail.len() - 1 implies (#[trigger] trail[k + 1]).follows(&trail[k]) by {
                    if k < i {
                        assert(went[k + 1].follows(&went[k]));
                    }
                }
                assert(chained(trail));
                drawn = so_far.push((a@, one));
                assert(drawn.take(so_far.len() as int) =~= so_far);
                lemma_tallied_prefix::<T, A>(self.w, scope@, so_far, drawn, i as nat);
            }
            if !record(&mut data, &shape, &scope, &a, one, self.w) {
                proof {
                    assert(!covers(drawn[i as int].0, variables@));
                    assert(old(self).tallies(variables@, drawn, Err(JeromeError::InvalidScope)));
                    assert(trail.last() == self.chain() && trail.len() <= old(self).samples() + 1);
                    assert(trail[0] == old(self).chain() && chained(trail));
                    assert(self.drew_since(old(self), Err(JeromeError::InvalidScope)));
                }
                return Err(JeromeError::InvalidScope);
            }
            i += 1;
        }
        let r = estimate(scope, shape, data, self.w);
        proof {
            assert(drawn.len() == old(self).samples());
            assert(old(self).tallies(variables@, drawn, r));
            assert(trail.last() == self.chain() && trail.len() == old(self).samples() + 1);
        }
        r
    }
}

impl<'a, T: Copy, S: Sampler, A: Arithmetic<T>> ConditionalInferenceEngine<T> for McmcEngine<'a, T, S, A> {
    open spec fn ready(&self) -> bool {
        self.wf()
    }

    fn infer(&mut self, variables: &Vec<Variable>) -> (r: Result<Factor<T>, JeromeError>)
        ensures
            final(self).samples() == old(self).samples(),
            final(self).arithmetic() == old(self).arithmetic(),
            old(self).answers(variables@, r),
            final(self).drew_since(old(self), r),
    {
        self.answer(variables)
    }
}

} // verus!
