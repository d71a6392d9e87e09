//! Likelihood-weighted sampling from a directed model given evidence.

use vstd::prelude::*;
use crate::factor::{conditional_on, covers_but, distributes, Factor};
use crate::model::directed::{DirectedModel, families, family};
use crate::samplers::{IndependentWeightedSampler, WeightedSample, WeightedSampler};
use crate::variable::{Assignment, covers, Variable};
use crate::weight::{Arithmetic, Chance, exact, product, sampled, spec_product, spec_unit, unit};

verus! {

/// The assignment and the weight that a likelihood-weighted walk over the
/// first `n` variables makes of the draws `draws`. A variable with
/// evidence takes the state of the evidence, and the weight is multiplied
/// by the entry of its factor; any other variable takes the state that its
/// factor samples for its draw.
pub open spec fn weighted<T: Copy, A: Arithmetic<T>>(
    w: &A,
    order: Seq<Variable>,
    factors: Seq<Factor<T>>,
    evidence: Map<Variable, usize>,
    draws: Seq<T>,
    n: nat,
) -> (Map<Variable, usize>, T)
    decreases n,
{
    if n == 0 {
        (Map::empty(), spec_unit::<T, A>(w))
    } else {
        let before = weighted::<T, A>(w, order, factors, evidence, draws, (n - 1) as nat);
        let v = order[n - 1];
        if evidence.contains_key(v) {
            let a = before.0.insert(v, evidence[v]);
            (a, spec_product::<T, A>(w, before.1, factors[n - 1].at(a)))
        } else {
            (
                before.0.insert(v, sampled::<T, A>(w, conditional_on(&factors[n - 1], v, before.0), draws[n - 1]) as usize),
                before.1,
            )
        }
    }
}

/// A likelihood-weighted walk does not depend on the draws that come after
/// it.
pub proof fn lemma_weighted_prefix<T: Copy, A: Arithmetic<T>>(
    w: &A,
    order: Seq<Variable>,
    factors: Seq<Factor<T>>,
    evidence: Map<Variable, usize>,
    draws: Seq<T>,
    longer: Seq<T>,
    n: nat,
)
    requires
        n <= draws.len(),
        draws.len() <= longer.len(),
        longer.take(draws.len() as int) == draws,
    ensures
        weighted::<T, A>(w, order, factors, evidence, draws, n) == weighted::<T, A>(w, order, factors, evidence, longer, n),
    decreases n,
{
    if n > 0 {
        lemma_weighted_prefix::<T, A>(w, order, factors, evidence, draws, longer, (n - 1) as nat);
        assert(longer.take(draws.len() as int)[n - 1] == longer[n - 1]);
    }
}

/// A sampler for directed models given evidence. It walks the variables in
/// topological order, fixes every variable with evidence to the state of
/// the evidence, and draws every other variable from its factor.
pub struct LikelihoodWeightedSampler<'a, T, A, C> {
    model: &'a DirectedModel<T>,
    evidence: &'a Assignment,
    w: &'a A,
    chance: &'a C,
}

impl<'a, T: Copy, A: Arithmetic<T>, C: Chance<T>> LikelihoodWeightedSampler<'a, T, A, C> {
    /// The model that the sampler draws from.
    pub closed spec fn model(&self) -> DirectedModel<T> {
        *self.model
    }

    /// The evidence.
    pub closed spec fn evidence(&self) -> Assignment {
        *self.evidence
    }

    /// The arithmetic of the sampler.
    pub closed spec fn arithmetic(&self) -> &A {
        self.w
    }

    /// The validity of a sampler: its model and its evidence are valid, and
    /// every factor of the model gives its variable a distribution.
    pub open spec fn wf(&self) -> bool {
        &&& self.model().wf()
        &&& self.model().samplable::<A>(self.arithmetic())
        &&& self.evidence().wf()
        &&& exact::<T, A>(self.arithmetic())
    }

    /// Whether the sampler can draw the assignment `a` with the weight `x`:
    /// they are the outcome of a likelihood-weighted walk over all
    /// variables for some draws.
    pub open spec fn draws(&self, a: Map<Variable, usize>, x: T) -> bool {
        exists|draws: Seq<T>|
            draws.len() == self.model().order().len() && (a, x) == #[trigger] weighted::<T, A>(
                self.arithmetic(),
                self.model().order(),
                self.model().factors(),
                self.evidence()@,
                draws,
                self.model().order().len(),
            )
    }

    /// A sampler for `model` given `evidence`.
    pub fn new(model: &'a DirectedModel<T>, evidence: &'a Assignment, w: &'a A, chance: &'a C) -> (s: Self)
        requires
            model.wf(),
            model.samplable::<A>(w),
            evidence.wf(),
            exact::<T, A>(w),
        ensures
            s.wf(),
            s.model() == *model,
            s.evidence() == *evidence,
            s.arithmetic() == w,
    {
        LikelihoodWeightedSampler { model, evidence, w, chance }
    }

    /// Draws a full assignment that agrees with the evidence, and its
    /// weight.
    pub fn get_sample(&self) -> (s: WeightedSample<T>)
        requires
            self.wf(),
        ensures
            s.0.wf(),
            self.draws(s.0@, s.1),
            covers(s.0@, self.model().order()),
            forall|v: Variable| #[trigger] s.0@.contains_key(v) <==> self.model().order().contains(v),
            forall|j: int|
                0 <= j < self.model().order().len() && self.evidence()@.contains_key(#[trigger] self.model().order()[j])
                    ==> s.0@[self.model().order()[j]] == self.evidence()@[self.model().order()[j]],
    {
        let mut a = Assignment::new();
        let mut x = unit(self.w);
        let ghost mut draws: Seq<T> = Seq::empty();
        let n = self.model.num_variables();
        let mut i: usize = 0;
        proof {
            self.model.lemma_wf();
        }
        while i < n
            invariant
                self.wf(),
                families(self.model().order(), self.model().factors()),
                self.model().order().no_duplicates(),
                n == self.model().order().len(),
                i <= n,
                a.wf(),
                draws.len() == i,
                (a@, x) == weighted::<T, A>(
                    self.arithmetic(),
                    self.model().order(),
                    self.model().factors(),
                    self.evidence()@,
                    draws,
                    i as nat,
                ),
                forall|v: Variable| #[trigger] a@.contains_key(v) <==> self.model().order().take(i as int).contains(v),
                forall|j: int|
                    0 <= j < i && self.evidence()@.contains_key(#[trigger] self.model().order()[j]) ==> a@[self.model().order()[j]]
                        == self.evidence()@[self.model().order()[j]],
            decreases n - i,
        {
            let var = self.model.variable(i);
            let cpd = self.model.factor(i);
            let ghost order = self.model().order();
            let ghost seen = order.take(i as int);
            let ghost next = order.take(i + 1);
            let ghost so_far = draws;
            proof {
                assert(family(order, i as int, cpd));
                if seen.contains(var) {
                    let k = choose|k: int| 0 <= k < seen.len() && seen[k] == var;
                    assert(order[k] == order[i as int]);
                }
                assert forall|v: Variable| next.contains(v) <==> seen.contains(v) || v == var by {
                    if seen.contains(v) {
                        let k = choose|k: int| 0 <= k < seen.len() && seen[k] == v;
                        assert(next[k] == v);
                    }
                    if v == var {
                        assert(next[i as int] == v);
                    }
                    if next.contains(v) {
                        let k = choose|k: int| 0 <= k < next.len() && next[k] == v;
                        if k < i {
                            assert(seen[k] == v);
                        }
                    }
                }
            }
            match self.evidence.get(&var) {
                Some(state) => {
                    let _ = a.set(&var, *state);
                    proof {
                        let scope = cpd.spec_scope();
                        assert forall|j: int| 0 <= j < scope.len() implies a@.contains_key(#[trigger] scope[j]) by {
                            assert(scope[j] == order[i as int] || seen.contains(scope[j]));
                        }
                        draws = so_far.push(spec_unit::<T, A>(self.arithmetic()));
                    }
                    x = product(self.w, x, cpd.value(&a).unwrap());
                },
                None => {
                    let draw = self.chance.uniform();
                    proof {
                        let scope = cpd.spec_scope();
                        assert forall|j: int| 0 <= j < scope.len() && scope[j] != var implies a@.contains_key(
                            #[trigger] scope[j],
                        ) by {
                            assert(scope[j] == order[i as int] || seen.contains(scope[j]));
                        }
                        draws = so_far.push(draw);
                        a.lemma_admissible();
                        assert(distributes::<T, A>(self.arithmetic(), &self.model().factors()[i as int], var));
                        assert(covers_but(a@, scope, var));
                    }
                    let state = cpd.sample_for(&var, &a, draw, self.w).unwrap();
                    let _ = a.set(&var, state);
                },
            }
            proof {
                assert(draws.take(so_far.len() as int) =~= so_far);
                lemma_weighted_prefix::<T, A>(
                    self.arithmetic(),
                    order,
                    self.model().factors(),
                    self.evidence()@,
                    so_far,
                    draws,
                    i as nat,
                );
                assert forall|j: int| 0 <= j < i + 1 && self.evidence()@.contains_key(#[trigger] order[j]) implies a@[order[j]]
                    == self.evidence()@[order[j]] by {
                    if j < i {
                        assert(seen[j] == order[j]);
                        assert(seen.contains(order[j]));
                        assert(order[j] != var);
                    }
                }
            }
            i += 1;
        }
        proof {
            assert(self.model().order().take(i as int) == self.model().order());
            assert forall|j: int| 0 <= j < self.model().order().len() implies a@.contains_key(
                #[trigger] self.model().order()[j],
            ) by {
                assert(self.model().order().contains(self.model().order()[j]));
            }
        }
        WeightedSample(a, x)
    }
}

impl<'a, T: Copy, A: Arithmetic<T>, C: Chance<T>> WeightedSampler<T> for LikelihoodWeightedSampler<'a, T, A, C> {
    open spec fn ready(&self) -> bool {
        self.wf()
    }

    fn weighted_sample(&mut self) -> (s: WeightedSample<T>)
        ensures
            old(self).draws(s.0@, s.1),
            *final(self) == *old(self),
    {
        self.get_sample()
    }
}

impl<'a, T: Copy, A: Arithmetic<T>, C: Chance<T>> IndependentWeightedSampler<T> for LikelihoodWeightedSampler<'a, T, A, C> {
    fn ind_weighted_sample(&self) -> (s: WeightedSample<T>)
        ensures
            self.draws(s.0@, s.1),
    {
        self.get_sample()
    }
}

} // verus!
