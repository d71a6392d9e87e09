//! Forward sampling from a directed model.

use vstd::prelude::*;
use crate::factor::{conditional_on, covers_but, distributes, Factor};
use crate::model::directed::{DirectedModel, families, family};
use crate::samplers::{IndependentSampler, Sampler};
use crate::variable::{Assignment, covers, Variable};
use crate::weight::{Arithmetic, Chance, exact, sampled};

verus! {

/// The assignment that a forward walk over the first `n` variables makes of
/// the draws `draws`: each variable in turn takes the state that its factor
/// samples for its draw, given the states of the variables before it.
pub open spec fn drawn<T: Copy, A: Arithmetic<T>>(
    w: &A,
    order: Seq<Variable>,
    factors: Seq<Factor<T>>,
    draws: Seq<T>,
    n: nat,
) -> Map<Variable, usize>
    decreases n,
{
    if n == 0 {
        Map::empty()
    } else {
        let before = drawn::<T, A>(w, order, factors, draws, (n - 1) as nat);
        before.insert(order[n - 1], sampled::<T, A>(w, conditional_on(&factors[n - 1], order[n - 1], before), draws[n - 1]) as usize)
    }
}

/// A forward walk does not depend on the draws that come after it.
pub proof fn lemma_drawn_prefix<T: Copy, A: Arithmetic<T>>(
    w: &A,
    order: Seq<Variable>,
    factors: Seq<Factor<T>>,
    draws: Seq<T>,
    longer: Seq<T>,
    n: nat,
)
    requires
        n <= draws.len(),
        draws.len() <= longer.len(),
        longer.take(draws.len() as int) == draws,
    ensures
        drawn::<T, A>(w, order, factors, draws, n) == drawn::<T, A>(w, order, factors, longer, n),
    decreases n,
{
    if n > 0 {
        lemma_drawn_prefix::<T, A>(w, order, factors, draws, longer, (n - 1) as nat);
        assert(longer.take(draws.len() as int)[n - 1] == longer[n - 1]);
    }
}

/// A sampler for directed models that draws each variable in topological
/// order from its factor, given the states drawn for its parents.
pub struct ForwardSampler<'a, T, A, C> {
    model: &'a DirectedModel<T>,
    w: &'a A,
    chance: &'a C,
}

impl<'a, T: Copy, A: Arithmetic<T>, C: Chance<T>> ForwardSampler<'a, T, A, C> {
    /// The model that the sampler draws from.
    pub closed spec fn model(&self) -> DirectedModel<T> {
        *self.model
    }

    /// The arithmetic of the sampler.
    pub closed spec fn arithmetic(&self) -> &A {
        self.w
    }

    /// The validity of a sampler: its model is valid, and every factor of
    /// the model gives its variable a distribution.
    pub open spec fn wf(&self) -> bool {
        &&& self.model().wf()
        &&& self.model().samplable::<A>(self.arithmetic())
        &&& exact::<T, A>(self.arithmetic())
    }

    /// Whether `a` is an assignment that the sampler can draw: the outcome
    /// of a forward walk over all variables for some draws.
    pub open spec fn draws(&self, a: Map<Variable, usize>) -> bool {
        exists|draws: Seq<T>|
            draws.len() == self.model().order().len() && a == #[trigger] drawn::<T, A>(
                self.arithmetic(),
                self.model().order(),
                self.model().factors(),
                draws,
                self.model().order().len(),
            )
    }

    /// A sampler for `model`.
    pub fn new(model: &'a DirectedModel<T>, w: &'a A, chance: &'a C) -> (s: Self)
        requires
            model.wf(),
            model.samplable::<A>(w),
            exact::<T, A>(w),
        ensures
            s.wf(),
            s.model() == *model,
            s.arithmetic() == w,
    {
        ForwardSampler { model, w, chance }
    }

    /// Draws a full assignment.
    pub fn get_sample(&self) -> (a: Assignment)
        requires
            self.wf(),
        ensures
            a.wf(),
            self.draws(a@),
            covers(a@, self.model().order()),
            forall|v: Variable| #[trigger] a@.contains_key(v) <==> self.model().order().contains(v),
    {
        let mut a = Assignment::new();
        let ghost mut draws: Seq<T> = Seq::empty();
        let n = self.model.num_variables();
        let mut i: usize = 0;
        proof {
            self.model.lemma_wf();
        }
        while i < n
            invariant
                self.wf(),
                families(self.model().order(), self.model().factors()),
                self.model().order().no_duplicates(),
                n == self.model().order().len(),
                i <= n,
                a.wf(),
                draws.len() == i,
                a@ == drawn::<T, A>(self.arithmetic(), self.model().order(), self.model().factors(), draws, i as nat),
                forall|v: Variable| #[trigger] a@.contains_key(v) <==> self.model().order().take(i as int).contains(v),
            decreases n - i,
        {
            let var = self.model.variable(i);
            let cpd = self.model.factor(i);
            let draw = self.chance.uniform();
            let ghost order = self.model().order();
            let ghost seen = order.take(i as int);
            proof {
                assert(family(order, i as int, cpd));
                let scope = cpd.spec_scope();
                assert forall|j: int| 0 <= j < scope.len() && scope[j] != var implies a@.contains_key(#[trigger] scope[j]) by {
                    assert(scope[j] == order[i as int] || seen.contains(scope[j]));
                }
                if seen.contains(var) {
                    let x = choose|x: int| 0 <= x < seen.len() && seen[x] == var;
                    assert(order[x] == order[i as int]);
                }
                a.lemma_admissible();
                assert(distributes::<T, A>(self.arithmetic(), &self.model().factors()[i as int], var));
                assert(covers_but(a@, scope, var));
            }
            let state = cpd.sample_for(&var, &a, draw, self.w).unwrap();
            let _ = a.set(&var, state);
            proof {
                let longer = draws.push(draw);
                assert(longer.take(draws.len() as int) =~= draws);
                lemma_drawn_prefix::<T, A>(self.arithmetic(), order, self.model().factors(), draws, longer, i as nat);
                draws = longer;
                let next = order.take(i + 1);
                assert forall|v: Variable| #[trigger] a@.contains_key(v) <==> next.contains(v) by {
                    if seen.contains(v) {
                        let x = choose|x: int| 0 <= x < seen.len() && seen[x] == v;
                        assert(next[x] == v);
                    }
                    if v == var {
                        assert(next[i as int] == v);
                    }
                    if next.contains(v) {
                        let x = choose|x: int| 0 <= x < next.len() && next[x] == v;
                        if x < i {
                            assert(seen[x] == v);
                        }
                    }
                }
            }
            i += 1;
        }
        proof {
            assert(self.model().order().take(i as int) == self.model().order());
            assert forall|j: int| 0 <= j < self.model().order().len() implies a@.contains_key(
                #[trigger] self.model().order()[j],
            ) by {
                assert(self.model().order().contains(self.model().order()[j]));
            }
        }
        a
    }
}

impl<'a, T: Copy, A: Arithmetic<T>, C: Chance<T>> Sampler for ForwardSampler<'a, T, A, C> {
    open spec fn ready(&self) -> bool {
        self.wf()
    }

    open spec fn follows(&self, before: &Self) -> bool {
        *self == *before
    }

    fn sample(&mut self) -> (a: Assignment)
        ensures
            old(self).draws(a@),
            *final(self) == *old(self),
    {
        self.get_sample()
    }
}

impl<'a, T: Copy, A: Arithmetic<T>, C: Chance<T>> IndependentSampler for ForwardSampler<'a, T, A, C> {
    open spec fn ready(&self) -> bool {
        self.wf()
    }

    fn ind_sample(&self) -> (a: Assignment)
        ensures
            self.draws(a@),
    {
        self.get_sample()
    }
}

} // verus!
