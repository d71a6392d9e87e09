//! Gibbs sampling: a Markov chain over full assignments that draws one
//! variable at a time from its distribution given all the others.

use vstd::prelude::*;
use crate::factor::{Factor, valid};
use crate::inference::variable_elimination::alike;
use crate::model::directed::{DirectedModel, family};
use crate::model::undirected::UndirectedModel;
use crate::samplers::Sampler;
use crate::samplers::likelihood::{LikelihoodWeightedSampler, weighted};
use crate::scope::{free_of, lemma_unassigned, unassigned, within};
use crate::variable::{admissible, Assignment, covers, Variable};
use crate::weight::{
    Arithmetic, Chance, exact, inverse_cdf, product, sampled, spec_nil, spec_product, spec_same,
    spec_unit, total, unit,
};

verus! {

/// `rand::random_range` on the range from 0 up to `states`, which may not
/// be empty: a state chosen at random, below `states`.
#[verifier::external_body]
fn random_state(states: usize) -> (state: usize)
    requires
        states >= 1,
    ensures
        state < states,
{
    rand::random_range(0..states)
}

/// The product of the entries under `a` of those of the first `n` of
/// `factors` that hold `v`, taken in order, starting from one.
pub open spec fn local<T: Copy, A: Arithmetic<T>>(
    w: &A,
    factors: Seq<Factor<T>>,
    v: Variable,
    a: Map<Variable, usize>,
    n: nat,
) -> T
    decreases n,
{
    if n == 0 {
        spec_unit::<T, A>(w)
    } else if factors[n - 1].spec_scope().contains(v) {
        spec_product::<T, A>(w, local::<T, A>(w, factors, v, a, (n - 1) as nat), factors[n - 1].at(a))
    } else {
        local::<T, A>(w, factors, v, a, (n - 1) as nat)
    }
}

/// The weight of each state of `v` given the states that `a` gives the
/// other variables: the product of the entries of the factors that hold
/// `v`. Divided by their sum, the weights are the distribution of `v`
/// given all other variables, which is what the product of those factors,
/// each reduced by the other states, holds.
pub open spec fn local_weights<T: Copy, A: Arithmetic<T>>(
    w: &A,
    factors: Seq<Factor<T>>,
    v: Variable,
    a: Map<Variable, usize>,
) -> Seq<T> {
    Seq::new(
        v.spec_cardinality() as nat,
        |state: int| local::<T, A>(w, factors, v, a.insert(v, state as usize), factors.len()),
    )
}

/// The assignment `a` with `v` drawn anew for the draw `draw`. Weights that
/// sum to zero give no distribution, and `v` keeps its state.
pub open spec fn resampled<T: Copy, A: Arithmetic<T>>(
    w: &A,
    factors: Seq<Factor<T>>,
    a: Map<Variable, usize>,
    v: Variable,
    draw: T,
) -> Map<Variable, usize> {
    let weights = local_weights::<T, A>(w, factors, v, a);
    if spec_same::<T, A>(w, total::<T, A>(w, weights), spec_nil::<T, A>(w)) {
        a
    } else {
        a.insert(v, sampled::<T, A>(w, weights, draw) as usize)
    }
}

/// The assignment `a` after the first `n` of the variables `free` have been
/// drawn anew, one after another, for the draws `draws`.
pub open spec fn swept<T: Copy, A: Arithmetic<T>>(
    w: &A,
    factors: Seq<Factor<T>>,
    free: Seq<Variable>,
    a: Map<Variable, usize>,
    draws: Seq<T>,
    n: nat,
) -> Map<Variable, usize>
    decreases n,
{
    if n == 0 {
        a
    } else {
        resampled::<T, A>(w, factors, swept::<T, A>(w, factors, free, a, draws, (n - 1) as nat), free[n - 1], draws[n - 1])
    }
}

/// A sweep does not depend on the draws that come after it.
pub proof fn lemma_swept_prefix<T: Copy, A: Arithmetic<T>>(
    w: &A,
    factors: Seq<Factor<T>>,
    free: Seq<Variable>,
    a: Map<Variable, usize>,
    draws: Seq<T>,
    longer: Seq<T>,
    n: nat,
)
    requires
        n <= draws.len(),
        draws.len() <= longer.len(),
        longer.take(draws.len() as int) == draws,
    ensures
        swept::<T, A>(w, factors, free, a, draws, n) == swept::<T, A>(w, factors, free, a, longer, n),
    decreases n,
{
    if n > 0 {
        lemma_swept_prefix::<T, A>(w, factors, free, a, draws, longer, (n - 1) as nat);
        assert(longer.take(draws.len() as int)[n - 1] == longer[n - 1]);
    }
}

/// A sweep gives states to the variables that had states, and changes the
/// state of no variable that is not free.
pub proof fn lemma_swept_fixed<T: Copy, A: Arithmetic<T>>(
    w: &A,
    factors: Seq<Factor<T>>,
    free: Seq<Variable>,
    a: Map<Variable, usize>,
    draws: Seq<T>,
    n: nat,
)
    requires
        n <= free.len(),
        forall|j: int| 0 <= j < free.len() ==> a.contains_key(#[trigger] free[j]),
    ensures
        forall|v: Variable| #[trigger] swept::<T, A>(w, factors, free, a, draws, n).contains_key(v) <==> a.contains_key(v),
        forall|v: Variable| !free.contains(v) ==> #[trigger] swept::<T, A>(w, factors, free, a, draws, n)[v] == a[v],
    decreases n,
{
    if n > 0 {
        lemma_swept_fixed::<T, A>(w, factors, free, a, draws, (n - 1) as nat);
        let before = swept::<T, A>(w, factors, free, a, draws, (n - 1) as nat);
        let after = swept::<T, A>(w, factors, free, a, draws, n);
        let x = free[n - 1];
        assert(free.contains(x));
        assert(a.contains_key(x));
        assert(before.contains_key(x));
        assert(after == resampled::<T, A>(w, factors, before, x, draws[n - 1]));
        assert forall|v: Variable| #[trigger] after.contains_key(v) <==> a.contains_key(v) by {
            assert(before.contains_key(v) <==> a.contains_key(v));
        }
        assert forall|v: Variable| !free.contains(v) implies #[trigger] after[v] == a[v] by {
            assert(before[v] == a[v]);
            assert(v != x);
        }
    }
}

/// The product of the entries under `a` of the factors that hold `v`.
fn local_weight<T: Copy, A: Arithmetic<T>>(factors: &Vec<Factor<T>>, v: &Variable, a: &Assignment, w: &A) -> (r: T)
    requires
        a.wf(),
        valid(factors@),
        exact::<T, A>(w),
        forall|i: int| 0 <= i < factors@.len() ==> covers(a@, (#[trigger] factors@[i]).spec_scope()),
    ensures
        r == local::<T, A>(w, factors@, *v, a@, factors@.len()),
{
    let mut p = unit(w);
    let mut i: usize = 0;
    while i < factors.len()
        invariant
            a.wf(),
            valid(factors@),
            exact::<T, A>(w),
            forall|j: int| 0 <= j < factors@.len() ==> covers(a@, (#[trigger] factors@[j]).spec_scope()),
            i <= factors@.len(),
            p == local::<T, A>(w, factors@, *v, a@, i as nat),
        decreases factors@.len() - i,
    {
        if factors[i].mentions(v) {
            proof {
                assert(factors@[i as int].wf());
                assert(covers(a@, factors@[i as int].spec_scope()));
            }
            p = product(w, p, factors[i].value(a).unwrap());
        }
        i += 1;
    }
    p
}

/// A Gibbs sampler. It holds a full assignment, the state of a Markov
/// chain. Each draw sweeps over the free variables, drawing each in turn
/// from its distribution given the states of all other variables, and
/// returns the assignment after the sweep.
pub struct GibbsSampler<'a, T, A, C> {
    factors: Vec<Factor<T>>,
    variables: Vec<Variable>,
    sample: Assignment,
    w: &'a A,
    chance: &'a C,
}

impl<'a, T: Copy, A: Arithmetic<T>, C: Chance<T>> GibbsSampler<'a, T, A, C> {
    /// The factors of the model.
    pub closed spec fn factors(&self) -> Seq<Factor<T>> {
        self.factors@
    }

    /// The free variables: those that a sweep draws anew.
    pub closed spec fn free(&self) -> Seq<Variable> {
        self.variables@
    }

    /// The assignment that the sampler holds.
    pub closed spec fn state(&self) -> Map<Variable, usize> {
        self.sample@
    }

    /// The arithmetic of the sampler.
    pub closed spec fn arithmetic(&self) -> &A {
        self.w
    }

    /// Whether the sampler holds the evidence `e` fixed: every variable of
    /// the evidence that the sampler gives a state has the state of the
    /// evidence, and is not free.
    pub open spec fn fixes(&self, e: Map<Variable, usize>) -> bool {
        forall|v: Variable|
            e.contains_key(v) && #[trigger] self.state().contains_key(v) ==> self.state()[v] == e[v] && !self.free().contains(v)
    }

    /// The validity of a sampler: the assignment that it holds gives a
    /// state to every free variable and to every variable of every factor.
    pub closed spec fn wf(&self) -> bool {
        &&& self.sample.wf()
        &&& valid(self.factors@)
        &&& exact::<T, A>(self.w)
        &&& forall|i: int| 0 <= i < self.factors@.len() ==> covers(self.sample@, (#[trigger] self.factors@[i]).spec_scope())
        &&& forall|j: int| 0 <= j < self.variables@.len() ==> self.sample@.contains_key(#[trigger] self.variables@[j])
    }

    /// A sampler for the directed model given the evidence. The first
    /// assignment is drawn by likelihood weighting.
    pub fn for_directed(model: &DirectedModel<T>, evidence: &Assignment, w: &'a A, chance: &'a C) -> (g: Self)
        requires
            model.wf(),
            model.samplable::<A>(w),
            evidence.wf(),
            exact::<T, A>(w),
        ensures
            g.wf(),
            g.arithmetic() == w,
            alike(g.factors(), model.factors()),
            g.free() == unassigned(model.order(), evidence@),
            g.fixes(evidence@),
            admissible(g.state()),
            exists|draws: Seq<T>|
                draws.len() == model.order().len() && g.state() == (#[trigger] weighted::<T, A>(
                    w,
                    model.order(),
                    model.factors(),
                    evidence@,
                    draws,
                    model.order().len(),
                )).0,
            covers(g.state(), model.order()),
            forall|j: int|
                0 <= j < model.order().len() && evidence@.contains_key(#[trigger] model.order()[j]) ==> g.state()[model.order()[j]]
                    == evidence@[model.order()[j]],
    {
        let factors = model.cpds();
        let order = model.topological_order();
        let variables = free_of(&order, evidence);
        let sampler = LikelihoodWeightedSampler::new(model, evidence, w, chance);
        let first = sampler.get_sample();
        let sample = first.0;
        proof {
            sample.lemma_admissible();
            let draws = choose|draws: Seq<T>|
                draws.len() == model.order().len() && (first.0@, first.1) == #[trigger] weighted::<T, A>(
                    w,
                    model.order(),
                    model.factors(),
                    evidence@,
                    draws,
                    model.order().len(),
                );
            assert(draws.len() == model.order().len() && sample@ == weighted::<T, A>(
                w,
                model.order(),
                model.factors(),
                evidence@,
                draws,
                model.order().len(),
            ).0);
            model.lemma_wf();
            lemma_unassigned(order@, evidence@);
            assert forall|i: int| 0 <= i < factors@.len() implies covers(sample@, (#[trigger] factors@[i]).spec_scope()) by {
                let g = &model.factors()[i];
                assert(family(model.order(), i, g));
                assert forall|x: int| 0 <= x < g.spec_scope().len() implies sample@.contains_key(#[trigger] g.spec_scope()[x]) by {
                    let u = g.spec_scope()[x];
                    if u != model.order()[i] {
                        assert(model.order().take(i).contains(u));
                        let y = choose|y: int| 0 <= y < i && model.order().take(i)[y] == u;
                        assert(model.order()[y] == u);
                    }
                }
            }
            assert forall|j: int| 0 <= j < variables@.len() implies sample@.contains_key(#[trigger] variables@[j]) by {
                assert(variables@.contains(variables@[j]));
                let y = choose|y: int| 0 <= y < order@.len() && order@[y] == variables@[j];
                assert(sample@.contains_key(model.order()[y]));
            }
            assert forall|v: Variable| evidence@.contains_key(v) && #[trigger] sample@.contains_key(v) implies sample@[v]
                == evidence@[v] && !variables@.contains(v) by {
                assert(order@.contains(v));
                let y = choose|y: int| 0 <= y < order@.len() && order@[y] == v;
                assert(sample@[model.order()[y]] == evidence@[model.order()[y]]);
            }
        }
        GibbsSampler { factors, variables, sample, w, chance }
    }

    /// A sampler for the undirected model given the evidence. In the first
    /// assignment every variable with evidence has the state of the
    /// evidence, and every other variable a state chosen uniformly at
    /// random.
    pub fn for_undirected(model: &UndirectedModel<T>, evidence: &Assignment, w: &'a A, chance: &'a C) -> (g: Self)
        requires
            model.wf(),
            evidence.wf(),
            exact::<T, A>(w),
        ensures
            g.wf(),
            g.arithmetic() == w,
            alike(g.factors(), model.spec_factors()),
            g.free() == unassigned(model.spec_variables(), evidence@),
            g.fixes(evidence@),
            admissible(g.state()),
            forall|v: Variable| #[trigger] g.state().contains_key(v) <==> model.spec_variables().contains(v),
            covers(g.state(), model.spec_variables()),
            forall|j: int|
                0 <= j < model.spec_variables().len() && evidence@.contains_key(#[trigger] model.spec_variables()[j])
                    ==> g.state()[model.spec_variables()[j]] == evidence@[model.spec_variables()[j]],
    {
        let given = model.factors();
        let mut factors: Vec<Factor<T>> = Vec::new();
        let mut k: usize = 0;
        while k < given.len()
            invariant
                model.wf(),
                given@ == model.spec_factors(),
                k <= given@.len(),
                factors@.len() == k,
                forall|j: int| 0 <= j < k ==> (#[trigger] factors@[j]).matches(&given@[j]) && factors@[j].wf(),
            decreases given@.len() - k,
        {
            proof {
                assert(given@[k as int].wf());
            }
            factors.push(given[k].copy());
            k += 1;
        }
        let all = model.variables();
        let variables = free_of(&all, evidence);
        let mut sample = Assignment::new();
        let mut i: usize = 0;
        while i < all.len()
            invariant
                evidence.wf(),
                all@.no_duplicates(),
                i <= all@.len(),
                sample.wf(),
                forall|v: Variable| #[trigger] sample@.contains_key(v) <==> all@.take(i as int).contains(v),
                forall|j: int|
                    0 <= j < i && evidence@.contains_key(#[trigger] all@[j]) ==> sample@[all@[j]] == evidence@[all@[j]],
            decreases all@.len() - i,
        {
            let v = all[i];
            let ghost seen = all@.take(i as int);
            let ghost next = all@.take(i + 1);
            proof {
                if seen.contains(v) {
                    let x = choose|x: int| 0 <= x < seen.len() && seen[x] == v;
                    assert(all@[x] == all@[i as int]);
                }
                assert forall|u: Variable| next.contains(u) <==> seen.contains(u) || u == v by {
                    if seen.contains(u) {
                        let x = choose|x: int| 0 <= x < seen.len() && seen[x] == u;
                        assert(next[x] == u);
                    }
                    if u == v {
                        assert(next[i as int] == u);
                    }
                    if next.contains(u) {
                        let x = choose|x: int| 0 <= x < next.len() && next[x] == u;
                        if x < i {
                            assert(seen[x] == u);
                        }
                    }
                }
            }
            match evidence.get(&v) {
                Some(state) => {
                    let _ = sample.set(&v, *state);
                },
                None => {
                    let _ = sample.set(&v, random_state(v.cardinality()));
                },
            }
            proof {
                assert forall|j: int| 0 <= j < i + 1 && evidence@.contains_key(#[trigger] all@[j]) implies sample@[all@[j]]
                    == evidence@[all@[j]] by {
                    if j < i {
                        assert(seen[j] == all@[j]);
                        assert(seen.contains(all@[j]));
                    }
                }
            }
            i += 1;
        }
        proof {
            sample.lemma_admissible();
            assert(all@.take(i as int) == all@);
            lemma_unassigned(all@, evidence@);
            assert forall|j: int| 0 <= j < all@.len() implies sample@.contains_key(#[trigger] all@[j]) by {
                assert(all@.contains(all@[j]));
            }
            assert forall|x: int| 0 <= x < factors@.len() implies covers(sample@, (#[trigger] factors@[x]).spec_scope()) by {
                let s = given@[x].spec_scope();
                assert(within(s, all@));
                assert forall|y: int| 0 <= y < s.len() implies sample@.contains_key(#[trigger] s[y]) by {
                    assert(all@.contains(s[y]));
                }
            }
            assert forall|j: int| 0 <= j < variables@.len() implies sample@.contains_key(#[trigger] variables@[j]) by {
                assert(variables@.contains(variables@[j]));
            }
        }
        GibbsSampler { factors, variables, sample, w, chance }
    }

    /// Draws the next assignment of the chain: one sweep over the free
    /// variables.
    pub fn get_sample(&mut self) -> (a: Assignment)
        requires
            old(self).wf(),
        ensures
            final(self).wf(),
            a.wf(),
            a@ == final(self).state(),
            final(self).factors() == old(self).factors(),
            final(self).free() == old(self).free(),
            final(self).arithmetic() == old(self).arithmetic(),
            exists|draws: Seq<T>|
                draws.len() == old(self).free().len() && final(self).state() == #[trigger] swept::<T, A>(
                    old(self).arithmetic(),
                    old(self).factors(),
                    old(self).free(),
                    old(self).state(),
                    draws,
                    old(self).free().len(),
                ),
            forall|v: Variable| #[trigger] final(self).state().contains_key(v) <==> old(self).state().contains_key(v),
            forall|v: Variable| !old(self).free().contains(v) ==> #[trigger] final(self).state()[v] == old(self).state()[v],
            forall|e: Map<Variable, usize>| #[trigger] old(self).fixes(e) ==> final(self).fixes(e),
    {
        let ghost start = self.sample@;
        let ghost mut draws: Seq<T> = Seq::empty();
        let mut i: usize = 0;
        while i < self.variables.len()
            invariant
                self.wf(),
                self.factors@ == old(self).factors@,
                self.variables@ == old(self).variables@,
                self.w == old(self).w,
                i <= self.variables@.len(),
                draws.len() == i,
                self.sample@ == swept::<T, A>(self.w, self.factors@, self.variables@, start, draws, i as nat),
            decreases self.variables@.len() - i,
        {
            let v = self.variables[i];
            let ghost before = self.sample@;
            let ghost so_far = draws;
            let kept = *self.sample.get(&v).unwrap();
            self.sample.unset(&v);
            let ghost rest = self.sample@;
            let states = v.cardinality();
            let mut weights: Vec<T> = Vec::new();
            let mut state: usize = 0;
            while state < states
                invariant
                    self.sample.wf(),
                    valid(self.factors@),
                    exact::<T, A>(self.w),
                    self.factors@ == old(self).factors@,
                    self.variables@ == old(self).variables@,
                    self.w == old(self).w,
                    forall|x: int| 0 <= x < self.factors@.len() ==> covers(before, (#[trigger] self.factors@[x]).spec_scope()),
                    forall|j: int| 0 <= j < self.variables@.len() ==> before.contains_key(#[trigger] self.variables@[j]),
                    rest == before.remove(v),
                    self.sample@ == rest,
                    states == v.spec_cardinality(),
                    state <= states,
                    weights@.len() == state,
                    forall|j: int|
                        0 <= j < state ==> #[trigger] weights@[j] == local::<T, A>(
                            self.w,
                            self.factors@,
                            v,
                            before.insert(v, j as usize),
                            self.factors@.len(),
                        ),
                decreases states - state,
            {
                let _ = self.sample.set(&v, state);
                proof {
                    assert(self.sample@ =~= before.insert(v, state));
                    assert forall|x: int| 0 <= x < self.factors@.len() implies covers(
                        self.sample@,
                        (#[trigger] self.factors@[x]).spec_scope(),
                    ) by {
                        let s = self.factors@[x].spec_scope();
                        assert(covers(before, s));
                        assert forall|y: int| 0 <= y < s.len() implies self.sample@.contains_key(#[trigger] s[y]) by {
                            assert(before.contains_key(s[y]));
                        }
                    }
                }
                weights.push(local_weight(&self.factors, &v, &self.sample, self.w));
                self.sample.unset(&v);
                proof {
                    assert(self.sample@ =~= rest);
                }
                state += 1;
            }
            let draw = self.chance.uniform();
            proof {
                assert(weights@ =~= local_weights::<T, A>(self.w, self.factors@, v, before));
            }
            match inverse_cdf(&weights, draw, self.w) {
                Ok(k) => {
                    let _ = self.sample.set(&v, k);
                    proof {
                        assert(self.sample@ =~= before.insert(v, k));
                    }
                },
                Err(_) => {
                    let _ = self.sample.set(&v, kept);
                    proof {
                        assert(self.sample@ =~= before);
                    }
                },
            }
            proof {
                draws = so_far.push(draw);
                assert(draws.take(so_far.len() as int) =~= so_far);
                lemma_swept_prefix::<T, A>(self.w, self.factors@, self.variables@, start, so_far, draws, i as nat);
                assert(self.sample@ == resampled::<T, A>(self.w, self.factors@, before, v, draw));
                assert forall|x: int| 0 <= x < self.factors@.len() implies covers(
                    self.sample@,
                    (#[trigger] self.factors@[x]).spec_scope(),
                ) by {
                    let s = self.factors@[x].spec_scope();
                    assert(covers(before, s));
                    assert forall|y: int| 0 <= y < s.len() implies self.sample@.contains_key(#[trigger] s[y]) by {
                        assert(before.contains_key(s[y]));
                    }
                }
                assert forall|j: int| 0 <= j < self.variables@.len() implies self.sample@.contains_key(
                    #[trigger] self.variables@[j],
                ) by {
                    assert(before.contains_key(self.variables@[j]));
                }
            }
            i += 1;
        }
        proof {
            lemma_swept_fixed::<T, A>(self.w, self.factors@, self.variables@, start, draws, self.variables@.len());
            assert(draws.len() == old(self).free().len() && self.state() == swept::<T, A>(
                old(self).arithmetic(),
                old(self).factors(),
                old(self).free(),
                old(self).state(),
                draws,
                old(self).free().len(),
            ));
        }
        self.sample.copy()
    }
}

impl<'a, T: Copy, A: Arithmetic<T>, C: Chance<T>> Sampler for GibbsSampler<'a, T, A, C> {
    open spec fn ready(&self) -> bool {
        self.wf()
    }

    open spec fn follows(&self, before: &Self) -> bool {
        &&& self.factors() == before.factors()
        &&& self.free() == before.free()
        &&& self.arithmetic() == before.arithmetic()
        &&& exists|draws: Seq<T>|
            draws.len() == before.free().len() && self.state() == #[trigger] swept::<T, A>(
                before.arithmetic(),
                before.factors(),
                before.free(),
                before.state(),
                draws,
                before.free().len(),
            )
    }

    fn sample(&mut self) -> (a: Assignment)
        ensures
            a@ == final(self).state(),
            final(self).factors() == old(self).factors(),
            final(self).free() == old(self).free(),
            final(self).arithmetic() == old(self).arithmetic(),
            exists|draws: Seq<T>|
                draws.len() == old(self).free().len() && final(self).state() == #[trigger] swept::<T, A>(
                    old(self).arithmetic(),
                    old(self).factors(),
                    old(self).free(),
                    old(self).state(),
                    draws,
                    old(self).free().len(),
                ),
            forall|e: Map<Variable, usize>| #[trigger] old(self).fixes(e) ==> final(self).fixes(e),
            forall|v: Variable| #[trigger] final(self).state().contains_key(v) <==> old(self).state().contains_key(v),
            forall|v: Variable| !old(self).free().contains(v) ==> #[trigger] final(self).state()[v] == old(self).state()[v],
    {
        self.get_sample()
    }
}

} // verus!
