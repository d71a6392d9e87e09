//! Maximum likelihood estimation of conditional probability distributions.

use vstd::prelude::*;
use crate::estimators::{Estimator, sound};
use crate::factor::{Factor, fits, made_by_cpd, Table};
use crate::inference::tally::{record, tallied, zeros};
use crate::layout::volume;
use crate::model::directed::{DirectedModel, family};
use crate::rows::{rows_have_mass, rows_with_mass, shares, shares_of};
use crate::util::JeromeError;
use crate::variable::{Assignment, covers, dims, extents, Variable};
use crate::weight::{Arithmetic, exact, spec_unit, unit};

verus! {

/// The assignments of `dataset`, each with the weight one.
pub open spec fn once<T, A: Arithmetic<T>>(w: &A, dataset: Seq<Assignment>) -> Seq<(Map<Variable, usize>, T)> {
    Seq::new(dataset.len(), |i: int| (dataset[i]@, spec_unit::<T, A>(w)))
}

/// The number of times that each assignment to `scope` occurs in `dataset`.
pub open spec fn counts<T, A: Arithmetic<T>>(w: &A, scope: Seq<Variable>, dataset: Seq<Assignment>) -> Seq<T> {
    tallied::<T, A>(w, scope, once::<T, A>(w, dataset), dataset.len())
}

/// Whether `r` is the maximum likelihood estimate over `scope` from
/// `dataset`: the conditional probability distribution of the last
/// variable of the scope given the others, in which the probability of a
/// state is the share of its count in the count of the states of the others.
/// Every assignment has to cover the scope, and every state of the others
/// has to occur.
pub open spec fn estimated_from<T: Copy, A: Arithmetic<T>>(
    w: &A,
    scope: Seq<Variable>,
    dataset: Seq<Assignment>,
    r: Result<Factor<T>, JeromeError>,
) -> bool {
    let c = scope.last().spec_cardinality() as int;
    let table = counts::<T, A>(w, scope, dataset);
    if exists|i: int| 0 <= i < dataset.len() && !covers((#[trigger] dataset[i])@, scope) {
        r is Err && r->Err_0 is IncompleteAssignment
    } else if !rows_have_mass::<T, A>(w, table, c) {
        r is Err && r->Err_0 is DivideByZero
    } else {
        made_by_cpd::<T, A>(w, scope, dims(scope), shares::<T, A>(w, table, c), r)
    }
}

/// A table over a scope has one row for each assignment to the variables
/// before the last.
pub proof fn lemma_rows(scope: Seq<Variable>)
    requires
        scope.len() > 0,
    ensures
        volume(dims(scope)) == volume(dims(scope.drop_last())) * (scope.last().spec_cardinality() as nat),
{
    assert(dims(scope).drop_last() =~= dims(scope.drop_last()));
}

/// The maximum likelihood estimator of one conditional probability
/// distribution.
pub struct LocalMLEstimator<'a, T, A> {
    scope: Vec<Variable>,
    size: usize,
    w: &'a A,
    one: T,
}

impl<'a, T: Copy, A: Arithmetic<T>> LocalMLEstimator<'a, T, A> {
    /// The scope of the distribution that is estimated.
    pub closed spec fn scope(&self) -> Seq<Variable> {
        self.scope@
    }

    /// The arithmetic of the estimator.
    pub closed spec fn arithmetic(&self) -> &A {
        self.w
    }

    /// The weight of one occurrence in the dataset.
    pub closed spec fn weight(&self) -> T {
        self.one
    }

    /// The number of entries of the distribution that is estimated.
    pub closed spec fn size(&self) -> usize {
        self.size
    }

    /// The validity of an estimator: it holds the size of a table over its
    /// scope, and the one of its arithmetic.
    pub open spec fn wf(&self) -> bool {
        &&& fits(self.scope(), dims(self.scope()))
        &&& self.size() == volume(dims(self.scope()))
        &&& exact::<T, A>(self.arithmetic())
        &&& self.weight() == spec_unit::<T, A>(self.arithmetic())
    }

    /// An estimator for a distribution over the scope of `factor`, which has
    /// to be marked as a conditional probability distribution.
    pub fn new(factor: &Factor<T>, w: &'a A) -> (r: Result<Self, JeromeError>)
        requires
            factor.wf(),
            exact::<T, A>(w),
        ensures
            match r {
                Ok(e) => {
                    &&& !factor.spec_is_identity()
                    &&& factor.spec_is_cpd()
                    &&& e.wf()
                    &&& e.scope() == factor.spec_scope()
                    &&& e.arithmetic() == w
                },
                Err(e) => e is NotACPD && (factor.spec_is_identity() || !factor.spec_is_cpd()),
            },
    {
        if factor.is_identity() || !factor.is_cpd() {
            return Err(JeromeError::NotACPD);
        }
        Ok(LocalMLEstimator { scope: factor.scope(), size: factor.size(), w, one: unit(w) })
    }

    /// The maximum likelihood estimate from `dataset`.
    pub fn fit(&self, dataset: &Vec<Assignment>) -> (r: Result<Factor<T>, JeromeError>)
        requires
            self.wf(),
            sound(dataset@),
        ensures
            estimated_from::<T, A>(self.arithmetic(), self.scope(), dataset@, r),
            r is Ok ==> r->Ok_0.wf() && r->Ok_0.spec_scope() == self.scope() && r->Ok_0.spec_is_cpd(),
    {
        let w = self.w;
        let shape = extents(&self.scope);
        let one = self.one;
        let mut data = zeros(self.size, w);
        let mut i: usize = 0;
        while i < dataset.len()
            invariant
                self.wf(),
                sound(dataset@),
                w == self.arithmetic(),
                one == spec_unit::<T, A>(w),
                shape@ == dims(self.scope@),
                i <= dataset@.len(),
                forall|j: int| 0 <= j < i ==> covers((#[trigger] dataset@[j])@, self.scope@),
                data@.len() == volume(shape@),
                data@ == tallied::<T, A>(w, self.scope@, once::<T, A>(w, dataset@), i as nat),
            decreases dataset@.len() - i,
        {
            proof {
                assert(dataset@[i as int].wf());
            }
            if !record(&mut data, &shape, &self.scope, &dataset[i], one, w) {
                return Err(JeromeError::IncompleteAssignment);
            }
            i += 1;
        }
        let states = self.scope[self.scope.len() - 1].cardinality();
        proof {
            lemma_rows(self.scope@);
            assert(data@ == counts::<T, A>(w, self.scope@, dataset@));
            let rows = volume(dims(self.scope@.drop_last()));
            let c = states as nat;
            assert((rows * c) % c == 0) by (nonlinear_arith)
                requires
                    c >= 1,
            ;
            assert(self.scope@.drop_last().push(self.scope@.last()) == self.scope@);
        }
        if !rows_with_mass(&data, states, w) {
            return Err(JeromeError::DivideByZero);
        }
        let entries = shares_of(&data, states, w);
        let mut parents: Vec<Variable> = Vec::new();
        let mut k: usize = 0;
        while k < self.scope.len() - 1
            invariant
                self.scope@.len() > 0,
                k <= self.scope@.len() - 1,
                parents@ == self.scope@.take(k as int),
            decreases self.scope@.len() - k,
        {
            parents.push(self.scope[k]);
            proof {
                assert(parents@ =~= self.scope@.take(k + 1));
            }
            k += 1;
        }
        proof {
            assert(self.scope@.take(k as int) == self.scope@.drop_last());
        }
        let child = self.scope[self.scope.len() - 1];
        let made = Table::from_shape_vec(shape, entries).unwrap();
        Factor::cpd(child, parents, made, w)
    }
}

impl<'a, T: Copy, A: Arithmetic<T>> Estimator<Factor<T>> for LocalMLEstimator<'a, T, A> {
    open spec fn ready(&self) -> bool {
        self.wf()
    }

    fn estimate(&mut self, dataset: &Vec<Assignment>) -> (r: Result<Factor<T>, JeromeError>)
        ensures
            estimated_from::<T, A>(old(self).arithmetic(), old(self).scope(), dataset@, r),
            final(self).scope() == old(self).scope(),
            final(self).arithmetic() == old(self).arithmetic(),
    {
        self.fit(dataset)
    }
}

/// The maximum likelihood estimator of a directed model: one estimator for
/// the factor of each variable.
pub struct ModelMLEstimator<'a, T, A> {
    model: &'a DirectedModel<T>,
    estimators: Vec<LocalMLEstimator<'a, T, A>>,
}

impl<'a, T: Copy, A: Arithmetic<T>> ModelMLEstimator<'a, T, A> {
    /// The model whose parameters are estimated.
    pub closed spec fn model(&self) -> DirectedModel<T> {
        *self.model
    }

    /// The estimator of the factor of each variable.
    pub closed spec fn estimators(&self) -> Seq<LocalMLEstimator<'a, T, A>> {
        self.estimators@
    }

    /// The validity of an estimator: it holds a valid estimator for the
    /// scope of the factor of each variable of its model.
    pub open spec fn wf(&self) -> bool {
        &&& self.model().wf()
        &&& self.estimators().len() == self.model().factors().len()
        &&& forall|i: int|
            0 <= i < self.estimators().len() ==> (#[trigger] self.estimators()[i]).wf() && self.estimators()[i].scope()
                == self.model().factors()[i].spec_scope()
    }

    /// An estimator for the parameters of `model`, every factor of which
    /// has to be marked as a conditional probability distribution.
    pub fn new(model: &'a DirectedModel<T>, w: &'a A) -> (r: Result<Self, JeromeError>)
        requires
            model.wf(),
            exact::<T, A>(w),
        ensures
            match r {
                Ok(e) => {
                    &&& e.wf()
                    &&& e.model() == *model
                    &&& forall|i: int| 0 <= i < model.factors().len() ==> (#[trigger] model.factors()[i]).spec_is_cpd()
                    &&& forall|i: int| 0 <= i < e.estimators().len() ==> (#[trigger] e.estimators()[i]).arithmetic() == w
                },
                Err(e) => e is NotACPD && exists|i: int|
                    0 <= i < model.factors().len() && !(#[trigger] model.factors()[i]).spec_is_cpd(),
            },
    {
        let mut estimators: Vec<LocalMLEstimator<'a, T, A>> = Vec::new();
        let n = model.num_variables();
        let mut i: usize = 0;
        proof {
            model.lemma_wf();
        }
        while i < n
            invariant
                model.wf(),
                exact::<T, A>(w),
                n == model.order().len(),
                n == model.factors().len(),
                i <= n,
                estimators@.len() == i,
                forall|j: int| 0 <= j < i ==> (#[trigger] model.factors()[j]).spec_is_cpd(),
                forall|j: int|
                    0 <= j < i ==> (#[trigger] estimators@[j]).wf() && estimators@[j].scope() == model.factors()[j].spec_scope()
                        && estimators@[j].arithmetic() == w,
            decreases n - i,
        {
            let f = model.factor(i);
            proof {
                model.lemma_wf();
                assert(family(model.order(), i as int, &model.factors()[i as int]));
            }
            match LocalMLEstimator::new(f, w) {
                Ok(e) => {
                    estimators.push(e);
                },
                Err(e) => {
                    proof {
                        assert(!model.factors()[i as int].spec_is_cpd());
                    }
                    return Err(e);
                },
            }
            i += 1;
        }
        Ok(ModelMLEstimator { model, estimators })
    }

    /// Whether `r` is the estimate of the model from `dataset`: the model
    /// with each factor estimated by its estimator, or the error of the
    /// first estimator that fails.
    pub open spec fn estimates(&self, dataset: Seq<Assignment>, r: Result<DirectedModel<T>, JeromeError>) -> bool {
        match r {
            Ok(m) => {
                &&& m.wf()
                &&& m.order() == self.model().order()
                &&& m.names() == self.model().names()
                &&& m.factors().len() == self.estimators().len()
                &&& forall|i: int|
                    0 <= i < self.estimators().len() ==> estimated_from::<T, A>(
                        (#[trigger] self.estimators()[i]).arithmetic(),
                        self.estimators()[i].scope(),
                        dataset,
                        Ok(m.factors()[i]),
                    )
            },
            Err(e) => exists|i: int|
                0 <= i < self.estimators().len() && estimated_from::<T, A>(
                    (#[trigger] self.estimators()[i]).arithmetic(),
                    self.estimators()[i].scope(),
                    dataset,
                    Err(e),
                ),
        }
    }

    /// The model with every factor estimated from `dataset`.
    pub fn fit(&self, dataset: &Vec<Assignment>) -> (r: Result<DirectedModel<T>, JeromeError>)
        requires
            self.wf(),
            sound(dataset@),
        ensures
            self.estimates(dataset@, r),
    {
        let mut factors: Vec<Factor<T>> = Vec::new();
        let mut i: usize = 0;
        while i < self.estimators.len()
            invariant
                self.wf(),
                sound(dataset@),
                i <= self.estimators@.len(),
                factors@.len() == i,
                forall|j: int|
                    0 <= j < i ==> (#[trigger] factors@[j]).wf() && factors@[j].spec_scope() == self.estimators@[j].scope()
                        && estimated_from::<T, A>(
                        self.estimators@[j].arithmetic(),
                        self.estimators@[j].scope(),
                        dataset@,
                        Ok(factors@[j]),
                    ),
            decreases self.estimators@.len() - i,
        {
            proof {
                assert(self.estimators()[i as int].wf());
            }
            match self.estimators[i].fit(dataset) {
                Ok(f) => {
                    factors.push(f);
                },
                Err(e) => {
                    proof {
                        assert(estimated_from::<T, A>(
                            self.estimators()[i as int].arithmetic(),
                            self.estimators()[i as int].scope(),
                            dataset@,
                            Err(e),
                        ));
                    }
                    return Err(e);
                },
            }
            i += 1;
        }
        proof {
            assert forall|j: int| 0 <= j < factors@.len() implies (#[trigger] factors@[j]).wf() && factors@[j].spec_scope()
                == self.model().factors()[j].spec_scope() by {
                assert(self.estimators()[j].scope() == self.model().factors()[j].spec_scope());
            }
        }
        let m = self.model.with_factors(factors);
        proof {
            assert forall|j: int| 0 <= j < self.estimators().len() implies estimated_from::<T, A>(
                (#[trigger] self.estimators()[j]).arithmetic(),
                self.estimators()[j].scope(),
                dataset@,
                Ok(m.factors()[j]),
            ) by {
                assert(factors@[j].wf());
            }
        }
        Ok(m)
    }
}

impl<'a, T: Copy, A: Arithmetic<T>> Estimator<DirectedModel<T>> for ModelMLEstimator<'a, T, A> {
    open spec fn ready(&self) -> bool {
        self.wf()
    }

    fn estimate(&mut self, dataset: &Vec<Assignment>) -> (r: Result<DirectedModel<T>, JeromeError>)
        ensures
            old(self).estimates(dataset@, r),
            *final(self) == *old(self),
    {
        self.fit(dataset)
    }
}

} // verus!
