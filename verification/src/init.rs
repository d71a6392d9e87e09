//! Ways to give a variable or a scope its first factor.

use vstd::prelude::*;
use crate::factor::{Factor, made_by_cpd, made_by_new, Table};
use crate::layout::{filled, measure, volume};
use crate::rows::{shares, shares_of};
use crate::scope::{copy_scope, subset, within};
use crate::util::JeromeError;
use crate::variable::{dims, extents, Variable};
use crate::weight::{
    Arithmetic, Chance, counted, difference, exact, product, quotient, spec_counted, spec_difference,
    spec_product, spec_quotient, spec_sum, spec_unit, sum, sum_all, total, unit,
};

verus! {

/// How the table of a factor is first filled.
pub enum Initialization<T> {
    /// Every state is as likely as every other.
    Uniform,
    /// The entries are drawn at random and then normalized.
    Random,
    /// A variable with two states and no parent takes its first state with
    /// the given probability.
    Binomial(T),
    /// A variable with no parent takes each of its states with the given
    /// probability.
    Multinomial(Vec<T>),
    /// The factor is given.
    Table(Factor<T>),
}

/// The number of entries of a table over `scope`, if the table is small
/// enough to be held.
fn table_size(scope: &Vec<Variable>) -> (r: Option<usize>)
    ensures
        r == if volume(dims(scope@)) <= usize::MAX {
            Some(volume(dims(scope@)) as usize)
        } else {
            None
        },
{
    measure(&extents(scope))
}

/// The error for a table that is too large to be held.
fn too_large() -> (e: JeromeError)
    ensures
        e is General,
{
    JeromeError::General("The table is too large".to_owned())
}

/// The weight between 1 and 100 that a draw from the unit interval stands
/// for.
pub open spec fn weight_of<T, A: Arithmetic<T>>(w: &A, draw: T) -> T {
    spec_sum::<T, A>(w, spec_unit::<T, A>(w), spec_product::<T, A>(w, spec_counted::<T, A>(w, 99), draw))
}

/// The weights that draws from the unit interval stand for.
pub open spec fn weights<T, A: Arithmetic<T>>(w: &A, draws: Seq<T>) -> Seq<T> {
    Seq::new(draws.len(), |k: int| weight_of::<T, A>(w, draws[k]))
}

/// Every one of `values` divided by the sum of all of them.
pub open spec fn portions<T, A: Arithmetic<T>>(w: &A, values: Seq<T>) -> Seq<T> {
    Seq::new(values.len(), |k: int| spec_quotient::<T, A>(w, values[k], total::<T, A>(w, values)))
}

/// `n` random weights between 1 and 100, and the draws that they come
/// from.
fn random_weights<T: Copy, A: Arithmetic<T>, C: Chance<T>>(n: usize, w: &A, chance: &C) -> (r: (Vec<T>, Ghost<Seq<T>>))
    requires
        exact::<T, A>(w),
    ensures
        r.1@.len() == n,
        r.0@ == weights::<T, A>(w, r.1@),
{
    let span = counted(w, 99);
    let one = unit(w);
    let mut raw: Vec<T> = Vec::new();
    let ghost mut draws: Seq<T> = Seq::empty();
    let mut k: usize = 0;
    while k < n
        invariant
            exact::<T, A>(w),
            span == spec_counted::<T, A>(w, 99),
            one == spec_unit::<T, A>(w),
            k <= n,
            draws.len() == k,
            raw@ == weights::<T, A>(w, draws),
        decreases n - k,
    {
        let draw = chance.uniform();
        raw.push(sum(w, one, product(w, span, draw)));
        proof {
            draws = draws.push(draw);
            assert(raw@ =~= weights::<T, A>(w, draws));
        }
        k += 1;
    }
    (raw, Ghost(draws))
}

/// Every one of `values` divided by the sum of all of them.
fn portions_of<T: Copy, A: Arithmetic<T>>(values: &Vec<T>, w: &A) -> (r: Vec<T>)
    requires
        exact::<T, A>(w),
    ensures
        r@ == portions::<T, A>(w, values@),
{
    let mass = sum_all(values, w);
    let mut data: Vec<T> = Vec::new();
    let mut k: usize = 0;
    while k < values.len()
        invariant
            exact::<T, A>(w),
            mass == total::<T, A>(w, values@),
            k <= values@.len(),
            data@.len() == k,
            forall|j: int| 0 <= j < k ==> #[trigger] data@[j] == portions::<T, A>(w, values@)[j],
        decreases values@.len() - k,
    {
        data.push(quotient(w, values[k], mass));
        k += 1;
    }
    proof {
        assert(data@ =~= portions::<T, A>(w, values@));
    }
    data
}

impl<T: Copy> Initialization<T> {
    /// The validity of an initialization: a given factor is valid.
    pub open spec fn wf(&self) -> bool {
        match self {
            Initialization::Table(f) => f.wf(),
            _ => true,
        }
    }

    /// Whether the initialization can fill a factor over `var` and `others`
    /// further variables: a binomial needs a variable of two states alone,
    /// and a multinomial a variable alone with one state for each
    /// probability.
    pub open spec fn suits(&self, var: Variable, others: nat) -> bool {
        match self {
            Initialization::Binomial(_) => others == 0 && var.spec_cardinality() == 2,
            Initialization::Multinomial(ps) => others == 0 && ps@.len() == var.spec_cardinality(),
            _ => true,
        }
    }

    /// The entries that the initialization gives a table over `scope`, whose
    /// last variable has `share` equally likely states; a random
    /// initialization has no fixed entries.
    pub open spec fn filling<A: Arithmetic<T>>(&self, w: &A, scope: Seq<Variable>, share: usize) -> Seq<T> {
        match self {
            Initialization::Binomial(p) => seq![*p, spec_difference::<T, A>(w, spec_unit::<T, A>(w), *p)],
            Initialization::Multinomial(ps) => ps@,
            _ => Seq::new(
                volume(dims(scope)),
                |k: int| spec_quotient::<T, A>(w, spec_unit::<T, A>(w), spec_counted::<T, A>(w, share)),
            ),
        }
    }

    /// Whether `r` is the conditional probability distribution that the
    /// initialization makes for `var` given `parents`.
    pub open spec fn makes_cpd<A: Arithmetic<T>>(
        &self,
        w: &A,
        var: Variable,
        parents: Seq<Variable>,
        r: Result<Factor<T>, JeromeError>,
    ) -> bool {
        let scope = parents.push(var);
        match self {
            Initialization::Table(f) => if !f.spec_is_cpd() {
                r is Err && r->Err_0 is InvalidInitialization
            } else if within(parents.push(var), f.spec_scope()) && within(f.spec_scope(), parents.push(var)) {
                r == Ok::<Factor<T>, JeromeError>(*f)
            } else {
                r is Err && r->Err_0 is InvalidScope
            },
            _ => if !self.suits(var, parents.len()) {
                r is Err && r->Err_0 is InvalidInitialization
            } else if volume(dims(scope)) > usize::MAX {
                r is Err && r->Err_0 is General
            } else if self is Random {
                exists|draws: Seq<T>|
                    draws.len() == volume(dims(scope)) && made_by_cpd::<T, A>(
                        w,
                        scope,
                        dims(scope),
                        shares::<T, A>(w, #[trigger] weights::<T, A>(w, draws), var.spec_cardinality() as int),
                        r,
                    )
            } else {
                made_by_cpd::<T, A>(w, scope, dims(scope), self.filling::<A>(w, scope, var.spec_cardinality()), r)
            },
        }
    }

    /// The conditional probability distribution of `var` given `parents`,
    /// filled as the initialization says. A given factor has to be marked
    /// as a conditional probability distribution and to hold `var`, the
    /// parents, and nothing else, in any order.
    pub fn build_cpd<A: Arithmetic<T>, C: Chance<T>>(
        self,
        var: Variable,
        parents: Vec<Variable>,
        w: &A,
        chance: &C,
    ) -> (r: Result<Factor<T>, JeromeError>)
        requires
            self.wf(),
            exact::<T, A>(w),
        ensures
            self.makes_cpd::<A>(w, var, parents@, r),
    {
        let states = var.cardinality();
        let mut scope = copy_scope(&parents);
        scope.push(var);
        match self {
            Initialization::Table(f) => {
                if !f.is_cpd() {
                    return Err(JeromeError::InvalidInitialization);
                }
                let s = f.scope();
                if subset(&scope, &s) && subset(&s, &scope) {
                    Ok(f)
                } else {
                    Err(JeromeError::InvalidScope)
                }
            },
            Initialization::Uniform => {
                let size = match table_size(&scope) {
                    Some(n) => n,
                    None => {
                        return Err(too_large());
                    },
                };
                let data = filled(size, quotient(w, unit(w), counted(w, states)));
                proof {
                    assert(data@ =~= self.filling::<A>(w, scope@, states));
                }
                Factor::cpd(var, parents, Table::from_shape_vec(extents(&scope), data).unwrap(), w)
            },
            Initialization::Random => {
                let size = match table_size(&scope) {
                    Some(n) => n,
                    None => {
                        return Err(too_large());
                    },
                };
                let (raw, draws) = random_weights(size, w, chance);
                proof {
                    assert(scope@.drop_last() == parents@);
                    assert(dims(scope@).drop_last() =~= dims(parents@));
                    let rows = volume(dims(parents@));
                    let c = states as nat;
                    assert((rows * c) % c == 0) by (nonlinear_arith)
                        requires
                            c >= 1,
                    ;
                }
                let data = shares_of(&raw, states, w);
                let r = Factor::cpd(var, parents, Table::from_shape_vec(extents(&scope), data).unwrap(), w);
                proof {
                    assert(draws@.len() == volume(dims(scope@)) && made_by_cpd::<T, A>(
                        w,
                        scope@,
                        dims(scope@),
                        shares::<T, A>(w, weights::<T, A>(w, draws@), var.spec_cardinality() as int),
                        r,
                    ));
                }
                r
            },
            Initialization::Binomial(p) => {
                if parents.len() != 0 || states != 2 {
                    return Err(JeromeError::InvalidInitialization);
                }
                let mut data: Vec<T> = Vec::new();
                data.push(p);
                data.push(difference(w, unit(w), p));
                proof {
                    assert(data@ =~= self.filling::<A>(w, scope@, states));
                    lemma_volume_single(scope@);
                }
                Factor::cpd(var, parents, Table::from_shape_vec(extents(&scope), data).unwrap(), w)
            },
            Initialization::Multinomial(ps) => {
                if parents.len() != 0 || ps.len() != states {
                    return Err(JeromeError::InvalidInitialization);
                }
                proof {
                    lemma_volume_single(scope@);
                }
                Factor::cpd(var, parents, Table::from_shape_vec(extents(&scope), ps).unwrap(), w)
            },
        }
    }
}

/// A table over one variable has one entry for each of its states.
pub proof fn lemma_volume_single(scope: Seq<Variable>)
    requires
        scope.len() == 1,
    ensures
        volume(dims(scope)) == scope[0].spec_cardinality(),
{
    let d = dims(scope);
    assert(d.drop_last().len() == 0);
    assert(volume(d.drop_last()) == 1);
    assert(volume(d) == 1 * (d.last() as nat));
}

impl<T: Copy> Initialization<T> {
    /// Whether `r` is the factor that the initialization makes over `scope`.
    pub open spec fn makes_factor<A: Arithmetic<T>>(
        &self,
        w: &A,
        scope: Seq<Variable>,
        r: Result<Factor<T>, JeromeError>,
    ) -> bool {
        if scope.len() == 0 {
            r is Err && r->Err_0 is InvalidScope
        } else {
            match self {
                Initialization::Table(f) => if within(f.spec_scope(), scope) && f.spec_scope().len() == scope.len() {
                    r == Ok::<Factor<T>, JeromeError>(*f)
                } else {
                    r is Err && r->Err_0 is InvalidScope
                },
                _ => if !self.suits(scope[0], (scope.len() - 1) as nat) {
                    r is Err && r->Err_0 is InvalidInitialization
                } else if volume(dims(scope)) > usize::MAX {
                    r is Err && r->Err_0 is General
                } else if self is Random {
                    exists|draws: Seq<T>|
                        draws.len() == volume(dims(scope)) && made_by_new::<T, A>(
                            w,
                            scope,
                            dims(scope),
                            portions::<T, A>(w, #[trigger] weights::<T, A>(w, draws)),
                            true,
                            r,
                        )
                } else {
                    made_by_new::<T, A>(
                        w,
                        scope,
                        dims(scope),
                        self.filling::<A>(w, scope, volume(dims(scope)) as usize),
                        true,
                        r,
                    )
                },
            }
        }
    }

    /// A factor over `scope`, filled as the initialization says: a table
    /// whose entries are above zero and sum to one, marked as normalized. A
    /// given factor has to hold exactly the variables of `scope`, and is
    /// taken as it is.
    pub fn build_factor<A: Arithmetic<T>, C: Chance<T>>(self, scope: Vec<Variable>, w: &A, chance: &C) -> (r:
        Result<Factor<T>, JeromeError>)
        requires
            self.wf(),
            exact::<T, A>(w),
        ensures
            self.makes_factor::<A>(w, scope@, r),
    {
        if scope.len() == 0 {
            return Err(JeromeError::InvalidScope);
        }
        let states = scope[0].cardinality();
        let ghost vars = scope@;
        match self {
            Initialization::Table(f) => {
                let s = f.scope();
                if subset(&s, &scope) && s.len() == scope.len() {
                    Ok(f)
                } else {
                    Err(JeromeError::InvalidScope)
                }
            },
            Initialization::Uniform => {
                let size = match table_size(&scope) {
                    Some(n) => n,
                    None => {
                        return Err(too_large());
                    },
                };
                let data = filled(size, quotient(w, unit(w), counted(w, size)));
                proof {
                    assert(data@ =~= self.filling::<A>(w, scope@, size));
                }
                let table = Table::from_shape_vec(extents(&scope), data).unwrap();
                Factor::new(scope, table, true, w)
            },
            Initialization::Random => {
                let size = match table_size(&scope) {
                    Some(n) => n,
                    None => {
                        return Err(too_large());
                    },
                };
                let (raw, draws) = random_weights(size, w, chance);
                let data = portions_of(&raw, w);
                let table = Table::from_shape_vec(extents(&scope), data).unwrap();
                let r = Factor::new(scope, table, true, w);
                proof {
                    assert(draws@.len() == volume(dims(vars)) && made_by_new::<T, A>(
                        w,
                        vars,
                        dims(vars),
                        portions::<T, A>(w, weights::<T, A>(w, draws@)),
                        true,
                        r,
                    ));
                }
                r
            },
            Initialization::Binomial(p) => {
                if scope.len() != 1 || states != 2 {
                    return Err(JeromeError::InvalidInitialization);
                }
                let mut data: Vec<T> = Vec::new();
                data.push(p);
                data.push(difference(w, unit(w), p));
                proof {
                    lemma_volume_single(scope@);
                    assert(data@ =~= self.filling::<A>(w, scope@, 2));
                }
                let table = Table::from_shape_vec(extents(&scope), data).unwrap();
                Factor::new(scope, table, true, w)
            },
            Initialization::Multinomial(ps) => {
                if scope.len() != 1 || ps.len() != states {
                    return Err(JeromeError::InvalidInitialization);
                }
                proof {
                    lemma_volume_single(scope@);
                }
                let table = Table::from_shape_vec(extents(&scope), ps).unwrap();
                Factor::new(scope, table, true, w)
            },
        }
    }
}

} // verus!
