//! Exact inference by sum-product variable elimination.

use vstd::prelude::*;
use crate::factor::{Factor, is_marginal, is_normalized, is_product, valid};
use crate::inference::ConditionalInferenceEngine;
use crate::inference::order::{max_cardinality, max_cardinality_elimination_order};
use crate::model::directed::DirectedModel;
use crate::model::undirected::UndirectedModel;
use crate::scope::{disjoint, holds, lemma_appended, lemma_without, subset, union, within, without};
use crate::util::JeromeError;
use crate::variable::{Assignment, Variable};
use crate::weight::{Arithmetic, exact, spec_nil, spec_same, total};

verus! {

/// Whether `f` is the product of `g` and `h`: the unit leaves the other
/// factor as it is, and two factors with tables share a variable.
pub open spec fn multiplied<T: Copy, A: Arithmetic<T>>(w: &A, g: &Factor<T>, h: &Factor<T>, f: &Factor<T>) -> bool {
    if g.spec_is_identity() {
        f.matches(h)
    } else if h.spec_is_identity() {
        f.matches(g)
    } else {
        !disjoint(g.spec_scope(), h.spec_scope()) && is_product::<T, A>(w, f, g, h)
    }
}

/// Whether `partial` holds the products of `factors` as they are
/// multiplied one after another: it starts with the unit, and each of its
/// factors multiplied by the next of `factors` gives its next.
pub open spec fn trail<T: Copy, A: Arithmetic<T>>(w: &A, factors: Seq<Factor<T>>, partial: Seq<Factor<T>>) -> bool {
    &&& partial.len() == factors.len() + 1
    &&& partial[0].spec_is_identity()
    &&& forall|i: int|
        0 <= i < factors.len() ==> multiplied::<T, A>(w, &partial[i], #[trigger] &factors[i], &partial[i + 1])
}

/// Whether `f` is the product of `factors`, multiplied one after another
/// onto the unit.
pub open spec fn pooled<T: Copy, A: Arithmetic<T>>(w: &A, factors: Seq<Factor<T>>, f: &Factor<T>) -> bool {
    exists|partial: Seq<Factor<T>>| #[trigger] trail::<T, A>(w, factors, partial) && partial.last() == *f
}

/// The scope of the product of the first `n` of `factors`.
pub open spec fn pool_scope<T: Copy>(factors: Seq<Factor<T>>, n: nat) -> Seq<Variable>
    decreases n,
{
    if n == 0 {
        Seq::empty()
    } else {
        union(pool_scope(factors, (n - 1) as nat), factors[n - 1].spec_scope())
    }
}

/// Whether the product of the first `n` of `factors` is undefined: one of
/// them has a table that shares no variable with the product of the tables
/// before it.
pub open spec fn unpoolable<T: Copy>(factors: Seq<Factor<T>>, n: nat) -> bool {
    exists|m: int|
        0 <= m < n && pool_scope(factors, m as nat).len() > 0 && (#[trigger] factors[m]).spec_scope().len() > 0
            && disjoint(pool_scope(factors, m as nat), factors[m].spec_scope())
}

/// The ordered union of nothing and a scope that holds no variable twice is
/// the scope.
pub proof fn lemma_union_empty(s: Seq<Variable>, n: nat)
    requires
        s.no_duplicates(),
        n <= s.len(),
    ensures
        crate::scope::appended(Seq::empty(), s, n) == s.take(n as int),
    decreases n,
{
    if n == 0 {
        assert(s.take(0) =~= Seq::<Variable>::empty());
    } else {
        lemma_union_empty(s, (n - 1) as nat);
        let before = s.take(n - 1);
        if before.contains(s[n - 1]) {
            let i = choose|i: int| 0 <= i < before.len() && before[i] == s[n - 1];
            assert(s[i] == s[n - 1]);
        }
        assert(before.push(s[n - 1]) =~= s.take(n as int));
    }
}

/// The product of all of `factors`, multiplied one after another onto the
/// unit.
pub fn multiply_all<T: Copy, A: Arithmetic<T>>(factors: &Vec<Factor<T>>, w: &A) -> (r: Result<Factor<T>, JeromeError>)
    requires
        forall|i: int| 0 <= i < factors@.len() ==> (#[trigger] factors@[i]).wf(),
        exact::<T, A>(w),
    ensures
        match r {
            Ok(f) => {
                &&& !unpoolable(factors@, factors@.len())
                &&& pooled::<T, A>(w, factors@, &f)
                &&& f.wf()
                &&& f.spec_scope() == pool_scope(factors@, factors@.len())
            },
            Err(e) => e is InvalidScope && unpoolable(factors@, factors@.len()),
        },
{
    let mut acc: Factor<T> = Factor::Identity;
    let ghost mut partial: Seq<Factor<T>> = seq![acc];
    let mut i: usize = 0;
    while i < factors.len()
        invariant
            forall|j: int| 0 <= j < factors@.len() ==> (#[trigger] factors@[j]).wf(),
            exact::<T, A>(w),
            i <= factors@.len(),
            acc.wf(),
            trail::<T, A>(w, factors@.take(i as int), partial),
            partial.last() == acc,
            acc.spec_scope() == pool_scope(factors@, i as nat),
            !unpoolable(factors@, i as nat),
        decreases factors@.len() - i,
    {
        let ghost before = acc;
        let ghost so_far = partial;
        proof {
            let s = factors@[i as int].spec_scope();
            assert(factors@[i as int].wf());
            if before.spec_is_identity() {
                lemma_union_empty(s, s.len());
                assert(s.take(s.len() as int) == s);
            }
            if factors@[i as int].spec_is_identity() {
                assert(union(before.spec_scope(), s) == before.spec_scope());
            }
        }
        match acc.product(&factors[i], w) {
            Ok(f) => {
                acc = f;
                proof {
                    partial = so_far.push(acc);
                    let shorter = factors@.take(i as int);
                    let longer = factors@.take(i + 1);
                    assert(multiplied::<T, A>(w, &before, &factors@[i as int], &acc));
                    assert forall|j: int| 0 <= j < longer.len() implies multiplied::<T, A>(
                        w,
                        &partial[j],
                        #[trigger] &longer[j],
                        &partial[j + 1],
                    ) by {
                        if j < i {
                            assert(multiplied::<T, A>(w, &so_far[j], &shorter[j], &so_far[j + 1]));
                        }
                    }
                    assert(!unpoolable(factors@, (i + 1) as nat)) by {
                        if unpoolable(factors@, (i + 1) as nat) {
                            let m = choose|m: int|
                                0 <= m < i + 1 && pool_scope(factors@, m as nat).len() > 0 && (#[trigger] factors@[m]).spec_scope().len()
                                    > 0 && disjoint(pool_scope(factors@, m as nat), factors@[m].spec_scope());
                            if m < i {
                                assert(unpoolable(factors@, i as nat));
                            }
                        }
                    }
                }
            },
            Err(e) => {
                proof {
                    assert(factors@[i as int].spec_scope().len() > 0);
                    assert(before.spec_scope().len() > 0);
                    assert(unpoolable(factors@, factors@.len()));
                }
                return Err(e);
            },
        }
        i += 1;
    }
    proof {
        assert(factors@.take(i as int) == factors@);
    }
    Ok(acc)
}

/// Those of the first `n` of `phis` whose scope holds `v`, in their order.
pub open spec fn taken<T: Copy>(phis: Seq<Factor<T>>, v: Variable, n: nat) -> Seq<Factor<T>>
    decreases n,
{
    if n == 0 {
        Seq::empty()
    } else if phis[n - 1].spec_scope().contains(v) {
        taken(phis, v, (n - 1) as nat).push(phis[n - 1])
    } else {
        taken(phis, v, (n - 1) as nat)
    }
}

/// Those of the first `n` of `phis` whose scope does not hold `v`, in their
/// order.
pub open spec fn kept<T: Copy>(phis: Seq<Factor<T>>, v: Variable, n: nat) -> Seq<Factor<T>>
    decreases n,
{
    if n == 0 {
        Seq::empty()
    } else if phis[n - 1].spec_scope().contains(v) {
        kept(phis, v, (n - 1) as nat)
    } else {
        kept(phis, v, (n - 1) as nat).push(phis[n - 1])
    }
}

/// Whether `tau` is `g` summed over `v`.
pub open spec fn summed_out<T: Copy, A: Arithmetic<T>>(w: &A, g: &Factor<T>, v: Variable, tau: &Factor<T>) -> bool {
    if g.spec_is_identity() {
        tau.spec_is_identity()
    } else if !g.spec_scope().contains(v) {
        tau.matches(g)
    } else if g.spec_scope().len() == 1 {
        tau.spec_is_identity()
    } else {
        is_marginal::<T, A>(w, tau, g, v)
    }
}

/// Whether `after` is the working set `before` with `v` eliminated: the
/// factors that hold `v` are multiplied, the product is summed over `v`,
/// and the sum takes their place at the end of the working set.
pub open spec fn eliminated<T: Copy, A: Arithmetic<T>>(
    w: &A,
    before: Seq<Factor<T>>,
    v: Variable,
    after: Seq<Factor<T>>,
) -> bool {
    exists|psi: Factor<T>, tau: Factor<T>|
        #![trigger pooled::<T, A>(w, taken(before, v, before.len()), &psi), summed_out::<T, A>(w, &psi, v, &tau)]
        pooled::<T, A>(w, taken(before, v, before.len()), &psi) && summed_out::<T, A>(w, &psi, v, &tau) && after
            == kept(before, v, before.len()).push(tau)
}

/// Whether two working sets hold factors with the same scopes, entries and
/// marks, in the same order.
pub open spec fn alike<T: Copy>(a: Seq<Factor<T>>, b: Seq<Factor<T>>) -> bool {
    a.len() == b.len() && forall|i: int| 0 <= i < a.len() ==> (#[trigger] a[i]).matches(&b[i])
}

/// Whether `stages` holds the working sets of variable elimination on
/// `start`: the first is alike to `start`, and each of the others comes
/// from the one before it by the elimination of the next variable of
/// `order`, unless the variable is queried.
pub open spec fn run<T: Copy, A: Arithmetic<T>>(
    w: &A,
    start: Seq<Factor<T>>,
    order: Seq<Variable>,
    query: Seq<Variable>,
    stages: Seq<Seq<Factor<T>>>,
) -> bool {
    &&& stages.len() == order.len() + 1
    &&& alike(stages[0], start)
    &&& forall|i: int|
        0 <= i < order.len() ==> if query.contains(#[trigger] order[i]) {
            stages[i + 1] == stages[i]
        } else {
            eliminated::<T, A>(w, stages[i], order[i], stages[i + 1])
        }
}

/// Whether `r` is what normalizing `g` gives.
pub open spec fn normalized_from<T: Copy, A: Arithmetic<T>>(w: &A, g: &Factor<T>, r: Result<Factor<T>, JeromeError>) -> bool {
    match r {
        Ok(f) => if g.spec_is_identity() {
            f.spec_is_identity()
        } else {
            !spec_same::<T, A>(w, total::<T, A>(w, g.entries()), spec_nil::<T, A>(w)) && is_normalized::<T, A>(w, &f, g)
        },
        Err(e) => e is DivideByZero && !g.spec_is_identity() && spec_same::<T, A>(
            w,
            total::<T, A>(w, g.entries()),
            spec_nil::<T, A>(w),
        ),
    }
}

/// Whether `r` answers the query for `query` by variable elimination on
/// `start` in the order `order`: the variables that are not queried are
/// eliminated, the factors that are left are multiplied, and the product is
/// normalized. There is no answer if the factors that are left cannot be
/// multiplied.
pub open spec fn answers<T: Copy, A: Arithmetic<T>>(
    w: &A,
    start: Seq<Factor<T>>,
    order: Seq<Variable>,
    query: Seq<Variable>,
    r: Result<Factor<T>, JeromeError>,
) -> bool {
    exists|stages: Seq<Seq<Factor<T>>>|
        #[trigger] run::<T, A>(w, start, order, query, stages) && if unpoolable(stages.last(), stages.last().len()) {
            r is Err && r->Err_0 is InvalidScope
        } else {
            exists|g: Factor<T>| #[trigger] pooled::<T, A>(w, stages.last(), &g) && normalized_from::<T, A>(w, &g, r)
        }
}

/// The factors that hold `v` and the factors that do not, each in their
/// order.
pub fn split<T: Copy>(phis: Vec<Factor<T>>, v: &Variable) -> (r: (Vec<Factor<T>>, Vec<Factor<T>>))
    requires
        valid(phis@),
    ensures
        r.0@ == taken(phis@, *v, phis@.len()),
        r.1@ == kept(phis@, *v, phis@.len()),
        valid(r.0@),
        valid(r.1@),
        forall|i: int| 0 <= i < r.0@.len() ==> (#[trigger] r.0@[i]).spec_scope().contains(*v),
{
    let mut rest = phis;
    let mut with: Vec<Factor<T>> = Vec::new();
    let mut without: Vec<Factor<T>> = Vec::new();
    let ghost mut k: nat = 0;
    while rest.len() > 0
        invariant
            valid(phis@),
            k <= phis@.len(),
            rest@ == phis@.skip(k as int),
            with@ == taken(phis@, *v, k),
            without@ == kept(phis@, *v, k),
            valid(with@),
            valid(without@),
            forall|i: int| 0 <= i < with@.len() ==> (#[trigger] with@[i]).spec_scope().contains(*v),
        decreases rest@.len(),
    {
        let f = rest.remove(0);
        proof {
            assert(f == phis@[k as int]);
            assert(f.wf());
            assert(rest@ =~= phis@.skip(k as int + 1));
        }
        if f.mentions(v) {
            with.push(f);
        } else {
            without.push(f);
        }
        proof {
            k = k + 1;
        }
    }
    (with, without)
}

/// The scope of a product holds exactly the variables of the factors
/// multiplied.
pub proof fn lemma_pool_scope<T: Copy>(factors: Seq<Factor<T>>, n: nat)
    requires
        n <= factors.len(),
    ensures
        forall|u: Variable|
            #[trigger] pool_scope(factors, n).contains(u) <==> exists|i: int|
                0 <= i < n && (#[trigger] factors[i]).spec_scope().contains(u),
    decreases n,
{
    if n == 0 {
        assert forall|u: Variable| !(#[trigger] pool_scope(factors, n).contains(u)) by {}
    } else {
        let before = pool_scope(factors, (n - 1) as nat);
        let s = factors[n - 1].spec_scope();
        lemma_pool_scope(factors, (n - 1) as nat);
        lemma_appended(before, s, s.len());
        assert(s.take(s.len() as int) == s);
        assert forall|u: Variable| #[trigger] pool_scope(factors, n).contains(u) <==> exists|i: int|
            0 <= i < n && (#[trigger] factors[i]).spec_scope().contains(u) by {
            if pool_scope(factors, n).contains(u) {
                if before.contains(u) {
                    let i = choose|i: int| 0 <= i < n - 1 && (#[trigger] factors[i]).spec_scope().contains(u);
                    assert(0 <= i < n && factors[i].spec_scope().contains(u));
                } else {
                    assert(factors[n - 1].spec_scope().contains(u));
                }
            }
            if exists|i: int| 0 <= i < n && (#[trigger] factors[i]).spec_scope().contains(u) {
                let i = choose|i: int| 0 <= i < n && (#[trigger] factors[i]).spec_scope().contains(u);
                if i < n - 1 {
                    assert(before.contains(u));
                }
            }
        }
    }
}

/// Factors that all hold one variable can be multiplied.
pub proof fn lemma_poolable<T: Copy>(factors: Seq<Factor<T>>, v: Variable)
    requires
        forall|i: int| 0 <= i < factors.len() ==> (#[trigger] factors[i]).spec_scope().contains(v),
    ensures
        !unpoolable(factors, factors.len()),
{
    if unpoolable(factors, factors.len()) {
        let m = choose|m: int|
            0 <= m < factors.len() && pool_scope(factors, m as nat).len() > 0 && (#[trigger] factors[m]).spec_scope().len() > 0
                && disjoint(pool_scope(factors, m as nat), factors[m].spec_scope());
        lemma_pool_scope(factors, m as nat);
        let p = pool_scope(factors, m as nat);
        assert(p.contains(p[0]));
        let i = choose|i: int| 0 <= i < m && (#[trigger] factors[i]).spec_scope().contains(p[0]);
        assert(factors[0].spec_scope().contains(v));
        assert(p.contains(v));
        let a = choose|a: int| 0 <= a < p.len() && p[a] == v;
        let b = choose|b: int| 0 <= b < factors[m].spec_scope().len() && factors[m].spec_scope()[b] == v;
        assert(p[a] == factors[m].spec_scope()[b]);
    }
}

/// Whether every variable of every one of `phis` is one of `allowed`, and
/// is queried if it is one of `gone`.
pub open spec fn confined<T: Copy>(
    phis: Seq<Factor<T>>,
    allowed: Seq<Variable>,
    gone: Seq<Variable>,
    query: Seq<Variable>,
) -> bool {
    forall|i: int, u: Variable|
        0 <= i < phis.len() && #[trigger] phis[i].spec_scope().contains(u) ==> allowed.contains(u) && (gone.contains(u)
            ==> query.contains(u))
}

/// An engine for exact inference by variable elimination. It holds the
/// model given the evidence, and the order in which it eliminates the
/// variables.
pub struct VariableEliminationEngine<'a, T, A> {
    model: UndirectedModel<T>,
    order: Vec<Variable>,
    w: &'a A,
}

impl<'a, T: Copy, A: Arithmetic<T>> VariableEliminationEngine<'a, T, A> {
    /// The model given the evidence.
    pub closed spec fn model(&self) -> UndirectedModel<T> {
        self.model
    }

    /// The arithmetic of the engine.
    pub closed spec fn arithmetic(&self) -> &A {
        self.w
    }

    /// The elimination order.
    pub closed spec fn order(&self) -> Seq<Variable> {
        self.order@
    }

    /// The validity of an engine: its model is valid, and its order is the
    /// max-cardinality elimination order of the variables of the model.
    pub open spec fn wf(&self) -> bool {
        &&& self.model().wf()
        &&& exact::<T, A>(self.arithmetic())
        &&& max_cardinality(self.model().spec_factors(), self.model().spec_variables(), self.order())
        &&& forall|v: Variable| self.order().contains(v) <==> self.model().spec_variables().contains(v)
    }

    /// An engine for the directed model given the evidence.
    pub fn for_directed(model: &DirectedModel<T>, evidence: &Assignment, w: &'a A) -> (engine: Self)
        requires
            model.wf(),
            evidence.wf(),
            exact::<T, A>(w),
        ensures
            engine.wf(),
            engine.arithmetic() == w,
            exists|flat: UndirectedModel<T>|
                #[trigger] flat.spec_variables() == model.order() && alike(flat.spec_factors(), model.factors())
                    && engine.model().conditioned_from::<A>(w, &flat, evidence@),
    {
        let flat = UndirectedModel::from(model, w);
        let engine = VariableEliminationEngine::for_undirected(&flat, evidence, w);
        proof {
            assert(flat.spec_variables() == model.order() && alike(flat.spec_factors(), model.factors())
                && engine.model().conditioned_from::<A>(w, &flat, evidence@));
        }
        engine
    }

    /// An engine for the undirected model given the evidence.
    pub fn for_undirected(model: &UndirectedModel<T>, evidence: &Assignment, w: &'a A) -> (engine: Self)
        requires
            model.wf(),
            evidence.wf(),
            exact::<T, A>(w),
        ensures
            engine.wf(),
            engine.arithmetic() == w,
            engine.model().conditioned_from::<A>(w, model, evidence@),
    {
        let reduced = model.condition(evidence, w);
        let variables = reduced.variables();
        let order = max_cardinality_elimination_order(reduced.factors(), &variables);
        VariableEliminationEngine { model: reduced, order, w }
    }

    /// The distribution of `variables` given the evidence, which all have to
    /// be variables of the model that the evidence leaves free.
    pub fn answer(&self, variables: &Vec<Variable>) -> (r: Result<Factor<T>, JeromeError>)
        requires
            self.wf(),
        ensures
            if !within(variables@, self.model().spec_variables()) {
                r is Err && r->Err_0 is InvalidScope
            } else {
                answers::<T, A>(self.arithmetic(), self.model().spec_factors(), self.order(), variables@, r)
            },
            r is Ok ==> r->Ok_0.wf() && within(r->Ok_0.spec_scope(), variables@),
    {
        let w = self.w;
        let all = self.model.variables();
        if !subset(variables, &all) {
            return Err(JeromeError::InvalidScope);
        }
        let given = self.model.factors();
        let mut phis: Vec<Factor<T>> = Vec::new();
        let mut k: usize = 0;
        while k < given.len()
            invariant
                self.wf(),
                given@ == self.model().spec_factors(),
                k <= given@.len(),
                phis@.len() == k,
                forall|j: int| 0 <= j < k ==> (#[trigger] phis@[j]).matches(&given@[j]) && phis@[j].wf(),
            decreases given@.len() - k,
        {
            proof {
                assert(given@[k as int].wf());
            }
            phis.push(given[k].copy());
            k += 1;
        }
        let ghost mut stages: Seq<Seq<Factor<T>>> = seq![phis@];
        proof {
            assert forall|i: int, u: Variable|
                0 <= i < phis@.len() && #[trigger] phis@[i].spec_scope().contains(u) implies all@.contains(u) by {
                assert(within(given@[i].spec_scope(), all@));
                let x = choose|x: int| 0 <= x < phis@[i].spec_scope().len() && phis@[i].spec_scope()[x] == u;
                assert(all@.contains(given@[i].spec_scope()[x]));
            }
            assert(self.order@.take(0).len() == 0);
        }
        let mut i: usize = 0;
        while i < self.order.len()
            invariant
                self.wf(),
                exact::<T, A>(w),
                given@ == self.model().spec_factors(),
                all@ == self.model().spec_variables(),
                i <= self.order@.len(),
                valid(phis@),
                confined(phis@, all@, self.order@.take(i as int), variables@),
                stages.len() == i + 1,
                stages.last() == phis@,
                alike(stages[0], given@),
                forall|j: int|
                    0 <= j < i ==> if variables@.contains(#[trigger] self.order@[j]) {
                        stages[j + 1] == stages[j]
                    } else {
                        eliminated::<T, A>(w, stages[j], self.order@[j], stages[j + 1])
                    },
            decreases self.order@.len() - i,
        {
            let var = self.order[i];
            let ghost before = phis@;
            let ghost so_far = stages;
            let ghost gone = self.order@.take(i as int);
            let ghost next = self.order@.take(i + 1);
            proof {
                assert forall|u: Variable| next.contains(u) <==> gone.contains(u) || u == var by {
                    if gone.contains(u) {
                        let x = choose|x: int| 0 <= x < gone.len() && gone[x] == u;
                        assert(next[x] == u);
                    }
                    if u == var {
                        assert(next[i as int] == u);
                    }
                    if next.contains(u) {
                        let x = choose|x: int| 0 <= x < next.len() && next[x] == u;
                        if x < i {
                            assert(gone[x] == u);
                        }
                    }
                }
            }
            if !holds(variables, &var) {
                let (with, without) = split(phis, &var);
                proof {
                    lemma_poolable(with@, var);
                }
                let psi = multiply_all(&with, w).unwrap();
                let tau = psi.marginalize(var, w);
                phis = without;
                phis.push(tau);
                proof {
                    assert(summed_out::<T, A>(w, &psi, var, &tau));
                    assert(eliminated::<T, A>(w, before, var, phis@));
                    lemma_split_confined(before, var, before.len());
                    lemma_pool_scope(with@, with@.len());
                    lemma_without(psi.spec_scope(), var);
                    assert forall|x: int, u: Variable|
                        0 <= x < phis@.len() && #[trigger] phis@[x].spec_scope().contains(u) implies all@.contains(u)
                        && (next.contains(u) ==> variables@.contains(u)) by {
                        if x < without@.len() {
                            assert(phis@[x] == without@[x]);
                            let y = choose|y: int| 0 <= y < before.len() && before[y] == without@[x] && !before[y].spec_scope().contains(var);
                            assert(before[y].spec_scope().contains(u));
                            assert(all@.contains(u) && (gone.contains(u) ==> variables@.contains(u)));
                        } else {
                            assert(phis@[x] == tau);
                            assert(psi.spec_scope().contains(u) && u != var);
                            let z = choose|z: int| 0 <= z < with@.len() && (#[trigger] with@[z]).spec_scope().contains(u);
                            let y = choose|y: int| 0 <= y < before.len() && before[y] == with@[z];
                            assert(before[y].spec_scope().contains(u));
                            assert(all@.contains(u) && (gone.contains(u) ==> variables@.contains(u)));
                        }
                    }
                    assert forall|x: int| 0 <= x < phis@.len() implies (#[trigger] phis@[x]).wf() by {
                        if x < without@.len() {
                            assert(phis@[x] == without@[x]);
                        }
                    }
                }
            } else {
                proof {
                    assert forall|x: int, u: Variable|
                        0 <= x < phis@.len() && #[trigger] phis@[x].spec_scope().contains(u) implies all@.contains(u)
                        && (next.contains(u) ==> variables@.contains(u)) by {
                        assert(all@.contains(u) && (gone.contains(u) ==> variables@.contains(u)));
                    }
                }
            }
            proof {
                stages = so_far.push(phis@);
                assert forall|j: int| 0 <= j < i + 1 implies if variables@.contains(#[trigger] self.order@[j]) {
                    stages[j + 1] == stages[j]
                } else {
                    eliminated::<T, A>(w, stages[j], self.order@[j], stages[j + 1])
                } by {
                    if j < i {
                        assert(stages[j] == so_far[j]);
                        assert(stages[j + 1] == so_far[j + 1]);
                    }
                }
            }
            i += 1;
        }
        proof {
            assert(self.order@.take(i as int) == self.order@);
            assert(run::<T, A>(w, given@, self.order@, variables@, stages));
        }
        let product = multiply_all(&phis, w);
        match product {
            Ok(g) => {
                let r = g.normalize(w);
                proof {
                    assert(pooled::<T, A>(w, stages.last(), &g) && normalized_from::<T, A>(w, &g, r));
                    lemma_pool_scope(phis@, phis@.len());
                    if r is Ok {
                        let f = r->Ok_0;
                        assert forall|x: int| 0 <= x < f.spec_scope().len() implies variables@.contains(#[trigger] f.spec_scope()[x]) by {
                            let u = f.spec_scope()[x];
                            assert(g.spec_scope().contains(u));
                            let z = choose|z: int| 0 <= z < phis@.len() && (#[trigger] phis@[z]).spec_scope().contains(u);
                            assert(all@.contains(u) && (self.order@.contains(u) ==> variables@.contains(u)));
                        }
                    }
                }
                r
            },
            Err(e) => Err(e),
        }
    }
}

impl<'a, T: Copy, A: Arithmetic<T>> ConditionalInferenceEngine<T> for VariableEliminationEngine<'a, T, A> {
    open spec fn ready(&self) -> bool {
        self.wf()
    }

    fn infer(&mut self, variables: &Vec<Variable>) -> (r: Result<Factor<T>, JeromeError>)
        ensures
            *final(self) == *old(self),
            if !within(variables@, old(self).model().spec_variables()) {
                r is Err && r->Err_0 is InvalidScope
            } else {
                answers::<T, A>(
                    old(self).arithmetic(),
                    old(self).model().spec_factors(),
                    old(self).order(),
                    variables@,
                    r,
                )
            },
            r is Ok ==> within(r->Ok_0.spec_scope(), variables@),
    {
        self.answer(variables)
    }
}

/// Every factor that a split keeps or takes is one of the factors split.
pub proof fn lemma_split_confined<T: Copy>(phis: Seq<Factor<T>>, v: Variable, n: nat)
    requires
        n <= phis.len(),
    ensures
        forall|x: int|
            0 <= x < kept(phis, v, n).len() ==> exists|y: int|
                0 <= y < n && phis[y] == #[trigger] kept(phis, v, n)[x] && !phis[y].spec_scope().contains(v),
        forall|x: int|
            0 <= x < taken(phis, v, n).len() ==> exists|y: int| 0 <= y < n && phis[y] == #[trigger] taken(phis, v, n)[x],
    decreases n,
{
    if n > 0 {
        lemma_split_confined(phis, v, (n - 1) as nat);
        let k0 = kept(phis, v, (n - 1) as nat);
        let t0 = taken(phis, v, (n - 1) as nat);
        assert forall|x: int| 0 <= x < kept(phis, v, n).len() implies exists|y: int|
            0 <= y < n && phis[y] == #[trigger] kept(phis, v, n)[x] && !phis[y].spec_scope().contains(v) by {
            if x < k0.len() {
                let y = choose|y: int| 0 <= y < n - 1 && phis[y] == k0[x] && !phis[y].spec_scope().contains(v);
                assert(0 <= y < n && phis[y] == kept(phis, v, n)[x] && !phis[y].spec_scope().contains(v));
            } else {
                assert(phis[n - 1] == kept(phis, v, n)[x] && !phis[n - 1].spec_scope().contains(v));
            }
        }
        assert forall|x: int| 0 <= x < taken(phis, v, n).len() implies exists|y: int|
            0 <= y < n && phis[y] == #[trigger] taken(phis, v, n)[x] by {
            if x < t0.len() {
                let y = choose|y: int| 0 <= y < n - 1 && phis[y] == t0[x];
                assert(0 <= y < n && phis[y] == taken(phis, v, n)[x]);
            } else {
                assert(phis[n - 1] == taken(phis, v, n)[x]);
            }
        }
    }
}

} // verus!
