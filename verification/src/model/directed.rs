//! Directed models: one conditional probability distribution for each
//! variable, given variables that were added before it.

use vstd::prelude::*;
use crate::factor::{distributes, Factor, is_reduction};
use crate::init::Initialization;
use crate::model::names::{
    decimal, has_id, has_name, labelled, labels, Names, one_to_one, pairs_with, text_of,
};
use crate::model::roster::{distinct_ids, Roster};
use crate::scope::{lemma_unassigned, merge, subset, unassigned, union, within};
use crate::util::JeromeError;
use crate::variable::{Assignment, covers, Variable};
use crate::weight::{Arithmetic, Chance, exact, product, spec_product, spec_unit, unit};

verus! {

/// Whether `f` can stand at position `i` of a directed model over `order`:
/// it is a valid factor with a table, over the variable at that position
/// and variables before it.
pub open spec fn family<T: Copy>(order: Seq<Variable>, i: int, f: &Factor<T>) -> bool {
    &&& f.wf()
    &&& !f.spec_is_identity()
    &&& f.spec_scope().contains(order[i])
    &&& forall|j: int|
        0 <= j < f.spec_scope().len() ==> #[trigger] f.spec_scope()[j] == order[i] || order.take(i).contains(
            f.spec_scope()[j],
        )
}

/// Whether each of `factors` can stand at its position of a directed model
/// over `order`.
pub open spec fn families<T: Copy>(order: Seq<Variable>, factors: Seq<Factor<T>>) -> bool {
    &&& factors.len() == order.len()
    &&& forall|i: int| 0 <= i < order.len() ==> family(order, i, #[trigger] &factors[i])
}

/// The product of the entries of the first `n` of `factors` under `a`,
/// taken in order, starting from one.
pub open spec fn chain<T: Copy, A: Arithmetic<T>>(w: &A, factors: Seq<Factor<T>>, a: Map<Variable, usize>, n: nat) -> T
    decreases n,
{
    if n == 0 {
        spec_unit::<T, A>(w)
    } else {
        spec_product::<T, A>(w, chain::<T, A>(w, factors, a, (n - 1) as nat), factors[n - 1].at(a))
    }
}

/// Whether `f` is `g` reduced by the evidence `e`, where the evidence leaves
/// a variable of `g` free: `g` itself if the evidence does not touch it.
pub open spec fn reduced<T: Copy>(f: &Factor<T>, g: &Factor<T>, e: Map<Variable, usize>) -> bool {
    if unassigned(g.spec_scope(), e) == g.spec_scope() {
        f.matches(g)
    } else {
        is_reduction(f, g, e)
    }
}

/// Whether each of the first `n` variables of `order` that the evidence
/// leaves free is among `kept`, with its factor among `made` reduced from
/// its factor among `given`.
pub open spec fn carried<T: Copy>(
    order: Seq<Variable>,
    given: Seq<Factor<T>>,
    e: Map<Variable, usize>,
    n: int,
    kept: Seq<Variable>,
    made: Seq<Factor<T>>,
) -> bool {
    forall|k: int|
        0 <= k < n && !e.contains_key(#[trigger] order[k]) ==> exists|i: int|
            0 <= i < kept.len() && kept[i] == order[k] && reduced(&made[i], &given[k], e)
}

/// Whether each of `fewer` is one of the first `n` of `pairs`.
pub open spec fn drawn_from(fewer: Seq<(usize, Seq<char>)>, pairs: Seq<(usize, Seq<char>)>, n: int) -> bool {
    forall|i: int| 0 <= i < fewer.len() ==> #[trigger] among(pairs, n, fewer[i])
}

/// Whether `pair` is one of the first `n` of `pairs`.
pub open spec fn among(pairs: Seq<(usize, Seq<char>)>, n: int, pair: (usize, Seq<char>)) -> bool {
    exists|k: int| 0 <= k < n && k < pairs.len() && #[trigger] pairs[k] == pair
}

/// Whether each of the variables `kept` is one of `order`, and has among
/// `fewer` the name that it has among `pairs`.
pub open spec fn names_kept(
    order: Seq<Variable>,
    pairs: Seq<(usize, Seq<char>)>,
    kept: Seq<Variable>,
    fewer: Seq<(usize, Seq<char>)>,
) -> bool {
    forall|i: int| 0 <= i < kept.len() ==> #[trigger] named_as(order, labels(pairs), kept[i], fewer[i].1)
}

/// Whether `var` is one of `order` and has there the name `name`.
pub open spec fn named_as(order: Seq<Variable>, names: Seq<Seq<char>>, var: Variable, name: Seq<char>) -> bool {
    exists|k: int| 0 <= k < order.len() && k < names.len() && #[trigger] order[k] == var && names[k] == name
}

/// A variable that is kept with its name extends the variables kept with
/// their names.
pub proof fn lemma_names_kept(
    order: Seq<Variable>,
    pairs: Seq<(usize, Seq<char>)>,
    j: int,
    kept: Seq<Variable>,
    fewer: Seq<(usize, Seq<char>)>,
)
    requires
        0 <= j < order.len(),
        labelled(order, pairs),
        labelled(kept, fewer),
        names_kept(order, pairs, kept, fewer),
    ensures
        names_kept(order, pairs, kept.push(order[j]), fewer.push(pairs[j])),
        labelled(kept.push(order[j]), fewer.push(pairs[j])),
{
    let more = kept.push(order[j]);
    let longer = fewer.push(pairs[j]);
    assert forall|i: int| 0 <= i < more.len() implies #[trigger] named_as(order, labels(pairs), more[i], longer[i].1) by {
        if i < kept.len() {
            assert(named_as(order, labels(pairs), kept[i], fewer[i].1));
        } else {
            assert(order[j] == more[i] && labels(pairs)[j] == longer[i].1);
        }
    }
    assert forall|i: int| 0 <= i < more.len() implies (#[trigger] longer[i]).0 == more[i].spec_id() by {
        if i < kept.len() {
            assert(longer[i] == fewer[i]);
        }
    }
}

/// A name that is carried over from a table of names is not yet among the
/// names carried over before it.
pub proof fn lemma_names_keep(pairs: Seq<(usize, Seq<char>)>, j: int, fewer: Seq<(usize, Seq<char>)>)
    requires
        one_to_one(pairs),
        0 <= j < pairs.len(),
        drawn_from(fewer, pairs, j),
    ensures
        !has_id(fewer, pairs[j].0),
        !has_name(fewer, pairs[j].1),
        drawn_from(fewer.push(pairs[j]), pairs, j + 1),
{
    if has_id(fewer, pairs[j].0) {
        let i = choose|i: int| 0 <= i < fewer.len() && (#[trigger] fewer[i]).0 == pairs[j].0;
        assert(among(pairs, j, fewer[i]));
        let k = choose|k: int| 0 <= k < j && k < pairs.len() && #[trigger] pairs[k] == fewer[i];
        assert(pairs[k].0 != pairs[j].0);
    }
    if has_name(fewer, pairs[j].1) {
        let i = choose|i: int| 0 <= i < fewer.len() && (#[trigger] fewer[i]).1 == pairs[j].1;
        assert(among(pairs, j, fewer[i]));
        let k = choose|k: int| 0 <= k < j && k < pairs.len() && #[trigger] pairs[k] == fewer[i];
        assert(pairs[k].1 != pairs[j].1);
    }
    let more = fewer.push(pairs[j]);
    assert forall|i: int| 0 <= i < more.len() implies #[trigger] among(pairs, j + 1, more[i]) by {
        if i < fewer.len() {
            assert(among(pairs, j, fewer[i]));
            let k = choose|k: int| 0 <= k < j && k < pairs.len() && #[trigger] pairs[k] == fewer[i];
            assert(0 <= k < j + 1 && pairs[k] == more[i]);
        } else {
            assert(pairs[j] == more[i]);
        }
    }
}

/// Names drawn from the first of a table are drawn from one more of them.
pub proof fn lemma_names_skip(fewer: Seq<(usize, Seq<char>)>, pairs: Seq<(usize, Seq<char>)>, j: int)
    requires
        drawn_from(fewer, pairs, j),
    ensures
        drawn_from(fewer, pairs, j + 1),
{
    assert forall|i: int| 0 <= i < fewer.len() implies #[trigger] among(pairs, j + 1, fewer[i]) by {
        assert(among(pairs, j, fewer[i]));
        let k = choose|k: int| 0 <= k < j && k < pairs.len() && #[trigger] pairs[k] == fewer[i];
        assert(0 <= k < j + 1 && pairs[k] == fewer[i]);
    }
}

/// The name that a valid table has for the identity at a position is the
/// name at that position.
pub proof fn lemma_name_at(pairs: Seq<(usize, Seq<char>)>, j: int, name: Seq<char>)
    requires
        one_to_one(pairs),
        0 <= j < pairs.len(),
        pairs_with(pairs, pairs[j].0, name),
    ensures
        pairs[j].1 == name,
{
    let i = choose|i: int| 0 <= i < pairs.len() && #[trigger] pairs[i] == (pairs[j].0, name);
    if i != j {
        if i < j {
            assert(pairs[i].0 != pairs[j].0);
        } else {
            assert(pairs[j].0 != pairs[i].0);
        }
    }
}

/// Conditioning passes over a variable that the evidence gives a state.
proof fn lemma_condition_skip<T: Copy>(
    order: Seq<Variable>,
    given: Seq<Factor<T>>,
    e: Map<Variable, usize>,
    j: int,
    kept: Seq<Variable>,
    made: Seq<Factor<T>>,
)
    requires
        0 <= j < order.len(),
        e.contains_key(order[j]),
        kept == unassigned(order.take(j), e),
        carried(order, given, e, j, kept, made),
    ensures
        kept == unassigned(order.take(j + 1), e),
        carried(order, given, e, j + 1, kept, made),
{
    assert(order.take(j + 1).drop_last() == order.take(j));
    assert(order.take(j + 1).last() == order[j]);
}

/// Conditioning keeps a variable that the evidence leaves free, with its
/// factor reduced.
proof fn lemma_condition_keep<T: Copy>(
    order: Seq<Variable>,
    given: Seq<Factor<T>>,
    e: Map<Variable, usize>,
    j: int,
    kept: Seq<Variable>,
    made: Seq<Factor<T>>,
    f: Factor<T>,
)
    requires
        0 <= j < order.len(),
        families(order, given),
        !e.contains_key(order[j]),
        kept == unassigned(order.take(j), e),
        families(kept, made),
        carried(order, given, e, j, kept, made),
        f.wf(),
        !f.spec_is_identity(),
        reduced(&f, &given[j], e),
    ensures
        kept.push(order[j]) == unassigned(order.take(j + 1), e),
        families(kept.push(order[j]), made.push(f)),
        carried(order, given, e, j + 1, kept.push(order[j]), made.push(f)),
{
    let v = order[j];
    let g = &given[j];
    let seen = order.take(j);
    let next = kept.push(v);
    let all = made.push(f);
    let i = kept.len() as int;
    assert(order.take(j + 1).drop_last() == seen);
    assert(order.take(j + 1).last() == v);
    lemma_unassigned(seen, e);
    lemma_unassigned(g.spec_scope(), e);
    assert(family(order, j, g));
    assert(f.spec_scope() == unassigned(g.spec_scope(), e));
    assert(next.take(i) == kept);
    assert(f.spec_scope().contains(v));
    assert forall|q: int| 0 <= q < f.spec_scope().len() implies #[trigger] f.spec_scope()[q] == next[i] || next.take(
        i,
    ).contains(f.spec_scope()[q]) by {
        let u = f.spec_scope()[q];
        assert(f.spec_scope().contains(u));
        assert(g.spec_scope().contains(u));
        let x = choose|x: int| 0 <= x < g.spec_scope().len() && g.spec_scope()[x] == u;
        if u != v {
            assert(g.spec_scope()[x] == order[j] || seen.contains(g.spec_scope()[x]));
            assert(kept.contains(u));
        }
    }
    assert(family(next, i, &f));
    assert forall|q: int| 0 <= q < next.len() implies family(next, q, #[trigger] &all[q]) by {
        if q < i {
            assert(family(kept, q, &made[q]));
            assert(next.take(q) == kept.take(q));
            assert(all[q] == made[q]);
            assert(next[q] == kept[q]);
        } else {
            assert(all[q] == f);
        }
    }
    assert forall|k: int| 0 <= k < j + 1 && !e.contains_key(#[trigger] order[k]) implies exists|x: int|
        0 <= x < next.len() && next[x] == order[k] && reduced(&all[x], &given[k], e) by {
        if k < j {
            let x = choose|x: int| 0 <= x < kept.len() && kept[x] == order[k] && reduced(&made[x], &given[k], e);
            assert(next[x] == order[k] && reduced(&all[x], &given[k], e));
        } else {
            assert(next[i] == order[k] && reduced(&all[i], &given[k], e));
        }
    }
}

/// A Bayesian network. The variables are held in the order in which they
/// were added, which is a topological order of the network: the parents of
/// a variable are the other variables of its factor, and they come before
/// it.
pub struct DirectedModel<T> {
    roster: Roster,
    cpds: Vec<Factor<T>>,
    names: Names,
}

impl<T: Copy> DirectedModel<T> {
    /// The variables of the model in topological order.
    pub closed spec fn order(&self) -> Seq<Variable> {
        self.roster@
    }

    /// The factor of each variable, in the order of the variables.
    pub closed spec fn factors(&self) -> Seq<Factor<T>> {
        self.cpds@
    }

    /// The name of each variable, in the order of the variables.
    pub closed spec fn names(&self) -> Seq<Seq<char>> {
        labels(self.names@)
    }

    /// The validity of a model: no variable is held twice, each factor is a
    /// table over its variable and variables before it, and each variable
    /// has a name of its own.
    pub closed spec fn wf(&self) -> bool {
        &&& self.roster.wf()
        &&& families(self.roster@, self.cpds@)
        &&& self.names.wf()
        &&& labelled(self.roster@, self.names@)
    }

    /// Whether each factor gives its variable a distribution whatever the
    /// states of the parents.
    pub open spec fn samplable<A: Arithmetic<T>>(&self, w: &A) -> bool {
        forall|i: int|
            0 <= i < self.factors().len() ==> distributes::<T, A>(w, #[trigger] &self.factors()[i], self.order()[i])
    }

    /// Whether each factor gives its variable a distribution whatever the
    /// states of the parents.
    pub fn can_be_sampled<A: Arithmetic<T>>(&self, w: &A) -> (b: bool)
        requires
            self.wf(),
            exact::<T, A>(w),
        ensures
            b == self.samplable::<A>(w),
    {
        let mut i: usize = 0;
        while i < self.cpds.len()
            invariant
                self.wf(),
                exact::<T, A>(w),
                i <= self.cpds@.len(),
                forall|j: int| 0 <= j < i ==> distributes::<T, A>(w, #[trigger] &self.cpds@[j], self.roster@[j]),
            decreases self.cpds@.len() - i,
        {
            proof {
                assert(family(self.roster@, i as int, &self.cpds@[i as int]));
            }
            let v = self.roster.get(i);
            if !self.cpds[i].has_mass(&v, w) {
                assert(!distributes::<T, A>(w, &self.factors()[i as int], self.order()[i as int]));
                return false;
            }
            i += 1;
        }
        true
    }

    /// The variable at position `i` of the topological order.
    pub fn variable(&self, i: usize) -> (v: Variable)
        requires
            self.wf(),
            i < self.order().len(),
        ensures
            v == self.order()[i as int],
    {
        self.roster.get(i)
    }

    /// The factor of the variable at position `i` of the topological order.
    pub fn factor(&self, i: usize) -> (f: &Factor<T>)
        requires
            self.wf(),
            i < self.order().len(),
        ensures
            *f == self.factors()[i as int],
    {
        &self.cpds[i]
    }

    /// What the validity of a model means for its variables and factors.
    pub proof fn lemma_wf(&self)
        requires
            self.wf(),
        ensures
            families(self.order(), self.factors()),
            distinct_ids(self.order()),
            self.order().no_duplicates(),
            self.names().len() == self.order().len(),
            self.names().no_duplicates(),
    {
        self.roster.lemma_distinct();
        assert forall|i: int, j: int| 0 <= i < self.names().len() && 0 <= j < self.names().len() && i != j implies self.names()[i]
            != self.names()[j] by {
            if i < j {
                assert(self.names@[i].1 != self.names@[j].1);
            } else {
                assert(self.names@[j].1 != self.names@[i].1);
            }
        }
    }

    /// A copy of the names of the variables, each with the identity of its
    /// variable, in the order of the variables.
    pub fn names_table(&self) -> (names: Names)
        requires
            self.wf(),
        ensures
            names.wf(),
            labelled(self.order(), names@),
            labels(names@) == self.names(),
    {
        self.names.copy()
    }

    /// The name of `var`, if the model holds `var`.
    pub fn lookup_name(&self, var: &Variable) -> (r: Option<String>)
        requires
            self.wf(),
        ensures
            match r {
                Some(name) => exists|i: int|
                    0 <= i < self.order().len() && #[trigger] self.order()[i] == *var && self.names()[i] == name@,
                None => !self.order().contains(*var),
            },
    {
        match self.roster.position(var) {
            Some(i) => {
                let found = self.names.name_of(var.id());
                proof {
                    assert(self.names@[i as int].0 == var.spec_id());
                    assert(has_id(self.names@, var.spec_id()));
                    lemma_name_at(self.names@, i as int, found->Some_0@);
                    assert(self.order()[i as int] == *var && self.names()[i as int] == found->Some_0@);
                }
                found
            },
            None => None,
        }
    }

    /// The variable with the name `name`, if the model holds one.
    pub fn lookup_variable(&self, name: &str) -> (r: Option<Variable>)
        requires
            self.wf(),
        ensures
            match r {
                Some(var) => exists|i: int|
                    0 <= i < self.order().len() && #[trigger] self.order()[i] == var && self.names()[i] == name@,
                None => forall|i: int| 0 <= i < self.names().len() ==> #[trigger] self.names()[i] != name@,
            },
    {
        match self.names.id_of(name) {
            Some(id) => {
                proof {
                    let x = choose|x: int| 0 <= x < self.names@.len() && #[trigger] self.names@[x] == (id, name@);
                    assert(self.roster@[x].spec_id() == id);
                    self.roster.lemma_distinct();
                }
                let i = self.roster.by_id(id).unwrap();
                let var = self.roster.get(i);
                proof {
                    let x = choose|x: int| 0 <= x < self.names@.len() && #[trigger] self.names@[x] == (id, name@);
                    assert(x == i) by {
                        if x != i {
                            if x < i {
                                assert(self.roster@[x].spec_id() != self.roster@[i as int].spec_id());
                            } else {
                                assert(self.roster@[i as int].spec_id() != self.roster@[x].spec_id());
                            }
                        }
                    }
                    assert(self.order()[i as int] == var && self.names()[i as int] == name@);
                }
                Some(var)
            },
            None => {
                proof {
                    assert forall|i: int| 0 <= i < self.names().len() implies #[trigger] self.names()[i] != name@ by {
                        assert(self.names@[i].1 == self.names()[i]);
                    }
                }
                None
            },
        }
    }

    /// The factor of `v`, if the model holds `v`.
    pub fn cpd(&self, v: &Variable) -> (r: Option<&Factor<T>>)
        requires
            self.wf(),
        ensures
            match r {
                Some(f) => exists|i: int| 0 <= i < self.order().len() && self.order()[i] == *v && *f == self.factors()[i],
                None => !self.order().contains(*v),
            },
    {
        match self.roster.position(v) {
            Some(i) => {
                assert(self.order()[i as int] == *v && self.cpds@[i as int] == self.factors()[i as int]);
                Some(&self.cpds[i])
            },
            None => None,
        }
    }

    /// The variables of the model in topological order.
    pub fn topological_order(&self) -> (r: Vec<Variable>)
        requires
            self.wf(),
        ensures
            r@ == self.order(),
    {
        self.roster.to_vec()
    }

    /// The variables of the model.
    pub fn variables(&self) -> (r: Vec<Variable>)
        requires
            self.wf(),
        ensures
            r@ == self.order(),
    {
        self.roster.to_vec()
    }

    /// The number of variables of the model.
    pub fn num_variables(&self) -> (n: usize)
        ensures
            n == self.order().len(),
    {
        self.roster.len()
    }

    /// Copies of the factors of the variables, in the order of the variables.
    pub fn cpds(&self) -> (r: Vec<Factor<T>>)
        requires
            self.wf(),
        ensures
            r@.len() == self.factors().len(),
            forall|i: int| 0 <= i < r@.len() ==> (#[trigger] r@[i]).matches(&self.factors()[i]) && r@[i].wf(),
    {
        let mut r: Vec<Factor<T>> = Vec::new();
        let mut i: usize = 0;
        while i < self.cpds.len()
            invariant
                self.wf(),
                i <= self.cpds@.len(),
                r@.len() == i,
                forall|j: int| 0 <= j < i ==> (#[trigger] r@[j]).matches(&self.cpds@[j]) && r@[j].wf(),
            decreases self.cpds@.len() - i,
        {
            proof {
                assert(family(self.roster@, i as int, &self.cpds@[i as int]));
            }
            r.push(self.cpds[i].copy());
            i += 1;
        }
        r
    }

    /// The model with the same variables and names, and with `factors` in
    /// the place of its factors. Each of the new factors has to be a valid
    /// factor over the scope of the factor that it takes the place of.
    pub fn with_factors(&self, factors: Vec<Factor<T>>) -> (r: Self)
        requires
            self.wf(),
            factors@.len() == self.factors().len(),
            forall|i: int|
                0 <= i < factors@.len() ==> (#[trigger] factors@[i]).wf() && factors@[i].spec_scope()
                    == self.factors()[i].spec_scope(),
        ensures
            r.wf(),
            r.order() == self.order(),
            r.names() == self.names(),
            r.factors() == factors@,
    {
        proof {
            assert forall|i: int| 0 <= i < self.roster@.len() implies family(self.roster@, i, #[trigger] &factors@[i]) by {
                assert(family(self.roster@, i, &self.cpds@[i]));
                assert(factors@[i].wf() && factors@[i].spec_scope() == self.cpds@[i].spec_scope());
                assert(factors@[i].spec_scope().len() > 0);
            }
        }
        DirectedModel { roster: self.roster.copy(), cpds: factors, names: self.names.copy() }
    }

    /// The probability of a full assignment, by the chain rule: the product
    /// of the entries of all factors under the assignment.
    pub fn probability<A: Arithmetic<T>>(&self, assignment: &Assignment, w: &A) -> (r: Result<T, JeromeError>)
        requires
            self.wf(),
            assignment.wf(),
            exact::<T, A>(w),
        ensures
            match r {
                Ok(p) => {
                    &&& forall|i: int| 0 <= i < self.factors().len() ==> covers(assignment@, #[trigger] self.factors()[i].spec_scope())
                    &&& p == chain::<T, A>(w, self.factors(), assignment@, self.factors().len())
                },
                Err(e) => {
                    &&& e is IncompleteAssignment
                    &&& exists|i: int| 0 <= i < self.factors().len() && !covers(assignment@, #[trigger] self.factors()[i].spec_scope())
                },
            },
    {
        let mut p = unit(w);
        let mut i: usize = 0;
        while i < self.cpds.len()
            invariant
                self.wf(),
                assignment.wf(),
                exact::<T, A>(w),
                i <= self.cpds@.len(),
                forall|j: int| 0 <= j < i ==> covers(assignment@, #[trigger] self.cpds@[j].spec_scope()),
                p == chain::<T, A>(w, self.cpds@, assignment@, i as nat),
            decreases self.cpds@.len() - i,
        {
            proof {
                assert(family(self.roster@, i as int, &self.cpds@[i as int]));
            }
            match self.cpds[i].value(assignment) {
                Ok(e) => {
                    p = product(w, p, e);
                },
                Err(e) => {
                    assert(!covers(assignment@, self.factors()[i as int].spec_scope()));
                    return Err(e);
                },
            }
            i += 1;
        }
        Ok(p)
    }

    /// The model given the evidence. The variables that the evidence gives a
    /// state leave the model; the factor of every other variable is reduced
    /// by the evidence.
    pub fn condition(&self, evidence: &Assignment) -> (r: Self)
        requires
            self.wf(),
            evidence.wf(),
        ensures
            r.wf(),
            r.order() == unassigned(self.order(), evidence@),
            carried(self.order(), self.factors(), evidence@, self.order().len() as int, r.order(), r.factors()),
            r.names().len() == r.order().len(),
            forall|i: int|
                0 <= i < r.order().len() ==> #[trigger] named_as(self.order(), self.names(), r.order()[i], r.names()[i]),
    {
        let mut roster = Roster::new();
        let mut cpds: Vec<Factor<T>> = Vec::new();
        let mut names = Names::new();
        let n = self.roster.len();
        let mut j: usize = 0;
        proof {
            self.roster.lemma_distinct();
        }
        while j < n
            invariant
                self.wf(),
                evidence.wf(),
                distinct_ids(self.roster@),
                n == self.roster@.len(),
                j <= n,
                roster.wf(),
                roster@ == unassigned(self.roster@.take(j as int), evidence@),
                families(roster@, cpds@),
                carried(self.roster@, self.cpds@, evidence@, j as int, roster@, cpds@),
                names.wf(),
                labelled(roster@, names@),
                drawn_from(names@, self.names@, j as int),
                names_kept(self.roster@, self.names@, roster@, names@),
            decreases n - j,
        {
            let v = self.roster.get(j);
            if evidence.get(&v).is_none() {
                let f = self.cpds[j].reduce(evidence);
                proof {
                    let g = &self.cpds@[j as int];
                    assert(family(self.roster@, j as int, g));
                    lemma_unassigned(g.spec_scope(), evidence@);
                    assert(!covers(evidence@, g.spec_scope())) by {
                        let i = choose|i: int| 0 <= i < g.spec_scope().len() && g.spec_scope()[i] == v;
                        assert(!evidence@.contains_key(g.spec_scope()[i]));
                    }
                    lemma_unassigned(self.roster@.take(j as int), evidence@);
                    assert forall|i: int| 0 <= i < roster@.len() implies roster@[i].spec_id() != v.spec_id() by {
                        assert(roster@.contains(roster@[i]));
                        assert(self.roster@.take(j as int).contains(roster@[i]));
                        let k = choose|k: int| 0 <= k < j && self.roster@.take(j as int)[k] == roster@[i];
                        assert(self.roster@[k] == roster@[i]);
                    }
                    lemma_condition_keep(self.roster@, self.cpds@, evidence@, j as int, roster@, cpds@, f);
                    assert(self.names@[j as int].0 == v.spec_id());
                    assert(has_id(self.names@, v.spec_id()));
                }
                let name = self.names.name_of(v.id()).unwrap();
                proof {
                    lemma_name_at(self.names@, j as int, name@);
                    lemma_names_keep(self.names@, j as int, names@);
                    lemma_names_kept(self.roster@, self.names@, j as int, roster@, names@);
                }
                let _ = roster.push(v);
                cpds.push(f);
                let _ = names.insert(v.id(), name);
            } else {
                proof {
                    lemma_condition_skip(self.roster@, self.cpds@, evidence@, j as int, roster@, cpds@);
                    lemma_names_skip(names@, self.names@, j as int);
                }
            }
            j += 1;
        }
        let r = DirectedModel { roster, cpds, names };
        proof {
            assert(self.roster@.take(j as int) == self.roster@);
            assert forall|i: int| 0 <= i < r.order().len() implies #[trigger] named_as(
                self.order(),
                self.names(),
                r.order()[i],
                r.names()[i],
            ) by {
                assert(named_as(self.roster@, labels(self.names@), r.roster@[i], r.names@[i].1));
            }
        }
        r
    }
}

/// Builds a directed model one variable at a time, parents first. The first
/// error stays with the builder: every later addition is passed over, and
/// `build` reports the error.
pub struct DirectedModelBuilder<T> {
    roster: Roster,
    cpds: Vec<Factor<T>>,
    names: Names,
    err: Option<JeromeError>,
}

/// A factor over a variable and parents that come before it can stand at
/// the end of the model.
proof fn lemma_family_last<T: Copy>(order: Seq<Variable>, factors: Seq<Factor<T>>, var: Variable, parents: Seq<Variable>, f: Factor<T>)
    requires
        families(order, factors),
        within(parents, order),
        f.wf(),
        f.spec_scope().contains(var),
        within(f.spec_scope(), parents.push(var)),
    ensures
        families(order.push(var), factors.push(f)),
{
    let next = order.push(var);
    let all = factors.push(f);
    let i = order.len() as int;
    assert(next.take(i) == order);
    assert forall|j: int| 0 <= j < f.spec_scope().len() implies #[trigger] f.spec_scope()[j] == next[i] || next.take(i).contains(
        f.spec_scope()[j],
    ) by {
        let u = f.spec_scope()[j];
        assert(parents.push(var).contains(u));
        let x = choose|x: int| 0 <= x < parents.push(var).len() && parents.push(var)[x] == u;
        if x < parents.len() {
            assert(parents[x] == u);
            assert(order.contains(parents[x]));
        }
    }
    assert forall|q: int| 0 <= q < next.len() implies family(next, q, #[trigger] &all[q]) by {
        if q < i {
            assert(family(order, q, &factors[q]));
            assert(next.take(q) == order.take(q));
            assert(all[q] == factors[q]);
        } else {
            assert(all[q] == f);
        }
    }
}

impl<T: Copy> DirectedModelBuilder<T> {
    /// The variables added so far.
    pub closed spec fn order(&self) -> Seq<Variable> {
        self.roster@
    }

    /// The factors of the variables added so far.
    pub closed spec fn factors(&self) -> Seq<Factor<T>> {
        self.cpds@
    }

    /// The names of the variables added so far.
    pub closed spec fn names(&self) -> Seq<Seq<char>> {
        labels(self.names@)
    }

    /// The first error, if there was one.
    pub closed spec fn error(&self) -> Option<JeromeError> {
        self.err
    }

    /// The validity of a builder: what it has built so far is a valid
    /// model.
    pub closed spec fn wf(&self) -> bool {
        &&& self.roster.wf()
        &&& families(self.roster@, self.cpds@)
        &&& self.names.wf()
        &&& labelled(self.roster@, self.names@)
    }

    /// Whether `next` holds what this builder holds, and the error `e`.
    pub open spec fn failed_with(&self, e: JeromeError, next: &Self) -> bool {
        &&& next.error() == Some(e)
        &&& next.order() == self.order()
        &&& next.factors() == self.factors()
        &&& next.names() == self.names()
    }

    /// Whether `next` is this builder after the addition of `var` under the
    /// name `name`, with the factor or error `outcome` that the
    /// initialization gave.
    pub open spec fn extended_by(
        &self,
        var: Variable,
        name: Seq<char>,
        outcome: Result<Factor<T>, JeromeError>,
        next: &Self,
    ) -> bool {
        match outcome {
            Ok(f) => {
                &&& next.error() is None
                &&& next.order() == self.order().push(var)
                &&& next.factors() == self.factors().push(f)
                &&& next.names() == self.names().push(name)
            },
            Err(e) => self.failed_with(e, next),
        }
    }

    /// Whether `next` is this builder after the attempt to add `var` under
    /// the name `name` with the parents `parents` and the initialization
    /// `init`. A builder with an error stays as it is. A parent has to be
    /// in the builder, the identity of the variable may not be, and the
    /// name may not be taken. A parent named twice counts once.
    pub open spec fn grown<A: Arithmetic<T>>(
        &self,
        w: &A,
        var: Variable,
        name: Seq<char>,
        parents: Seq<Variable>,
        init: Initialization<T>,
        next: &Self,
    ) -> bool {
        let family = union(Seq::empty(), parents);
        if self.error() is Some {
            next.error() == self.error() && next.order() == self.order() && next.factors() == self.factors()
                && next.names() == self.names()
        } else if !within(family, self.order()) {
            self.failed_with(JeromeError::MissingParent, next)
        } else if exists|i: int| 0 <= i < self.order().len() && self.order()[i].spec_id() == var.spec_id() {
            self.failed_with(JeromeError::DuplicateVariable, next)
        } else if self.names().contains(name) {
            next.error() is Some && next.error()->Some_0 is General && next.order() == self.order() && next.factors()
                == self.factors() && next.names() == self.names()
        } else {
            exists|outcome: Result<Factor<T>, JeromeError>|
                init.makes_cpd::<A>(w, var, family, outcome) && #[trigger] self.extended_by(var, name, outcome, next)
        }
    }

    /// A builder that holds no variable and no error.
    pub fn new() -> (b: Self)
        ensures
            b.wf(),
            b.order() == Seq::<Variable>::empty(),
            b.factors() == Seq::<Factor<T>>::empty(),
            b.names() == Seq::<Seq<char>>::empty(),
            b.error() is None,
    {
        let b = DirectedModelBuilder { roster: Roster::new(), cpds: Vec::new(), names: Names::new(), err: None };
        proof {
            assert(b.names() =~= Seq::<Seq<char>>::empty());
        }
        b
    }

    /// Adds `var` with its parents, which have to be in the builder already,
    /// and the factor that `init` makes for it. The variable is named by
    /// the decimal text of its identity.
    pub fn with_variable<A: Arithmetic<T>, C: Chance<T>>(
        self,
        var: &Variable,
        parents: Vec<Variable>,
        init: Initialization<T>,
        w: &A,
        chance: &C,
    ) -> (b: Self)
        requires
            self.wf(),
            init.wf(),
            exact::<T, A>(w),
        ensures
            b.wf(),
            self.grown::<A>(w, *var, decimal(var.spec_id() as nat), parents@, init, &b),
    {
        let name = text_of(var.id());
        self.with_named_variable(var, name.as_str(), parents, init, w, chance)
    }

    /// Adds `var` under the name `name` with its parents, which have to be
    /// in the builder already, and the factor that `init` makes for it.
    pub fn with_named_variable<A: Arithmetic<T>, C: Chance<T>>(
        self,
        var: &Variable,
        name: &str,
        parents: Vec<Variable>,
        init: Initialization<T>,
        w: &A,
        chance: &C,
    ) -> (b: Self)
        requires
            self.wf(),
            init.wf(),
            exact::<T, A>(w),
        ensures
            b.wf(),
            self.grown::<A>(w, *var, name@, parents@, init, &b),
    {
        let mut this = self;
        if this.err.is_some() {
            return this;
        }
        let order = this.roster.to_vec();
        let family = merge(&Vec::new(), &parents);
        if !subset(&family, &order) {
            this.err = Some(JeromeError::MissingParent);
            return this;
        }
        if this.roster.knows(var) {
            this.err = Some(JeromeError::DuplicateVariable);
            return this;
        }
        proof {
            assert(this.names().contains(name@) <==> has_name(this.names@, name@)) by {
                if this.names().contains(name@) {
                    let i = choose|i: int| 0 <= i < this.names().len() && this.names()[i] == name@;
                    assert(this.names@[i].1 == name@);
                }
                if has_name(this.names@, name@) {
                    let i = choose|i: int| 0 <= i < this.names@.len() && (#[trigger] this.names@[i]).1 == name@;
                    assert(this.names()[i] == name@);
                }
            }
        }
        if this.names.id_of(name).is_some() {
            this.err = Some(JeromeError::General("The name is taken by another variable".to_owned()));
            return this;
        }
        let ghost before = this;
        let ghost parts = family@;
        let outcome = init.build_cpd(*var, family, w, chance);
        match outcome {
            Ok(f) => {
                proof {
                    lemma_made(init, w, *var, parts, f);
                    lemma_family_last(this.roster@, this.cpds@, *var, parts, f);
                    assert(!has_id(this.names@, var.spec_id())) by {
                        if has_id(this.names@, var.spec_id()) {
                            let i = choose|i: int| 0 <= i < this.names@.len() && (#[trigger] this.names@[i]).0 == var.spec_id();
                            assert(this.roster@[i].spec_id() == var.spec_id());
                        }
                    }
                }
                let _ = this.roster.push(*var);
                this.cpds.push(f);
                let _ = this.names.insert(var.id(), name.to_owned());
                proof {
                    assert(this.names() =~= before.names().push(name@));
                    assert(before.extended_by(*var, name@, outcome, &this));
                }
            },
            Err(e) => {
                this.err = Some(e);
                proof {
                    assert(before.extended_by(*var, name@, outcome, &this));
                }
            },
        }
        this
    }

    /// The model built, or the first error.
    pub fn build(self) -> (r: Result<DirectedModel<T>, JeromeError>)
        requires
            self.wf(),
        ensures
            match self.error() {
                Some(e) => r == Err::<DirectedModel<T>, JeromeError>(e),
                None => {
                    &&& r is Ok
                    &&& r->Ok_0.wf()
                    &&& r->Ok_0.order() == self.order()
                    &&& r->Ok_0.factors() == self.factors()
                    &&& r->Ok_0.names() == self.names()
                },
            },
    {
        match self.err {
            Some(e) => Err(e),
            None => Ok(DirectedModel { roster: self.roster, cpds: self.cpds, names: self.names }),
        }
    }
}

/// The factor that an initialization makes for a variable is valid, holds
/// the variable, and holds nothing but the variable and its parents.
pub proof fn lemma_made<T: Copy, A: Arithmetic<T>>(
    init: Initialization<T>,
    w: &A,
    var: Variable,
    parents: Seq<Variable>,
    f: Factor<T>,
)
    requires
        init.wf(),
        init.makes_cpd::<A>(w, var, parents, Ok(f)),
    ensures
        f.wf(),
        f.spec_scope().contains(var),
        within(f.spec_scope(), parents.push(var)),
{
    let scope = parents.push(var);
    assert(scope[parents.len() as int] == var);
    if !(init is Table) {
        assert(f.spec_scope() == scope);
        assert forall|i: int| 0 <= i < scope.len() implies scope.contains(#[trigger] scope[i]) by {}
    }
}

} // verus!
