//! Undirected models: a bag of factors, and the partition function that
//! turns their product into a probability distribution.

use vstd::prelude::*;
use crate::factor::{Factor, is_reduction, valid};
use crate::init::Initialization;
use crate::layout::{all_digits, volume};
use crate::model::directed::{
    DirectedModel, drawn_from, family, lemma_name_at, lemma_names_keep, lemma_names_kept,
    lemma_names_skip, named_as, names_kept,
};
use crate::model::names::{decimal, has_id, has_name, labelled, labels, swap_removed, Names, text_of};
use crate::model::roster::distinct_ids;
use crate::scope::{
    assignment_at, copy_scope, holds, lemma_appended, lemma_assignment_at, lemma_covers_within,
    lemma_enumeration_step, lemma_unassigned, merge, unassigned, union, within,
};
use crate::util::JeromeError;
use crate::variable::{all_assignments, Assignment, covers, dims, Variable};
use crate::weight::{
    divides_through, Arithmetic, Chance, exact, nil, product, quotient, spec_nil, spec_product, spec_quotient, spec_sum,
    spec_unit, sum, unit,
};

verus! {

/// The entry of `f` under `a`; the unit weighs one.
pub open spec fn weigh<T: Copy, A: Arithmetic<T>>(w: &A, f: &Factor<T>, a: Map<Variable, usize>) -> T {
    if f.spec_is_identity() {
        spec_unit::<T, A>(w)
    } else {
        f.at(a)
    }
}

/// The product of the weights of the first `n` of `factors` under `a`, taken
/// in order, starting from one.
pub open spec fn joint<T: Copy, A: Arithmetic<T>>(w: &A, factors: Seq<Factor<T>>, a: Map<Variable, usize>, n: nat) -> T
    decreases n,
{
    if n == 0 {
        spec_unit::<T, A>(w)
    } else {
        spec_product::<T, A>(w, joint::<T, A>(w, factors, a, (n - 1) as nat), weigh::<T, A>(w, &factors[n - 1], a))
    }
}

/// The sum of the joint weights of `factors` under the first `k` assignments
/// to `scope` in table order, starting from zero.
pub open spec fn mass<T: Copy, A: Arithmetic<T>>(w: &A, factors: Seq<Factor<T>>, scope: Seq<Variable>, k: nat) -> T
    decreases k,
{
    if k == 0 {
        spec_nil::<T, A>(w)
    } else {
        spec_sum::<T, A>(
            w,
            mass::<T, A>(w, factors, scope, (k - 1) as nat),
            joint::<T, A>(w, factors, assignment_at(scope, (k - 1) as nat), factors.len()),
        )
    }
}

/// The partition function of `factors` over `scope`: the sum of their joint
/// weights under all assignments to `scope`.
pub open spec fn partition_of<T: Copy, A: Arithmetic<T>>(w: &A, factors: Seq<Factor<T>>, scope: Seq<Variable>) -> T {
    mass::<T, A>(w, factors, scope, volume(dims(scope)))
}

/// Whether every one of `factors` is valid and lies within `scope`.
pub open spec fn bag<T: Copy>(factors: Seq<Factor<T>>, scope: Seq<Variable>) -> bool {
    forall|i: int| 0 <= i < factors.len() ==> (#[trigger] factors[i]).wf() && within(factors[i].spec_scope(), scope)
}

/// Whether `f` is what reducing `g` by the evidence `e` gives.
pub open spec fn reduction_of<T: Copy>(f: &Factor<T>, g: &Factor<T>, e: Map<Variable, usize>) -> bool {
    if g.spec_is_identity() || covers(e, g.spec_scope()) {
        f.spec_is_identity()
    } else if unassigned(g.spec_scope(), e) == g.spec_scope() {
        f.matches(g)
    } else {
        is_reduction(f, g, e)
    }
}

/// The joint weight of `factors` under an assignment that covers them.
pub fn joint_weight<T: Copy, A: Arithmetic<T>>(factors: &Vec<Factor<T>>, a: &Assignment, w: &A) -> (r: Result<
    T,
    JeromeError,
>)
    requires
        a.wf(),
        exact::<T, A>(w),
        forall|i: int| 0 <= i < factors@.len() ==> (#[trigger] factors@[i]).wf(),
    ensures
        match r {
            Ok(p) => {
                &&& forall|i: int| 0 <= i < factors@.len() ==> covers(a@, (#[trigger] factors@[i]).spec_scope())
                &&& p == joint::<T, A>(w, factors@, a@, factors@.len())
            },
            Err(e) => {
                &&& e is IncompleteAssignment
                &&& exists|i: int| 0 <= i < factors@.len() && !covers(a@, (#[trigger] factors@[i]).spec_scope())
            },
        },
{
    let mut p = unit(w);
    let mut i: usize = 0;
    while i < factors.len()
        invariant
            a.wf(),
            exact::<T, A>(w),
            forall|j: int| 0 <= j < factors@.len() ==> (#[trigger] factors@[j]).wf(),
            i <= factors@.len(),
            forall|j: int| 0 <= j < i ==> covers(a@, (#[trigger] factors@[j]).spec_scope()),
            p == joint::<T, A>(w, factors@, a@, i as nat),
        decreases factors@.len() - i,
    {
        if factors[i].is_identity() {
            p = product(w, p, unit(w));
        } else {
            match factors[i].value(a) {
                Ok(e) => {
                    p = product(w, p, e);
                },
                Err(e) => {
                    assert(!covers(a@, factors@[i as int].spec_scope()));
                    return Err(e);
                },
            }
        }
        i += 1;
    }
    Ok(p)
}

/// The partition function of `factors` over `scope`. The sum runs over all
/// assignments to the scope, whose number grows exponentially with the
/// number of variables.
pub fn compute_partition<T: Copy, A: Arithmetic<T>>(scope: &Vec<Variable>, factors: &Vec<Factor<T>>, w: &A) -> (z: T)
    requires
        scope@.no_duplicates(),
        bag(factors@, scope@),
        exact::<T, A>(w),
    ensures
        z == partition_of::<T, A>(w, factors@, scope@),
{
    let mut z = nil(w);
    let mut it = all_assignments(scope);
    let ghost mut k: nat = 0;
    loop
        invariant
            scope@.no_duplicates(),
            bag(factors@, scope@),
            exact::<T, A>(w),
            it.scope() == scope@,
            k <= volume(dims(scope@)),
            it.pending() == all_digits(dims(scope@)).skip(k as int),
            z == mass::<T, A>(w, factors@, scope@, k),
        ensures
            k == volume(dims(scope@)),
        decreases volume(dims(scope@)) - k,
    {
        let next = it.next();
        match next {
            None => {
                break ;
            },
            Some(assn) => {
                proof {
                    lemma_enumeration_step(scope@, k);
                    lemma_assignment_at(scope@, k);
                    assert forall|i: int| 0 <= i < factors@.len() implies covers(assn@, (#[trigger] factors@[i]).spec_scope()) by {
                        lemma_covers_within(factors@[i].spec_scope(), scope@, assn@);
                    }
                }
                let p = joint_weight(factors, &assn, w).unwrap();
                z = sum(w, z, p);
                proof {
                    k = k + 1;
                }
            },
        }
    }
    z
}

/// The names of the variables `vars`: the first have the names `declared`,
/// and each of the others the decimal text of its identity.
pub open spec fn all_names(declared: Seq<Seq<char>>, vars: Seq<Variable>) -> Seq<Seq<char>> {
    Seq::new(
        vars.len(),
        |i: int|
            if i < declared.len() {
                declared[i]
            } else {
                decimal(vars[i].spec_id() as nat)
            },
    )
}

/// Whether the variables `vars` cannot all be named: the decimal text of
/// the identity of one that has no declared name is the name of a variable
/// before it.
pub open spec fn name_clash(declared: Seq<Seq<char>>, vars: Seq<Variable>) -> bool {
    exists|p: int|
        declared.len() <= p < vars.len() && #[trigger] all_names(declared, vars).take(p).contains(
            decimal(vars[p].spec_id() as nat),
        )
}

/// The position of `var` in `vars`, if it is there.
pub fn index_of(vars: &Vec<Variable>, var: &Variable) -> (r: Option<usize>)
    ensures
        match r {
            Some(i) => i < vars@.len() && vars@[i as int] == *var,
            None => !vars@.contains(*var),
        },
{
    let mut i: usize = 0;
    while i < vars.len()
        invariant
            i <= vars@.len(),
            forall|j: int| 0 <= j < i ==> vars@[j] != *var,
        decreases vars@.len() - i,
    {
        if vars[i] == *var {
            return Some(i);
        }
        i += 1;
    }
    None
}

/// The position in `vars` of the variable with the identity `id`, if there
/// is one.
pub fn index_of_id(vars: &Vec<Variable>, id: usize) -> (r: Option<usize>)
    ensures
        match r {
            Some(i) => i < vars@.len() && vars@[i as int].spec_id() == id,
            None => forall|j: int| 0 <= j < vars@.len() ==> (#[trigger] vars@[j]).spec_id() != id,
        },
{
    let mut i: usize = 0;
    while i < vars.len()
        invariant
            i <= vars@.len(),
            forall|j: int| 0 <= j < i ==> (#[trigger] vars@[j]).spec_id() != id,
        decreases vars@.len() - i,
    {
        if vars[i].id() == id {
            return Some(i);
        }
        i += 1;
    }
    None
}

/// Whether no identity occurs twice among `vars`.
pub fn ids_distinct(vars: &Vec<Variable>) -> (b: bool)
    ensures
        b == distinct_ids(vars@),
{
    let mut i: usize = 0;
    while i < vars.len()
        invariant
            i <= vars@.len(),
            forall|j: int, k: int| 0 <= j < k < i ==> vars@[j].spec_id() != vars@[k].spec_id(),
        decreases vars@.len() - i,
    {
        let mut j: usize = 0;
        while j < i
            invariant
                i < vars@.len(),
                j <= i,
                forall|k: int| 0 <= k < j ==> vars@[k].spec_id() != vars@[i as int].spec_id(),
            decreases i - j,
        {
            if vars[j].id() == vars[i].id() {
                return false;
            }
            j += 1;
        }
        i += 1;
    }
    true
}

/// Variables with distinct identities are distinct.
pub proof fn lemma_ids_distinct(vars: Seq<Variable>)
    requires
        distinct_ids(vars),
    ensures
        vars.no_duplicates(),
{
}

/// A Markov network, held as the bag of its factors, with the variables of
/// the factors, their names, and the partition function of the bag.
pub struct UndirectedModel<T> {
    factors: Vec<Factor<T>>,
    variables: Vec<Variable>,
    names: Names,
    partition: T,
}

impl<T: Copy> UndirectedModel<T> {
    /// The factors of the model.
    pub closed spec fn spec_factors(&self) -> Seq<Factor<T>> {
        self.factors@
    }

    /// The variables of the model.
    pub closed spec fn spec_variables(&self) -> Seq<Variable> {
        self.variables@
    }

    /// The name of each variable, in the order of the variables.
    pub closed spec fn spec_names(&self) -> Seq<Seq<char>> {
        labels(self.names@)
    }

    /// The partition function that the model holds.
    pub closed spec fn spec_partition(&self) -> T {
        self.partition
    }

    /// Whether every variable has an identity and a name of its own.
    pub closed spec fn named(&self) -> bool {
        &&& distinct_ids(self.variables@)
        &&& self.names.wf()
        &&& labelled(self.variables@, self.names@)
    }

    /// The validity of a model: it holds no variable twice, every variable
    /// has a name of its own, and every factor is valid and lies within its
    /// variables.
    pub open spec fn wf(&self) -> bool {
        &&& self.spec_variables().no_duplicates()
        &&& self.named()
        &&& bag(self.spec_factors(), self.spec_variables())
    }

    /// Whether the partition function that the model holds is the one that
    /// the arithmetic `w` gives for its factors.
    pub open spec fn summed<A: Arithmetic<T>>(&self, w: &A) -> bool {
        self.spec_partition() == partition_of::<T, A>(w, self.spec_factors(), self.spec_variables())
    }

    /// Whether the model is `model` given the evidence `e`: its variables
    /// are those that the evidence leaves free, with their names, each of
    /// its factors is the factor of `model` at the same place reduced by
    /// the evidence, and its partition function is the one that `w` gives
    /// for its factors.
    pub open spec fn conditioned_from<A: Arithmetic<T>>(&self, w: &A, model: &Self, e: Map<Variable, usize>) -> bool {
        &&& self.wf()
        &&& self.summed::<A>(w)
        &&& self.spec_variables() == unassigned(model.spec_variables(), e)
        &&& self.spec_names().len() == self.spec_variables().len()
        &&& forall|i: int|
            0 <= i < self.spec_variables().len() ==> #[trigger] named_as(
                model.spec_variables(),
                model.spec_names(),
                self.spec_variables()[i],
                self.spec_names()[i],
            )
        &&& self.spec_factors().len() == model.spec_factors().len()
        &&& forall|i: int|
            0 <= i < self.spec_factors().len() ==> reduction_of(
                #[trigger] &self.spec_factors()[i],
                &model.spec_factors()[i],
                e,
            )
    }

    /// The partition function of the model.
    pub fn partition(&self) -> (z: T)
        ensures
            z == self.spec_partition(),
    {
        self.partition
    }

    /// The factors of the model.
    pub fn factors(&self) -> (r: &Vec<Factor<T>>)
        ensures
            r@ == self.spec_factors(),
    {
        &self.factors
    }

    /// The variables of the model.
    pub fn variables(&self) -> (r: Vec<Variable>)
        ensures
            r@ == self.spec_variables(),
    {
        copy_scope(&self.variables)
    }

    /// The number of variables of the model.
    pub fn num_variables(&self) -> (n: usize)
        ensures
            n == self.spec_variables().len(),
    {
        self.variables.len()
    }

    /// The name of `var`, if the model holds `var`.
    pub fn lookup_name(&self, var: &Variable) -> (r: Option<String>)
        requires
            self.wf(),
        ensures
            self.spec_names().len() == self.spec_variables().len(),
            match r {
                Some(name) => exists|i: int|
                    0 <= i < self.spec_variables().len() && #[trigger] self.spec_variables()[i] == *var
                        && self.spec_names()[i] == name@,
                None => !self.spec_variables().contains(*var),
            },
    {
        match index_of(&self.variables, var) {
            Some(i) => {
                let found = self.names.name_of(var.id());
                proof {
                    assert(self.names@[i as int].0 == var.spec_id());
                    assert(has_id(self.names@, var.spec_id()));
                    lemma_name_at(self.names@, i as int, found->Some_0@);
                    assert(self.spec_variables()[i as int] == *var && self.spec_names()[i as int] == found->Some_0@);
                }
                found
            },
            None => None,
        }
    }

    /// The variable with the name `name`, if the model holds one.
    pub fn lookup_variable(&self, name: &str) -> (r: Option<Variable>)
        requires
            self.wf(),
        ensures
            self.spec_names().len() == self.spec_variables().len(),
            match r {
                Some(var) => exists|i: int|
                    0 <= i < self.spec_variables().len() && #[trigger] self.spec_variables()[i] == var
                        && self.spec_names()[i] == name@,
                None => forall|i: int| 0 <= i < self.spec_names().len() ==> #[trigger] self.spec_names()[i] != name@,
            },
    {
        match self.names.id_of(name) {
            Some(id) => {
                proof {
                    let x = choose|x: int| 0 <= x < self.names@.len() && #[trigger] self.names@[x] == (id, name@);
                    assert(self.variables@[x].spec_id() == id);
                }
                let i = index_of_id(&self.variables, id).unwrap();
                let var = self.variables[i];
                proof {
                    let x = choose|x: int| 0 <= x < self.names@.len() && #[trigger] self.names@[x] == (id, name@);
                    assert(x == i) by {
                        if x != i {
                            if x < i {
                                assert(self.variables@[x].spec_id() != self.variables@[i as int].spec_id());
                            } else {
                                assert(self.variables@[i as int].spec_id() != self.variables@[x].spec_id());
                            }
                        }
                    }
                    assert(self.spec_variables()[i as int] == var && self.spec_names()[i as int] == name@);
                }
                Some(var)
            },
            None => {
                proof {
                    assert forall|i: int| 0 <= i < self.spec_names().len() implies #[trigger] self.spec_names()[i] != name@ by {
                        assert(self.names@[i].1 == self.spec_names()[i]);
                    }
                }
                None
            },
        }
    }

    /// The undirected model with the factors, the variables and the names
    /// of a directed model.
    pub fn from<A: Arithmetic<T>>(model: &DirectedModel<T>, w: &A) -> (r: Self)
        requires
            model.wf(),
            exact::<T, A>(w),
        ensures
            r.wf(),
            r.summed::<A>(w),
            r.spec_variables() == model.order(),
            r.spec_names() == model.names(),
            r.spec_factors().len() == model.factors().len(),
            forall|i: int| 0 <= i < r.spec_factors().len() ==> (#[trigger] r.spec_factors()[i]).matches(&model.factors()[i]),
    {
        let variables = model.topological_order();
        let factors = model.cpds();
        let names = model.names_table();
        proof {
            model.lemma_wf();
            assert forall|i: int| 0 <= i < factors@.len() implies (#[trigger] factors@[i]).wf() && within(
                factors@[i].spec_scope(),
                variables@,
            ) by {
                let g = &model.factors()[i];
                assert(family(model.order(), i, g));
                assert forall|j: int| 0 <= j < g.spec_scope().len() implies variables@.contains(#[trigger] g.spec_scope()[j]) by {
                    if g.spec_scope()[j] != model.order()[i] {
                        let u = g.spec_scope()[j];
                        assert(model.order().take(i).contains(u));
                        let x = choose|x: int| 0 <= x < i && model.order().take(i)[x] == u;
                        assert(model.order()[x] == u);
                    }
                }
            }
        }
        let partition = compute_partition(&variables, &factors, w);
        UndirectedModel { factors, variables, names, partition }
    }

    /// The model given the evidence: every factor is reduced by the
    /// evidence, the variables that the evidence gives a state leave the
    /// model, and the partition function is computed anew.
    pub fn condition<A: Arithmetic<T>>(&self, evidence: &Assignment, w: &A) -> (r: Self)
        requires
            self.wf(),
            evidence.wf(),
            exact::<T, A>(w),
        ensures
            r.conditioned_from::<A>(w, self, evidence@),
    {
        let mut variables: Vec<Variable> = Vec::new();
        let mut names = Names::new();
        let mut j: usize = 0;
        while j < self.variables.len()
            invariant
                self.wf(),
                evidence.wf(),
                j <= self.variables@.len(),
                variables@ == unassigned(self.variables@.take(j as int), evidence@),
                names.wf(),
                labelled(variables@, names@),
                drawn_from(names@, self.names@, j as int),
                names_kept(self.variables@, self.names@, variables@, names@),
            decreases self.variables@.len() - j,
        {
            let v = self.variables[j];
            proof {
                assert(self.variables@.take(j + 1).drop_last() == self.variables@.take(j as int));
                assert(self.variables@.take(j + 1).last() == v);
            }
            if evidence.get(&v).is_none() {
                proof {
                    assert(self.names@[j as int].0 == v.spec_id());
                    assert(has_id(self.names@, v.spec_id()));
                }
                let name = self.names.name_of(v.id()).unwrap();
                proof {
                    lemma_name_at(self.names@, j as int, name@);
                    lemma_names_keep(self.names@, j as int, names@);
                    lemma_names_kept(self.variables@, self.names@, j as int, variables@, names@);
                }
                variables.push(v);
                let _ = names.insert(v.id(), name);
            } else {
                proof {
                    lemma_names_skip(names@, self.names@, j as int);
                }
            }
            j += 1;
        }
        proof {
            assert(self.variables@.take(j as int) == self.variables@);
            lemma_unassigned(self.variables@, evidence@);
            assert(distinct_ids(variables@)) by {
                assert forall|x: int, y: int| 0 <= x < y < variables@.len() implies variables@[x].spec_id()
                    != variables@[y].spec_id() by {
                    assert(names@[x].0 != names@[y].0);
                }
            }
        }
        let mut factors: Vec<Factor<T>> = Vec::new();
        let mut i: usize = 0;
        while i < self.factors.len()
            invariant
                self.wf(),
                evidence.wf(),
                i <= self.factors@.len(),
                factors@.len() == i,
                variables@ == unassigned(self.variables@, evidence@),
                forall|v: Variable|
                    #[trigger] variables@.contains(v) <==> self.variables@.contains(v) && !evidence@.contains_key(v),
                bag(factors@, variables@),
                forall|j: int| 0 <= j < i ==> reduction_of(#[trigger] &factors@[j], &self.factors@[j], evidence@),
            decreases self.factors@.len() - i,
        {
            let f = self.factors[i].reduce(evidence);
            proof {
                let g = &self.factors@[i as int];
                assert(g.wf() && within(g.spec_scope(), self.variables@));
                lemma_unassigned(g.spec_scope(), evidence@);
                assert forall|j: int| 0 <= j < f.spec_scope().len() implies variables@.contains(#[trigger] f.spec_scope()[j]) by {
                    let u = f.spec_scope()[j];
                    if !f.spec_is_identity() {
                        assert(f.spec_scope().contains(u));
                        if unassigned(g.spec_scope(), evidence@) == g.spec_scope() {
                            assert(g.spec_scope()[j] == u);
                            assert(unassigned(g.spec_scope(), evidence@).contains(u));
                        }
                        assert(g.spec_scope().contains(u));
                        let x = choose|x: int| 0 <= x < g.spec_scope().len() && g.spec_scope()[x] == u;
                        assert(self.variables@.contains(g.spec_scope()[x]));
                    }
                }
            }
            factors.push(f);
            i += 1;
        }
        let partition = compute_partition(&variables, &factors, w);
        let r = UndirectedModel { factors, variables, names, partition };
        proof {
            assert forall|i: int| 0 <= i < r.spec_variables().len() implies #[trigger] named_as(
                self.spec_variables(),
                self.spec_names(),
                r.spec_variables()[i],
                r.spec_names()[i],
            ) by {
                assert(named_as(self.variables@, labels(self.names@), r.variables@[i], r.names@[i].1));
            }
        }
        r
    }

    /// The probability that the model gives the full assignment `a`: the
    /// product of the weights of all factors under it, divided by the
    /// partition function.
    pub open spec fn chance<A: Arithmetic<T>>(&self, w: &A, a: Map<Variable, usize>) -> T {
        spec_quotient::<T, A>(
            w,
            joint::<T, A>(w, self.spec_factors(), a, self.spec_factors().len()),
            self.spec_partition(),
        )
    }

    /// The probability of a full assignment: the product of the weights of
    /// all factors under the assignment, divided by the partition function.
    pub fn probability<A: Arithmetic<T>>(&self, assignment: &Assignment, w: &A) -> (r: Result<T, JeromeError>)
        requires
            self.wf(),
            assignment.wf(),
            exact::<T, A>(w),
        ensures
            match r {
                Ok(p) => {
                    &&& forall|i: int|
                        0 <= i < self.spec_factors().len() ==> covers(
                            assignment@,
                            (#[trigger] self.spec_factors()[i]).spec_scope(),
                        )
                    &&& p == self.chance::<A>(w, assignment@)
                },
                Err(e) => {
                    &&& e is IncompleteAssignment
                    &&& exists|i: int|
                        0 <= i < self.spec_factors().len() && !covers(
                            assignment@,
                            (#[trigger] self.spec_factors()[i]).spec_scope(),
                        )
                },
            },
    {
        match joint_weight(&self.factors, assignment, w) {
            Ok(p) => Ok(quotient(w, p, self.partition)),
            Err(e) => Err(e),
        }
    }
}

/// The sum of the probabilities that `model` gives the first `k`
/// assignments to its variables in table order, starting from zero.
pub open spec fn chances<T: Copy, A: Arithmetic<T>>(w: &A, model: &UndirectedModel<T>, k: nat) -> T
    decreases k,
{
    if k == 0 {
        spec_nil::<T, A>(w)
    } else {
        spec_sum::<T, A>(
            w,
            chances::<T, A>(w, model, (k - 1) as nat),
            model.chance::<A>(w, assignment_at(model.spec_variables(), (k - 1) as nat)),
        )
    }
}

/// In an arithmetic in which division by the partition function of a model
/// goes through sums, the probabilities that the model gives its first `k`
/// assignments sum to their joint weights over the partition function.
pub proof fn lemma_chances<T: Copy, A: Arithmetic<T>>(w: &A, model: &UndirectedModel<T>, k: nat)
    requires
        divides_through::<T, A>(w, model.spec_partition()),
    ensures
        chances::<T, A>(w, model, k) == spec_quotient::<T, A>(
            w,
            mass::<T, A>(w, model.spec_factors(), model.spec_variables(), k),
            model.spec_partition(),
        ),
    decreases k,
{
    if k > 0 {
        lemma_chances::<T, A>(w, model, (k - 1) as nat);
        let z = model.spec_partition();
        let before = mass::<T, A>(w, model.spec_factors(), model.spec_variables(), (k - 1) as nat);
        let weight = joint::<T, A>(
            w,
            model.spec_factors(),
            assignment_at(model.spec_variables(), (k - 1) as nat),
            model.spec_factors().len(),
        );
        assert(spec_quotient::<T, A>(w, spec_sum::<T, A>(w, before, weight), z) == spec_sum::<T, A>(
            w,
            spec_quotient::<T, A>(w, before, z),
            spec_quotient::<T, A>(w, weight, z),
        ));
    }
}

/// The probabilities that a model gives all the assignments to its
/// variables sum to one, in an arithmetic in which division by its
/// partition function goes through sums.
pub proof fn lemma_probabilities_sum_to_one<T: Copy, A: Arithmetic<T>>(w: &A, model: &UndirectedModel<T>)
    requires
        model.summed::<A>(w),
        divides_through::<T, A>(w, model.spec_partition()),
    ensures
        chances::<T, A>(w, model, volume(dims(model.spec_variables()))) == spec_unit::<T, A>(w),
{
    lemma_chances::<T, A>(w, model, volume(dims(model.spec_variables())));
}

/// `vars`, followed by the variables of the first `n` of `factors` that have
/// not come before, in the order in which they are first seen.
pub open spec fn gathered<T: Copy>(vars: Seq<Variable>, factors: Seq<Factor<T>>, n: nat) -> Seq<Variable>
    decreases n,
{
    if n == 0 {
        vars
    } else {
        union(gathered(vars, factors, (n - 1) as nat), factors[n - 1].spec_scope())
    }
}

/// Whether one of `factors` holds `v`.
pub open spec fn used<T: Copy>(factors: Seq<Factor<T>>, v: Variable) -> bool {
    exists|i: int| 0 <= i < factors.len() && (#[trigger] factors[i]).spec_scope().contains(v)
}

/// What holds of the variables gathered from factors: the given variables
/// come first, none is held twice if none of the given is, and the scope of
/// every factor gathered lies within them.
pub proof fn lemma_gathered<T: Copy>(vars: Seq<Variable>, factors: Seq<Factor<T>>, n: nat)
    requires
        n <= factors.len(),
        vars.no_duplicates(),
    ensures
        gathered(vars, factors, n).no_duplicates(),
        within(vars, gathered(vars, factors, n)),
        forall|i: int| 0 <= i < n ==> within((#[trigger] factors[i]).spec_scope(), gathered(vars, factors, n)),
    decreases n,
{
    if n == 0 {
        assert forall|i: int| 0 <= i < vars.len() implies vars.contains(#[trigger] vars[i]) by {}
    } else {
        let before = gathered(vars, factors, (n - 1) as nat);
        let scope = factors[n - 1].spec_scope();
        let after = gathered(vars, factors, n);
        lemma_gathered(vars, factors, (n - 1) as nat);
        lemma_appended(before, scope, scope.len());
        assert(scope.take(scope.len() as int) == scope);
        assert forall|i: int| 0 <= i < vars.len() implies after.contains(#[trigger] vars[i]) by {
            assert(before.contains(vars[i]));
        }
        assert forall|i: int| 0 <= i < n implies within((#[trigger] factors[i]).spec_scope(), after) by {
            let s = factors[i].spec_scope();
            assert forall|j: int| 0 <= j < s.len() implies after.contains(#[trigger] s[j]) by {
                if i < n - 1 {
                    assert(before.contains(s[j]));
                } else {
                    assert(scope.contains(s[j]));
                }
            }
        }
    }
}

/// Builds an undirected model from named variables and factors. The first
/// error stays with the builder: every later addition is passed over, and
/// `build` reports the error.
pub struct UndirectedModelBuilder<T> {
    factors: Vec<Factor<T>>,
    declared: Vec<Variable>,
    names: Names,
    err: Option<JeromeError>,
}

impl<T: Copy> UndirectedModelBuilder<T> {
    /// The factors added so far.
    pub closed spec fn spec_factors(&self) -> Seq<Factor<T>> {
        self.factors@
    }

    /// The variables declared so far.
    pub closed spec fn declared(&self) -> Seq<Variable> {
        self.declared@
    }

    /// The names of the variables declared so far.
    pub closed spec fn names(&self) -> Seq<Seq<char>> {
        labels(self.names@)
    }

    /// The first error, if there was one.
    pub closed spec fn error(&self) -> Option<JeromeError> {
        self.err
    }

    /// Whether every declared variable has an identity and a name of its
    /// own.
    pub closed spec fn named(&self) -> bool {
        &&& distinct_ids(self.declared@)
        &&& self.names.wf()
        &&& labelled(self.declared@, self.names@)
    }

    /// The validity of a builder: every declared variable has an identity
    /// and a name of its own, and every factor is valid.
    pub open spec fn wf(&self) -> bool {
        &&& self.named()
        &&& valid(self.spec_factors())
    }

    /// Whether `next` holds what this builder holds, but for its error.
    pub open spec fn same_but_error(&self, next: &Self) -> bool {
        &&& next.declared() == self.declared()
        &&& next.names() == self.names()
        &&& next.spec_factors() == self.spec_factors()
    }

    /// Whether `next` is this builder after the addition of the factor or
    /// error `outcome` that an initialization gave.
    pub open spec fn extended_by(&self, outcome: Result<Factor<T>, JeromeError>, next: &Self) -> bool {
        &&& next.declared() == self.declared()
        &&& next.names() == self.names()
        &&& match outcome {
            Ok(f) => next.error() is None && next.spec_factors() == self.spec_factors().push(f),
            Err(e) => next.error() == Some(e) && next.spec_factors() == self.spec_factors(),
        }
    }

    /// A builder that holds nothing.
    pub fn new() -> (b: Self)
        ensures
            b.wf(),
            b.spec_factors() == Seq::<Factor<T>>::empty(),
            b.declared() == Seq::<Variable>::empty(),
            b.names() == Seq::<Seq<char>>::empty(),
            b.error() is None,
    {
        let b = UndirectedModelBuilder { factors: Vec::new(), declared: Vec::new(), names: Names::new(), err: None };
        proof {
            assert(b.names() =~= Seq::<Seq<char>>::empty());
        }
        b
    }

    /// Whether the variable with the identity `id` is declared and `name`
    /// is the name of another declared variable.
    pub open spec fn clashes(&self, id: usize, name: Seq<char>) -> bool {
        exists|i: int, j: int|
            0 <= i < self.declared().len() && 0 <= j < self.names().len() && i != j
                && #[trigger] self.declared()[i].spec_id() == id && #[trigger] self.names()[j] == name
    }

    /// Whether a declared variable has the identity `id` or the name
    /// `name`.
    pub open spec fn holds(&self, id: usize, name: Seq<char>) -> bool {
        exists|i: int| #[trigger] self.held_at(id, name, i)
    }

    /// Whether the declared variable at `i` has the identity `id` or the
    /// name `name`.
    pub open spec fn held_at(&self, id: usize, name: Seq<char>, i: int) -> bool {
        &&& 0 <= i < self.declared().len()
        &&& 0 <= i < self.names().len()
        &&& self.declared()[i].spec_id() == id || self.names()[i] == name
    }

    /// Declares a variable of the model and its name. A variable that is
    /// declared again gets the new name, and a name that is given again
    /// goes to the new variable, whose former holder is declared no more:
    /// either way the former declaration leaves, the last one takes its
    /// place, and the new one is added at the end. A declared variable
    /// cannot get the name of another declared variable.
    pub fn with_named_variable(self, var: &Variable, name: &str) -> (b: Self)
        requires
            self.wf(),
        ensures
            b.wf(),
            if self.error() is Some {
                b.error() == self.error() && self.same_but_error(&b)
            } else if self.clashes(var.spec_id(), name@) {
                b.error() is Some && b.error()->Some_0 is General && self.same_but_error(&b)
            } else if self.holds(var.spec_id(), name@) {
                &&& b.error() is None
                &&& b.spec_factors() == self.spec_factors()
                &&& exists|i: int| #[trigger]
                    self.held_at(var.spec_id(), name@, i) && b.declared() == swap_removed(self.declared(), i).push(
                        *var,
                    ) && b.names() == swap_removed(self.names(), i).push(name@)
            } else {
                &&& b.error() is None
                &&& b.declared() == self.declared().push(*var)
                &&& b.names() == self.names().push(name@)
                &&& b.spec_factors() == self.spec_factors()
            },
    {
        let mut this = self;
        if this.err.is_some() {
            return this;
        }
        let declared = index_of_id(&this.declared, var.id());
        let holder = match this.names.id_of(name) {
            Some(id) => index_of_id(&this.declared, id),
            None => None,
        };
        proof {
            self.lemma_places(var.spec_id(), name@, declared, holder);
        }
        let at = match (declared, holder) {
            (Some(i), Some(j)) => {
                if i != j {
                    this.err = Some(JeromeError::General("The name is taken by another variable".to_owned()));
                    return this;
                }
                i
            },
            (Some(i), None) => i,
            (None, Some(j)) => j,
            (None, None) => {
                let ghost before = this;
                this.declared.push(*var);
                let _ = this.names.insert(var.id(), name.to_owned());
                proof {
                    assert(this.names() =~= before.names().push(name@));
                }
                return this;
            },
        };
        let ghost before = this;
        proof {
            assert(self.held_at(var.spec_id(), name@, at as int));
            assert forall|j: int| 0 <= j < this.names@.len() && j != at implies (#[trigger] this.names@[j]).0
                != var.spec_id() && this.names@[j].1 != name@ by {
                assert(this.declared@[j].spec_id() == this.names@[j].0);
                assert(this.names()[j] == this.names@[j].1);
            }
            assert(this.names()[at as int] == this.names@[at as int].1);
        }
        let _ = this.declared.swap_remove(at);
        this.declared.push(*var);
        this.names.replace(at, var.id(), name.to_owned());
        proof {
            assert(this.names() =~= swap_removed(before.names(), at as int).push(name@));
            assert(this.declared() == swap_removed(before.declared(), at as int).push(*var));
            let last = before.declared@.len() - 1;
            assert forall|i: int, j: int| 0 <= i < j < this.declared@.len() implies this.declared@[i].spec_id()
                != this.declared@[j].spec_id() by {
                let x = if i == at {
                    last
                } else {
                    i
                };
                assert(this.declared@[i] == before.declared@[x]);
                assert(before.names@[x].0 == before.declared@[x].spec_id());
                if j < last {
                    let y = if j == at {
                        last
                    } else {
                        j
                    };
                    assert(this.declared@[j] == before.declared@[y]);
                    if x < y {
                        assert(before.declared@[x].spec_id() != before.declared@[y].spec_id());
                    } else {
                        assert(before.declared@[y].spec_id() != before.declared@[x].spec_id());
                    }
                }
            }
            assert forall|i: int| 0 <= i < this.declared@.len() implies (#[trigger] this.names@[i]).0
                == this.declared@[i].spec_id() by {
                let x = if i == at {
                    last
                } else {
                    i
                };
                if i < last {
                    assert(this.declared@[i] == before.declared@[x]);
                    assert(this.names@[i] == before.names@[x]);
                    assert(before.names@[x].0 == before.declared@[x].spec_id());
                }
            }
        }
        this
    }

    /// Where a valid builder holds an identity and a name: what the
    /// searches for the two find decides whether they clash and whether
    /// either is held.
    proof fn lemma_places(&self, id: usize, name: Seq<char>, declared: Option<usize>, holder: Option<usize>)
        requires
            self.wf(),
            match declared {
                Some(i) => i < self.declared().len() && self.declared()[i as int].spec_id() == id,
                None => forall|j: int| 0 <= j < self.declared().len() ==> (#[trigger] self.declared()[j]).spec_id() != id,
            },
            match holder {
                Some(j) => j < self.declared().len() && self.names()[j as int] == name,
                None => !self.names().contains(name),
            },
        ensures
            self.clashes(id, name) <==> declared is Some && holder is Some && declared != holder,
            self.holds(id, name) <==> declared is Some || holder is Some,
            forall|k: int|
                0 <= k < self.declared().len() && (self.declared()[k].spec_id() == id || self.names()[k] == name) ==> (
                declared == Some(k as usize) || holder == Some(k as usize)),
    {
        assert(self.names().len() == self.declared().len());
        assert forall|k: int| 0 <= k < self.declared().len() && self.names()[k] == name implies holder == Some(
            k as usize,
        ) by {
            if holder is None {
                assert(self.names().contains(name));
            } else {
                let j = holder->Some_0 as int;
                if j != k {
                    self.lemma_names_differ(j, k);
                }
            }
        }
        assert forall|k: int| 0 <= k < self.declared().len() && self.declared()[k].spec_id() == id implies declared
            == Some(k as usize) by {
            let i = declared->Some_0 as int;
            if i != k {
                self.lemma_ids_differ(i, k);
            }
        }
        if declared is Some && holder is Some && declared != holder {
            let i = declared->Some_0 as int;
            let j = holder->Some_0 as int;
            assert(self.declared()[i].spec_id() == id && self.names()[j] == name);
        }
        if declared is Some {
            assert(self.held_at(id, name, declared->Some_0 as int));
        }
        if holder is Some {
            assert(self.held_at(id, name, holder->Some_0 as int));
        }
        if self.holds(id, name) {
            let k = choose|k: int| #[trigger] self.held_at(id, name, k);
            assert(declared == Some(k as usize) || holder == Some(k as usize));
        }
    }

    /// Two declared variables of a valid builder have different names.
    proof fn lemma_names_differ(&self, i: int, j: int)
        requires
            self.wf(),
            0 <= i < self.declared().len(),
            0 <= j < self.declared().len(),
            i != j,
        ensures
            self.names()[i] != self.names()[j],
    {
        assert(self.names()[i] == self.names@[i].1);
        assert(self.names()[j] == self.names@[j].1);
        if i < j {
            assert(self.names@[i].1 != self.names@[j].1);
        } else {
            assert(self.names@[j].1 != self.names@[i].1);
        }
    }

    /// Two declared variables of a valid builder have different
    /// identities.
    proof fn lemma_ids_differ(&self, i: int, j: int)
        requires
            self.wf(),
            0 <= i < self.declared().len(),
            0 <= j < self.declared().len(),
            i != j,
        ensures
            self.declared()[i].spec_id() != self.declared()[j].spec_id(),
    {
        if i < j {
            assert(self.declared@[i].spec_id() != self.declared@[j].spec_id());
        } else {
            assert(self.declared@[j].spec_id() != self.declared@[i].spec_id());
        }
    }

    /// Adds the factor over `scope` that `init` makes.
    pub fn with_factor<A: Arithmetic<T>, C: Chance<T>>(
        self,
        scope: Vec<Variable>,
        init: Initialization<T>,
        w: &A,
        chance: &C,
    ) -> (b: Self)
        requires
            self.wf(),
            init.wf(),
            exact::<T, A>(w),
        ensures
            b.wf(),
            if self.error() is Some {
                b.error() == self.error() && self.same_but_error(&b)
            } else {
                exists|outcome: Result<Factor<T>, JeromeError>|
                    init.makes_factor::<A>(w, scope@, outcome) && #[trigger] self.extended_by(outcome, &b)
            },
    {
        let mut this = self;
        if this.err.is_some() {
            return this;
        }
        let ghost before = this;
        let outcome = init.build_factor(scope, w, chance);
        match outcome {
            Ok(f) => {
                this.factors.push(f);
                proof {
                    assert(before.extended_by(outcome, &this));
                    assert forall|i: int| 0 <= i < this.spec_factors().len() implies (#[trigger] this.spec_factors()[i]).wf() by {
                        if i < before.spec_factors().len() {
                            assert(this.spec_factors()[i] == before.spec_factors()[i]);
                            assert(before.spec_factors()[i].wf());
                        }
                    }
                }
            },
            Err(e) => {
                this.err = Some(e);
                proof {
                    assert(before.extended_by(outcome, &this));
                }
            },
        }
        this
    }

    /// The model built, or the first error. Every declared variable has to
    /// be held by a factor. The variables of the model are the declared
    /// ones, followed by those that only factors hold, each of which is
    /// named by the decimal text of its identity. No two variables may have
    /// the same identity or the same name. The partition function is summed
    /// over all assignments to the variables, whose number grows
    /// exponentially with the number of variables.
    pub fn build<A: Arithmetic<T>>(self, w: &A) -> (r: Result<UndirectedModel<T>, JeromeError>)
        requires
            self.wf(),
            exact::<T, A>(w),
        ensures
            match self.error() {
                Some(e) => r == Err::<UndirectedModel<T>, JeromeError>(e),
                None => {
                    let vars = gathered(self.declared(), self.spec_factors(), self.spec_factors().len());
                    if exists|j: int| 0 <= j < self.declared().len() && !used(self.spec_factors(), #[trigger] self.declared()[j]) {
                        r is Err && r->Err_0 is InvalidScope
                    } else if !distinct_ids(vars) {
                        r is Err && r->Err_0 is DuplicateVariable
                    } else if name_clash(self.names(), vars) {
                        r is Err && r->Err_0 is General
                    } else {
                        &&& r is Ok
                        &&& r->Ok_0.wf()
                        &&& r->Ok_0.summed::<A>(w)
                        &&& r->Ok_0.spec_factors() == self.spec_factors()
                        &&& r->Ok_0.spec_variables() == vars
                        &&& r->Ok_0.spec_names() == all_names(self.names(), vars)
                    }
                },
            },
    {
        if let Some(e) = self.err {
            return Err(e);
        }
        let mut j: usize = 0;
        while j < self.declared.len()
            invariant
                self.wf(),
                self.err is None,
                j <= self.declared@.len(),
                forall|k: int| 0 <= k < j ==> used(self.factors@, #[trigger] self.declared@[k]),
            decreases self.declared@.len() - j,
        {
            let mut found = false;
            let mut i: usize = 0;
            while i < self.factors.len() && !found
                invariant
                    j < self.declared@.len(),
                    i <= self.factors@.len(),
                    found ==> used(self.factors@, self.declared@[j as int]),
                    !found ==> forall|k: int|
                        0 <= k < i ==> !(#[trigger] self.factors@[k]).spec_scope().contains(self.declared@[j as int]),
                decreases self.factors@.len() - i + (if found { 0int } else { 1int }),
            {
                if self.factors[i].mentions(&self.declared[j]) {
                    found = true;
                } else {
                    i += 1;
                }
            }
            if !found {
                assert(!used(self.spec_factors(), self.declared()[j as int]));
                return Err(JeromeError::InvalidScope);
            }
            j += 1;
        }
        let mut variables = copy_scope(&self.declared);
        let mut i: usize = 0;
        while i < self.factors.len()
            invariant
                self.wf(),
                self.err is None,
                forall|k: int| 0 <= k < self.declared@.len() ==> used(self.factors@, #[trigger] self.declared@[k]),
                i <= self.factors@.len(),
                variables@ == gathered(self.declared@, self.factors@, i as nat),
            decreases self.factors@.len() - i,
        {
            let scope = self.factors[i].scope();
            variables = merge(&variables, &scope);
            i += 1;
        }
        proof {
            lemma_ids_distinct(self.declared@);
            lemma_gathered(self.declared@, self.factors@, self.factors@.len());
            lemma_gathered_prefix(self.declared@, self.factors@, self.factors@.len());
            assert(!exists|j: int| 0 <= j < self.declared().len() && !used(self.spec_factors(), #[trigger] self.declared()[j]));
        }
        if !ids_distinct(&variables) {
            return Err(JeromeError::DuplicateVariable);
        }
        let mut names = self.names.copy();
        let first = self.declared.len();
        let mut k: usize = first;
        let ghost given = self.names();
        let ghost full = all_names(given, variables@);
        proof {
            assert(labels(names@) =~= full.take(k as int));
        }
        while k < variables.len()
            invariant
                self.wf(),
                self.err is None,
                first == self.declared@.len(),
                first <= k <= variables@.len(),
                forall|x: int| 0 <= x < self.declared@.len() ==> used(self.factors@, #[trigger] self.declared@[x]),
                variables@ == gathered(self.declared@, self.factors@, self.factors@.len()),
                variables@.take(first as int) == self.declared@,
                distinct_ids(variables@),
                given == self.names(),
                given.len() == first,
                full == all_names(given, variables@),
                names.wf(),
                labelled(variables@.take(k as int), names@),
                labels(names@) == full.take(k as int),
                forall|p: int| first <= p < k ==> !(#[trigger] full.take(p)).contains(decimal(variables@[p].spec_id() as nat)),
            decreases variables@.len() - k,
        {
            let id = variables[k].id();
            let text = text_of(id);
            let ghost before = names@;
            proof {
                assert(!has_id(names@, id)) by {
                    if has_id(names@, id) {
                        let x = choose|x: int| 0 <= x < names@.len() && (#[trigger] names@[x]).0 == id;
                        assert(variables@.take(k as int)[x].spec_id() == id);
                        assert(variables@[x].spec_id() != variables@[k as int].spec_id());
                    }
                }
                assert(has_name(before, text@) <==> full.take(k as int).contains(text@)) by {
                    if has_name(before, text@) {
                        let x = choose|x: int| 0 <= x < before.len() && (#[trigger] before[x]).1 == text@;
                        assert(labels(before)[x] == text@);
                    }
                    if full.take(k as int).contains(text@) {
                        let x = choose|x: int| 0 <= x < full.take(k as int).len() && full.take(k as int)[x] == text@;
                        assert(labels(before)[x] == before[x].1);
                    }
                }
            }
            if !names.insert(id, text) {
                proof {
                    assert(name_clash(given, variables@));
                    assert(!exists|j: int|
                        0 <= j < self.declared().len() && !used(self.spec_factors(), #[trigger] self.declared()[j]));
                }
                return Err(JeromeError::General("The name of a variable is taken by another variable".to_owned()));
            }
            proof {
                assert(labels(names@) =~= full.take(k + 1));
                assert forall|x: int| 0 <= x < k + 1 implies (#[trigger] names@[x]).0 == variables@.take(k + 1)[x].spec_id() by {
                    if x < k {
                        assert(names@[x] == before[x]);
                        assert(before[x].0 == variables@.take(k as int)[x].spec_id());
                    }
                }
            }
            k += 1;
        }
        proof {
            assert(variables@.take(k as int) == variables@);
            assert(full.take(k as int) == full);
            lemma_ids_distinct(variables@);
            assert forall|i: int| 0 <= i < self.factors@.len() implies (#[trigger] self.factors@[i]).wf() && within(
                self.factors@[i].spec_scope(),
                variables@,
            ) by {
                assert(self.spec_factors()[i].wf());
            }
            assert(!name_clash(given, variables@)) by {
                if name_clash(given, variables@) {
                    let p = choose|p: int|
                        given.len() <= p < variables@.len() && #[trigger] all_names(given, variables@).take(p).contains(
                            decimal(variables@[p].spec_id() as nat),
                        );
                    assert(!full.take(p).contains(decimal(variables@[p].spec_id() as nat)));
                }
            }
        }
        let partition = compute_partition(&variables, &self.factors, w);
        Ok(UndirectedModel { factors: self.factors, variables, names, partition })
    }
}

/// The variables gathered from factors start with the given variables.
pub proof fn lemma_gathered_prefix<T: Copy>(vars: Seq<Variable>, factors: Seq<Factor<T>>, n: nat)
    requires
        n <= factors.len(),
    ensures
        vars.len() <= gathered(vars, factors, n).len(),
        gathered(vars, factors, n).take(vars.len() as int) == vars,
    decreases n,
{
    if n == 0 {
        assert(vars.take(vars.len() as int) == vars);
    } else {
        let before = gathered(vars, factors, (n - 1) as nat);
        let scope = factors[n - 1].spec_scope();
        lemma_gathered_prefix(vars, factors, (n - 1) as nat);
        lemma_appended(before, scope, scope.len());
        let after = gathered(vars, factors, n);
        assert(after.take(before.len() as int) == before);
        assert(after.take(vars.len() as int) =~= before.take(vars.len() as int));
    }
}

} // verus!
