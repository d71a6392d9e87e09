//! Models: a probability distribution over a set of variables, written as a
//! product of factors.

pub mod directed;
pub mod names;
pub mod roster;
pub mod undirected;

use vstd::prelude::*;
use crate::model::directed::{carried, chain, named_as, DirectedModel};
use crate::factor::Factor;
use crate::model::undirected::{reduction_of, UndirectedModel};
use crate::scope::unassigned;
use crate::util::JeromeError;
use crate::variable::{covers, Assignment, Variable};
use crate::weight::{exact, Arithmetic};

verus! {

/// A probabilistic graphical model: variables with names, and a
/// distribution over their assignments.
pub trait Model<T: Copy>: Sized {
    /// The validity of the model.
    spec fn valid(&self) -> bool;

    /// The variables of the model, in its order.
    spec fn listed(&self) -> Seq<Variable>;

    /// The name of each variable, in the order of the variables.
    spec fn labels(&self) -> Seq<Seq<char>>;

    /// The factors of the model.
    spec fn parts(&self) -> Seq<Factor<T>>;

    /// Whether the factors of this model are those of `before` given the
    /// evidence.
    spec fn given(&self, before: &Self, evidence: Map<Variable, usize>) -> bool;

    /// The variable with the name `name`, if the model holds one.
    fn lookup_variable(&self, name: &str) -> (r: Option<Variable>)
        requires
            self.valid(),
        ensures
            match r {
                Some(var) => named_as(self.listed(), self.labels(), var, name@),
                None => !self.labels().contains(name@),
            },
    ;

    /// The name of `var`, if the model holds `var`.
    fn lookup_name(&self, var: &Variable) -> (r: Option<String>)
        requires
            self.valid(),
        ensures
            match r {
                Some(name) => named_as(self.listed(), self.labels(), *var, name@),
                None => !self.listed().contains(*var),
            },
    ;

    /// The variables of the model.
    fn variables(&self) -> (r: Vec<Variable>)
        requires
            self.valid(),
        ensures
            r@ == self.listed(),
    ;

    /// The number of variables of the model.
    fn num_variables(&self) -> (n: usize)
        requires
            self.valid(),
        ensures
            n == self.listed().len(),
    ;

    /// The model given the evidence: its variables are those that the
    /// evidence gives no state, with their names.
    fn condition<A: Arithmetic<T>>(&self, evidence: &Assignment, w: &A) -> (r: Self)
        requires
            self.valid(),
            evidence.wf(),
            exact::<T, A>(w),
        ensures
            r.valid(),
            r.given(self, evidence@),
            r.listed() == unassigned(self.listed(), evidence@),
            r.labels().len() == r.listed().len(),
            forall|i: int|
                0 <= i < r.listed().len() ==> #[trigger] named_as(self.listed(), self.labels(), r.listed()[i], r.labels()[i]),
    ;

    /// The probability of a full assignment.
    fn probability<A: Arithmetic<T>>(&self, assignment: &Assignment, w: &A) -> (r: Result<T, JeromeError>)
        requires
            self.valid(),
            assignment.wf(),
            exact::<T, A>(w),
        ensures
            match r {
                Ok(p) => forall|i: int|
                    0 <= i < self.parts().len() ==> covers(assignment@, (#[trigger] self.parts()[i]).spec_scope()),
                Err(e) => {
                    &&& e is IncompleteAssignment
                    &&& exists|i: int|
                        0 <= i < self.parts().len() && !covers(assignment@, (#[trigger] self.parts()[i]).spec_scope())
                },
            },
    ;
}

impl<T: Copy> Model<T> for DirectedModel<T> {
    open spec fn valid(&self) -> bool {
        self.wf()
    }

    open spec fn listed(&self) -> Seq<Variable> {
        self.order()
    }

    open spec fn labels(&self) -> Seq<Seq<char>> {
        self.names()
    }

    open spec fn parts(&self) -> Seq<Factor<T>> {
        self.factors()
    }

    open spec fn given(&self, before: &Self, evidence: Map<Variable, usize>) -> bool {
        carried(
            before.order(),
            before.factors(),
            evidence,
            before.order().len() as int,
            self.order(),
            self.factors(),
        )
    }

    fn lookup_variable(&self, name: &str) -> (r: Option<Variable>) {
        proof {
            self.lemma_wf();
        }
        let r = self.lookup_variable(name);
        proof {
            if r is None && self.names().contains(name@) {
                let i = choose|i: int| 0 <= i < self.names().len() && self.names()[i] == name@;
                assert(self.names()[i] != name@);
            }
        }
        r
    }

    fn lookup_name(&self, var: &Variable) -> (r: Option<String>) {
        proof {
            self.lemma_wf();
        }
        self.lookup_name(var)
    }

    fn variables(&self) -> (r: Vec<Variable>) {
        self.variables()
    }

    fn num_variables(&self) -> (n: usize) {
        self.num_variables()
    }

    fn condition<A: Arithmetic<T>>(&self, evidence: &Assignment, w: &A) -> (r: Self) {
        self.condition(evidence)
    }

    fn probability<A: Arithmetic<T>>(&self, assignment: &Assignment, w: &A) -> (r: Result<T, JeromeError>)
        ensures
            match r {
                Ok(p) => {
                    &&& forall|i: int| 0 <= i < self.factors().len() ==> covers(assignment@, #[trigger] self.factors()[i].spec_scope())
                    &&& p == chain::<T, A>(w, self.factors(), assignment@, self.factors().len())
                },
                Err(e) => {
                    &&& e is IncompleteAssignment
                    &&& exists|i: int| 0 <= i < self.factors().len() && !covers(assignment@, #[trigger] self.factors()[i].spec_scope())
                },
            },
    {
        let r = self.probability(assignment, w);
        proof {
            if r is Ok {
                assert forall|i: int| 0 <= i < self.parts().len() implies covers(
                    assignment@,
                    (#[trigger] self.parts()[i]).spec_scope(),
                ) by {
                    assert(covers(assignment@, self.factors()[i].spec_scope()));
                }
            } else {
                let i = choose|i: int|
                    0 <= i < self.factors().len() && !covers(assignment@, (#[trigger] self.factors()[i]).spec_scope());
                assert(!covers(assignment@, self.parts()[i].spec_scope()));
            }
        }
        r
    }
}

impl<T: Copy> Model<T> for UndirectedModel<T> {
    open spec fn valid(&self) -> bool {
        self.wf()
    }

    open spec fn listed(&self) -> Seq<Variable> {
        self.spec_variables()
    }

    open spec fn labels(&self) -> Seq<Seq<char>> {
        self.spec_names()
    }

    open spec fn parts(&self) -> Seq<Factor<T>> {
        self.spec_factors()
    }

    open spec fn given(&self, before: &Self, evidence: Map<Variable, usize>) -> bool {
        &&& self.spec_factors().len() == before.spec_factors().len()
        &&& forall|i: int|
            0 <= i < self.spec_factors().len() ==> reduction_of(
                #[trigger] &self.spec_factors()[i],
                &before.spec_factors()[i],
                evidence,
            )
    }

    fn lookup_variable(&self, name: &str) -> (r: Option<Variable>) {
        let r = self.lookup_variable(name);
        proof {
            if r is None && self.spec_names().contains(name@) {
                let i = choose|i: int| 0 <= i < self.spec_names().len() && self.spec_names()[i] == name@;
                assert(self.spec_names()[i] != name@);
            }
        }
        r
    }

    fn lookup_name(&self, var: &Variable) -> (r: Option<String>) {
        self.lookup_name(var)
    }

    fn variables(&self) -> (r: Vec<Variable>) {
        self.variables()
    }

    fn num_variables(&self) -> (n: usize) {
        self.num_variables()
    }

    fn condition<A: Arithmetic<T>>(&self, evidence: &Assignment, w: &A) -> (r: Self)
        ensures
            r.conditioned_from::<A>(w, self, evidence@),
    {
        self.condition(evidence, w)
    }

    fn probability<A: Arithmetic<T>>(&self, assignment: &Assignment, w: &A) -> (r: Result<T, JeromeError>)
        ensures
            match r {
                Ok(p) => {
                    &&& forall|i: int|
                        0 <= i < self.spec_factors().len() ==> covers(
                            assignment@,
                            (#[trigger] self.spec_factors()[i]).spec_scope(),
                        )
                    &&& p == self.chance::<A>(w, assignment@)
                },
                Err(e) => {
                    &&& e is IncompleteAssignment
                    &&& exists|i: int|
                        0 <= i < self.spec_factors().len() && !covers(
                            assignment@,
                            (#[trigger] self.spec_factors()[i]).spec_scope(),
                        )
                },
            },
    {
        let r = self.probability(assignment, w);
        proof {
            if r is Ok {
                assert forall|i: int| 0 <= i < self.parts().len() implies covers(
                    assignment@,
                    (#[trigger] self.parts()[i]).spec_scope(),
                ) by {
                    assert(covers(assignment@, self.spec_factors()[i].spec_scope()));
                }
            } else {
                let i = choose|i: int|
                    0 <= i < self.spec_factors().len() && !covers(assignment@, (#[trigger] self.spec_factors()[i]).spec_scope());
                assert(!covers(assignment@, self.parts()[i].spec_scope()));
            }
        }
        r
    }
}

} // verus!
