//! Random variables with a finite domain, assignments of states to them, and
//! the enumeration of all assignments to a scope.

use vstd::prelude::*;
use itertools::Itertools;
use itertools::structs::MultiProduct;
use std::ops::Range;
use crate::layout::{all_digits, digits};
use crate::util::JeromeError;

verus! {

/// A discrete random variable: an identity and the number of states it can
/// take. The states are the integers from 0 up to the cardinality.
#[derive(Clone, Copy, Debug, PartialEq, Eq, Hash, Structural)]
pub struct Variable {
    id: usize,
    cardinality: usize,
}

/// The source of variable identities. Every variable made from one arena has
/// an identity that no other variable of that arena has.
pub struct Arena {
    next: usize,
}

impl Arena {
    /// How many identities the arena has handed out.
    pub closed spec fn issued(&self) -> nat {
        self.next as nat
    }

    /// An arena that has handed out no identity yet.
    pub fn new() -> (arena: Self)
        ensures
            arena.issued() == 0,
    {
        Arena { next: 0 }
    }

    /// Whether the arena has handed out every identity that there is.
    pub fn exhausted(&self) -> (b: bool)
        ensures
            b == (self.issued() == usize::MAX),
    {
        self.next == usize::MAX
    }

    /// Hands out the next identity. Identities are consecutive, from 0.
    pub fn next_id(&mut self) -> (id: usize)
        requires
            old(self).issued() < usize::MAX,
        ensures
            id == old(self).issued(),
            final(self).issued() == old(self).issued() + 1,
    {
        let id = self.next;
        self.next = id + 1;
        id
    }
}

impl Variable {
    /// A variable has at least one state.
    #[verifier::type_invariant]
    spec fn has_states(self) -> bool {
        self.cardinality >= 1
    }

    /// The identity of the variable.
    pub closed spec fn spec_id(&self) -> usize {
        self.id
    }

    /// The number of states of the variable.
    pub closed spec fn spec_cardinality(&self) -> usize {
        self.cardinality
    }

    /// The variable with the given identity and number of states.
    pub closed spec fn spec_of(id: usize, cardinality: usize) -> Variable {
        Variable { id, cardinality }
    }

    /// The variable with the given identity and number of states: a copy
    /// of a variable that an arena has made before.
    pub(crate) fn of(id: usize, cardinality: usize) -> (v: Variable)
        requires
            cardinality >= 1,
        ensures
            v == Variable::spec_of(id, cardinality),
    {
        Variable { id, cardinality }
    }

    /// A variable is made of its identity and its number of states.
    pub proof fn lemma_parts(self)
        ensures
            self == Variable::spec_of(self.spec_id(), self.spec_cardinality()),
    {
    }

    /// The identity and the number of states of a variable made of them.
    pub proof fn lemma_of(id: usize, cardinality: usize)
        ensures
            Variable::spec_of(id, cardinality).spec_id() == id,
            Variable::spec_of(id, cardinality).spec_cardinality() == cardinality,
    {
    }

    /// A fresh variable with two states.
    pub fn binary(arena: &mut Arena) -> (v: Variable)
        requires
            old(arena).issued() < usize::MAX,
        ensures
            v.spec_id() == old(arena).issued(),
            v.spec_cardinality() == 2,
            final(arena).issued() == old(arena).issued() + 1,
    {
        let id = arena.next_id();
        Variable { id, cardinality: 2 }
    }

    /// A fresh variable with `cardinality` states. A variable has at least
    /// one state.
    pub fn discrete(arena: &mut Arena, cardinality: usize) -> (v: Variable)
        requires
            cardinality >= 1,
            old(arena).issued() < usize::MAX,
        ensures
            v.spec_id() == old(arena).issued(),
            v.spec_cardinality() == cardinality,
            final(arena).issued() == old(arena).issued() + 1,
    {
        let id = arena.next_id();
        Variable { id, cardinality }
    }

    /// The number of states the variable can take, which is at least one.
    #[verifier::when_used_as_spec(spec_cardinality)]
    pub fn cardinality(&self) -> (c: usize)
        ensures
            c == self.spec_cardinality(),
            c >= 1,
    {
        proof {
            use_type_invariant(self);
        }
        self.cardinality
    }

    /// The identity of the variable.
    #[verifier::when_used_as_spec(spec_id)]
    pub fn id(&self) -> (id: usize)
        ensures
            id == self.spec_id(),
    {
        self.id
    }
}

impl From<Variable> for usize {
    /// The identity of the variable.
    fn from(v: Variable) -> (id: usize) {
        v.id
    }
}

impl vstd::std_specs::convert::FromSpecImpl<Variable> for usize {
    open spec fn obeys_from_spec() -> bool {
        true
    }

    open spec fn from_spec(v: Variable) -> usize {
        v.spec_id()
    }
}

/// The extents of a table over `scope`: the cardinality of each variable.
pub open spec fn dims(scope: Seq<Variable>) -> Seq<usize> {
    Seq::new(scope.len(), |i: int| scope[i].spec_cardinality())
}

/// Whether every variable of `scope` has a state to take.
pub open spec fn inhabited(scope: Seq<Variable>) -> bool {
    forall|i: int| 0 <= i < scope.len() ==> (#[trigger] scope[i]).spec_cardinality() >= 1
}

/// Whether every state in `a` is one that its variable can take.
pub open spec fn admissible(a: Map<Variable, usize>) -> bool {
    forall|v: Variable| #[trigger] a.contains_key(v) ==> a[v] < v.spec_cardinality()
}

/// Whether `a` assigns a state to every variable of `scope`.
pub open spec fn covers(a: Map<Variable, usize>, scope: Seq<Variable>) -> bool {
    forall|i: int| 0 <= i < scope.len() ==> a.contains_key(#[trigger] scope[i])
}

/// The states that `a` gives to the variables of `scope`, in scope order.
pub open spec fn indices(a: Map<Variable, usize>, scope: Seq<Variable>) -> Seq<usize> {
    Seq::new(scope.len(), |i: int| a[scope[i]])
}

/// The mapping that a list of pairs stands for.
pub open spec fn bindings(entries: Seq<(Variable, usize)>) -> Map<Variable, usize>
    decreases entries.len(),
{
    if entries.len() == 0 {
        Map::empty()
    } else {
        bindings(entries.drop_last()).insert(entries.last().0, entries.last().1)
    }
}

/// Whether no variable occurs twice in a list of pairs.
pub open spec fn distinct_keys(entries: Seq<(Variable, usize)>) -> bool {
    forall|i: int, j: int| 0 <= i < j < entries.len() ==> entries[i].0 != entries[j].0
}

/// A list of pairs gives a state to exactly the variables that it holds.
proof fn lemma_bindings_dom(entries: Seq<(Variable, usize)>, v: Variable)
    ensures
        bindings(entries).contains_key(v) <==> exists|i: int| 0 <= i < entries.len() && entries[i].0 == v,
    decreases entries.len(),
{
    if entries.len() > 0 {
        let rest = entries.drop_last();
        lemma_bindings_dom(rest, v);
        if bindings(entries).contains_key(v) {
            if entries.last().0 == v {
                assert(entries[entries.len() - 1].0 == v);
            } else {
                let i = choose|i: int| 0 <= i < rest.len() && rest[i].0 == v;
                assert(entries[i].0 == v);
            }
        }
        if exists|i: int| 0 <= i < entries.len() && entries[i].0 == v {
            let i = choose|i: int| 0 <= i < entries.len() && entries[i].0 == v;
            if i < rest.len() {
                assert(rest[i].0 == v);
            }
        }
    }
}

/// A list of pairs that holds no variable twice gives each variable the
/// state that it is paired with.
proof fn lemma_bindings_value(entries: Seq<(Variable, usize)>, i: int)
    requires
        distinct_keys(entries),
        0 <= i < entries.len(),
    ensures
        bindings(entries).contains_key(entries[i].0),
        bindings(entries)[entries[i].0] == entries[i].1,
    decreases entries.len(),
{
    let rest = entries.drop_last();
    if i < entries.len() - 1 {
        assert(distinct_keys(rest));
        lemma_bindings_value(rest, i);
        assert(rest[i] == entries[i]);
        assert(entries[i].0 != entries[entries.len() - 1].0);
    }
}

/// Taking a pair out of a list that holds no variable twice takes the
/// state of its variable away.
proof fn lemma_bindings_remove(entries: Seq<(Variable, usize)>, i: int)
    requires
        distinct_keys(entries),
        0 <= i < entries.len(),
    ensures
        bindings(entries.remove(i)) == bindings(entries).remove(entries[i].0),
        distinct_keys(entries.remove(i)),
    decreases entries.len(),
{
    let rest = entries.drop_last();
    let gone = entries.remove(i);
    if i == entries.len() - 1 {
        assert(gone == rest);
        lemma_bindings_dom(rest, entries[i].0);
        assert(!bindings(rest).contains_key(entries[i].0));
        assert(bindings(rest) =~= bindings(entries).remove(entries[i].0));
    } else {
        assert(distinct_keys(rest));
        lemma_bindings_remove(rest, i);
        assert(gone.drop_last() == rest.remove(i));
        assert(gone.last() == entries.last());
        assert(entries[i].0 != entries[entries.len() - 1].0);
        assert(bindings(gone) =~= bindings(entries).remove(entries[i].0));
    }
}

/// A list of pairs whose states are all in the domain of their variables
/// stands for a mapping of that kind, with finitely many variables.
proof fn lemma_bindings_admissible(entries: Seq<(Variable, usize)>)
    requires
        forall|i: int| 0 <= i < entries.len() ==> (#[trigger] entries[i]).1 < entries[i].0.spec_cardinality(),
    ensures
        admissible(bindings(entries)),
        bindings(entries).dom().finite(),
    decreases entries.len(),
{
    if entries.len() > 0 {
        let rest = entries.drop_last();
        assert forall|i: int| 0 <= i < rest.len() implies (#[trigger] rest[i]).1 < rest[i].0.spec_cardinality() by {
            assert(rest[i] == entries[i]);
        }
        lemma_bindings_admissible(rest);
    }
}

/// A partial or total assignment of states to variables. Each variable has
/// at most one state, and the state is one that the variable can take.
#[derive(Clone, Debug)]
pub struct Assignment {
    entries: Vec<(Variable, usize)>,
}

impl View for Assignment {
    type V = Map<Variable, usize>;

    closed spec fn view(&self) -> Map<Variable, usize> {
        bindings(self.entries@)
    }
}

impl Assignment {
    /// The validity of an assignment: no variable is held twice, and every
    /// state is below its variable's cardinality.
    pub closed spec fn wf(&self) -> bool {
        &&& distinct_keys(self.entries@)
        &&& forall|i: int| 0 <= i < self.entries@.len() ==> (#[trigger] self.entries@[i]).1 < self.entries@[i].0.spec_cardinality()
    }

    /// Every state of a valid assignment is one that its variable can take,
    /// and the assignment holds finitely many variables.
    pub proof fn lemma_admissible(&self)
        requires
            self.wf(),
        ensures
            admissible(self@),
            self@.dom().finite(),
    {
        lemma_bindings_admissible(self.entries@);
    }

    /// The empty assignment.
    pub fn new() -> (a: Self)
        ensures
            a.wf(),
            a@ == Map::<Variable, usize>::empty(),
    {
        Assignment { entries: Vec::new() }
    }

    /// The position of the pair of `v`, if `v` has a state.
    fn position(&self, v: &Variable) -> (r: Option<usize>)
        requires
            self.wf(),
        ensures
            match r {
                Some(i) => i < self.entries@.len() && self.entries@[i as int].0 == *v && self@.contains_key(*v)
                    && self@[*v] == self.entries@[i as int].1,
                None => !self@.contains_key(*v),
            },
    {
        let mut i: usize = 0;
        while i < self.entries.len()
            invariant
                self.wf(),
                i <= self.entries@.len(),
                forall|j: int| 0 <= j < i ==> self.entries@[j].0 != *v,
            decreases self.entries@.len() - i,
        {
            if self.entries[i].0 == *v {
                proof {
                    lemma_bindings_value(self.entries@, i as int);
                }
                return Some(i);
            }
            i += 1;
        }
        proof {
            lemma_bindings_dom(self.entries@, *v);
        }
        None
    }

    /// Gives `v` the state `value`. A variable that already has a state keeps
    /// it, and a state that `v` cannot take is not recorded: both are
    /// reported, the first before the second.
    pub fn set(&mut self, v: &Variable, value: usize) -> (r: Option<JeromeError>)
        requires
            old(self).wf(),
        ensures
            final(self).wf(),
            old(self)@.contains_key(*v) ==> r == Some(JeromeError::DuplicateAssignment) && final(self)@ == old(self)@,
            !old(self)@.contains_key(*v) && value >= v.spec_cardinality() ==> r == Some(JeromeError::OutOfRange)
                && final(self)@ == old(self)@,
            !old(self)@.contains_key(*v) && value < v.spec_cardinality() ==> r.is_none() && final(self)@ == old(
                self,
            )@.insert(*v, value),
    {
        if self.position(v).is_some() {
            return Some(JeromeError::DuplicateAssignment);
        }
        if value < v.cardinality() {
            proof {
                lemma_bindings_dom(self.entries@, *v);
            }
            self.entries.push((*v, value));
            proof {
                assert(self.entries@.drop_last() == old(self).entries@);
            }
            return None;
        }
        Some(JeromeError::OutOfRange)
    }

    /// The state of `v`, if it has one.
    pub fn get(&self, v: &Variable) -> (r: Option<&usize>)
        requires
            self.wf(),
        ensures
            match r {
                Some(state) => self@.contains_key(*v) && *state == self@[*v] && *state < v.spec_cardinality(),
                None => !self@.contains_key(*v),
            },
    {
        match self.position(v) {
            Some(i) => Some(&self.entries[i].1),
            None => None,
        }
    }

    /// Takes the state of `v` away, if it has one.
    pub fn unset(&mut self, v: &Variable)
        requires
            old(self).wf(),
        ensures
            final(self).wf(),
            final(self)@ == old(self)@.remove(*v),
    {
        match self.position(v) {
            Some(i) => {
                proof {
                    lemma_bindings_remove(self.entries@, i as int);
                }
                let _ = self.entries.remove(i);
            },
            None => {
                assert(self@ =~= old(self)@.remove(*v));
            },
        }
    }

    /// How many variables have a state.
    pub fn len(&self) -> (n: usize)
        requires
            self.wf(),
        ensures
            n == self@.dom().len(),
    {
        proof {
            lemma_bindings_len(self.entries@);
        }
        self.entries.len()
    }

    /// A copy of the assignment.
    pub fn copy(&self) -> (a: Self)
        requires
            self.wf(),
        ensures
            a.wf(),
            a@ == self@,
    {
        let mut entries: Vec<(Variable, usize)> = Vec::new();
        let mut i: usize = 0;
        while i < self.entries.len()
            invariant
                i <= self.entries@.len(),
                entries@ == self.entries@.take(i as int),
            decreases self.entries@.len() - i,
        {
            entries.push(self.entries[i]);
            proof {
                assert(entries@ =~= self.entries@.take(i + 1));
            }
            i += 1;
        }
        proof {
            assert(self.entries@.take(i as int) == self.entries@);
        }
        Assignment { entries }
    }
}

/// A list of pairs that holds no variable twice gives states to as many
/// variables as it has pairs.
proof fn lemma_bindings_len(entries: Seq<(Variable, usize)>)
    requires
        distinct_keys(entries),
    ensures
        bindings(entries).dom().finite(),
        bindings(entries).dom().len() == entries.len(),
    decreases entries.len(),
{
    if entries.len() > 0 {
        let rest = entries.drop_last();
        assert(distinct_keys(rest));
        lemma_bindings_len(rest);
        lemma_bindings_dom(rest, entries.last().0);
        assert(!bindings(rest).contains_key(entries.last().0)) by {
            if bindings(rest).contains_key(entries.last().0) {
                let i = choose|i: int| 0 <= i < rest.len() && rest[i].0 == entries.last().0;
                assert(entries[i].0 == entries[entries.len() - 1].0);
            }
        }
        assert(bindings(entries).dom() =~= bindings(rest).dom().insert(entries.last().0));
    }
}

/// The mapping made by giving `vars[i]` the state `vals[i]` for each of the
/// first `n` positions in turn, passing over a variable that already has a
/// state and a state that its variable cannot take.
pub open spec fn bind(vars: Seq<Variable>, vals: Seq<usize>, n: nat) -> Map<Variable, usize>
    decreases n,
{
    if n == 0 {
        Map::empty()
    } else {
        let before = bind(vars, vals, (n - 1) as nat);
        let v = vars[n - 1];
        let state = vals[n - 1];
        if before.contains_key(v) || state >= v.spec_cardinality() {
            before
        } else {
            before.insert(v, state)
        }
    }
}

/// The number of positions that two lists share.
pub open spec fn shared_len(vars: Seq<Variable>, vals: Seq<usize>) -> nat {
    if vars.len() <= vals.len() {
        vars.len()
    } else {
        vals.len()
    }
}

/// Binding distinct variables to states in bounds gives each variable its
/// state and no other variable any.
pub proof fn lemma_bind_distinct(vars: Seq<Variable>, vals: Seq<usize>, n: nat)
    requires
        vars.no_duplicates(),
        n <= vars.len(),
        n <= vals.len(),
        forall|i: int| 0 <= i < n ==> vals[i] < vars[i].spec_cardinality(),
    ensures
        forall|i: int| 0 <= i < n ==> bind(vars, vals, n).contains_key(#[trigger] vars[i]) && bind(vars, vals, n)[vars[i]] == vals[i],
        forall|v: Variable| #[trigger] bind(vars, vals, n).contains_key(v) ==> exists|i: int| 0 <= i < n && vars[i] == v,
    decreases n,
{
    if n > 0 {
        lemma_bind_distinct(vars, vals, (n - 1) as nat);
        let before = bind(vars, vals, (n - 1) as nat);
        let v = vars[n - 1];
        if before.contains_key(v) {
            let i = choose|i: int| 0 <= i < n - 1 && vars[i] == v;
            assert(vars[i] == vars[n - 1]);
        }
        let after = bind(vars, vals, n);
        assert(after == before.insert(v, vals[n - 1]));
        assert forall|i: int| 0 <= i < n implies after.contains_key(#[trigger] vars[i]) && after[vars[i]] == vals[i] by {
            if i < n - 1 {
                assert(before.contains_key(vars[i]));
                assert(vars[i] != vars[n - 1]);
            }
        }
        assert forall|w: Variable| #[trigger] after.contains_key(w) implies exists|i: int| 0 <= i < n && vars[i] == w by {
            if w == v {
                assert(vars[n - 1] == w);
            } else {
                assert(before.contains_key(w));
                let i = choose|i: int| 0 <= i < n - 1 && vars[i] == w;
                assert(0 <= i < n && vars[i] == w);
            }
        }
    }
}

/// The assignment that gives each variable of `vars` the state at the same
/// position of `vals`, as far as both lists go.
pub fn to_assn(vars: &Vec<Variable>, vals: &Vec<usize>) -> (assn: Assignment)
    ensures
        assn.wf(),
        assn@ == bind(vars@, vals@, shared_len(vars@, vals@)),
{
    let mut assn = Assignment::new();
    let n = if vars.len() <= vals.len() {
        vars.len()
    } else {
        vals.len()
    };
    let mut i: usize = 0;
    while i < n
        invariant
            i <= n,
            n == shared_len(vars@, vals@),
            assn.wf(),
            assn@ == bind(vars@, vals@, i as nat),
        decreases n - i,
    {
        let _ = assn.set(&vars[i], vals[i]);
        i += 1;
    }
    assn
}

/// `itertools::structs::MultiProduct`, the iterator over a cartesian
/// product: a value that is carried through and never looked into.
#[verifier::external_type_specification]
#[verifier::external_body]
#[verifier::reject_recursive_types(I)]
pub struct ExMultiProduct<I>(MultiProduct<I>) where I: Iterator + Clone, I::Item: Clone;

/// The index vectors that a cartesian product of ranges has yet to yield, in
/// the order in which it yields them.
pub uninterp spec fn remaining(tuples: MultiProduct<Range<usize>>) -> Seq<Seq<usize>>;

/// `Itertools::multi_cartesian_product` on the ranges from 0 up to each
/// extent. The product yields every index vector of a table with those
/// extents once, the last index varying fastest: the vector yielded at
/// position `k` is `digits(dims, k)`. With no extent at all it yields the one
/// empty vector, and with an extent of 0 it yields nothing.
#[verifier::external_body]
fn index_tuples(dims: &Vec<usize>) -> (tuples: MultiProduct<Range<usize>>)
    ensures
        remaining(tuples) == all_digits(dims@),
{
    dims.iter().map(|d| 0..*d).multi_cartesian_product()
}

/// `Iterator::next` of the cartesian product: hands out the first of the
/// index vectors that remain, or nothing once none remains.
#[verifier::external_body]
fn next_tuple(tuples: &mut MultiProduct<Range<usize>>) -> (r: Option<Vec<usize>>)
    ensures
        match r {
            Some(t) => remaining(*old(tuples)).len() > 0 && t@ == remaining(*old(tuples)).first() && remaining(
                *final(tuples),
            ) == remaining(*old(tuples)).drop_first(),
            None => remaining(*old(tuples)).len() == 0 && remaining(*final(tuples)).len() == 0,
        },
{
    tuples.next()
}

/// All assignments to a scope, produced one at a time in row-major order:
/// the state of the last variable varies fastest.
pub struct AssignmentIter<'a> {
    scope: &'a Vec<Variable>,
    tuples: MultiProduct<Range<usize>>,
}

impl<'a> AssignmentIter<'a> {
    /// The variables that each assignment covers.
    pub closed spec fn scope(&self) -> Seq<Variable> {
        self.scope@
    }

    /// The index vectors of the assignments still to come, in order.
    pub closed spec fn pending(&self) -> Seq<Seq<usize>> {
        remaining(self.tuples)
    }

    /// The next assignment, or nothing when all have been produced.
    pub fn next(&mut self) -> (r: Option<Assignment>)
        ensures
            final(self).scope() == old(self).scope(),
            match r {
                Some(assn) => {
                    &&& old(self).pending().len() > 0
                    &&& assn.wf()
                    &&& assn@ == bind(
                        old(self).scope(),
                        old(self).pending().first(),
                        shared_len(old(self).scope(), old(self).pending().first()),
                    )
                    &&& final(self).pending() == old(self).pending().drop_first()
                },
                None => old(self).pending().len() == 0 && final(self).pending().len() == 0,
            },
    {
        match next_tuple(&mut self.tuples) {
            Some(vals) => Some(to_assn(self.scope, &vals)),
            None => None,
        }
    }
}

/// The extents of a table over `vars`, none of which is zero.
pub fn extents(vars: &Vec<Variable>) -> (shape: Vec<usize>)
    ensures
        shape@ == dims(vars@),
        inhabited(vars@),
{
    let mut shape: Vec<usize> = Vec::new();
    let mut i: usize = 0;
    while i < vars.len()
        invariant
            i <= vars@.len(),
            shape@ == dims(vars@.take(i as int)),
            forall|j: int| 0 <= j < i ==> (#[trigger] vars@[j]).spec_cardinality() >= 1,
        decreases vars@.len() - i,
    {
        shape.push(vars[i].cardinality());
        proof {
            assert(shape@ =~= dims(vars@.take(i + 1)));
        }
        i += 1;
    }
    proof {
        assert(vars@.take(i as int) == vars@);
    }
    shape
}

/// Every full assignment to `vars`, in the order of the table positions of a
/// factor over `vars`: the assignment at position `k` gives the variables the
/// states `digits(dims(vars), k)`.
pub fn all_assignments(vars: &Vec<Variable>) -> (it: AssignmentIter<'_>)
    ensures
        it.scope() == vars@,
        it.pending() == all_digits(dims(vars@)),
{
    let shape = extents(vars);
    AssignmentIter { scope: vars, tuples: index_tuples(&shape) }
}

} // verus!
