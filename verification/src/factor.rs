//! Factors: tables of entries over an ordered scope of variables, and the
//! algebra on them.

use vstd::prelude::*;
use crate::layout::{all_digits, filled, flatten, in_bounds, measure, offset, volume};
use crate::rows::{rows_normalized, rows_pass};
use crate::scope::{
    all_distinct, assignment_at, copy_scope, disjoint, free_of, holds, lemma_agree_within,
    lemma_appended, lemma_appended_len, lemma_assignment_at, lemma_covers_within,
    lemma_enumeration_step, lemma_position, lemma_unassigned, lemma_without, merge, remove_from, subset,
    unassigned, union, within, without,
};
use crate::util::JeromeError;
use crate::variable::{
    admissible, all_assignments, Assignment, covers, dims, extents, indices, inhabited, Variable,
};
use crate::weight::{
    Arithmetic, below, close, exact, inverse_cdf, nil, product, quotient, same, sampled, spec_below,
    spec_close, spec_nil, spec_product, spec_quotient, spec_same, spec_sum, spec_unit, sum, sum_all, total, unit,
};

verus! {

/// A dense table: its extents, one per axis, and its entries in row-major
/// order.
#[derive(Clone, Debug)]
pub struct Table<T> {
    shape: Vec<usize>,
    data: Vec<T>,
}

impl<T: Copy> Table<T> {
    /// The extent of each axis.
    pub closed spec fn spec_shape(&self) -> Seq<usize> {
        self.shape@
    }

    /// The entries, in row-major order.
    pub closed spec fn entries(&self) -> Seq<T> {
        self.data@
    }

    /// The validity of a table: it has one entry for each index vector.
    pub open spec fn wf(&self) -> bool {
        self.entries().len() == volume(self.spec_shape())
    }

    /// The table with the given extents and entries. The number of entries
    /// has to be the product of the extents.
    pub fn from_shape_vec(shape: Vec<usize>, data: Vec<T>) -> (r: Result<Self, JeromeError>)
        ensures
            data@.len() == volume(shape@) <==> r.is_ok(),
            match r {
                Ok(table) => table.wf() && table.spec_shape() == shape@ && table.entries() == data@,
                Err(e) => e is General,
            },
    {
        let count = data.len();
        let fits = match measure(&shape) {
            Some(n) => n == count,
            None => false,
        };
        if fits {
            Ok(Table { shape, data })
        } else {
            Err(JeromeError::General("The number of entries does not match the shape".to_owned()))
        }
    }

    /// The table with the given extents and every entry equal to `value`,
    /// if it is small enough to be held.
    pub fn from_elem(shape: Vec<usize>, value: T) -> (r: Option<Self>)
        ensures
            volume(shape@) <= usize::MAX <==> r is Some,
            r is Some ==> {
                &&& r->Some_0.wf()
                &&& r->Some_0.spec_shape() == shape@
                &&& r->Some_0.entries() == Seq::new(volume(shape@), |k: int| value)
            },
    {
        match measure(&shape) {
            Some(n) => Some(Table { shape, data: filled(n, value) }),
            None => None,
        }
    }

    /// The entries, in row-major order.
    pub fn data(&self) -> (data: &Vec<T>)
        ensures
            data@ == self.entries(),
    {
        &self.data
    }

    /// The extent of each axis.
    pub fn shape(&self) -> (shape: &Vec<usize>)
        ensures
            shape@ == self.spec_shape(),
    {
        &self.shape
    }

    /// The number of axes.
    pub fn ndim(&self) -> (n: usize)
        ensures
            n == self.spec_shape().len(),
    {
        self.shape.len()
    }

    /// The number of entries.
    pub fn len(&self) -> (n: usize)
        ensures
            n == self.entries().len(),
    {
        self.data.len()
    }

    /// The entry at a position of the flat table.
    pub fn entry(&self, k: usize) -> (e: T)
        requires
            k < self.entries().len(),
        ensures
            e == self.entries()[k as int],
    {
        self.data[k]
    }

    /// The entry with the given index vector, if the vector is in bounds.
    pub fn get(&self, idx: &Vec<usize>) -> (r: Option<T>)
        requires
            self.wf(),
        ensures
            r == if in_bounds(self.spec_shape(), idx@) {
                Some(self.entries()[flatten(self.spec_shape(), idx@) as int])
            } else {
                None
            },
    {
        let _ = self.data.len();
        match offset(&self.shape, idx) {
            Some(k) => Some(self.data[k]),
            None => None,
        }
    }
}

/// Whether `e` is below zero.
pub open spec fn negative<T, A: Arithmetic<T>>(w: &A, e: T) -> bool {
    spec_below::<T, A>(w, e, spec_nil::<T, A>(w))
}

/// Whether `e` is zero or below.
pub open spec fn non_positive<T, A: Arithmetic<T>>(w: &A, e: T) -> bool {
    spec_below::<T, A>(w, e, spec_nil::<T, A>(w)) || spec_same::<T, A>(w, e, spec_nil::<T, A>(w))
}

/// Whether every entry has a sign that a factor allows: above zero in a
/// conditional probability distribution, zero or above in any other factor.
pub open spec fn signs_allowed<T, A: Arithmetic<T>>(w: &A, entries: Seq<T>, cpd: bool) -> bool {
    forall|k: int| 0 <= k < entries.len() ==> !(if cpd {
        non_positive::<T, A>(w, #[trigger] entries[k])
    } else {
        negative::<T, A>(w, entries[k])
    })
}

/// Whether a scope has the shape of a table: the scope is not empty, holds
/// no variable without a state, and has one variable for each axis, whose
/// cardinality is the extent of the axis.
pub open spec fn shaped(scope: Seq<Variable>, shape: Seq<usize>) -> bool {
    &&& scope.len() > 0
    &&& inhabited(scope)
    &&& shape == dims(scope)
}

/// Whether a scope and a table fit together: the scope has the shape of the
/// table and holds no variable twice.
pub open spec fn fits(scope: Seq<Variable>, shape: Seq<usize>) -> bool {
    &&& shaped(scope, shape)
    &&& scope.no_duplicates()
}

/// Whether `r` is what `Factor::new` makes of a scope, a table and a mark.
pub open spec fn made_by_new<T: Copy, A: Arithmetic<T>>(
    w: &A,
    scope: Seq<Variable>,
    shape: Seq<usize>,
    entries: Seq<T>,
    cpd: bool,
    r: Result<Factor<T>, JeromeError>,
) -> bool {
    match r {
        Ok(f) => {
            &&& fits(scope, shape)
            &&& signs_allowed::<T, A>(w, entries, cpd)
            &&& cpd ==> spec_close::<T, A>(w, total::<T, A>(w, entries), spec_unit::<T, A>(w))
            &&& f.wf()
            &&& !f.spec_is_identity()
            &&& f.spec_scope() == scope
            &&& f.entries() == entries
            &&& f.spec_is_cpd() == cpd
        },
        Err(e) => if !shaped(scope, shape) {
            e is General
        } else if !signs_allowed::<T, A>(w, entries, cpd) {
            e is NonPositiveProbability
        } else if !scope.no_duplicates() {
            e is General
        } else {
            &&& e is General
            &&& cpd
            &&& !spec_close::<T, A>(w, total::<T, A>(w, entries), spec_unit::<T, A>(w))
        },
    }
}

/// A factor: the unit of the algebra, or a table over a scope.
#[derive(Clone, Debug)]
pub enum Factor<T> {
    /// The factor with no scope, which leaves a product or a quotient
    /// unchanged.
    Identity,
    /// A table over a scope of variables.
    TableFactor {
        /// The variables of the factor, one for each axis of the table.
        scope: Vec<Variable>,
        /// The entries of the factor.
        table: Table<T>,
        /// Whether the factor is a conditional probability distribution.
        cpd: bool,
    },
}

impl<T: Copy> Factor<T> {
    /// Whether the factor is the unit.
    pub open spec fn spec_is_identity(&self) -> bool {
        self is Identity
    }

    /// The scope of the factor; the unit has none.
    pub open spec fn spec_scope(&self) -> Seq<Variable> {
        match self {
            Factor::Identity => Seq::empty(),
            Factor::TableFactor { scope, .. } => scope@,
        }
    }

    /// The entries of the factor in row-major order; the unit has none.
    pub open spec fn entries(&self) -> Seq<T> {
        match self {
            Factor::Identity => Seq::empty(),
            Factor::TableFactor { table, .. } => table.entries(),
        }
    }

    /// Whether the factor is marked as a conditional probability
    /// distribution. The unit counts as one.
    pub open spec fn spec_is_cpd(&self) -> bool {
        match self {
            Factor::Identity => true,
            Factor::TableFactor { cpd, .. } => *cpd,
        }
    }

    /// The validity of a factor: its scope and its table fit together.
    pub open spec fn wf(&self) -> bool {
        match self {
            Factor::Identity => true,
            Factor::TableFactor { scope, table, .. } => table.wf() && fits(scope@, table.spec_shape()),
        }
    }

    /// Whether two factors have the same scope, entries and mark.
    pub open spec fn matches(&self, other: &Self) -> bool {
        &&& self.spec_is_identity() == other.spec_is_identity()
        &&& self.spec_scope() == other.spec_scope()
        &&& self.entries() == other.entries()
        &&& self.spec_is_cpd() == other.spec_is_cpd()
    }

    /// The entry of the factor under an assignment that covers its scope.
    pub open spec fn at(&self, a: Map<Variable, usize>) -> T {
        self.entries()[flatten(dims(self.spec_scope()), indices(a, self.spec_scope())) as int]
    }

    /// The unit factor.
    pub fn identity() -> (f: Self)
        ensures
            f.spec_is_identity(),
            f.wf(),
    {
        Factor::Identity
    }

    /// A factor over `scope` with the entries of `table`. The scope and the
    /// table have to fit together, the entries have to have an allowed sign,
    /// and the entries of a conditional probability distribution have to sum
    /// to one within the tolerance of `w`.
    pub fn new<A: Arithmetic<T>>(scope: Vec<Variable>, table: Table<T>, cpd: bool, w: &A) -> (r: Result<
        Self,
        JeromeError,
    >)
        requires
            table.wf(),
            exact::<T, A>(w),
        ensures
            made_by_new::<T, A>(w, scope@, table.spec_shape(), table.entries(), cpd, r),
    {
        let shape = extents(&scope);
        if scope.len() == 0 {
            return Err(JeromeError::General("Invalid arguments. Scope may not be empty".to_owned()));
        }
        if scope.len() != table.ndim() {
            return Err(
                JeromeError::General(
                    "Invalid arguments. Cardinality of scope must match number of table dimensions".to_owned(),
                ),
            );
        }
        if !same_shape(&shape, table.shape()) {
            return Err(JeromeError::General("Invalid arguments. Dimensions do not match".to_owned()));
        }
        if !signs_pass(&table, cpd, w) {
            return Err(JeromeError::NonPositiveProbability);
        }
        if !all_distinct(&scope) {
            return Err(JeromeError::General("Invalid arguments. A variable occurs twice in the scope".to_owned()));
        }
        if cpd {
            let mass = sum_entries(&table, w);
            if !close(w, mass, unit(w)) {
                return Err(
                    JeromeError::General(
                        "Invalid arguments. Requested a CPD, but the values do not represent a CPD".to_owned(),
                    ),
                );
            }
        }
        Ok(Factor::TableFactor { scope, table, cpd })
    }

    /// Whether the factor is the unit.
    #[verifier::when_used_as_spec(spec_is_identity)]
    pub fn is_identity(&self) -> (b: bool)
        ensures
            b == self.spec_is_identity(),
    {
        match self {
            Factor::Identity => true,
            _ => false,
        }
    }

    /// Whether the factor is marked as a conditional probability
    /// distribution.
    #[verifier::when_used_as_spec(spec_is_cpd)]
    pub fn is_cpd(&self) -> (b: bool)
        ensures
            b == self.spec_is_cpd(),
    {
        match self {
            Factor::Identity => true,
            Factor::TableFactor { cpd, .. } => *cpd,
        }
    }

    /// A copy of the scope of the factor.
    pub fn scope(&self) -> (scope: Vec<Variable>)
        ensures
            scope@ == self.spec_scope(),
    {
        match self {
            Factor::Identity => Vec::new(),
            Factor::TableFactor { scope, .. } => copy_scope(scope),
        }
    }

    /// The number of entries of the factor; the unit has none.
    pub fn size(&self) -> (n: usize)
        ensures
            n == self.entries().len(),
    {
        match self {
            Factor::Identity => 0,
            Factor::TableFactor { table, .. } => table.len(),
        }
    }

    /// Whether the scope of the factor holds `v`.
    pub fn mentions(&self, v: &Variable) -> (b: bool)
        ensures
            b == self.spec_scope().contains(*v),
    {
        match self {
            Factor::Identity => false,
            Factor::TableFactor { scope, .. } => holds(scope, v),
        }
    }

    /// The entry under `assignment`, which has to give a state to every
    /// variable of the scope and may give states to others. The unit has no
    /// entry.
    pub fn value(&self, assignment: &Assignment) -> (r: Result<T, JeromeError>)
        requires
            self.wf(),
            assignment.wf(),
        ensures
            match r {
                Ok(e) => !self.spec_is_identity() && covers(assignment@, self.spec_scope()) && e == self.at(assignment@),
                Err(e) => if self.spec_is_identity() {
                    e is General
                } else {
                    e is IncompleteAssignment && !covers(assignment@, self.spec_scope())
                },
            },
    {
        match self {
            Factor::Identity => Err(JeromeError::General("The identity factor has no value".to_owned())),
            Factor::TableFactor { scope, table, .. } => {
                let mut idx: Vec<usize> = Vec::new();
                let mut i: usize = 0;
                while i < scope.len()
                    invariant
                        assignment.wf(),
                        self.spec_scope() == scope@,
                        !self.spec_is_identity(),
                        i <= scope@.len(),
                        idx@.len() == i,
                        forall|j: int| 0 <= j < i ==> assignment@.contains_key(#[trigger] scope@[j]),
                        forall|j: int| 0 <= j < i ==> idx@[j] == assignment@[scope@[j]] && idx@[j] < scope@[j].spec_cardinality(),
                    decreases scope@.len() - i,
                {
                    match assignment.get(&scope[i]) {
                        Some(state) => {
                            idx.push(*state);
                        },
                        None => {
                            assert(!assignment@.contains_key(scope@[i as int]));
                            return Err(JeromeError::IncompleteAssignment);
                        },
                    }
                    i += 1;
                }
                proof {
                    assert(idx@ =~= indices(assignment@, scope@));
                    assert(in_bounds(dims(scope@), idx@));
                }
                let _ = table.len();
                let k = offset(table.shape(), &idx).unwrap();
                Ok(table.entry(k))
            },
        }
    }
}

/// Whether two shapes of the same length are equal.
fn same_shape(a: &Vec<usize>, b: &Vec<usize>) -> (r: bool)
    requires
        a@.len() == b@.len(),
    ensures
        r == (a@ == b@),
{
    let mut i: usize = 0;
    while i < a.len()
        invariant
            a@.len() == b@.len(),
            i <= a@.len(),
            forall|j: int| 0 <= j < i ==> a@[j] == b@[j],
        decreases a@.len() - i,
    {
        if a[i] != b[i] {
            return false;
        }
        i += 1;
    }
    assert(a@ =~= b@);
    true
}

/// Whether every entry of `table` has an allowed sign.
fn signs_pass<T: Copy, A: Arithmetic<T>>(table: &Table<T>, cpd: bool, w: &A) -> (b: bool)
    requires
        exact::<T, A>(w),
    ensures
        b == signs_allowed::<T, A>(w, table.entries(), cpd),
{
    let zero = nil(w);
    let mut k: usize = 0;
    while k < table.len()
        invariant
            exact::<T, A>(w),
            zero == spec_nil::<T, A>(w),
            k <= table.entries().len(),
            signs_allowed::<T, A>(w, table.entries().take(k as int), cpd),
        decreases table.entries().len() - k,
    {
        let e = table.entry(k);
        let refused = if cpd {
            below(w, e, zero) || same(w, e, zero)
        } else {
            below(w, e, zero)
        };
        if refused {
            return false;
        }
        proof {
            let next = table.entries().take(k + 1);
            assert forall|j: int| 0 <= j < next.len() implies !(if cpd {
                non_positive::<T, A>(w, #[trigger] next[j])
            } else {
                negative::<T, A>(w, next[j])
            }) by {
                if j < k {
                    assert(next[j] == table.entries().take(k as int)[j]);
                }
            }
        }
        k += 1;
    }
    proof {
        assert(table.entries().take(k as int) == table.entries());
    }
    true
}

/// The sum of the entries of `table`, from the first to the last.
fn sum_entries<T: Copy, A: Arithmetic<T>>(table: &Table<T>, w: &A) -> (mass: T)
    requires
        exact::<T, A>(w),
    ensures
        mass == total::<T, A>(w, table.entries()),
{
    let mut mass = nil(w);
    let mut k: usize = 0;
    while k < table.len()
        invariant
            exact::<T, A>(w),
            k <= table.entries().len(),
            mass == total::<T, A>(w, table.entries().take(k as int)),
        decreases table.entries().len() - k,
    {
        proof {
            assert(table.entries().take(k + 1).drop_last() == table.entries().take(k as int));
        }
        mass = sum(w, mass, table.entry(k));
        k += 1;
    }
    proof {
        assert(table.entries().take(k as int) == table.entries());
    }
    mass
}

impl<T: Copy> Table<T> {
    /// Puts `value` at the entry with the given index vector, if the vector
    /// is in bounds.
    pub fn set(&mut self, idx: &Vec<usize>, value: T) -> (done: bool)
        requires
            old(self).wf(),
        ensures
            final(self).wf(),
            final(self).spec_shape() == old(self).spec_shape(),
            done == in_bounds(old(self).spec_shape(), idx@),
            final(self).entries() == if done {
                old(self).entries().update(flatten(old(self).spec_shape(), idx@) as int, value)
            } else {
                old(self).entries()
            },
    {
        let _ = self.data.len();
        match offset(&self.shape, idx) {
            Some(k) => {
                self.data.set(k, value);
                true
            },
            None => false,
        }
    }

    /// A copy of the table.
    pub fn copy(&self) -> (r: Self)
        ensures
            r.spec_shape() == self.spec_shape(),
            r.entries() == self.entries(),
    {
        let mut shape: Vec<usize> = Vec::new();
        let mut i: usize = 0;
        while i < self.shape.len()
            invariant
                i <= self.shape@.len(),
                shape@ == self.shape@.take(i as int),
            decreases self.shape@.len() - i,
        {
            shape.push(self.shape[i]);
            proof {
                assert(shape@ =~= self.shape@.take(i + 1));
            }
            i += 1;
        }
        let mut data: Vec<T> = Vec::new();
        let mut k: usize = 0;
        while k < self.data.len()
            invariant
                k <= self.data@.len(),
                data@ == self.data@.take(k as int),
            decreases self.data@.len() - k,
        {
            data.push(self.data[k]);
            proof {
                assert(data@ =~= self.data@.take(k + 1));
            }
            k += 1;
        }
        proof {
            assert(self.shape@.take(i as int) == self.shape@);
            assert(self.data@.take(k as int) == self.data@);
        }
        Table { shape, data }
    }
}

/// Whether every one of `factors` is valid.
pub open spec fn valid<T: Copy>(factors: Seq<Factor<T>>) -> bool {
    forall|i: int| 0 <= i < factors.len() ==> (#[trigger] factors[i]).wf()
}

/// Whether `f` is the product of `g` and `h`, two factors with tables: its
/// scope is the ordered union of theirs, it is not marked as a conditional
/// probability distribution, and its entry under an assignment is the
/// product of their entries under that assignment.
pub open spec fn is_product<T: Copy, A: Arithmetic<T>>(w: &A, f: &Factor<T>, g: &Factor<T>, h: &Factor<T>) -> bool {
    &&& f.wf()
    &&& !f.spec_is_identity()
    &&& !f.spec_is_cpd()
    &&& f.spec_scope() == union(g.spec_scope(), h.spec_scope())
    &&& forall|a: Map<Variable, usize>|
        #![trigger f.at(a)]
        #![trigger covers(a, f.spec_scope())]
        admissible(a) && covers(a, f.spec_scope()) ==> f.at(a) == spec_product::<T, A>(w, g.at(a), h.at(a))
}

impl<T: Copy> Factor<T> {
    /// A copy of the factor.
    pub fn copy(&self) -> (f: Self)
        ensures
            f.matches(self),
            self.wf() ==> f.wf(),
    {
        match self {
            Factor::Identity => Factor::Identity,
            Factor::TableFactor { scope, table, cpd } => Factor::TableFactor {
                scope: copy_scope(scope),
                table: table.copy(),
                cpd: *cpd,
            },
        }
    }

    /// The entry of a valid factor depends on the states of the variables of
    /// its scope alone: two assignments that agree on the scope have the
    /// same entry.
    pub proof fn lemma_scope_only(&self, a: Map<Variable, usize>, b: Map<Variable, usize>)
        requires
            forall|i: int| 0 <= i < self.spec_scope().len() ==> a[self.spec_scope()[i]] == b[self.spec_scope()[i]],
        ensures
            self.at(a) == self.at(b),
    {
        assert(indices(a, self.spec_scope()) =~= indices(b, self.spec_scope()));
    }

    /// The product of two factors. The unit leaves the other factor
    /// unchanged. Two factors with tables have to share a variable.
    pub fn product<A: Arithmetic<T>>(&self, other: &Self, w: &A) -> (r: Result<Self, JeromeError>)
        requires
            self.wf(),
            other.wf(),
            exact::<T, A>(w),
        ensures
            match r {
                Ok(f) => if self.spec_is_identity() {
                    f.matches(other) && f.wf()
                } else if other.spec_is_identity() {
                    f.matches(self) && f.wf()
                } else {
                    !disjoint(self.spec_scope(), other.spec_scope()) && is_product::<T, A>(w, &f, self, other)
                },
                Err(e) => {
                    &&& e is InvalidScope
                    &&& !self.spec_is_identity()
                    &&& !other.spec_is_identity()
                    &&& disjoint(self.spec_scope(), other.spec_scope())
                },
            },
    {
        if self.is_identity() {
            return Ok(other.copy());
        }
        if other.is_identity() {
            return Ok(self.copy());
        }
        let mine = self.scope();
        let theirs = other.scope();
        let scope = merge(&mine, &theirs);
        proof {
            lemma_appended(mine@, theirs@, theirs@.len());
            lemma_appended_len(mine@, theirs@, theirs@.len());
            assert(theirs@.take(theirs@.len() as int) == theirs@);
        }
        if scope.len() - mine.len() == theirs.len() {
            return Err(JeromeError::InvalidScope);
        }
        proof {
            assert(within(mine@, scope@)) by {
                assert forall|i: int| 0 <= i < mine@.len() implies scope@.contains(#[trigger] mine@[i]) by {
                    assert(mine@.contains(mine@[i]));
                }
            }
            assert(within(theirs@, scope@)) by {
                assert forall|i: int| 0 <= i < theirs@.len() implies scope@.contains(#[trigger] theirs@[i]) by {
                    assert(theirs@.contains(theirs@[i]));
                }
            }
        }
        let shape = extents(&scope);
        let mut data: Vec<T> = Vec::new();
        let mut it = all_assignments(&scope);
        loop
            invariant
                self.wf(),
                other.wf(),
                exact::<T, A>(w),
                !self.spec_is_identity(),
                !other.spec_is_identity(),
                mine@ == self.spec_scope(),
                theirs@ == other.spec_scope(),
                scope@.no_duplicates(),
                within(mine@, scope@),
                within(theirs@, scope@),
                it.scope() == scope@,
                data@.len() <= volume(dims(scope@)),
                it.pending() == all_digits(dims(scope@)).skip(data@.len() as int),
                forall|k: int|
                    0 <= k < data@.len() ==> #[trigger] data@[k] == spec_product::<T, A>(
                        w,
                        self.at(assignment_at(scope@, k as nat)),
                        other.at(assignment_at(scope@, k as nat)),
                    ),
            ensures
                data@.len() == volume(dims(scope@)),
            decreases volume(dims(scope@)) - data@.len(),
        {
            let next = it.next();
            match next {
                None => {
                    break ;
                },
                Some(assn) => {
                    proof {
                        lemma_enumeration_step(scope@, data@.len() as nat);
                        lemma_assignment_at(scope@, data@.len() as nat);
                        lemma_covers_within(mine@, scope@, assn@);
                        lemma_covers_within(theirs@, scope@, assn@);
                    }
                    let left = self.value(&assn).unwrap();
                    let right = other.value(&assn).unwrap();
                    data.push(product(w, left, right));
                },
            }
        }
        let f = Factor::TableFactor { scope, table: Table { shape, data }, cpd: false };
        proof {
            assert forall|a: Map<Variable, usize>| admissible(a) && #[trigger] covers(a, f.spec_scope()) implies f.at(a)
                == spec_product::<T, A>(w, self.at(a), other.at(a)) by {
                let k = flatten(dims(f.spec_scope()), indices(a, f.spec_scope()));
                let b = assignment_at(f.spec_scope(), k);
                lemma_position(f.spec_scope(), a);
                lemma_agree_within(self.spec_scope(), f.spec_scope(), b, a);
                lemma_agree_within(other.spec_scope(), f.spec_scope(), b, a);
                assert(f.at(a) == f.entries()[k as int]);
            }
        }
        Ok(f)
    }
}

/// The quotient of two entries where it is defined: zero over zero is zero.
pub open spec fn ratio<T, A: Arithmetic<T>>(w: &A, x: T, y: T) -> T {
    if spec_same::<T, A>(w, y, spec_nil::<T, A>(w)) {
        spec_nil::<T, A>(w)
    } else {
        spec_quotient::<T, A>(w, x, y)
    }
}

/// Whether the quotient of two entries is undefined: the divisor is zero and
/// the dividend is not.
pub open spec fn undefined<T, A: Arithmetic<T>>(w: &A, x: T, y: T) -> bool {
    spec_same::<T, A>(w, y, spec_nil::<T, A>(w)) && !spec_same::<T, A>(w, x, spec_nil::<T, A>(w))
}

/// Whether `e` is the quotient of the entries of `g` and `h` under the
/// assignment at position `k` of the table order of `scope`.
pub open spec fn quotient_at<T: Copy, A: Arithmetic<T>>(
    w: &A,
    g: &Factor<T>,
    h: &Factor<T>,
    scope: Seq<Variable>,
    k: int,
    e: T,
) -> bool {
    let a = assignment_at(scope, k as nat);
    !undefined::<T, A>(w, g.at(a), h.at(a)) && e == ratio::<T, A>(w, g.at(a), h.at(a))
}

/// Whether `f` is the quotient of `g` by `h`, two factors with tables: it
/// has the scope of `g`, is not marked as a conditional probability
/// distribution, and its entry under an assignment is the quotient of their
/// entries under that assignment, which is defined.
pub open spec fn is_quotient<T: Copy, A: Arithmetic<T>>(w: &A, f: &Factor<T>, g: &Factor<T>, h: &Factor<T>) -> bool {
    &&& f.wf()
    &&& !f.spec_is_identity()
    &&& !f.spec_is_cpd()
    &&& f.spec_scope() == g.spec_scope()
    &&& forall|a: Map<Variable, usize>|
        #![trigger f.at(a)]
        #![trigger covers(a, f.spec_scope())]
        admissible(a) && covers(a, f.spec_scope()) ==> !undefined::<T, A>(w, g.at(a), h.at(a)) && f.at(a) == ratio::<
            T,
            A,
        >(w, g.at(a), h.at(a))
}

/// Whether `f` is `g` with every entry divided by the sum of all entries.
pub open spec fn is_normalized<T: Copy, A: Arithmetic<T>>(w: &A, f: &Factor<T>, g: &Factor<T>) -> bool {
    &&& f.wf()
    &&& !f.spec_is_identity()
    &&& f.spec_is_cpd() == g.spec_is_cpd()
    &&& f.spec_scope() == g.spec_scope()
    &&& f.entries().len() == g.entries().len()
    &&& forall|k: int|
        0 <= k < g.entries().len() ==> #[trigger] f.entries()[k] == spec_quotient::<T, A>(
            w,
            g.entries()[k],
            total::<T, A>(w, g.entries()),
        )
}

impl<T: Copy> Factor<T> {
    /// The quotient of the factor by `other`, whose scope has to lie within
    /// the scope of the factor. The unit as divisor leaves the factor
    /// unchanged, and only the unit divides the unit. Zero divided by zero
    /// is zero; any other entry divided by zero is an error.
    pub fn divide<A: Arithmetic<T>>(&self, other: &Self, w: &A) -> (r: Result<Self, JeromeError>)
        requires
            self.wf(),
            other.wf(),
            exact::<T, A>(w),
        ensures
            match r {
                Ok(f) => if other.spec_is_identity() {
                    f.matches(self) && f.wf()
                } else {
                    &&& !self.spec_is_identity()
                    &&& within(other.spec_scope(), self.spec_scope())
                    &&& is_quotient::<T, A>(w, &f, self, other)
                },
                Err(e) => if other.spec_is_identity() {
                    false
                } else if self.spec_is_identity() || !within(other.spec_scope(), self.spec_scope()) {
                    e is InvalidScope
                } else {
                    &&& e is DivideByZero
                    &&& exists|a: Map<Variable, usize>|
                        admissible(a) && covers(a, self.spec_scope()) && undefined::<T, A>(w, self.at(a), other.at(a))
                },
            },
    {
        if self.is_identity() {
            if other.is_identity() {
                return Ok(Factor::Identity);
            }
            return Err(JeromeError::InvalidScope);
        }
        if other.is_identity() {
            return Ok(self.copy());
        }
        let scope = self.scope();
        let theirs = other.scope();
        if !subset(&theirs, &scope) {
            return Err(JeromeError::InvalidScope);
        }
        let zero = nil(w);
        let shape = extents(&scope);
        let mut data: Vec<T> = Vec::new();
        let mut it = all_assignments(&scope);
        loop
            invariant
                self.wf(),
                other.wf(),
                exact::<T, A>(w),
                zero == spec_nil::<T, A>(w),
                !self.spec_is_identity(),
                !other.spec_is_identity(),
                scope@ == self.spec_scope(),
                theirs@ == other.spec_scope(),
                within(theirs@, scope@),
                it.scope() == scope@,
                data@.len() <= volume(dims(scope@)),
                it.pending() == all_digits(dims(scope@)).skip(data@.len() as int),
                forall|k: int| 0 <= k < data@.len() ==> quotient_at::<T, A>(w, self, other, scope@, k, #[trigger] data@[k]),
            ensures
                data@.len() == volume(dims(scope@)),
            decreases volume(dims(scope@)) - data@.len(),
        {
            let next = it.next();
            match next {
                None => {
                    break ;
                },
                Some(assn) => {
                    proof {
                        lemma_enumeration_step(scope@, data@.len() as nat);
                        lemma_assignment_at(scope@, data@.len() as nat);
                        lemma_covers_within(theirs@, scope@, assn@);
                    }
                    let left = self.value(&assn).unwrap();
                    let right = other.value(&assn).unwrap();
                    if same(w, right, zero) {
                        if same(w, left, zero) {
                            data.push(zero);
                        } else {
                            proof {
                                let a = assignment_at(scope@, data@.len() as nat);
                                assert(admissible(a) && covers(a, self.spec_scope()) && undefined::<T, A>(
                                    w,
                                    self.at(a),
                                    other.at(a),
                                ));
                            }
                            return Err(JeromeError::DivideByZero);
                        }
                    } else {
                        data.push(quotient(w, left, right));
                    }
                },
            }
        }
        let f = Factor::TableFactor { scope, table: Table { shape, data }, cpd: false };
        proof {
            assert forall|a: Map<Variable, usize>| admissible(a) && #[trigger] covers(a, f.spec_scope()) implies !undefined::<
                T,
                A,
            >(w, self.at(a), other.at(a)) && f.at(a) == ratio::<T, A>(w, self.at(a), other.at(a)) by {
                let k = flatten(dims(f.spec_scope()), indices(a, f.spec_scope()));
                let b = assignment_at(f.spec_scope(), k);
                lemma_position(f.spec_scope(), a);
                lemma_agree_within(other.spec_scope(), f.spec_scope(), b, a);
                assert(f.at(a) == f.entries()[k as int]);
                assert(self.at(a) == self.at(b));
                assert(quotient_at::<T, A>(w, self, other, scope@, k as int, data@[k as int]));
            }
        }
        Ok(f)
    }

    /// The factor with every entry divided by the sum of all entries. A
    /// table whose entries sum to zero cannot be normalized.
    pub fn normalize<A: Arithmetic<T>>(&self, w: &A) -> (r: Result<Self, JeromeError>)
        requires
            self.wf(),
            exact::<T, A>(w),
        ensures
            match r {
                Ok(f) => if self.spec_is_identity() {
                    f.spec_is_identity()
                } else {
                    &&& !spec_same::<T, A>(w, total::<T, A>(w, self.entries()), spec_nil::<T, A>(w))
                    &&& is_normalized::<T, A>(w, &f, self)
                },
                Err(e) => {
                    &&& e is DivideByZero
                    &&& !self.spec_is_identity()
                    &&& spec_same::<T, A>(w, total::<T, A>(w, self.entries()), spec_nil::<T, A>(w))
                },
            },
    {
        match self {
            Factor::Identity => Ok(Factor::Identity),
            Factor::TableFactor { scope, table, cpd } => {
                let mass = sum_entries(table, w);
                if same(w, mass, nil(w)) {
                    return Err(JeromeError::DivideByZero);
                }
                let mut data: Vec<T> = Vec::new();
                let mut k: usize = 0;
                while k < table.len()
                    invariant
                        exact::<T, A>(w),
                        k <= table.entries().len(),
                        data@.len() == k,
                        forall|j: int|
                            0 <= j < k ==> #[trigger] data@[j] == spec_quotient::<T, A>(w, table.entries()[j], mass),
                    decreases table.entries().len() - k,
                {
                    data.push(quotient(w, table.entry(k), mass));
                    k += 1;
                }
                Ok(Factor::TableFactor { scope: copy_scope(scope), table: Table { shape: extents(scope), data }, cpd: *cpd })
            },
        }
    }
}

/// Whether `f` is `g` reduced by the evidence `e`: its scope holds the
/// variables of `g` that the evidence leaves free, it is not marked as a
/// conditional probability distribution, and its entry under an assignment
/// is the entry of `g` under that assignment with the evidence laid over it.
pub open spec fn is_reduction<T: Copy>(f: &Factor<T>, g: &Factor<T>, e: Map<Variable, usize>) -> bool {
    &&& f.wf()
    &&& !f.spec_is_identity()
    &&& !f.spec_is_cpd()
    &&& f.spec_scope() == unassigned(g.spec_scope(), e)
    &&& forall|a: Map<Variable, usize>|
        #![trigger f.at(a)]
        #![trigger covers(a, f.spec_scope())]
        admissible(a) && covers(a, f.spec_scope()) ==> f.at(a) == g.at(a.union_prefer_right(e))
}

/// The sum over the first `n` states of `v` of the entries of `g` under `a`
/// with `v` in that state, taken in the order of the states, from zero.
pub open spec fn axis_total<T: Copy, A: Arithmetic<T>>(
    w: &A,
    g: &Factor<T>,
    a: Map<Variable, usize>,
    v: Variable,
    n: nat,
) -> T
    decreases n,
{
    if n == 0 {
        spec_nil::<T, A>(w)
    } else {
        spec_sum::<T, A>(w, axis_total::<T, A>(w, g, a, v, (n - 1) as nat), g.at(a.insert(v, (n - 1) as usize)))
    }
}

/// Whether `f` is `g` summed over `v`: its scope is that of `g` without
/// `v`, it is marked as `g` is, and its entry under an assignment is the sum
/// of the entries of `g` under that assignment over all states of `v`.
pub open spec fn is_marginal<T: Copy, A: Arithmetic<T>>(w: &A, f: &Factor<T>, g: &Factor<T>, v: Variable) -> bool {
    &&& f.wf()
    &&& !f.spec_is_identity()
    &&& f.spec_is_cpd() == g.spec_is_cpd()
    &&& f.spec_scope() == without(g.spec_scope(), v)
    &&& forall|a: Map<Variable, usize>|
        #![trigger f.at(a)]
        #![trigger covers(a, f.spec_scope())]
        admissible(a) && covers(a, f.spec_scope()) ==> f.at(a) == axis_total::<T, A>(
            w,
            g,
            a,
            v,
            v.spec_cardinality() as nat,
        )
}

/// Summing a factor over a variable of its scope takes exactly that
/// variable out: the scope of the sum is one variable shorter, holds every
/// other variable of the scope, and does not hold the variable.
pub proof fn lemma_marginal_scope<T: Copy, A: Arithmetic<T>>(w: &A, f: &Factor<T>, g: &Factor<T>, v: Variable)
    requires
        g.wf(),
        g.spec_scope().contains(v),
        is_marginal::<T, A>(w, f, g, v),
    ensures
        f.spec_scope().len() + 1 == g.spec_scope().len(),
        !f.spec_scope().contains(v),
        forall|u: Variable| u != v ==> (#[trigger] f.spec_scope().contains(u) <==> g.spec_scope().contains(u)),
{
    lemma_without(g.spec_scope(), v);
}

/// The sum over an axis depends on the states of the other variables of the
/// scope alone.
pub proof fn lemma_axis_total_agrees<T: Copy, A: Arithmetic<T>>(
    w: &A,
    g: &Factor<T>,
    a: Map<Variable, usize>,
    b: Map<Variable, usize>,
    v: Variable,
    n: nat,
)
    requires
        forall|i: int| 0 <= i < g.spec_scope().len() && g.spec_scope()[i] != v ==> a[g.spec_scope()[i]] == b[g.spec_scope()[i]],
    ensures
        axis_total::<T, A>(w, g, a, v, n) == axis_total::<T, A>(w, g, b, v, n),
    decreases n,
{
    if n > 0 {
        lemma_axis_total_agrees::<T, A>(w, g, a, b, v, (n - 1) as nat);
        g.lemma_scope_only(a.insert(v, (n - 1) as usize), b.insert(v, (n - 1) as usize));
    }
}

/// Gives every variable of `scope` that has a state in `evidence`, and none
/// in `assn`, that state in `assn`.
fn impose(assn: &mut Assignment, scope: &Vec<Variable>, evidence: &Assignment)
    requires
        old(assn).wf(),
        evidence.wf(),
    ensures
        final(assn).wf(),
        forall|v: Variable|
            #[trigger] final(assn)@.contains_key(v) <==> old(assn)@.contains_key(v) || (scope@.contains(v)
                && evidence@.contains_key(v)),
        forall|v: Variable| old(assn)@.contains_key(v) ==> #[trigger] final(assn)@[v] == old(assn)@[v],
        forall|v: Variable|
            !old(assn)@.contains_key(v) && scope@.contains(v) && evidence@.contains_key(v) ==> #[trigger] final(assn)@[v]
                == evidence@[v],
{
    let mut i: usize = 0;
    while i < scope.len()
        invariant
            assn.wf(),
            evidence.wf(),
            i <= scope@.len(),
            forall|v: Variable|
                #[trigger] assn@.contains_key(v) <==> old(assn)@.contains_key(v) || (scope@.take(i as int).contains(v)
                    && evidence@.contains_key(v)),
            forall|v: Variable| old(assn)@.contains_key(v) ==> #[trigger] assn@[v] == old(assn)@[v],
            forall|v: Variable|
                !old(assn)@.contains_key(v) && scope@.take(i as int).contains(v) && evidence@.contains_key(v)
                    ==> #[trigger] assn@[v] == evidence@[v],
        decreases scope@.len() - i,
    {
        let ghost seen = scope@.take(i as int);
        let ghost next = scope@.take(i + 1);
        proof {
            assert(next.drop_last() == seen);
            assert(next.last() == scope@[i as int]);
            assert forall|v: Variable| next.contains(v) <==> seen.contains(v) || v == scope@[i as int] by {
                if seen.contains(v) {
                    let j = choose|j: int| 0 <= j < seen.len() && seen[j] == v;
                    assert(next[j] == v);
                }
                if v == scope@[i as int] {
                    assert(next[i as int] == v);
                }
                if next.contains(v) {
                    let j = choose|j: int| 0 <= j < next.len() && next[j] == v;
                    if j < i {
                        assert(seen[j] == v);
                    }
                }
            }
        }
        match evidence.get(&scope[i]) {
            Some(state) => {
                let _ = assn.set(&scope[i], *state);
            },
            None => {},
        }
        i += 1;
    }
    proof {
        assert(scope@.take(i as int) == scope@);
    }
}

impl<T: Copy> Factor<T> {
    /// The factor with every variable that has a state in `assignment` fixed
    /// to that state and taken out of the scope. A factor whose scope the
    /// assignment covers reduces to the unit, and a factor whose scope the
    /// assignment does not touch is unchanged.
    pub fn reduce(&self, assignment: &Assignment) -> (f: Self)
        requires
            self.wf(),
            assignment.wf(),
        ensures
            f.wf(),
            if self.spec_is_identity() || covers(assignment@, self.spec_scope()) {
                f.spec_is_identity()
            } else if unassigned(self.spec_scope(), assignment@) == self.spec_scope() {
                f.matches(self)
            } else {
                is_reduction(&f, self, assignment@)
            },
    {
        match self {
            Factor::Identity => Factor::Identity,
            Factor::TableFactor { scope, table, .. } => {
                let rest = free_of(scope, assignment);
                proof {
                    lemma_unassigned(scope@, assignment@);
                }
                if rest.len() == 0 {
                    return Factor::Identity;
                }
                if rest.len() == scope.len() {
                    return self.copy();
                }
                let shape = extents(&rest);
                let mut data: Vec<T> = Vec::new();
                let mut it = all_assignments(&rest);
                loop
                    invariant
                        self.wf(),
                        assignment.wf(),
                        scope@ == self.spec_scope(),
                        !self.spec_is_identity(),
                        rest@ == unassigned(scope@, assignment@),
                        rest@.no_duplicates(),
                        forall|v: Variable| #[trigger] rest@.contains(v) <==> scope@.contains(v) && !assignment@.contains_key(v),
                        it.scope() == rest@,
                        data@.len() <= volume(dims(rest@)),
                        it.pending() == all_digits(dims(rest@)).skip(data@.len() as int),
                        forall|k: int|
                            0 <= k < data@.len() ==> #[trigger] data@[k] == self.at(
                                assignment_at(rest@, k as nat).union_prefer_right(assignment@),
                            ),
                    ensures
                        data@.len() == volume(dims(rest@)),
                    decreases volume(dims(rest@)) - data@.len(),
                {
                    let next = it.next();
                    match next {
                        None => {
                            break ;
                        },
                        Some(assn) => {
                            let mut point = assn;
                            let ghost free = point@;
                            proof {
                                lemma_enumeration_step(rest@, data@.len() as nat);
                                lemma_assignment_at(rest@, data@.len() as nat);
                            }
                            impose(&mut point, scope, assignment);
                            proof {
                                assert forall|i: int| 0 <= i < scope@.len() implies point@.contains_key(#[trigger] scope@[i]) by {
                                    let v = scope@[i];
                                    assert(scope@.contains(v));
                                    if !assignment@.contains_key(v) {
                                        assert(rest@.contains(v));
                                        let j = choose|j: int| 0 <= j < rest@.len() && rest@[j] == v;
                                        assert(free.contains_key(rest@[j]));
                                    }
                                }
                                let joined = free.union_prefer_right(assignment@);
                                assert forall|i: int| 0 <= i < scope@.len() implies point@[scope@[i]] == joined[scope@[i]] by {
                                    let v = scope@[i];
                                    assert(scope@.contains(v));
                                    if assignment@.contains_key(v) {
                                        if free.contains_key(v) {
                                            assert(rest@.contains(v));
                                        }
                                    } else {
                                        assert(rest@.contains(v));
                                        let j = choose|j: int| 0 <= j < rest@.len() && rest@[j] == v;
                                        assert(free.contains_key(rest@[j]));
                                    }
                                }
                                self.lemma_scope_only(point@, joined);
                            }
                            data.push(self.value(&point).unwrap());
                        },
                    }
                }
                let f = Factor::TableFactor { scope: rest, table: Table { shape, data }, cpd: false };
                proof {
                    assert forall|a: Map<Variable, usize>| admissible(a) && #[trigger] covers(a, f.spec_scope()) implies f.at(
                        a,
                    ) == self.at(a.union_prefer_right(assignment@)) by {
                        let k = flatten(dims(f.spec_scope()), indices(a, f.spec_scope()));
                        let b = assignment_at(f.spec_scope(), k);
                        lemma_position(f.spec_scope(), a);
                        lemma_assignment_at(f.spec_scope(), k);
                        assert(f.at(a) == f.entries()[k as int]);
                        let left = b.union_prefer_right(assignment@);
                        let right = a.union_prefer_right(assignment@);
                        assert forall|i: int| 0 <= i < scope@.len() implies left[scope@[i]] == right[scope@[i]] by {
                            let v = scope@[i];
                            assert(scope@.contains(v));
                            if !assignment@.contains_key(v) {
                                assert(f.spec_scope().contains(v));
                                let j = choose|j: int| 0 <= j < f.spec_scope().len() && f.spec_scope()[j] == v;
                                assert(indices(b, f.spec_scope())[j] == b[v]);
                                assert(indices(a, f.spec_scope())[j] == a[v]);
                                assert(a.contains_key(f.spec_scope()[j]));
                                assert(b.contains_key(f.spec_scope()[j]));
                            }
                        }
                        self.lemma_scope_only(left, right);
                    }
                }
                f
            },
        }
    }
}

impl<T: Copy> Factor<T> {
    /// The factor summed over `v`, which leaves the scope. A factor that
    /// does not hold `v` is unchanged. A factor over `v` alone is summed to
    /// a single number, which has no table: the result is the unit.
    pub fn marginalize<A: Arithmetic<T>>(&self, v: Variable, w: &A) -> (f: Self)
        requires
            self.wf(),
            exact::<T, A>(w),
        ensures
            f.wf(),
            if self.spec_is_identity() {
                f.spec_is_identity()
            } else if !self.spec_scope().contains(v) {
                f.matches(self)
            } else if self.spec_scope().len() == 1 {
                f.spec_is_identity()
            } else {
                is_marginal::<T, A>(w, &f, self, v)
            },
    {
        match self {
            Factor::Identity => Factor::Identity,
            Factor::TableFactor { scope, table, cpd } => {
                proof {
                    lemma_without(scope@, v);
                }
                if !holds(scope, &v) {
                    return self.copy();
                }
                let rest = remove_from(scope, &v);
                if rest.len() == 0 {
                    return Factor::Identity;
                }
                let states = v.cardinality();
                let shape = extents(&rest);
                let mut data: Vec<T> = Vec::new();
                let mut it = all_assignments(&rest);
                loop
                    invariant
                        self.wf(),
                        exact::<T, A>(w),
                        scope@ == self.spec_scope(),
                        !self.spec_is_identity(),
                        states == v.spec_cardinality(),
                        rest@ == without(scope@, v),
                        rest@.no_duplicates(),
                        forall|u: Variable| #[trigger] rest@.contains(u) <==> scope@.contains(u) && u != v,
                        it.scope() == rest@,
                        data@.len() <= volume(dims(rest@)),
                        it.pending() == all_digits(dims(rest@)).skip(data@.len() as int),
                        forall|k: int|
                            0 <= k < data@.len() ==> #[trigger] data@[k] == axis_total::<T, A>(
                                w,
                                self,
                                assignment_at(rest@, k as nat),
                                v,
                                states as nat,
                            ),
                    ensures
                        data@.len() == volume(dims(rest@)),
                    decreases volume(dims(rest@)) - data@.len(),
                {
                    let next = it.next();
                    match next {
                        None => {
                            break ;
                        },
                        Some(assn) => {
                            let mut point = assn;
                            let ghost free = point@;
                            proof {
                                lemma_enumeration_step(rest@, data@.len() as nat);
                                lemma_assignment_at(rest@, data@.len() as nat);
                                if free.contains_key(v) {
                                    assert(rest@.contains(v));
                                }
                            }
                            let mut acc = nil(w);
                            let mut state: usize = 0;
                            while state < states
                                invariant
                                    self.wf(),
                                    exact::<T, A>(w),
                                    scope@ == self.spec_scope(),
                                    !self.spec_is_identity(),
                                    states == v.spec_cardinality(),
                                    forall|u: Variable| #[trigger] rest@.contains(u) <==> scope@.contains(u) && u != v,
                                    covers(free, rest@),
                                    !free.contains_key(v),
                                    point.wf(),
                                    point@ == free,
                                    state <= states,
                                    acc == axis_total::<T, A>(w, self, free, v, state as nat),
                                decreases states - state,
                            {
                                let _ = point.set(&v, state);
                                proof {
                                    assert forall|i: int| 0 <= i < scope@.len() implies point@.contains_key(
                                        #[trigger] scope@[i],
                                    ) by {
                                        let u = scope@[i];
                                        assert(scope@.contains(u));
                                        if u != v {
                                            assert(rest@.contains(u));
                                            let j = choose|j: int| 0 <= j < rest@.len() && rest@[j] == u;
                                            assert(free.contains_key(rest@[j]));
                                        }
                                    }
                                }
                                acc = sum(w, acc, self.value(&point).unwrap());
                                point.unset(&v);
                                proof {
                                    assert(point@ =~= free);
                                }
                                state += 1;
                            }
                            data.push(acc);
                        },
                    }
                }
                let f = Factor::TableFactor { scope: rest, table: Table { shape, data }, cpd: *cpd };
                proof {
                    assert forall|a: Map<Variable, usize>| admissible(a) && #[trigger] covers(a, f.spec_scope()) implies f.at(
                        a,
                    ) == axis_total::<T, A>(w, self, a, v, v.spec_cardinality() as nat) by {
                        let k = flatten(dims(f.spec_scope()), indices(a, f.spec_scope()));
                        let b = assignment_at(f.spec_scope(), k);
                        lemma_position(f.spec_scope(), a);
                        lemma_assignment_at(f.spec_scope(), k);
                        assert(f.at(a) == f.entries()[k as int]);
                        assert forall|i: int| 0 <= i < scope@.len() && scope@[i] != v implies b[scope@[i]] == a[scope@[i]] by {
                            let u = scope@[i];
                            assert(scope@.contains(u));
                            assert(f.spec_scope().contains(u));
                            let j = choose|j: int| 0 <= j < f.spec_scope().len() && f.spec_scope()[j] == u;
                            assert(indices(b, f.spec_scope())[j] == b[u]);
                            assert(indices(a, f.spec_scope())[j] == a[u]);
                        }
                        lemma_axis_total_agrees::<T, A>(w, self, b, a, v, v.spec_cardinality() as nat);
                    }
                }
                f
            },
        }
    }
}

/// Whether `r` is what `Factor::cpd` makes of the scope of a variable and its
/// parents, which ends with the variable, and a table.
pub open spec fn made_by_cpd<T: Copy, A: Arithmetic<T>>(
    w: &A,
    scope: Seq<Variable>,
    shape: Seq<usize>,
    entries: Seq<T>,
    r: Result<Factor<T>, JeromeError>,
) -> bool {
    match r {
        Ok(f) => {
            &&& fits(scope, shape)
            &&& signs_allowed::<T, A>(w, entries, true)
            &&& rows_normalized::<T, A>(w, entries, scope.last().spec_cardinality() as int)
            &&& f.wf()
            &&& !f.spec_is_identity()
            &&& f.spec_scope() == scope
            &&& f.entries() == entries
            &&& f.spec_is_cpd()
        },
        Err(e) => if !shaped(scope, shape) {
            e is General
        } else if !signs_allowed::<T, A>(w, entries, true) {
            e is NonPositiveProbability
        } else if !scope.no_duplicates() {
            e is General
        } else {
            e is NotACPD && !rows_normalized::<T, A>(w, entries, scope.last().spec_cardinality() as int)
        },
    }
}

/// The entries of `g` under `a` with the last variable of the scope in each
/// of its states in turn.
pub open spec fn conditional<T: Copy>(g: &Factor<T>, a: Map<Variable, usize>) -> Seq<T> {
    Seq::new(
        g.spec_scope().last().spec_cardinality() as nat,
        |state: int| g.at(a.insert(g.spec_scope().last(), state as usize)),
    )
}

/// Whether `a` gives a state to every variable of `scope` but `v`.
pub open spec fn covers_but(a: Map<Variable, usize>, scope: Seq<Variable>, v: Variable) -> bool {
    forall|i: int| 0 <= i < scope.len() && scope[i] != v ==> a.contains_key(#[trigger] scope[i])
}

/// The entries of `g` under `a` with `v` in each of its states in turn.
pub open spec fn conditional_on<T: Copy>(g: &Factor<T>, v: Variable, a: Map<Variable, usize>) -> Seq<T> {
    Seq::new(v.spec_cardinality() as nat, |state: int| g.at(a.insert(v, state as usize)))
}

/// Whether `g` gives `v` a distribution whatever the states of the other
/// variables of its scope: the entries over the states of `v` do not sum to
/// zero.
pub open spec fn distributes<T: Copy, A: Arithmetic<T>>(w: &A, g: &Factor<T>, v: Variable) -> bool {
    forall|a: Map<Variable, usize>|
        admissible(a) && #[trigger] covers_but(a, g.spec_scope(), v) ==> !spec_same::<T, A>(
            w,
            total::<T, A>(w, conditional_on(g, v, a)),
            spec_nil::<T, A>(w),
        )
}

/// The entries of a factor over the states of a variable depend on the
/// states of the other variables of the scope alone.
pub proof fn lemma_conditional_on_agrees<T: Copy>(
    g: &Factor<T>,
    v: Variable,
    a: Map<Variable, usize>,
    b: Map<Variable, usize>,
)
    requires
        forall|i: int| 0 <= i < g.spec_scope().len() && g.spec_scope()[i] != v ==> a[g.spec_scope()[i]] == b[g.spec_scope()[i]],
    ensures
        conditional_on(g, v, a) == conditional_on(g, v, b),
{
    assert forall|state: int| 0 <= state < v.spec_cardinality() implies conditional_on(g, v, a)[state] == conditional_on(
        g,
        v,
        b,
    )[state] by {
        g.lemma_scope_only(a.insert(v, state as usize), b.insert(v, state as usize));
    }
    assert(conditional_on(g, v, a) =~= conditional_on(g, v, b));
}

impl<T: Copy> Factor<T> {
    /// The entries of the factor under `point` with `v` in each of its
    /// states in turn. The assignment has to give a state to every other
    /// variable of the scope and none to `v`, and is the same afterwards.
    fn weights_for<A: Arithmetic<T>>(&self, v: &Variable, point: &mut Assignment, w: &A) -> (weights: Vec<T>)
        requires
            self.wf(),
            !self.spec_is_identity(),
            old(point).wf(),
            !old(point)@.contains_key(*v),
            covers_but(old(point)@, self.spec_scope(), *v),
        ensures
            final(point).wf(),
            final(point)@ == old(point)@,
            weights@ == conditional_on(self, *v, old(point)@),
    {
        let ghost given = point@;
        let states = v.cardinality();
        let mut weights: Vec<T> = Vec::new();
        let mut state: usize = 0;
        while state < states
            invariant
                self.wf(),
                !self.spec_is_identity(),
                states == v.spec_cardinality(),
                point.wf(),
                point@ == given,
                !given.contains_key(*v),
                covers_but(given, self.spec_scope(), *v),
                state <= states,
                weights@.len() == state,
                forall|j: int| 0 <= j < state ==> #[trigger] weights@[j] == self.at(given.insert(*v, j as usize)),
            decreases states - state,
        {
            let _ = point.set(v, state);
            proof {
                assert forall|j: int| 0 <= j < self.spec_scope().len() implies point@.contains_key(
                    #[trigger] self.spec_scope()[j],
                ) by {
                    if self.spec_scope()[j] != *v {
                        assert(given.contains_key(self.spec_scope()[j]));
                    }
                }
            }
            weights.push(self.value(point).unwrap());
            point.unset(v);
            proof {
                assert(point@ =~= given);
            }
            state += 1;
        }
        proof {
            assert(weights@ =~= conditional_on(self, *v, given));
        }
        weights
    }

    /// Whether the factor gives `v` a distribution whatever the states of
    /// the other variables of its scope.
    pub fn has_mass<A: Arithmetic<T>>(&self, v: &Variable, w: &A) -> (b: bool)
        requires
            self.wf(),
            !self.spec_is_identity(),
            exact::<T, A>(w),
        ensures
            b == distributes::<T, A>(w, self, *v),
    {
        let scope = self.scope();
        let rest = remove_from(&scope, v);
        proof {
            lemma_without(scope@, *v);
        }
        let zero = nil(w);
        let mut it = all_assignments(&rest);
        let ghost mut k: nat = 0;
        loop
            invariant
                self.wf(),
                !self.spec_is_identity(),
                exact::<T, A>(w),
                zero == spec_nil::<T, A>(w),
                scope@ == self.spec_scope(),
                rest@ == without(scope@, *v),
                rest@.no_duplicates(),
                forall|u: Variable| #[trigger] rest@.contains(u) <==> scope@.contains(u) && u != *v,
                it.scope() == rest@,
                k <= volume(dims(rest@)),
                it.pending() == all_digits(dims(rest@)).skip(k as int),
                forall|j: int|
                    0 <= j < k ==> !spec_same::<T, A>(
                        w,
                        total::<T, A>(w, #[trigger] conditional_on(self, *v, assignment_at(rest@, j as nat))),
                        zero,
                    ),
            ensures
                k == volume(dims(rest@)),
            decreases volume(dims(rest@)) - k,
        {
            let next = it.next();
            match next {
                None => {
                    break ;
                },
                Some(assn) => {
                    let mut point = assn;
                    proof {
                        lemma_enumeration_step(rest@, k);
                        lemma_assignment_at(rest@, k);
                        if point@.contains_key(*v) {
                            assert(rest@.contains(*v));
                        }
                        assert forall|i: int| 0 <= i < scope@.len() && scope@[i] != *v implies point@.contains_key(
                            #[trigger] scope@[i],
                        ) by {
                            assert(scope@.contains(scope@[i]));
                            assert(rest@.contains(scope@[i]));
                            let x = choose|x: int| 0 <= x < rest@.len() && rest@[x] == scope@[i];
                            assert(point@.contains_key(rest@[x]));
                        }
                    }
                    let weights = self.weights_for(v, &mut point, w);
                    if same(w, sum_all(&weights, w), zero) {
                        proof {
                            let a = assignment_at(rest@, k);
                            assert(admissible(a) && covers_but(a, self.spec_scope(), *v));
                        }
                        return false;
                    }
                    proof {
                        k = k + 1;
                    }
                },
            }
        }
        proof {
            assert forall|a: Map<Variable, usize>|
                admissible(a) && #[trigger] covers_but(a, self.spec_scope(), *v) implies !spec_same::<T, A>(
                w,
                total::<T, A>(w, conditional_on(self, *v, a)),
                spec_nil::<T, A>(w),
            ) by {
                assert forall|i: int| 0 <= i < rest@.len() implies a.contains_key(#[trigger] rest@[i]) by {
                    assert(rest@.contains(rest@[i]));
                    let x = choose|x: int| 0 <= x < scope@.len() && scope@[x] == rest@[i];
                    assert(a.contains_key(scope@[x]));
                }
                lemma_position(rest@, a);
                let p = flatten(dims(rest@), indices(a, rest@));
                let b = assignment_at(rest@, p);
                lemma_assignment_at(rest@, p);
                assert forall|i: int| 0 <= i < scope@.len() && scope@[i] != *v implies b[scope@[i]] == a[scope@[i]] by {
                    assert(scope@.contains(scope@[i]));
                    assert(rest@.contains(scope@[i]));
                    let x = choose|x: int| 0 <= x < rest@.len() && rest@[x] == scope@[i];
                    assert(indices(b, rest@)[x] == b[rest@[x]]);
                    assert(indices(a, rest@)[x] == a[rest@[x]]);
                }
                lemma_conditional_on_agrees(self, *v, b, a);
                let j = p as int;
                assert(assignment_at(rest@, j as nat) == b);
                assert(!spec_same::<T, A>(w, total::<T, A>(w, conditional_on(self, *v, assignment_at(rest@, j as nat))), zero));
            }
        }
        true
    }

    /// Samples a state of `var`, a variable of the scope, given states of
    /// all other variables of the scope, by the inverse of the cumulative
    /// distribution, for a draw from the unit interval. The state that
    /// `assignment` may give to `var` itself is not read.
    pub fn sample_for<A: Arithmetic<T>>(&self, var: &Variable, assignment: &Assignment, draw: T, w: &A) -> (r:
        Result<usize, JeromeError>)
        requires
            self.wf(),
            assignment.wf(),
            exact::<T, A>(w),
        ensures
            match r {
                Ok(state) => {
                    &&& self.spec_scope().contains(*var)
                    &&& covers_but(assignment@, self.spec_scope(), *var)
                    &&& state == sampled::<T, A>(w, conditional_on(self, *var, assignment@), draw)
                    &&& state < var.spec_cardinality()
                },
                Err(e) => if !self.spec_scope().contains(*var) {
                    e is InvalidScope
                } else if !covers_but(assignment@, self.spec_scope(), *var) {
                    e is IncompleteAssignment
                } else {
                    &&& e is DivideByZero
                    &&& spec_same::<T, A>(w, total::<T, A>(w, conditional_on(self, *var, assignment@)), spec_nil::<T, A>(w))
                },
            },
    {
        match self {
            Factor::Identity => {
                assert(!self.spec_scope().contains(*var));
                Err(JeromeError::InvalidScope)
            },
            Factor::TableFactor { scope, .. } => {
                if !holds(scope, var) {
                    return Err(JeromeError::InvalidScope);
                }
                let mut point = Assignment::new();
                let mut i: usize = 0;
                while i < scope.len()
                    invariant
                        assignment.wf(),
                        point.wf(),
                        scope@ == self.spec_scope(),
                        scope@.no_duplicates(),
                        scope@.contains(*var),
                        i <= scope@.len(),
                        !point@.contains_key(*var),
                        forall|u: Variable|
                            #[trigger] point@.contains_key(u) ==> exists|j: int| 0 <= j < i && scope@[j] == u,
                        forall|j: int|
                            0 <= j < i && scope@[j] != *var ==> assignment@.contains_key(#[trigger] scope@[j])
                                && point@.contains_key(scope@[j]) && point@[scope@[j]] == assignment@[scope@[j]],
                    decreases scope@.len() - i,
                {
                    if scope[i] != *var {
                        match assignment.get(&scope[i]) {
                            Some(state) => {
                                let ghost before = point@;
                                let _ = point.set(&scope[i], *state);
                                proof {
                                    if before.contains_key(scope@[i as int]) {
                                        let j = choose|j: int| 0 <= j < i && scope@[j] == scope@[i as int];
                                        assert(scope@[j] == scope@[i as int]);
                                    }
                                    assert(point@ == before.insert(scope@[i as int], *state));
                                    assert forall|j: int| 0 <= j < i + 1 && scope@[j] != *var implies point@.contains_key(
                                        #[trigger] scope@[j],
                                    ) && point@[scope@[j]] == assignment@[scope@[j]] by {
                                        if j < i {
                                            assert(before.contains_key(scope@[j]));
                                            assert(scope@[j] != scope@[i as int]);
                                        }
                                    }
                                    assert forall|u: Variable| #[trigger] point@.contains_key(u) implies exists|j: int|
                                        0 <= j < i + 1 && scope@[j] == u by {
                                        if u == scope@[i as int] {
                                            assert(scope@[i as int] == u);
                                        } else {
                                            assert(before.contains_key(u));
                                            let j = choose|j: int| 0 <= j < i && scope@[j] == u;
                                            assert(0 <= j < i + 1 && scope@[j] == u);
                                        }
                                    }
                                }
                            },
                            None => {
                                assert(scope@[i as int] != *var && !assignment@.contains_key(scope@[i as int]));
                                assert(!covers_but(assignment@, scope@, *var));
                                return Err(JeromeError::IncompleteAssignment);
                            },
                        }
                    }
                    i += 1;
                }
                proof {
                    assert(covers_but(assignment@, scope@, *var));
                    assert(covers_but(point@, scope@, *var));
                    lemma_conditional_on_agrees(self, *var, point@, assignment@);
                }
                let weights = self.weights_for(var, &mut point, w);
                inverse_cdf(&weights, draw, w)
            },
        }
    }

    /// The conditional probability distribution of `var` given `parents`: a
    /// factor over the parents, in their order, followed by `var`. The scope
    /// and the table have to fit together, every entry has to be above zero,
    /// and for each assignment to the parents the entries over the states of
    /// `var` have to sum to one within the tolerance of `w`.
    pub fn cpd<A: Arithmetic<T>>(var: Variable, parents: Vec<Variable>, table: Table<T>, w: &A) -> (r: Result<
        Self,
        JeromeError,
    >)
        requires
            table.wf(),
            exact::<T, A>(w),
        ensures
            made_by_cpd::<T, A>(w, parents@.push(var), table.spec_shape(), table.entries(), r),
    {
        let mut scope = parents;
        scope.push(var);
        let shape = extents(&scope);
        if scope.len() != table.ndim() {
            return Err(
                JeromeError::General(
                    "Invalid arguments. Cardinality of scope must match number of table dimensions".to_owned(),
                ),
            );
        }
        if !same_shape(&shape, table.shape()) {
            return Err(JeromeError::General("Invalid arguments. Dimensions do not match".to_owned()));
        }
        if !signs_pass(&table, true, w) {
            return Err(JeromeError::NonPositiveProbability);
        }
        if !all_distinct(&scope) {
            return Err(JeromeError::General("Invalid arguments. A variable occurs twice in the scope".to_owned()));
        }
        if !rows_pass(table.data(), var.cardinality(), w) {
            return Err(JeromeError::NotACPD);
        }
        Ok(Factor::TableFactor { scope, table, cpd: true })
    }

    /// Samples a state of the last variable of the scope, given states of
    /// all the variables before it, by the inverse of the cumulative
    /// distribution, for a draw from the unit interval. The state that
    /// `assignment` may give to the last variable itself is not read.
    pub fn sample_cpd<A: Arithmetic<T>>(&self, assignment: &Assignment, draw: T, w: &A) -> (r: Result<
        usize,
        JeromeError,
    >)
        requires
            self.wf(),
            assignment.wf(),
            exact::<T, A>(w),
        ensures
            match r {
                Ok(state) => {
                    &&& !self.spec_is_identity()
                    &&& covers(assignment@, self.spec_scope().drop_last())
                    &&& state == sampled::<T, A>(w, conditional(self, assignment@), draw)
                    &&& state < self.spec_scope().last().spec_cardinality()
                },
                Err(e) => if self.spec_is_identity() {
                    e is NotACPD
                } else if !covers(assignment@, self.spec_scope().drop_last()) {
                    e is IncompleteAssignment
                } else {
                    &&& e is DivideByZero
                    &&& spec_same::<T, A>(w, total::<T, A>(w, conditional(self, assignment@)), spec_nil::<T, A>(w))
                },
            },
    {
        match self {
            Factor::Identity => Err(JeromeError::NotACPD),
            Factor::TableFactor { scope, .. } => {
                let child = scope[scope.len() - 1];
                let mut point = Assignment::new();
                let mut i: usize = 0;
                while i < scope.len() - 1
                    invariant
                        assignment.wf(),
                        point.wf(),
                        scope@ == self.spec_scope(),
                        scope@.len() > 0,
                        scope@.no_duplicates(),
                        i <= scope@.len() - 1,
                        forall|j: int| 0 <= j < i ==> assignment@.contains_key(#[trigger] scope@[j]),
                        forall|v: Variable| #[trigger] point@.contains_key(v) <==> scope@.take(i as int).contains(v),
                        forall|j: int| 0 <= j < i ==> point@[scope@[j]] == assignment@[scope@[j]],
                    decreases scope@.len() - i,
                {
                    proof {
                        let seen = scope@.take(i as int);
                        let next = scope@.take(i + 1);
                        assert forall|v: Variable| next.contains(v) <==> seen.contains(v) || v == scope@[i as int] by {
                            if seen.contains(v) {
                                let j = choose|j: int| 0 <= j < seen.len() && seen[j] == v;
                                assert(next[j] == v);
                            }
                            if v == scope@[i as int] {
                                assert(next[i as int] == v);
                            }
                            if next.contains(v) {
                                let j = choose|j: int| 0 <= j < next.len() && next[j] == v;
                                if j < i {
                                    assert(seen[j] == v);
                                }
                            }
                        }
                        if seen.contains(scope@[i as int]) {
                            let j = choose|j: int| 0 <= j < seen.len() && seen[j] == scope@[i as int];
                            assert(scope@[j] == scope@[i as int]);
                        }
                    }
                    match assignment.get(&scope[i]) {
                        Some(state) => {
                            let _ = point.set(&scope[i], *state);
                        },
                        None => {
                            assert(!assignment@.contains_key(scope@.drop_last()[i as int]));
                            return Err(JeromeError::IncompleteAssignment);
                        },
                    }
                    i += 1;
                }
                let ghost given = point@;
                proof {
                    assert(scope@.take(i as int) == scope@.drop_last());
                    assert forall|j: int| 0 <= j < scope@.drop_last().len() implies assignment@.contains_key(
                        #[trigger] scope@.drop_last()[j],
                    ) by {
                        assert(scope@.drop_last()[j] == scope@[j]);
                    }
                    if given.contains_key(child) {
                        let j = choose|j: int| 0 <= j < scope@.drop_last().len() && scope@.drop_last()[j] == child;
                        assert(scope@[j] == scope@[scope@.len() - 1]);
                    }
                    assert forall|j: int| 0 <= j < scope@.len() - 1 implies given.contains_key(#[trigger] scope@[j]) by {
                        assert(scope@.drop_last()[j] == scope@[j]);
                    }
                }
                let states = child.cardinality();
                let mut weights: Vec<T> = Vec::new();
                let mut state: usize = 0;
                while state < states
                    invariant
                        self.wf(),
                        assignment.wf(),
                        scope@ == self.spec_scope(),
                        !self.spec_is_identity(),
                        scope@.len() > 0,
                        child == scope@.last(),
                        states == child.spec_cardinality(),
                        point.wf(),
                        point@ == given,
                        !given.contains_key(child),
                        forall|j: int| 0 <= j < scope@.len() - 1 ==> given.contains_key(#[trigger] scope@[j]) && given[scope@[j]]
                            == assignment@[scope@[j]],
                        state <= states,
                        weights@.len() == state,
                        forall|j: int|
                            0 <= j < state ==> #[trigger] weights@[j] == self.at(assignment@.insert(child, j as usize)),
                    decreases states - state,
                {
                    let _ = point.set(&child, state);
                    proof {
                        assert forall|j: int| 0 <= j < scope@.len() implies point@.contains_key(#[trigger] scope@[j]) by {
                            if j < scope@.len() - 1 {
                                assert(given.contains_key(scope@[j]));
                            }
                        }
                        assert forall|j: int| 0 <= j < scope@.len() implies point@[scope@[j]] == assignment@.insert(
                            child,
                            state,
                        )[scope@[j]] by {
                            if j < scope@.len() - 1 {
                                assert(given.contains_key(scope@[j]));
                                assert(scope@[j] != child);
                            }
                        }
                        self.lemma_scope_only(point@, assignment@.insert(child, state));
                    }
                    weights.push(self.value(&point).unwrap());
                    point.unset(&child);
                    proof {
                        assert(point@ =~= given);
                    }
                    state += 1;
                }
                proof {
                    assert(weights@ =~= conditional(self, assignment@));
                }
                inverse_cdf(&weights, draw, w)
            },
        }
    }
}

} // verus!
