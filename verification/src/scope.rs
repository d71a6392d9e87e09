//! Scopes: ordered lists of variables, their unions, and the assignments to
//! them in table order.

use vstd::prelude::*;
use crate::layout::{
    all_digits, digits, flatten, in_bounds, lemma_digits_flatten, lemma_digits_len, lemma_flatten_bound,
    lemma_flatten_digits, volume,
};
use crate::variable::{
    admissible, Assignment, bind, covers, dims, indices, lemma_bind_distinct, shared_len, Variable,
};

verus! {

/// `a`, followed by those of the first `n` variables of `b` that have not
/// come before, in their order.
pub open spec fn appended(a: Seq<Variable>, b: Seq<Variable>, n: nat) -> Seq<Variable>
    decreases n,
{
    if n == 0 {
        a
    } else {
        let before = appended(a, b, (n - 1) as nat);
        if before.contains(b[n - 1]) {
            before
        } else {
            before.push(b[n - 1])
        }
    }
}

/// The ordered union of two scopes: every variable of either, once, in the
/// order in which it is first seen.
pub open spec fn union(a: Seq<Variable>, b: Seq<Variable>) -> Seq<Variable> {
    appended(a, b, b.len())
}

/// Whether two scopes share no variable.
pub open spec fn disjoint(a: Seq<Variable>, b: Seq<Variable>) -> bool {
    forall|i: int, j: int| 0 <= i < a.len() && 0 <= j < b.len() ==> a[i] != b[j]
}

/// Whether every variable of `a` is in `b`.
pub open spec fn within(a: Seq<Variable>, b: Seq<Variable>) -> bool {
    forall|i: int| 0 <= i < a.len() ==> b.contains(#[trigger] a[i])
}

/// The variables of `scope` that `a` gives no state, in scope order.
pub open spec fn unassigned(scope: Seq<Variable>, a: Map<Variable, usize>) -> Seq<Variable>
    decreases scope.len(),
{
    if scope.len() == 0 {
        Seq::empty()
    } else if a.contains_key(scope.last()) {
        unassigned(scope.drop_last(), a)
    } else {
        unassigned(scope.drop_last(), a).push(scope.last())
    }
}

/// `scope` without `v`, in scope order.
pub open spec fn without(scope: Seq<Variable>, v: Variable) -> Seq<Variable>
    decreases scope.len(),
{
    if scope.len() == 0 {
        Seq::empty()
    } else if scope.last() == v {
        without(scope.drop_last(), v)
    } else {
        without(scope.drop_last(), v).push(scope.last())
    }
}

/// The assignment at position `k` of the table order of `scope`.
pub open spec fn assignment_at(scope: Seq<Variable>, k: nat) -> Map<Variable, usize> {
    bind(scope, digits(dims(scope), k), scope.len())
}

/// What holds of an ordered union: it starts with the first scope, holds
/// exactly the variables of both, and holds none twice if the first scope
/// does not.
pub proof fn lemma_appended(a: Seq<Variable>, b: Seq<Variable>, n: nat)
    requires
        n <= b.len(),
    ensures
        a.len() <= appended(a, b, n).len() <= a.len() + n,
        appended(a, b, n).take(a.len() as int) == a,
        forall|v: Variable| #[trigger] appended(a, b, n).contains(v) <==> a.contains(v) || b.take(n as int).contains(v),
        a.no_duplicates() ==> appended(a, b, n).no_duplicates(),
    decreases n,
{
    if n == 0 {
        assert(a.take(a.len() as int) == a);
        assert(b.take(0).len() == 0);
    } else {
        let before = appended(a, b, (n - 1) as nat);
        let after = appended(a, b, n);
        lemma_appended(a, b, (n - 1) as nat);
        assert(after.take(a.len() as int) =~= before.take(a.len() as int));
        assert forall|v: Variable| #[trigger] after.contains(v) <==> a.contains(v) || b.take(n as int).contains(v) by {
            let shorter = b.take(n - 1);
            let longer = b.take(n as int);
            if after.contains(v) {
                if before.contains(v) {
                    if shorter.contains(v) {
                        let j = choose|j: int| 0 <= j < shorter.len() && shorter[j] == v;
                        assert(longer[j] == v);
                    }
                } else {
                    let i = choose|i: int| 0 <= i < after.len() && after[i] == v;
                    assert(i == before.len());
                    assert(longer[n - 1] == v);
                }
            }
            if a.contains(v) {
                assert(before.contains(v));
                let i = choose|i: int| 0 <= i < before.len() && before[i] == v;
                assert(after[i] == v);
            }
            if longer.contains(v) {
                let j = choose|j: int| 0 <= j < longer.len() && longer[j] == v;
                if j < n - 1 {
                    assert(shorter[j] == v);
                    assert(before.contains(v));
                    let i = choose|i: int| 0 <= i < before.len() && before[i] == v;
                    assert(after[i] == v);
                } else {
                    if before.contains(v) {
                        let i = choose|i: int| 0 <= i < before.len() && before[i] == v;
                        assert(after[i] == v);
                    } else {
                        assert(after[before.len() as int] == v);
                    }
                }
            }
        }
    }
}

/// An ordered union is as long as both scopes together exactly when they
/// share no variable, provided that the second holds none twice.
pub proof fn lemma_appended_len(a: Seq<Variable>, b: Seq<Variable>, n: nat)
    requires
        n <= b.len(),
        b.no_duplicates(),
    ensures
        appended(a, b, n).len() == a.len() + n <==> disjoint(a, b.take(n as int)),
    decreases n,
{
    if n > 0 {
        let before = appended(a, b, (n - 1) as nat);
        let x = b[n - 1];
        let shorter = b.take(n - 1);
        let longer = b.take(n as int);
        lemma_appended(a, b, (n - 1) as nat);
        lemma_appended_len(a, b, (n - 1) as nat);
        if disjoint(a, longer) {
            assert forall|i: int, j: int| 0 <= i < a.len() && 0 <= j < shorter.len() implies a[i] != shorter[j] by {
                assert(longer[j] == shorter[j]);
            }
            if before.contains(x) {
                if a.contains(x) {
                    let i = choose|i: int| 0 <= i < a.len() && a[i] == x;
                    assert(a[i] == longer[n - 1]);
                } else {
                    let j = choose|j: int| 0 <= j < shorter.len() && shorter[j] == x;
                    assert(b[j] == b[n - 1]);
                }
            }
        }
        if appended(a, b, n).len() == a.len() + n {
            assert(!before.contains(x));
            assert(disjoint(a, shorter));
            assert forall|i: int, j: int| 0 <= i < a.len() && 0 <= j < longer.len() implies a[i] != longer[j] by {
                if j < n - 1 {
                    assert(longer[j] == shorter[j]);
                } else {
                    if a[i] == x {
                        assert(a.contains(x));
                    }
                }
            }
        }
    }
}

/// What holds of the unassigned part of a scope.
pub proof fn lemma_unassigned(scope: Seq<Variable>, a: Map<Variable, usize>)
    ensures
        unassigned(scope, a).len() <= scope.len(),
        forall|v: Variable| #[trigger] unassigned(scope, a).contains(v) <==> scope.contains(v) && !a.contains_key(v),
        scope.no_duplicates() ==> unassigned(scope, a).no_duplicates(),
        unassigned(scope, a).len() == scope.len() <==> forall|i: int| 0 <= i < scope.len() ==> !a.contains_key(#[trigger] scope[i]),
        unassigned(scope, a).len() == scope.len() ==> unassigned(scope, a) == scope,
        unassigned(scope, a).len() == 0 <==> covers(a, scope),
    decreases scope.len(),
{
    if scope.len() > 0 {
        let rest = scope.drop_last();
        let x = scope.last();
        let before = unassigned(rest, a);
        let after = unassigned(scope, a);
        lemma_unassigned(rest, a);
        assert forall|v: Variable| #[trigger] after.contains(v) <==> scope.contains(v) && !a.contains_key(v) by {
            if after.contains(v) {
                let i = choose|i: int| 0 <= i < after.len() && after[i] == v;
                if i < before.len() {
                    assert(before[i] == v);
                    assert(before.contains(v));
                    let j = choose|j: int| 0 <= j < rest.len() && rest[j] == v;
                    assert(scope[j] == v);
                } else {
                    assert(scope[scope.len() - 1] == v);
                }
            }
            if scope.contains(v) && !a.contains_key(v) {
                let j = choose|j: int| 0 <= j < scope.len() && scope[j] == v;
                if j < rest.len() {
                    assert(rest[j] == v);
                    assert(before.contains(v));
                    let i = choose|i: int| 0 <= i < before.len() && before[i] == v;
                    assert(after[i] == v);
                } else {
                    assert(after[before.len() as int] == v);
                }
            }
        }
        if scope.no_duplicates() {
            assert(rest.no_duplicates());
            if !a.contains_key(x) {
                if before.contains(x) {
                    let j = choose|j: int| 0 <= j < rest.len() && rest[j] == x;
                    assert(scope[j] == scope[scope.len() - 1]);
                }
            }
        }
        if after.len() == scope.len() {
            assert(before.len() == rest.len());
            assert(!a.contains_key(x));
            assert forall|i: int| 0 <= i < scope.len() implies !a.contains_key(#[trigger] scope[i]) by {
                if i < rest.len() {
                    assert(rest[i] == scope[i]);
                }
            }
            assert(after =~= scope);
        }
        if forall|i: int| 0 <= i < scope.len() ==> !a.contains_key(#[trigger] scope[i]) {
            assert forall|i: int| 0 <= i < rest.len() implies !a.contains_key(#[trigger] rest[i]) by {
                assert(rest[i] == scope[i]);
            }
            assert(!a.contains_key(scope[scope.len() - 1]));
        }
        if after.len() == 0 {
            assert(a.contains_key(x));
            assert forall|i: int| 0 <= i < scope.len() implies a.contains_key(#[trigger] scope[i]) by {
                if i < rest.len() {
                    assert(rest[i] == scope[i]);
                }
            }
        }
        if covers(a, scope) {
            assert(a.contains_key(scope[scope.len() - 1]));
            assert forall|i: int| 0 <= i < rest.len() implies a.contains_key(#[trigger] rest[i]) by {
                assert(rest[i] == scope[i]);
            }
        }
    }
}

/// What holds of a scope with one variable taken out.
pub proof fn lemma_without(scope: Seq<Variable>, v: Variable)
    ensures
        forall|u: Variable| #[trigger] without(scope, v).contains(u) <==> scope.contains(u) && u != v,
        scope.no_duplicates() ==> without(scope, v).no_duplicates(),
        scope.no_duplicates() && scope.contains(v) ==> without(scope, v).len() + 1 == scope.len(),
        !scope.contains(v) ==> without(scope, v) == scope,
    decreases scope.len(),
{
    if scope.len() > 0 {
        let rest = scope.drop_last();
        let x = scope.last();
        let before = without(rest, v);
        let after = without(scope, v);
        lemma_without(rest, v);
        assert forall|u: Variable| #[trigger] after.contains(u) <==> scope.contains(u) && u != v by {
            if after.contains(u) {
                let i = choose|i: int| 0 <= i < after.len() && after[i] == u;
                if i < before.len() {
                    assert(before[i] == u);
                    assert(before.contains(u));
                    let j = choose|j: int| 0 <= j < rest.len() && rest[j] == u;
                    assert(scope[j] == u);
                } else {
                    assert(scope[scope.len() - 1] == u);
                }
            }
            if scope.contains(u) && u != v {
                let j = choose|j: int| 0 <= j < scope.len() && scope[j] == u;
                if j < rest.len() {
                    assert(rest[j] == u);
                    assert(before.contains(u));
                    let i = choose|i: int| 0 <= i < before.len() && before[i] == u;
                    assert(after[i] == u);
                } else {
                    assert(after[before.len() as int] == u);
                }
            }
        }
        if scope.no_duplicates() {
            assert(rest.no_duplicates());
            if x != v && before.contains(x) {
                let j = choose|j: int| 0 <= j < rest.len() && rest[j] == x;
                assert(scope[j] == scope[scope.len() - 1]);
            }
            if scope.contains(v) {
                if x == v {
                    if rest.contains(v) {
                        let j = choose|j: int| 0 <= j < rest.len() && rest[j] == v;
                        assert(scope[j] == scope[scope.len() - 1]);
                    }
                } else {
                    let j = choose|j: int| 0 <= j < scope.len() && scope[j] == v;
                    assert(rest[j] == v);
                }
            }
        }
        if !scope.contains(v) {
            assert(scope[scope.len() - 1] != v);
            assert(!rest.contains(v)) by {
                if rest.contains(v) {
                    let j = choose|j: int| 0 <= j < rest.len() && rest[j] == v;
                    assert(scope[j] == v);
                }
            }
            assert(after =~= scope);
        }
    }
}

/// The assignment at a position of the table order gives the variables of
/// the scope the index vector of that position, and no other variable a
/// state.
pub proof fn lemma_assignment_at(scope: Seq<Variable>, k: nat)
    requires
        scope.no_duplicates(),
        k < volume(dims(scope)),
    ensures
        covers(assignment_at(scope, k), scope),
        admissible(assignment_at(scope, k)),
        indices(assignment_at(scope, k), scope) == digits(dims(scope), k),
        flatten(dims(scope), indices(assignment_at(scope, k), scope)) == k,
        forall|v: Variable| #[trigger] assignment_at(scope, k).contains_key(v) ==> scope.contains(v),
{
    let d = dims(scope);
    let idx = digits(d, k);
    let a = assignment_at(scope, k);
    lemma_flatten_digits(d, k);
    assert forall|i: int| 0 <= i < scope.len() implies idx[i] < scope[i].spec_cardinality() by {
        assert(idx[i] < d[i]);
    }
    lemma_bind_distinct(scope, idx, scope.len());
    assert(indices(a, scope) =~= idx);
    assert forall|v: Variable| #[trigger] a.contains_key(v) implies a[v] < v.spec_cardinality() by {
        let i = choose|i: int| 0 <= i < scope.len() && scope[i] == v;
        assert(a[scope[i]] == idx[i]);
    }
}

/// An assignment that covers a scope has a position in the table order, and
/// the assignment at that position agrees with it on the scope.
pub proof fn lemma_position(scope: Seq<Variable>, a: Map<Variable, usize>)
    requires
        scope.no_duplicates(),
        admissible(a),
        covers(a, scope),
    ensures
        in_bounds(dims(scope), indices(a, scope)),
        flatten(dims(scope), indices(a, scope)) < volume(dims(scope)),
        indices(assignment_at(scope, flatten(dims(scope), indices(a, scope))), scope) == indices(a, scope),
{
    let d = dims(scope);
    let idx = indices(a, scope);
    assert forall|i: int| 0 <= i < d.len() implies idx[i] < d[i] by {
        assert(a.contains_key(scope[i]));
    }
    lemma_flatten_bound(d, idx);
    lemma_digits_flatten(d, idx);
    lemma_assignment_at(scope, flatten(d, idx));
}

/// The assignments to a scope in table order are as many as the product of
/// the cardinalities of its variables, and they correspond one to one to
/// the positions of a table over the scope: the assignment at a position
/// lies at that position, two positions have different assignments, and
/// every assignment that covers the scope agrees on it with the assignment
/// at its position.
pub proof fn lemma_all_assignments(scope: Seq<Variable>)
    requires
        scope.no_duplicates(),
    ensures
        all_digits(dims(scope)).len() == volume(dims(scope)),
        forall|k: int|
            0 <= k < volume(dims(scope)) ==> {
                &&& covers(#[trigger] assignment_at(scope, k as nat), scope)
                &&& admissible(assignment_at(scope, k as nat))
                &&& flatten(dims(scope), indices(assignment_at(scope, k as nat), scope)) == k
            },
        forall|j: int, k: int|
            0 <= j < volume(dims(scope)) && 0 <= k < volume(dims(scope)) && j != k ==> #[trigger] assignment_at(
                scope,
                j as nat,
            ) != #[trigger] assignment_at(scope, k as nat),
        forall|a: Map<Variable, usize>|
            admissible(a) && #[trigger] covers(a, scope) ==> {
                &&& flatten(dims(scope), indices(a, scope)) < volume(dims(scope))
                &&& indices(assignment_at(scope, flatten(dims(scope), indices(a, scope))), scope) == indices(a, scope)
            },
{
    assert forall|k: int| 0 <= k < volume(dims(scope)) implies {
        &&& covers(#[trigger] assignment_at(scope, k as nat), scope)
        &&& admissible(assignment_at(scope, k as nat))
        &&& flatten(dims(scope), indices(assignment_at(scope, k as nat), scope)) == k
    } by {
        lemma_assignment_at(scope, k as nat);
    }
    assert forall|j: int, k: int|
        0 <= j < volume(dims(scope)) && 0 <= k < volume(dims(scope)) && j != k implies #[trigger] assignment_at(
        scope,
        j as nat,
    ) != #[trigger] assignment_at(scope, k as nat) by {
        lemma_assignment_at(scope, j as nat);
        lemma_assignment_at(scope, k as nat);
    }
    assert forall|a: Map<Variable, usize>| admissible(a) && #[trigger] covers(a, scope) implies {
        &&& flatten(dims(scope), indices(a, scope)) < volume(dims(scope))
        &&& indices(assignment_at(scope, flatten(dims(scope), indices(a, scope))), scope) == indices(a, scope)
    } by {
        lemma_position(scope, a);
    }
}

/// Two assignments that agree on a scope agree on every scope within it.
pub proof fn lemma_agree_within(inner: Seq<Variable>, outer: Seq<Variable>, a: Map<Variable, usize>, b: Map<Variable, usize>)
    requires
        within(inner, outer),
        indices(a, outer) == indices(b, outer),
    ensures
        indices(a, inner) == indices(b, inner),
{
    assert forall|i: int| 0 <= i < inner.len() implies a[inner[i]] == b[inner[i]] by {
        assert(outer.contains(inner[i]));
        let j = choose|j: int| 0 <= j < outer.len() && outer[j] == inner[i];
        assert(indices(a, outer)[j] == a[outer[j]]);
        assert(indices(b, outer)[j] == b[outer[j]]);
    }
    assert(indices(a, inner) =~= indices(b, inner));
}

/// An assignment that covers a scope covers every scope within it.
pub proof fn lemma_covers_within(inner: Seq<Variable>, outer: Seq<Variable>, a: Map<Variable, usize>)
    requires
        within(inner, outer),
        covers(a, outer),
    ensures
        covers(a, inner),
{
    assert forall|i: int| 0 <= i < inner.len() implies a.contains_key(#[trigger] inner[i]) by {
        assert(outer.contains(inner[i]));
        let j = choose|j: int| 0 <= j < outer.len() && outer[j] == inner[i];
        assert(a.contains_key(outer[j]));
    }
}

/// The index vectors that an enumeration has yet to yield after `k` of them,
/// the first of them, and those after it.
pub proof fn lemma_enumeration_step(scope: Seq<Variable>, k: nat)
    requires
        k < volume(dims(scope)),
    ensures
        all_digits(dims(scope)).skip(k as int).len() > 0,
        all_digits(dims(scope)).skip(k as int).first() == digits(dims(scope), k),
        shared_len(scope, digits(dims(scope), k)) == scope.len(),
        all_digits(dims(scope)).skip(k as int).drop_first() == all_digits(dims(scope)).skip(k as int + 1),
{
    lemma_digits_len(dims(scope), k);
    assert(all_digits(dims(scope)).skip(k as int).drop_first() =~= all_digits(dims(scope)).skip(k as int + 1));
}

/// Whether `scope` holds `v`.
pub fn holds(scope: &Vec<Variable>, v: &Variable) -> (b: bool)
    ensures
        b == scope@.contains(*v),
{
    let mut i: usize = 0;
    while i < scope.len()
        invariant
            i <= scope@.len(),
            forall|j: int| 0 <= j < i ==> scope@[j] != *v,
        decreases scope@.len() - i,
    {
        if scope[i] == *v {
            return true;
        }
        i += 1;
    }
    false
}

/// Whether no variable occurs twice in `scope`.
pub fn all_distinct(scope: &Vec<Variable>) -> (b: bool)
    ensures
        b == scope@.no_duplicates(),
{
    let mut i: usize = 0;
    while i < scope.len()
        invariant
            i <= scope@.len(),
            forall|j: int, k: int| 0 <= j < k < i ==> scope@[j] != scope@[k],
        decreases scope@.len() - i,
    {
        let mut j: usize = 0;
        while j < i
            invariant
                i < scope@.len(),
                j <= i,
                forall|k: int| 0 <= k < j ==> scope@[k] != scope@[i as int],
            decreases i - j,
        {
            if scope[j] == scope[i] {
                return false;
            }
            j += 1;
        }
        i += 1;
    }
    true
}

/// A copy of a scope.
pub fn copy_scope(scope: &Vec<Variable>) -> (r: Vec<Variable>)
    ensures
        r@ == scope@,
{
    let mut r: Vec<Variable> = Vec::new();
    let mut i: usize = 0;
    while i < scope.len()
        invariant
            i <= scope@.len(),
            r@ == scope@.take(i as int),
        decreases scope@.len() - i,
    {
        r.push(scope[i]);
        proof {
            assert(r@ =~= scope@.take(i + 1));
        }
        i += 1;
    }
    proof {
        assert(scope@.take(i as int) == scope@);
    }
    r
}

/// The ordered union of two scopes.
pub fn merge(a: &Vec<Variable>, b: &Vec<Variable>) -> (r: Vec<Variable>)
    ensures
        r@ == union(a@, b@),
{
    let mut r = copy_scope(a);
    let mut i: usize = 0;
    while i < b.len()
        invariant
            i <= b@.len(),
            r@ == appended(a@, b@, i as nat),
        decreases b@.len() - i,
    {
        if !holds(&r, &b[i]) {
            r.push(b[i]);
        }
        i += 1;
    }
    r
}

/// The variables of `scope` that `a` gives no state.
pub fn free_of(scope: &Vec<Variable>, a: &Assignment) -> (r: Vec<Variable>)
    requires
        a.wf(),
    ensures
        r@ == unassigned(scope@, a@),
{
    let mut r: Vec<Variable> = Vec::new();
    let mut i: usize = 0;
    while i < scope.len()
        invariant
            a.wf(),
            i <= scope@.len(),
            r@ == unassigned(scope@.take(i as int), a@),
        decreases scope@.len() - i,
    {
        proof {
            assert(scope@.take(i + 1).drop_last() == scope@.take(i as int));
        }
        if a.get(&scope[i]).is_none() {
            r.push(scope[i]);
        }
        i += 1;
    }
    proof {
        assert(scope@.take(i as int) == scope@);
    }
    r
}

/// `scope` without `v`.
pub fn remove_from(scope: &Vec<Variable>, v: &Variable) -> (r: Vec<Variable>)
    ensures
        r@ == without(scope@, *v),
{
    let mut r: Vec<Variable> = Vec::new();
    let mut i: usize = 0;
    while i < scope.len()
        invariant
            i <= scope@.len(),
            r@ == without(scope@.take(i as int), *v),
        decreases scope@.len() - i,
    {
        proof {
            assert(scope@.take(i + 1).drop_last() == scope@.take(i as int));
        }
        if scope[i] != *v {
            r.push(scope[i]);
        }
        i += 1;
    }
    proof {
        assert(scope@.take(i as int) == scope@);
    }
    r
}

/// Whether every variable of `a` is in `b`.
pub fn subset(a: &Vec<Variable>, b: &Vec<Variable>) -> (r: bool)
    ensures
        r == within(a@, b@),
{
    let mut i: usize = 0;
    while i < a.len()
        invariant
            i <= a@.len(),
            forall|j: int| 0 <= j < i ==> b@.contains(#[trigger] a@[j]),
        decreases a@.len() - i,
    {
        if !holds(b, &a[i]) {
            return false;
        }
        i += 1;
    }
    true
}

} // verus!
