//! The arithmetic of table entries. The library never computes with an entry
//! itself: it asks the caller's arithmetic, and its contracts speak of what
//! that arithmetic returns.

use vstd::prelude::*;
use crate::util::JeromeError;

verus! {

/// The operations on table entries that the library needs. An implementation
/// for floating-point entries gives the usual operations and comparisons.
pub trait Arithmetic<T> {
    /// The entry that adds nothing to a sum.
    fn zero(&self) -> T;

    /// The entry that leaves a product unchanged.
    fn one(&self) -> T;

    /// `a + b`.
    fn plus(&self, a: T, b: T) -> T;

    /// `a - b`.
    fn minus(&self, a: T, b: T) -> T;

    /// `a * b`.
    fn times(&self, a: T, b: T) -> T;

    /// `a / b`, for `b` other than zero.
    fn over(&self, a: T, b: T) -> T;

    /// Whether `a < b`.
    fn less(&self, a: T, b: T) -> bool;

    /// Whether `a == b`.
    fn equal(&self, a: T, b: T) -> bool;

    /// Whether `a` and `b` differ by no more than the tolerance that the
    /// implementation allows a normalized table.
    fn near(&self, a: T, b: T) -> bool;

    /// The entry that stands for the count `n`.
    fn count(&self, n: usize) -> T;
}

/// A source of random entries.
pub trait Chance<T> {
    /// A draw from the uniform distribution on the unit interval, zero
    /// included and one excluded.
    fn uniform(&self) -> T;
}

/// Whether every operation of `w` is a function of its arguments: called
/// twice on the same arguments it returns the same result. An arithmetic
/// whose operations each state their result in an `ensures` clause is exact,
/// and so is the arithmetic of the machine's numbers.
pub open spec fn exact<T, A: Arithmetic<T>>(w: &A) -> bool {
    &&& forall|r1: T, r2: T| #![all_triggers] call_ensures(A::zero, (w,), r1) && call_ensures(A::zero, (w,), r2) ==> r1 == r2
    &&& forall|r1: T, r2: T| #![all_triggers] call_ensures(A::one, (w,), r1) && call_ensures(A::one, (w,), r2) ==> r1 == r2
    &&& forall|a: T, b: T, r1: T, r2: T| #![all_triggers] call_ensures(A::plus, (w, a, b), r1) && call_ensures(A::plus, (w, a, b), r2) ==> r1 == r2
    &&& forall|a: T, b: T, r1: T, r2: T| #![all_triggers] call_ensures(A::minus, (w, a, b), r1) && call_ensures(A::minus, (w, a, b), r2) ==> r1 == r2
    &&& forall|a: T, b: T, r1: T, r2: T| #![all_triggers] call_ensures(A::times, (w, a, b), r1) && call_ensures(A::times, (w, a, b), r2) ==> r1 == r2
    &&& forall|a: T, b: T, r1: T, r2: T| #![all_triggers] call_ensures(A::over, (w, a, b), r1) && call_ensures(A::over, (w, a, b), r2) ==> r1 == r2
    &&& forall|a: T, b: T, r1: bool, r2: bool| #![all_triggers] call_ensures(A::less, (w, a, b), r1) && call_ensures(A::less, (w, a, b), r2) ==> r1 == r2
    &&& forall|a: T, b: T, r1: bool, r2: bool| #![all_triggers] call_ensures(A::equal, (w, a, b), r1) && call_ensures(A::equal, (w, a, b), r2) ==> r1 == r2
    &&& forall|a: T, b: T, r1: bool, r2: bool| #![all_triggers] call_ensures(A::near, (w, a, b), r1) && call_ensures(A::near, (w, a, b), r2) ==> r1 == r2
    &&& forall|n: usize, r1: T, r2: T| #![all_triggers] call_ensures(A::count, (w, n), r1) && call_ensures(A::count, (w, n), r2) ==> r1 == r2
}

/// What `w.zero()` returns.
pub open spec fn spec_nil<T, A: Arithmetic<T>>(w: &A) -> T {
    choose|r: T| call_ensures(A::zero, (w,), r)
}

/// What `w.one()` returns.
pub open spec fn spec_unit<T, A: Arithmetic<T>>(w: &A) -> T {
    choose|r: T| call_ensures(A::one, (w,), r)
}

/// What `w.plus(a, b)` returns.
pub open spec fn spec_sum<T, A: Arithmetic<T>>(w: &A, a: T, b: T) -> T {
    choose|r: T| call_ensures(A::plus, (w, a, b), r)
}

/// What `w.minus(a, b)` returns.
pub open spec fn spec_difference<T, A: Arithmetic<T>>(w: &A, a: T, b: T) -> T {
    choose|r: T| call_ensures(A::minus, (w, a, b), r)
}

/// What `w.times(a, b)` returns.
pub open spec fn spec_product<T, A: Arithmetic<T>>(w: &A, a: T, b: T) -> T {
    choose|r: T| call_ensures(A::times, (w, a, b), r)
}

/// What `w.over(a, b)` returns.
pub open spec fn spec_quotient<T, A: Arithmetic<T>>(w: &A, a: T, b: T) -> T {
    choose|r: T| call_ensures(A::over, (w, a, b), r)
}

/// What `w.less(a, b)` returns.
pub open spec fn spec_below<T, A: Arithmetic<T>>(w: &A, a: T, b: T) -> bool {
    choose|r: bool| call_ensures(A::less, (w, a, b), r)
}

/// What `w.equal(a, b)` returns.
pub open spec fn spec_same<T, A: Arithmetic<T>>(w: &A, a: T, b: T) -> bool {
    choose|r: bool| call_ensures(A::equal, (w, a, b), r)
}

/// What `w.near(a, b)` returns.
pub open spec fn spec_close<T, A: Arithmetic<T>>(w: &A, a: T, b: T) -> bool {
    choose|r: bool| call_ensures(A::near, (w, a, b), r)
}

/// What `w.count(n)` returns.
pub open spec fn spec_counted<T, A: Arithmetic<T>>(w: &A, n: usize) -> T {
    choose|r: T| call_ensures(A::count, (w, n), r)
}

/// The zero of `w`.
#[verifier::when_used_as_spec(spec_nil)]
pub fn nil<T, A: Arithmetic<T>>(w: &A) -> (r: T)
    requires
        exact::<T, A>(w),
    ensures
        r == spec_nil::<T, A>(w),
{
    w.zero()
}

/// The one of `w`.
#[verifier::when_used_as_spec(spec_unit)]
pub fn unit<T, A: Arithmetic<T>>(w: &A) -> (r: T)
    requires
        exact::<T, A>(w),
    ensures
        r == spec_unit::<T, A>(w),
{
    w.one()
}

/// `a + b` in `w`.
#[verifier::when_used_as_spec(spec_sum)]
pub fn sum<T, A: Arithmetic<T>>(w: &A, a: T, b: T) -> (r: T)
    requires
        exact::<T, A>(w),
    ensures
        r == spec_sum::<T, A>(w, a, b),
{
    w.plus(a, b)
}

/// `a - b` in `w`.
#[verifier::when_used_as_spec(spec_difference)]
pub fn difference<T, A: Arithmetic<T>>(w: &A, a: T, b: T) -> (r: T)
    requires
        exact::<T, A>(w),
    ensures
        r == spec_difference::<T, A>(w, a, b),
{
    w.minus(a, b)
}

/// `a * b` in `w`.
#[verifier::when_used_as_spec(spec_product)]
pub fn product<T, A: Arithmetic<T>>(w: &A, a: T, b: T) -> (r: T)
    requires
        exact::<T, A>(w),
    ensures
        r == spec_product::<T, A>(w, a, b),
{
    w.times(a, b)
}

/// `a / b` in `w`.
#[verifier::when_used_as_spec(spec_quotient)]
pub fn quotient<T, A: Arithmetic<T>>(w: &A, a: T, b: T) -> (r: T)
    requires
        exact::<T, A>(w),
    ensures
        r == spec_quotient::<T, A>(w, a, b),
{
    w.over(a, b)
}

/// Whether `a < b` in `w`.
#[verifier::when_used_as_spec(spec_below)]
pub fn below<T, A: Arithmetic<T>>(w: &A, a: T, b: T) -> (r: bool)
    requires
        exact::<T, A>(w),
    ensures
        r == spec_below::<T, A>(w, a, b),
{
    w.less(a, b)
}

/// Whether `a == b` in `w`.
#[verifier::when_used_as_spec(spec_same)]
pub fn same<T, A: Arithmetic<T>>(w: &A, a: T, b: T) -> (r: bool)
    requires
        exact::<T, A>(w),
    ensures
        r == spec_same::<T, A>(w, a, b),
{
    w.equal(a, b)
}

/// Whether `a` and `b` are within the tolerance of `w`.
#[verifier::when_used_as_spec(spec_close)]
pub fn close<T, A: Arithmetic<T>>(w: &A, a: T, b: T) -> (r: bool)
    requires
        exact::<T, A>(w),
    ensures
        r == spec_close::<T, A>(w, a, b),
{
    w.near(a, b)
}

/// The entry of `w` for the count `n`.
#[verifier::when_used_as_spec(spec_counted)]
pub fn counted<T, A: Arithmetic<T>>(w: &A, n: usize) -> (r: T)
    requires
        exact::<T, A>(w),
    ensures
        r == spec_counted::<T, A>(w, n),
{
    w.count(n)
}

/// Whether division by `z` goes through sums in the arithmetic `w`: zero
/// over `z` is zero, a sum over `z` is the sum of its terms over `z`, and
/// `z` over itself is one. That is so in the arithmetic of the rational
/// numbers for every `z` but zero.
pub open spec fn divides_through<T, A: Arithmetic<T>>(w: &A, z: T) -> bool {
    &&& spec_quotient::<T, A>(w, spec_nil::<T, A>(w), z) == spec_nil::<T, A>(w)
    &&& spec_quotient::<T, A>(w, z, z) == spec_unit::<T, A>(w)
    &&& forall|a: T, b: T| #[trigger]
        spec_quotient::<T, A>(w, spec_sum::<T, A>(w, a, b), z) == spec_sum::<T, A>(
            w,
            spec_quotient::<T, A>(w, a, z),
            spec_quotient::<T, A>(w, b, z),
        )
}

/// The sum of a sequence of entries, taken from the first to the last,
/// starting from zero.
pub open spec fn total<T, A: Arithmetic<T>>(w: &A, entries: Seq<T>) -> T
    decreases entries.len(),
{
    if entries.len() == 0 {
        spec_nil::<T, A>(w)
    } else {
        spec_sum::<T, A>(w, total::<T, A>(w, entries.drop_last()), entries.last())
    }
}

/// The sum of `values`, from the first to the last, starting from zero.
pub fn sum_all<T: Copy, A: Arithmetic<T>>(values: &Vec<T>, w: &A) -> (mass: T)
    requires
        exact::<T, A>(w),
    ensures
        mass == total::<T, A>(w, values@),
{
    let mut mass = nil(w);
    let mut k: usize = 0;
    while k < values.len()
        invariant
            exact::<T, A>(w),
            k <= values@.len(),
            mass == total::<T, A>(w, values@.take(k as int)),
        decreases values@.len() - k,
    {
        proof {
            assert(values@.take(k + 1).drop_last() == values@.take(k as int));
        }
        mass = sum(w, mass, values[k]);
        k += 1;
    }
    proof {
        assert(values@.take(k as int) == values@);
    }
    mass
}

/// The sum of the first `n` of `weights`, each divided by `mass`.
pub open spec fn cumulative<T, A: Arithmetic<T>>(w: &A, weights: Seq<T>, mass: T, n: nat) -> T
    decreases n,
{
    if n == 0 {
        spec_nil::<T, A>(w)
    } else {
        spec_sum::<T, A>(
            w,
            cumulative::<T, A>(w, weights, mass, (n - 1) as nat),
            spec_quotient::<T, A>(w, weights[n - 1], mass),
        )
    }
}

/// The first position from `from` on whose cumulative share lies above
/// `draw`; the last position if there is none.
pub open spec fn first_above<T, A: Arithmetic<T>>(w: &A, weights: Seq<T>, mass: T, draw: T, from: nat) -> nat
    decreases weights.len() - from,
{
    if from >= weights.len() {
        (weights.len() - 1) as nat
    } else if spec_below::<T, A>(w, draw, cumulative::<T, A>(w, weights, mass, from + 1)) {
        from
    } else {
        first_above::<T, A>(w, weights, mass, draw, from + 1)
    }
}

/// The position that inverse-CDF sampling picks among `weights` for a draw
/// from the unit interval: the weights are divided by their sum, and the
/// first position whose cumulative share lies above the draw is taken.
pub open spec fn sampled<T, A: Arithmetic<T>>(w: &A, weights: Seq<T>, draw: T) -> nat {
    first_above::<T, A>(w, weights, total::<T, A>(w, weights), draw, 0)
}

/// The position picked is one of the positions of the weights.
pub proof fn lemma_first_above_bound<T, A: Arithmetic<T>>(w: &A, weights: Seq<T>, mass: T, draw: T, from: nat)
    requires
        weights.len() > 0,
        from <= weights.len(),
    ensures
        first_above::<T, A>(w, weights, mass, draw, from) < weights.len(),
    decreases weights.len() - from,
{
    if from < weights.len() && !spec_below::<T, A>(w, draw, cumulative::<T, A>(w, weights, mass, from + 1)) {
        lemma_first_above_bound::<T, A>(w, weights, mass, draw, from + 1);
    }
}

/// Samples a position among `weights` by the inverse of their cumulative
/// distribution, for a draw from the unit interval. Weights that sum to zero
/// have no distribution, and no weights have no position.
pub fn inverse_cdf<T: Copy, A: Arithmetic<T>>(weights: &Vec<T>, draw: T, w: &A) -> (r: Result<usize, JeromeError>)
    requires
        exact::<T, A>(w),
    ensures
        match r {
            Ok(k) => {
                &&& weights@.len() > 0
                &&& !spec_same::<T, A>(w, total::<T, A>(w, weights@), spec_nil::<T, A>(w))
                &&& k == sampled::<T, A>(w, weights@, draw)
                &&& k < weights@.len()
            },
            Err(e) => if weights@.len() == 0 {
                e is NotEnoughData
            } else {
                e is DivideByZero && spec_same::<T, A>(w, total::<T, A>(w, weights@), spec_nil::<T, A>(w))
            },
        },
{
    if weights.len() == 0 {
        return Err(JeromeError::NotEnoughData);
    }
    let mass = sum_all(weights, w);
    if same(w, mass, nil(w)) {
        return Err(JeromeError::DivideByZero);
    }
    let mut upper = nil(w);
    let mut k: usize = 0;
    while k < weights.len()
        invariant
            exact::<T, A>(w),
            weights@.len() > 0,
            mass == total::<T, A>(w, weights@),
            !spec_same::<T, A>(w, mass, spec_nil::<T, A>(w)),
            k <= weights@.len(),
            upper == cumulative::<T, A>(w, weights@, mass, k as nat),
            first_above::<T, A>(w, weights@, mass, draw, 0) == first_above::<T, A>(w, weights@, mass, draw, k as nat),
        decreases weights@.len() - k,
    {
        upper = sum(w, upper, quotient(w, weights[k], mass));
        proof {
            assert(upper == cumulative::<T, A>(w, weights@, mass, (k + 1) as nat));
        }
        if below(w, draw, upper) {
            return Ok(k);
        }
        k += 1;
    }
    Ok(weights.len() - 1)
}

} // verus!
