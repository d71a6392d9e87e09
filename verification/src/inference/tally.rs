//! Tables of weights counted from samples.

use vstd::prelude::*;
use crate::layout::{filled, flatten, in_bounds, offset, volume};
use crate::variable::{Assignment, covers, dims, indices, Variable};
use crate::weight::{Arithmetic, exact, nil, spec_nil, spec_sum, sum};

verus! {

/// The entries of a table over `scope` after the weights of the first `n`
/// of `samples` have been added, each to the entry of its assignment,
/// starting from zero everywhere.
pub open spec fn tallied<T, A: Arithmetic<T>>(
    w: &A,
    scope: Seq<Variable>,
    samples: Seq<(Map<Variable, usize>, T)>,
    n: nat,
) -> Seq<T>
    decreases n,
{
    if n == 0 {
        Seq::new(volume(dims(scope)), |k: int| spec_nil::<T, A>(w))
    } else {
        let before = tallied::<T, A>(w, scope, samples, (n - 1) as nat);
        let k = flatten(dims(scope), indices(samples[n - 1].0, scope)) as int;
        before.update(k, spec_sum::<T, A>(w, before[k], samples[n - 1].1))
    }
}

/// A tally does not depend on the samples that come after it.
pub proof fn lemma_tallied_prefix<T, A: Arithmetic<T>>(
    w: &A,
    scope: Seq<Variable>,
    samples: Seq<(Map<Variable, usize>, T)>,
    longer: Seq<(Map<Variable, usize>, T)>,
    n: nat,
)
    requires
        n <= samples.len(),
        samples.len() <= longer.len(),
        longer.take(samples.len() as int) == samples,
    ensures
        tallied::<T, A>(w, scope, samples, n) == tallied::<T, A>(w, scope, longer, n),
    decreases n,
{
    if n > 0 {
        lemma_tallied_prefix::<T, A>(w, scope, samples, longer, (n - 1) as nat);
        assert(longer.take(samples.len() as int)[n - 1] == longer[n - 1]);
    }
}

/// `n` entries, all zero.
pub fn zeros<T: Copy, A: Arithmetic<T>>(n: usize, w: &A) -> (data: Vec<T>)
    requires
        exact::<T, A>(w),
    ensures
        data@ == Seq::new(n as nat, |k: int| spec_nil::<T, A>(w)),
{
    filled(n, nil(w))
}

/// Adds the weight `x` to the entry of the assignment `a` in a table over
/// `scope`, if `a` gives every variable of `scope` a state.
pub fn record<T: Copy, A: Arithmetic<T>>(
    data: &mut Vec<T>,
    shape: &Vec<usize>,
    scope: &Vec<Variable>,
    a: &Assignment,
    x: T,
    w: &A,
) -> (done: bool)
    requires
        a.wf(),
        shape@ == dims(scope@),
        old(data)@.len() == volume(shape@),
        exact::<T, A>(w),
    ensures
        done == covers(a@, scope@),
        final(data)@.len() == old(data)@.len(),
        final(data)@ == if done {
            let k = flatten(dims(scope@), indices(a@, scope@)) as int;
            old(data)@.update(k, spec_sum::<T, A>(w, old(data)@[k], x))
        } else {
            old(data)@
        },
{
    let mut idx: Vec<usize> = Vec::new();
    let mut i: usize = 0;
    while i < scope.len()
        invariant
            a.wf(),
            i <= scope@.len(),
            idx@.len() == i,
            forall|j: int| 0 <= j < i ==> a@.contains_key(#[trigger] scope@[j]),
            forall|j: int| 0 <= j < i ==> idx@[j] == a@[scope@[j]] && idx@[j] < scope@[j].spec_cardinality(),
        decreases scope@.len() - i,
    {
        match a.get(&scope[i]) {
            Some(state) => {
                idx.push(*state);
            },
            None => {
                assert(!a@.contains_key(scope@[i as int]));
                return false;
            },
        }
        i += 1;
    }
    proof {
        assert(idx@ =~= indices(a@, scope@));
        assert(in_bounds(dims(scope@), idx@));
    }
    let _ = data.len();
    let k = offset(shape, &idx).unwrap();
    let e = data[k];
    data.set(k, sum(w, e, x));
    true
}

} // verus!
