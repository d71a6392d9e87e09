//! The max-cardinality heuristic for the order in which variable
//! elimination takes the variables out.

use vstd::prelude::*;
use crate::factor::Factor;
use crate::scope::holds;
use crate::variable::Variable;

verus! {

/// Whether two variables are neighbors: they differ, and the scope of one
/// of `factors` holds both.
pub open spec fn adjacent<T: Copy>(factors: Seq<Factor<T>>, u: Variable, v: Variable) -> bool {
    u != v && exists|i: int|
        0 <= i < factors.len() && (#[trigger] factors[i]).spec_scope().contains(u) && factors[i].spec_scope().contains(v)
}

/// The number of neighbors of `v` among the first `n` of `marked`.
pub open spec fn marked_neighbors<T: Copy>(factors: Seq<Factor<T>>, v: Variable, marked: Seq<Variable>, n: nat) -> nat
    decreases n,
{
    if n == 0 {
        0
    } else {
        marked_neighbors(factors, v, marked, (n - 1) as nat) + if adjacent(factors, v, marked[n - 1]) {
            1nat
        } else {
            0nat
        }
    }
}

/// The number of marked neighbors of `v`.
pub open spec fn score<T: Copy>(factors: Seq<Factor<T>>, v: Variable, marked: Seq<Variable>) -> nat {
    marked_neighbors(factors, v, marked, marked.len())
}

/// Whether the variable at position `b` of `vars` is the one that the
/// heuristic marks next: it is not marked, no unmarked variable has more
/// marked neighbors, and no unmarked variable before it has as many.
pub open spec fn chosen<T: Copy>(factors: Seq<Factor<T>>, vars: Seq<Variable>, marked: Seq<Variable>, b: int) -> bool {
    &&& 0 <= b < vars.len()
    &&& !marked.contains(vars[b])
    &&& forall|j: int|
        0 <= j < vars.len() && !marked.contains(#[trigger] vars[j]) ==> score(factors, vars[j], marked) <= score(
            factors,
            vars[b],
            marked,
        )
    &&& forall|j: int|
        0 <= j < b && !marked.contains(#[trigger] vars[j]) ==> score(factors, vars[j], marked) < score(
            factors,
            vars[b],
            marked,
        )
}

/// Whether the variable at position `k` of `picked` is the one that the
/// heuristic marks after those before it.
pub open spec fn marked_at<T: Copy>(factors: Seq<Factor<T>>, vars: Seq<Variable>, picked: Seq<Variable>, k: int) -> bool {
    exists|b: int| #[trigger] chosen(factors, vars, picked.take(k), b) && vars[b] == picked[k]
}

/// Whether `picked` is the sequence in which the heuristic marks the
/// variables of `vars`, as far as it goes.
pub open spec fn marking<T: Copy>(factors: Seq<Factor<T>>, vars: Seq<Variable>, picked: Seq<Variable>) -> bool {
    forall|k: int| 0 <= k < picked.len() ==> #[trigger] marked_at(factors, vars, picked, k)
}

/// Whether `order` is the max-cardinality elimination order of `vars`: the
/// heuristic marks every variable, and the variable marked last is
/// eliminated first.
pub open spec fn max_cardinality<T: Copy>(factors: Seq<Factor<T>>, vars: Seq<Variable>, order: Seq<Variable>) -> bool {
    &&& order.len() == vars.len()
    &&& marking(factors, vars, order.reverse())
}

/// Whether two variables are neighbors.
pub fn neighbors<T: Copy>(factors: &Vec<Factor<T>>, u: &Variable, v: &Variable) -> (b: bool)
    ensures
        b == adjacent(factors@, *u, *v),
{
    if *u == *v {
        return false;
    }
    let mut i: usize = 0;
    while i < factors.len()
        invariant
            *u != *v,
            i <= factors@.len(),
            forall|j: int|
                0 <= j < i ==> !((#[trigger] factors@[j]).spec_scope().contains(*u) && factors@[j].spec_scope().contains(*v)),
        decreases factors@.len() - i,
    {
        if factors[i].mentions(u) && factors[i].mentions(v) {
            return true;
        }
        i += 1;
    }
    false
}

/// The number of marked neighbors of `v`.
pub fn count_marked<T: Copy>(factors: &Vec<Factor<T>>, v: &Variable, marked: &Vec<Variable>) -> (n: usize)
    ensures
        n == score(factors@, *v, marked@),
{
    let mut n: usize = 0;
    let mut i: usize = 0;
    while i < marked.len()
        invariant
            i <= marked@.len(),
            n <= i,
            n == marked_neighbors(factors@, *v, marked@, i as nat),
        decreases marked@.len() - i,
    {
        if neighbors(factors, v, &marked[i]) {
            n += 1;
        }
        i += 1;
    }
    n
}

/// The number of neighbors among marked variables does not depend on what
/// is marked later.
pub proof fn lemma_marked_neighbors_prefix<T: Copy>(
    factors: Seq<Factor<T>>,
    v: Variable,
    marked: Seq<Variable>,
    longer: Seq<Variable>,
    n: nat,
)
    requires
        n <= marked.len(),
        marked.len() <= longer.len(),
        longer.take(marked.len() as int) == marked,
    ensures
        marked_neighbors(factors, v, marked, n) == marked_neighbors(factors, v, longer, n),
    decreases n,
{
    if n > 0 {
        lemma_marked_neighbors_prefix(factors, v, marked, longer, (n - 1) as nat);
        assert(longer.take(marked.len() as int)[n - 1] == longer[n - 1]);
    }
}

/// The position in `vars` of the variable that the heuristic marks next, if
/// a variable is left to mark.
pub fn pick<T: Copy>(factors: &Vec<Factor<T>>, vars: &Vec<Variable>, marked: &Vec<Variable>) -> (r: Option<usize>)
    ensures
        match r {
            Some(b) => chosen(factors@, vars@, marked@, b as int),
            None => forall|j: int| 0 <= j < vars@.len() ==> marked@.contains(#[trigger] vars@[j]),
        },
{
    let mut best: Option<(usize, usize)> = None;
    let mut j: usize = 0;
    while j < vars.len()
        invariant
            j <= vars@.len(),
            match best {
                Some((b, most)) => {
                    &&& b < j
                    &&& most == score(factors@, vars@[b as int], marked@)
                    &&& !marked@.contains(vars@[b as int])
                    &&& forall|k: int|
                        0 <= k < j && !marked@.contains(#[trigger] vars@[k]) ==> score(factors@, vars@[k], marked@) <= most
                    &&& forall|k: int|
                        0 <= k < b && !marked@.contains(#[trigger] vars@[k]) ==> score(factors@, vars@[k], marked@) < most
                },
                None => forall|k: int| 0 <= k < j ==> marked@.contains(#[trigger] vars@[k]),
            },
        decreases vars@.len() - j,
    {
        if !holds(marked, &vars[j]) {
            let ct = count_marked(factors, &vars[j], marked);
            match best {
                Some((_, most)) => {
                    if ct > most {
                        best = Some((j, ct));
                    }
                },
                None => {
                    best = Some((j, ct));
                },
            }
        }
        j += 1;
    }
    match best {
        Some((b, _)) => Some(b),
        None => None,
    }
}

/// The max-cardinality elimination order of `vars`: the heuristic marks, one
/// after another, the unmarked variable with the most marked neighbors, the
/// first of them in `vars` if there are several, and the variables are
/// eliminated in the reverse of the order in which they were marked.
pub fn max_cardinality_elimination_order<T: Copy>(factors: &Vec<Factor<T>>, vars: &Vec<Variable>) -> (order: Vec<
    Variable,
>)
    requires
        vars@.no_duplicates(),
    ensures
        max_cardinality(factors@, vars@, order@),
        order@.no_duplicates(),
        forall|v: Variable| order@.contains(v) <==> vars@.contains(v),
{
    let mut marked: Vec<Variable> = Vec::new();
    let mut round: usize = 0;
    while round < vars.len()
        invariant
            vars@.no_duplicates(),
            round <= vars@.len(),
            marked@.len() == round,
            marked@.no_duplicates(),
            forall|i: int| 0 <= i < marked@.len() ==> vars@.contains(#[trigger] marked@[i]),
            marking(factors@, vars@, marked@),
        decreases vars@.len() - round,
    {
        let ghost before = marked@;
        match pick(factors, vars, &marked) {
            Some(b) => {
                marked.push(vars[b]);
                proof {
                    assert(vars@.contains(vars@[b as int]));
                    assert forall|k: int| 0 <= k < marked@.len() implies #[trigger] marked_at(factors@, vars@, marked@, k) by {
                        if k < before.len() {
                            assert(marked_at(factors@, vars@, before, k));
                            let c = choose|c: int| #[trigger] chosen(factors@, vars@, before.take(k), c) && vars@[c] == before[k];
                            assert(marked@.take(k) == before.take(k));
                            assert(chosen(factors@, vars@, marked@.take(k), c) && vars@[c] == marked@[k]);
                        } else {
                            assert(marked@.take(k) == before);
                            assert(chosen(factors@, vars@, marked@.take(k), b as int) && vars@[b as int] == marked@[k]);
                        }
                    }
                }
            },
            None => {
                proof {
                    lemma_all_marked(vars@, marked@);
                }
            },
        }
        round += 1;
    }
    let mut order: Vec<Variable> = Vec::new();
    let mut i: usize = marked.len();
    while i > 0
        invariant
            i <= marked@.len(),
            order@.len() == marked@.len() - i,
            forall|k: int| 0 <= k < order@.len() ==> order@[k] == marked@[marked@.len() - 1 - k],
        decreases i,
    {
        i -= 1;
        order.push(marked[i]);
    }
    proof {
        assert(order@.reverse() =~= marked@);
        assert forall|v: Variable| order@.contains(v) <==> marked@.contains(v) by {
            if order@.contains(v) {
                let k = choose|k: int| 0 <= k < order@.len() && order@[k] == v;
                assert(marked@[marked@.len() - 1 - k] == v);
            }
            if marked@.contains(v) {
                let k = choose|k: int| 0 <= k < marked@.len() && marked@[k] == v;
                assert(order@[marked@.len() - 1 - k] == v);
            }
        }
        lemma_covering(vars@, marked@);
    }
    order
}

/// Distinct variables that are all marked are no more than the marked
/// variables.
pub proof fn lemma_all_marked(vars: Seq<Variable>, marked: Seq<Variable>)
    requires
        vars.no_duplicates(),
        forall|j: int| 0 <= j < vars.len() ==> marked.contains(#[trigger] vars[j]),
    ensures
        vars.len() <= marked.len(),
{
    vars.unique_seq_to_set();
    marked.lemma_cardinality_of_set();
    assert(vars.to_set().subset_of(marked.to_set())) by {
        assert forall|v: Variable| vars.to_set().contains(v) implies marked.to_set().contains(v) by {
            let j = choose|j: int| 0 <= j < vars.len() && vars[j] == v;
            assert(marked.contains(vars[j]));
        }
    }
    vstd::set_lib::lemma_len_subset(vars.to_set(), marked.to_set());
}

/// As many distinct marked variables as there are variables, all of them
/// among the variables, are all the variables.
pub proof fn lemma_covering(vars: Seq<Variable>, marked: Seq<Variable>)
    requires
        vars.no_duplicates(),
        marked.no_duplicates(),
        marked.len() == vars.len(),
        forall|i: int| 0 <= i < marked.len() ==> vars.contains(#[trigger] marked[i]),
    ensures
        forall|v: Variable| marked.contains(v) <==> vars.contains(v),
{
    vars.unique_seq_to_set();
    marked.unique_seq_to_set();
    assert(marked.to_set().subset_of(vars.to_set())) by {
        assert forall|v: Variable| marked.to_set().contains(v) implies vars.to_set().contains(v) by {
            let j = choose|j: int| 0 <= j < marked.len() && marked[j] == v;
            assert(vars.contains(marked[j]));
        }
    }
    vstd::set_lib::lemma_subset_equality(marked.to_set(), vars.to_set());
    assert forall|v: Variable| marked.contains(v) <==> vars.contains(v) by {
        assert(marked.to_set().contains(v) <==> vars.to_set().contains(v));
    }
}

} // verus!
