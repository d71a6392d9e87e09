//! Variable elimination gives one answer: whatever factors it goes through,
//! two runs on the same factors in the same order for the same query end
//! with the same outcome.

use vstd::prelude::*;
use crate::factor::{axis_total, Factor, is_normalized, is_product};
use crate::inference::variable_elimination::{
    alike, answers, eliminated, kept, multiplied, normalized_from, pool_scope, pooled, run, summed_out,
    taken, trail, unpoolable,
};
use crate::layout::volume;
use crate::scope::{assignment_at, lemma_assignment_at};
use crate::util::JeromeError;
use crate::variable::{dims, Variable};
use crate::weight::Arithmetic;

verus! {

/// Whether two outcomes are the same: factors with the same scope, entries
/// and mark, or errors of the same kind.
pub open spec fn same_outcome<T: Copy>(r1: Result<Factor<T>, JeromeError>, r2: Result<Factor<T>, JeromeError>) -> bool {
    match (r1, r2) {
        (Ok(f1), Ok(f2)) => f1.matches(&f2),
        (Err(e1), Err(e2)) => (e1 is InvalidScope <==> e2 is InvalidScope) && (e1 is DivideByZero <==> e2
            is DivideByZero),
        _ => false,
    }
}

/// A valid factor has the entry of each position under the assignment at
/// that position.
pub proof fn lemma_entry_at<T: Copy>(f: &Factor<T>, k: int)
    requires
        f.wf(),
        !f.spec_is_identity(),
        0 <= k < f.entries().len(),
    ensures
        f.at(assignment_at(f.spec_scope(), k as nat)) == f.entries()[k],
{
    lemma_assignment_at(f.spec_scope(), k as nat);
}

/// Two valid factors over the same scope with the same entry under every
/// assignment have the same entries.
pub proof fn lemma_same_entries<T: Copy>(f1: &Factor<T>, f2: &Factor<T>)
    requires
        f1.wf(),
        f2.wf(),
        !f1.spec_is_identity(),
        !f2.spec_is_identity(),
        f1.spec_scope() == f2.spec_scope(),
        forall|k: int|
            0 <= k < volume(dims(f1.spec_scope())) ==> f1.at(#[trigger] assignment_at(f1.spec_scope(), k as nat)) == f2.at(
                assignment_at(f1.spec_scope(), k as nat),
            ),
    ensures
        f1.entries() == f2.entries(),
{
    assert forall|k: int| 0 <= k < f1.entries().len() implies f1.entries()[k] == f2.entries()[k] by {
        lemma_entry_at(f1, k);
        lemma_entry_at(f2, k);
        let a = assignment_at(f1.spec_scope(), k as nat);
        assert(f1.at(a) == f2.at(a));
    }
    assert(f1.entries() =~= f2.entries());
}

/// The product of two factors is one factor.
pub proof fn lemma_product_unique<T: Copy, A: Arithmetic<T>>(
    w: &A,
    f1: &Factor<T>,
    f2: &Factor<T>,
    g1: &Factor<T>,
    h1: &Factor<T>,
    g2: &Factor<T>,
    h2: &Factor<T>,
)
    requires
        g1.matches(g2),
        h1.matches(h2),
        is_product::<T, A>(w, f1, g1, h1),
        is_product::<T, A>(w, f2, g2, h2),
    ensures
        f1.matches(f2),
{
    let s = f1.spec_scope();
    assert forall|k: int| 0 <= k < volume(dims(s)) implies f1.at(#[trigger] assignment_at(s, k as nat)) == f2.at(
        assignment_at(s, k as nat),
    ) by {
        let a = assignment_at(s, k as nat);
        lemma_assignment_at(s, k as nat);
        assert(g1.at(a) == g2.at(a));
        assert(h1.at(a) == h2.at(a));
    }
    lemma_same_entries(f1, f2);
}

/// Multiplying factors that are the same gives factors that are the same.
pub proof fn lemma_multiplied_unique<T: Copy, A: Arithmetic<T>>(
    w: &A,
    g1: &Factor<T>,
    h1: &Factor<T>,
    f1: &Factor<T>,
    g2: &Factor<T>,
    h2: &Factor<T>,
    f2: &Factor<T>,
)
    requires
        g1.matches(g2),
        h1.matches(h2),
        multiplied::<T, A>(w, g1, h1, f1),
        multiplied::<T, A>(w, g2, h2, f2),
    ensures
        f1.matches(f2),
{
    if !g1.spec_is_identity() && !h1.spec_is_identity() {
        lemma_product_unique::<T, A>(w, f1, f2, g1, h1, g2, h2);
    }
}

/// Multiplying up factors that are the same gives factors that are the
/// same at every step.
pub proof fn lemma_trail_unique<T: Copy, A: Arithmetic<T>>(
    w: &A,
    fs1: Seq<Factor<T>>,
    lhs: Seq<Factor<T>>,
    fs2: Seq<Factor<T>>,
    rhs: Seq<Factor<T>>,
    n: int,
)
    requires
        alike(fs1, fs2),
        trail::<T, A>(w, fs1, lhs),
        trail::<T, A>(w, fs2, rhs),
        0 <= n <= fs1.len(),
    ensures
        lhs[n].matches(&rhs[n]),
    decreases n,
{
    if n > 0 {
        lemma_trail_unique::<T, A>(w, fs1, lhs, fs2, rhs, n - 1);
        assert(multiplied::<T, A>(w, &lhs[n - 1], &fs1[n - 1], &lhs[n - 1 + 1]));
        assert(multiplied::<T, A>(w, &rhs[n - 1], &fs2[n - 1], &rhs[n - 1 + 1]));
        assert(fs1[n - 1].matches(&fs2[n - 1]));
        lemma_multiplied_unique::<T, A>(w, &lhs[n - 1], &fs1[n - 1], &lhs[n], &rhs[n - 1], &fs2[n - 1], &rhs[n]);
    }
}

/// The product of factors that are the same is the same.
pub proof fn lemma_pooled_unique<T: Copy, A: Arithmetic<T>>(
    w: &A,
    fs1: Seq<Factor<T>>,
    f1: &Factor<T>,
    fs2: Seq<Factor<T>>,
    f2: &Factor<T>,
)
    requires
        alike(fs1, fs2),
        pooled::<T, A>(w, fs1, f1),
        pooled::<T, A>(w, fs2, f2),
    ensures
        f1.matches(f2),
{
    let lhs = choose|p: Seq<Factor<T>>| #[trigger] trail::<T, A>(w, fs1, p) && p.last() == *f1;
    let rhs = choose|p: Seq<Factor<T>>| #[trigger] trail::<T, A>(w, fs2, p) && p.last() == *f2;
    lemma_trail_unique::<T, A>(w, fs1, lhs, fs2, rhs, fs1.len() as int);
}

/// The sum over an axis of factors that are the same is the same.
pub proof fn lemma_axis_total_same<T: Copy, A: Arithmetic<T>>(
    w: &A,
    g1: &Factor<T>,
    g2: &Factor<T>,
    a: Map<Variable, usize>,
    v: Variable,
    n: nat,
)
    requires
        g1.matches(g2),
    ensures
        axis_total::<T, A>(w, g1, a, v, n) == axis_total::<T, A>(w, g2, a, v, n),
    decreases n,
{
    if n > 0 {
        lemma_axis_total_same::<T, A>(w, g1, g2, a, v, (n - 1) as nat);
        assert(g1.at(a.insert(v, (n - 1) as usize)) == g2.at(a.insert(v, (n - 1) as usize)));
    }
}

/// Summing factors that are the same over a variable gives factors that
/// are the same.
pub proof fn lemma_summed_out_unique<T: Copy, A: Arithmetic<T>>(
    w: &A,
    g1: &Factor<T>,
    t1: &Factor<T>,
    g2: &Factor<T>,
    t2: &Factor<T>,
    v: Variable,
)
    requires
        g1.matches(g2),
        summed_out::<T, A>(w, g1, v, t1),
        summed_out::<T, A>(w, g2, v, t2),
    ensures
        t1.matches(t2),
{
    if !g1.spec_is_identity() && g1.spec_scope().contains(v) && g1.spec_scope().len() != 1 {
        let s = t1.spec_scope();
        assert forall|k: int| 0 <= k < volume(dims(s)) implies t1.at(#[trigger] assignment_at(s, k as nat)) == t2.at(
            assignment_at(s, k as nat),
        ) by {
            let a = assignment_at(s, k as nat);
            lemma_assignment_at(s, k as nat);
            lemma_axis_total_same::<T, A>(w, g1, g2, a, v, v.spec_cardinality() as nat);
        }
        lemma_same_entries(t1, t2);
    }
}

/// Working sets that are alike are split alike.
pub proof fn lemma_split_alike<T: Copy>(b1: Seq<Factor<T>>, b2: Seq<Factor<T>>, v: Variable, n: nat)
    requires
        alike(b1, b2),
        n <= b1.len(),
    ensures
        alike(taken(b1, v, n), taken(b2, v, n)),
        alike(kept(b1, v, n), kept(b2, v, n)),
    decreases n,
{
    if n > 0 {
        lemma_split_alike(b1, b2, v, (n - 1) as nat);
        assert(b1[n - 1].matches(&b2[n - 1]));
        let t1 = taken(b1, v, n);
        let t2 = taken(b2, v, n);
        let k1 = kept(b1, v, n);
        let k2 = kept(b2, v, n);
        let t1b = taken(b1, v, (n - 1) as nat);
        let t2b = taken(b2, v, (n - 1) as nat);
        let k1b = kept(b1, v, (n - 1) as nat);
        let k2b = kept(b2, v, (n - 1) as nat);
        assert forall|i: int| 0 <= i < t1.len() implies (#[trigger] t1[i]).matches(&t2[i]) by {
            if i < t1b.len() {
                assert(t1b[i].matches(&t2b[i]));
            }
        }
        assert forall|i: int| 0 <= i < k1.len() implies (#[trigger] k1[i]).matches(&k2[i]) by {
            if i < k1b.len() {
                assert(k1b[i].matches(&k2b[i]));
            }
        }
    }
}

/// Eliminating a variable from working sets that are alike gives working
/// sets that are alike.
pub proof fn lemma_eliminated_unique<T: Copy, A: Arithmetic<T>>(
    w: &A,
    b1: Seq<Factor<T>>,
    a1: Seq<Factor<T>>,
    b2: Seq<Factor<T>>,
    a2: Seq<Factor<T>>,
    v: Variable,
)
    requires
        alike(b1, b2),
        eliminated::<T, A>(w, b1, v, a1),
        eliminated::<T, A>(w, b2, v, a2),
    ensures
        alike(a1, a2),
{
    let (psi1, tau1) = choose|psi: Factor<T>, tau: Factor<T>|
        #![trigger pooled::<T, A>(w, taken(b1, v, b1.len()), &psi), summed_out::<T, A>(w, &psi, v, &tau)]
        pooled::<T, A>(w, taken(b1, v, b1.len()), &psi) && summed_out::<T, A>(w, &psi, v, &tau) && a1 == kept(
            b1,
            v,
            b1.len(),
        ).push(tau);
    let (psi2, tau2) = choose|psi: Factor<T>, tau: Factor<T>|
        #![trigger pooled::<T, A>(w, taken(b2, v, b2.len()), &psi), summed_out::<T, A>(w, &psi, v, &tau)]
        pooled::<T, A>(w, taken(b2, v, b2.len()), &psi) && summed_out::<T, A>(w, &psi, v, &tau) && a2 == kept(
            b2,
            v,
            b2.len(),
        ).push(tau);
    lemma_split_alike(b1, b2, v, b1.len());
    lemma_pooled_unique::<T, A>(w, taken(b1, v, b1.len()), &psi1, taken(b2, v, b2.len()), &psi2);
    lemma_summed_out_unique::<T, A>(w, &psi1, &tau1, &psi2, &tau2, v);
    let k1 = kept(b1, v, b1.len());
    let k2 = kept(b2, v, b2.len());
    assert forall|i: int| 0 <= i < a1.len() implies (#[trigger] a1[i]).matches(&a2[i]) by {
        if i < k1.len() {
            assert(k1[i].matches(&k2[i]));
        }
    }
}

/// Two runs of variable elimination go through working sets that are alike.
pub proof fn lemma_run_unique<T: Copy, A: Arithmetic<T>>(
    w: &A,
    start: Seq<Factor<T>>,
    order: Seq<Variable>,
    query: Seq<Variable>,
    s1: Seq<Seq<Factor<T>>>,
    s2: Seq<Seq<Factor<T>>>,
    n: int,
)
    requires
        run::<T, A>(w, start, order, query, s1),
        run::<T, A>(w, start, order, query, s2),
        0 <= n <= order.len(),
    ensures
        alike(s1[n], s2[n]),
    decreases n,
{
    if n == 0 {
        assert forall|i: int| 0 <= i < s1[0].len() implies (#[trigger] s1[0][i]).matches(&s2[0][i]) by {
            assert(s1[0][i].matches(&start[i]));
            assert(s2[0][i].matches(&start[i]));
        }
    } else {
        lemma_run_unique::<T, A>(w, start, order, query, s1, s2, n - 1);
        let v = order[n - 1];
        assert(s1[n - 1 + 1] == s1[n]);
        if !query.contains(v) {
            lemma_eliminated_unique::<T, A>(w, s1[n - 1], s1[n], s2[n - 1], s2[n], v);
        }
    }
}

/// Working sets that are alike have products over the same scope, and can
/// be multiplied or not alike.
pub proof fn lemma_pool_scope_alike<T: Copy>(fs1: Seq<Factor<T>>, fs2: Seq<Factor<T>>, n: nat)
    requires
        alike(fs1, fs2),
        n <= fs1.len(),
    ensures
        pool_scope(fs1, n) == pool_scope(fs2, n),
    decreases n,
{
    if n > 0 {
        lemma_pool_scope_alike(fs1, fs2, (n - 1) as nat);
        assert(fs1[n - 1].matches(&fs2[n - 1]));
    }
}

/// Working sets that are alike can be multiplied or not alike.
pub proof fn lemma_unpoolable_alike<T: Copy>(fs1: Seq<Factor<T>>, fs2: Seq<Factor<T>>)
    requires
        alike(fs1, fs2),
        unpoolable(fs1, fs1.len()),
    ensures
        unpoolable(fs2, fs2.len()),
{
    let m = choose|m: int|
        0 <= m < fs1.len() && pool_scope(fs1, m as nat).len() > 0 && (#[trigger] fs1[m]).spec_scope().len() > 0
            && crate::scope::disjoint(pool_scope(fs1, m as nat), fs1[m].spec_scope());
    lemma_pool_scope_alike(fs1, fs2, m as nat);
    assert(fs1[m].matches(&fs2[m]));
    assert(pool_scope(fs2, m as nat).len() > 0 && fs2[m].spec_scope().len() > 0 && crate::scope::disjoint(
        pool_scope(fs2, m as nat),
        fs2[m].spec_scope(),
    ));
}

/// Normalizing factors that are the same has the same outcome.
pub proof fn lemma_normalized_unique<T: Copy, A: Arithmetic<T>>(
    w: &A,
    g1: &Factor<T>,
    r1: Result<Factor<T>, JeromeError>,
    g2: &Factor<T>,
    r2: Result<Factor<T>, JeromeError>,
)
    requires
        g1.matches(g2),
        normalized_from::<T, A>(w, g1, r1),
        normalized_from::<T, A>(w, g2, r2),
    ensures
        same_outcome(r1, r2),
{
    if r1 is Ok && r2 is Ok && !g1.spec_is_identity() {
        let f1 = r1->Ok_0;
        let f2 = r2->Ok_0;
        assert(is_normalized::<T, A>(w, &f1, g1));
        assert(is_normalized::<T, A>(w, &f2, g2));
        assert(f1.entries() =~= f2.entries());
    }
}

/// Variable elimination gives one answer: two outcomes that answer the same
/// query on the same factors in the same order are the same.
pub proof fn lemma_answers_unique<T: Copy, A: Arithmetic<T>>(
    w: &A,
    start: Seq<Factor<T>>,
    order: Seq<Variable>,
    query: Seq<Variable>,
    r1: Result<Factor<T>, JeromeError>,
    r2: Result<Factor<T>, JeromeError>,
)
    requires
        answers::<T, A>(w, start, order, query, r1),
        answers::<T, A>(w, start, order, query, r2),
    ensures
        same_outcome(r1, r2),
{
    let s1 = choose|s: Seq<Seq<Factor<T>>>|
        #[trigger] run::<T, A>(w, start, order, query, s) && if unpoolable(s.last(), s.last().len()) {
            r1 is Err && r1->Err_0 is InvalidScope
        } else {
            exists|g: Factor<T>| #[trigger] pooled::<T, A>(w, s.last(), &g) && normalized_from::<T, A>(w, &g, r1)
        };
    let s2 = choose|s: Seq<Seq<Factor<T>>>|
        #[trigger] run::<T, A>(w, start, order, query, s) && if unpoolable(s.last(), s.last().len()) {
            r2 is Err && r2->Err_0 is InvalidScope
        } else {
            exists|g: Factor<T>| #[trigger] pooled::<T, A>(w, s.last(), &g) && normalized_from::<T, A>(w, &g, r2)
        };
    lemma_run_unique::<T, A>(w, start, order, query, s1, s2, order.len() as int);
    let l1 = s1.last();
    let l2 = s2.last();
    assert(alike(l1, l2));
    assert(alike(l2, l1)) by {
        assert forall|i: int| 0 <= i < l2.len() implies (#[trigger] l2[i]).matches(&l1[i]) by {
            assert(l1[i].matches(&l2[i]));
        }
    }
    if unpoolable(l1, l1.len()) {
        lemma_unpoolable_alike(l1, l2);
    } else if unpoolable(l2, l2.len()) {
        lemma_unpoolable_alike(l2, l1);
    } else {
        let g1 = choose|g: Factor<T>| #[trigger] pooled::<T, A>(w, l1, &g) && normalized_from::<T, A>(w, &g, r1);
        let g2 = choose|g: Factor<T>| #[trigger] pooled::<T, A>(w, l2, &g) && normalized_from::<T, A>(w, &g, r2);
        lemma_pooled_unique::<T, A>(w, l1, &g1, l2, &g2);
        lemma_normalized_unique::<T, A>(w, &g1, r1, &g2, r2);
    }
}

} // verus!
