//! Row-major layout of a dense table: the correspondence between a vector of
//! indices, one per axis, and a position in the flat table. The last axis
//! varies fastest.

use vstd::prelude::*;

verus! {

/// The number of entries of a table with the given extents.
pub open spec fn volume(dims: Seq<usize>) -> nat
    decreases dims.len(),
{
    if dims.len() == 0 {
        1
    } else {
        volume(dims.drop_last()) * (dims.last() as nat)
    }
}

/// Whether `idx` holds one index for each axis, each below the axis's extent.
pub open spec fn in_bounds(dims: Seq<usize>, idx: Seq<usize>) -> bool {
    &&& idx.len() == dims.len()
    &&& forall|i: int| 0 <= i < dims.len() ==> idx[i] < dims[i]
}

/// The position of the entry with indices `idx` in the flat table.
pub open spec fn flatten(dims: Seq<usize>, idx: Seq<usize>) -> nat
    decreases dims.len(),
{
    if dims.len() == 0 || idx.len() != dims.len() {
        0
    } else {
        flatten(dims.drop_last(), idx.drop_last()) * (dims.last() as nat) + (idx.last() as nat)
    }
}

/// The indices of the entry at position `k` of the flat table.
pub open spec fn digits(dims: Seq<usize>, k: nat) -> Seq<usize>
    decreases dims.len(),
{
    if dims.len() == 0 {
        Seq::empty()
    } else if dims.last() == 0 {
        digits(dims.drop_last(), 0).push(0)
    } else {
        digits(dims.drop_last(), k / (dims.last() as nat)).push((k % (dims.last() as nat)) as usize)
    }
}

/// All index vectors of a table, in the order of their positions.
pub open spec fn all_digits(dims: Seq<usize>) -> Seq<Seq<usize>> {
    Seq::new(volume(dims), |k: int| digits(dims, k as nat))
}

/// An index vector has one index for each axis.
pub proof fn lemma_digits_len(dims: Seq<usize>, k: nat)
    ensures
        digits(dims, k).len() == dims.len(),
    decreases dims.len(),
{
    if dims.len() > 0 {
        if dims.last() == 0 {
            lemma_digits_len(dims.drop_last(), 0);
        } else {
            lemma_digits_len(dims.drop_last(), k / (dims.last() as nat));
        }
    }
}

/// A table with an index vector in bounds has no empty axis, and every
/// leading part of it is no larger than the whole.
pub proof fn lemma_volume_prefix(dims: Seq<usize>, n: int)
    requires
        0 <= n <= dims.len(),
        forall|i: int| n <= i < dims.len() ==> dims[i] >= 1,
    ensures
        volume(dims.take(n)) <= volume(dims),
    decreases dims.len() - n,
{
    if n == dims.len() {
        assert(dims.take(n) == dims);
    } else {
        lemma_volume_prefix(dims, n + 1);
        let next = dims.take(n + 1);
        assert(next.drop_last() == dims.take(n));
        assert(next.last() == dims[n]);
        assert(volume(next) == volume(dims.take(n)) * (dims[n] as nat));
        assert(volume(dims.take(n)) <= volume(dims.take(n)) * (dims[n] as nat)) by (nonlinear_arith)
            requires
                dims[n] >= 1,
        ;
    }
}

/// An index vector in bounds lies at a position inside the table.
pub proof fn lemma_flatten_bound(dims: Seq<usize>, idx: Seq<usize>)
    requires
        in_bounds(dims, idx),
    ensures
        flatten(dims, idx) < volume(dims),
    decreases dims.len(),
{
    if dims.len() > 0 {
        let d = dims.drop_last();
        let i = idx.drop_last();
        assert(in_bounds(d, i));
        lemma_flatten_bound(d, i);
        let f = flatten(d, i);
        let v = volume(d);
        let last = dims.last() as nat;
        let x = idx.last() as nat;
        assert(f * last + x < v * last) by (nonlinear_arith)
            requires
                f < v,
                x < last,
        ;
    }
}

/// Every position inside the table has an index vector in bounds, and that
/// vector lies at the position.
pub proof fn lemma_flatten_digits(dims: Seq<usize>, k: nat)
    requires
        k < volume(dims),
    ensures
        in_bounds(dims, digits(dims, k)),
        flatten(dims, digits(dims, k)) == k,
    decreases dims.len(),
{
    lemma_digits_len(dims, k);
    if dims.len() > 0 {
        let d = dims.drop_last();
        let last = dims.last() as nat;
        let v = volume(d);
        assert(last > 0) by (nonlinear_arith)
            requires
                k < v * last,
        ;
        let q = k / last;
        let r = k % last;
        assert(q < v && k == q * last + r && r < last) by (nonlinear_arith)
            requires
                k < v * last,
                last > 0,
                q == k / last,
                r == k % last,
        ;
        lemma_flatten_digits(d, q);
        let all = digits(dims, k);
        assert(all.drop_last() == digits(d, q));
        assert(all.last() == r);
        assert forall|i: int| 0 <= i < dims.len() implies all[i] < dims[i] by {
            if i < dims.len() - 1 {
                assert(all[i] == digits(d, q)[i]);
                assert(dims[i] == d[i]);
            }
        }
    }
}

/// The position of an index vector in bounds gives the vector back.
pub proof fn lemma_digits_flatten(dims: Seq<usize>, idx: Seq<usize>)
    requires
        in_bounds(dims, idx),
    ensures
        digits(dims, flatten(dims, idx)) == idx,
    decreases dims.len(),
{
    if dims.len() == 0 {
        assert(idx =~= Seq::empty());
    } else {
        let d = dims.drop_last();
        let i = idx.drop_last();
        assert(in_bounds(d, i));
        lemma_digits_flatten(d, i);
        let f = flatten(d, i);
        let last = dims.last() as nat;
        let x = idx.last() as nat;
        assert((f * last + x) / last == f && (f * last + x) % last == x) by (nonlinear_arith)
            requires
                x < last,
        ;
        assert(digits(dims, flatten(dims, idx)) =~= idx);
    }
}

/// `n` entries, all equal to `value`.
pub fn filled<T: Copy>(n: usize, value: T) -> (data: Vec<T>)
    ensures
        data@ == Seq::new(n as nat, |k: int| value),
{
    let mut data: Vec<T> = Vec::new();
    let mut k: usize = 0;
    while k < n
        invariant
            k <= n,
            data@ == Seq::new(k as nat, |j: int| value),
        decreases n - k,
    {
        data.push(value);
        proof {
            assert(data@ =~= Seq::new((k + 1) as nat, |j: int| value));
        }
        k += 1;
    }
    data
}

/// The number of entries of a table with the given extents, if it is small
/// enough to be the length of a vector.
pub fn measure(shape: &Vec<usize>) -> (r: Option<usize>)
    ensures
        r == if volume(shape@) <= usize::MAX {
            Some(volume(shape@) as usize)
        } else {
            None
        },
{
    let mut i: usize = 0;
    while i < shape.len()
        invariant
            i <= shape@.len(),
            forall|j: int| 0 <= j < i ==> shape@[j] >= 1,
        decreases shape@.len() - i,
    {
        if shape[i] == 0 {
            proof {
                lemma_volume_zero(shape@, i as int);
            }
            return Some(0);
        }
        i += 1;
    }
    let mut n: usize = 1;
    let mut i: usize = 0;
    while i < shape.len()
        invariant
            i <= shape@.len(),
            forall|j: int| 0 <= j < shape@.len() ==> shape@[j] >= 1,
            n == volume(shape@.take(i as int)),
        decreases shape@.len() - i,
    {
        proof {
            assert(shape@.take(i + 1).drop_last() == shape@.take(i as int));
            lemma_volume_prefix(shape@, i + 1);
        }
        match n.checked_mul(shape[i]) {
            Some(m) => {
                n = m;
            },
            None => {
                return None;
            },
        }
        i += 1;
    }
    proof {
        assert(shape@.take(i as int) == shape@);
    }
    Some(n)
}

/// A table with an empty axis has no entry.
pub proof fn lemma_volume_zero(dims: Seq<usize>, i: int)
    requires
        0 <= i < dims.len(),
        dims[i] == 0,
    ensures
        volume(dims) == 0,
    decreases dims.len(),
{
    if i < dims.len() - 1 {
        lemma_volume_zero(dims.drop_last(), i);
        assert(volume(dims.drop_last()) * (dims.last() as nat) == 0) by (nonlinear_arith)
            requires
                volume(dims.drop_last()) == 0,
        ;
    } else {
        assert(volume(dims.drop_last()) * (dims.last() as nat) == 0) by (nonlinear_arith)
            requires
                dims.last() == 0,
        ;
    }
}

/// The position in the flat table of the entry with the given index vector,
/// if the vector is in bounds.
pub fn offset(shape: &Vec<usize>, idx: &Vec<usize>) -> (r: Option<usize>)
    requires
        volume(shape@) <= usize::MAX,
    ensures
        r == if in_bounds(shape@, idx@) {
            Some(flatten(shape@, idx@) as usize)
        } else {
            None
        },
        in_bounds(shape@, idx@) ==> flatten(shape@, idx@) < volume(shape@),
{
    if idx.len() != shape.len() {
        return None;
    }
    let mut i: usize = 0;
    while i < shape.len()
        invariant
            idx@.len() == shape@.len(),
            i <= shape@.len(),
            forall|j: int| 0 <= j < i ==> idx@[j] < shape@[j],
        decreases shape@.len() - i,
    {
        if idx[i] >= shape[i] {
            return None;
        }
        i += 1;
    }
    proof {
        lemma_flatten_bound(shape@, idx@);
    }
    let mut k: usize = 0;
    let mut i: usize = 0;
    while i < shape.len()
        invariant
            in_bounds(shape@, idx@),
            volume(shape@) <= usize::MAX,
            i <= shape@.len(),
            k == flatten(shape@.take(i as int), idx@.take(i as int)),
        decreases shape@.len() - i,
    {
        proof {
            let d = shape@.take(i + 1);
            let x = idx@.take(i + 1);
            assert(d.drop_last() == shape@.take(i as int));
            assert(x.drop_last() == idx@.take(i as int));
            assert(in_bounds(d, x));
            lemma_flatten_bound(d, x);
            lemma_volume_prefix(shape@, i + 1);
            assert(k * shape@[i as int] + idx@[i as int] == flatten(d, x));
            assert(k * shape@[i as int] <= flatten(d, x));
        }
        k = k * shape[i] + idx[i];
        i += 1;
    }
    proof {
        assert(shape@.take(i as int) == shape@);
        assert(idx@.take(i as int) == idx@);
    }
    Some(k)
}

} // verus!
