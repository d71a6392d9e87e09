//! Rows of a flat table: runs of as many entries as the last variable of
//! the scope has states.

use vstd::prelude::*;
use crate::weight::{
    Arithmetic, close, exact, nil, quotient, same, spec_close, spec_nil, spec_quotient, spec_same,
    spec_unit, sum, total, unit,
};

verus! {

/// The row at position `r` of a table whose rows have `c` entries each.
pub open spec fn row<T>(entries: Seq<T>, r: int, c: int) -> Seq<T> {
    entries.subrange(r * c, r * c + c)
}

/// Whether every full row of `c` entries sums to one within the tolerance
/// of `w`.
pub open spec fn rows_normalized<T, A: Arithmetic<T>>(w: &A, entries: Seq<T>, c: int) -> bool {
    forall|r: int|
        0 <= r && (r + 1) * c <= entries.len() ==> spec_close::<T, A>(
            w,
            total::<T, A>(w, #[trigger] row(entries, r, c)),
            spec_unit::<T, A>(w),
        )
}

/// Whether no full row of `c` entries sums to zero.
pub open spec fn rows_have_mass<T, A: Arithmetic<T>>(w: &A, entries: Seq<T>, c: int) -> bool {
    forall|r: int|
        0 <= r && (r + 1) * c <= entries.len() ==> !spec_same::<T, A>(
            w,
            total::<T, A>(w, #[trigger] row(entries, r, c)),
            spec_nil::<T, A>(w),
        )
}

/// Every entry of `table` divided by the sum of its row of `c` entries.
pub open spec fn shares<T, A: Arithmetic<T>>(w: &A, table: Seq<T>, c: int) -> Seq<T> {
    Seq::new(table.len(), |k: int| spec_quotient::<T, A>(w, table[k], total::<T, A>(w, row(table, k / c, c))))
}

/// Whether every full row of `c` entries of `values` sums to one.
pub fn rows_pass<T: Copy, A: Arithmetic<T>>(values: &Vec<T>, c: usize, w: &A) -> (b: bool)
    requires
        c >= 1,
        exact::<T, A>(w),
    ensures
        b == rows_normalized::<T, A>(w, values@, c as int),
{
    let one = unit(w);
    let len = values.len();
    let mut start: usize = 0;
    let ghost mut r: int = 0;
    while len - start >= c
        invariant
            c >= 1,
            exact::<T, A>(w),
            one == spec_unit::<T, A>(w),
            len == values@.len(),
            0 <= r,
            start == r * c,
            start <= len,
            forall|q: int| 0 <= q < r ==> spec_close::<T, A>(w, total::<T, A>(w, #[trigger] row(values@, q, c as int)), one),
        decreases len - start,
    {
        let ghost this = row(values@, r, c as int);
        let mut mass = nil(w);
        let mut j: usize = 0;
        while j < c
            invariant
                exact::<T, A>(w),
                len == values@.len(),
                start + c <= len,
                this == values@.subrange(start as int, start + c),
                j <= c,
                mass == total::<T, A>(w, this.take(j as int)),
            decreases c - j,
        {
            proof {
                assert(this.take(j + 1).drop_last() == this.take(j as int));
                assert(this.take(j + 1).last() == values@[start + j]);
            }
            mass = sum(w, mass, values[start + j]);
            j += 1;
        }
        proof {
            assert(this.take(j as int) == this);
            assert((r + 1) * c == start + c) by (nonlinear_arith)
                requires
                    start == r * c,
            ;
        }
        if !close(w, mass, one) {
            return false;
        }
        start = start + c;
        proof {
            r = r + 1;
        }
    }
    proof {
        assert forall|q: int| 0 <= q && (q + 1) * c <= values@.len() implies spec_close::<T, A>(
            w,
            total::<T, A>(w, #[trigger] row(values@, q, c as int)),
            one,
        ) by {
            if q >= r {
                assert((q + 1) * c >= (r + 1) * c) by (nonlinear_arith)
                    requires
                        q >= r,
                        c >= 1,
                ;
                assert((r + 1) * c == r * c + c) by (nonlinear_arith);
            }
        }
    }
    true
}

/// Whether no full row of `c` entries of `values` sums to zero.
pub fn rows_with_mass<T: Copy, A: Arithmetic<T>>(values: &Vec<T>, c: usize, w: &A) -> (b: bool)
    requires
        c >= 1,
        exact::<T, A>(w),
    ensures
        b == rows_have_mass::<T, A>(w, values@, c as int),
{
    let zero = nil(w);
    let len = values.len();
    let mut start: usize = 0;
    let ghost mut r: int = 0;
    while len - start >= c
        invariant
            c >= 1,
            exact::<T, A>(w),
            zero == spec_nil::<T, A>(w),
            len == values@.len(),
            0 <= r,
            start == r * c,
            start <= len,
            forall|q: int|
                0 <= q < r ==> !spec_same::<T, A>(w, total::<T, A>(w, #[trigger] row(values@, q, c as int)), zero),
        decreases len - start,
    {
        let ghost this = row(values@, r, c as int);
        let mut mass = nil(w);
        let mut j: usize = 0;
        while j < c
            invariant
                exact::<T, A>(w),
                len == values@.len(),
                start + c <= len,
                this == values@.subrange(start as int, start + c),
                j <= c,
                mass == total::<T, A>(w, this.take(j as int)),
            decreases c - j,
        {
            proof {
                assert(this.take(j + 1).drop_last() == this.take(j as int));
                assert(this.take(j + 1).last() == values@[start + j]);
            }
            mass = sum(w, mass, values[start + j]);
            j += 1;
        }
        proof {
            assert(this.take(j as int) == this);
            assert((r + 1) * c == start + c) by (nonlinear_arith)
                requires
                    start == r * c,
            ;
        }
        if same(w, mass, zero) {
            return false;
        }
        start = start + c;
        proof {
            r = r + 1;
        }
    }
    proof {
        assert forall|q: int| 0 <= q && (q + 1) * c <= values@.len() implies !spec_same::<T, A>(
            w,
            total::<T, A>(w, #[trigger] row(values@, q, c as int)),
            zero,
        ) by {
            if q >= r {
                assert((q + 1) * c >= (r + 1) * c) by (nonlinear_arith)
                    requires
                        q >= r,
                        c >= 1,
                ;
                assert((r + 1) * c == r * c + c) by (nonlinear_arith);
            }
        }
    }
    true
}

/// Every entry of `values`, which are full rows of `c` entries, divided by
/// the sum of its row.
pub fn shares_of<T: Copy, A: Arithmetic<T>>(values: &Vec<T>, c: usize, w: &A) -> (r: Vec<T>)
    requires
        c >= 1,
        values@.len() % (c as nat) == 0,
        exact::<T, A>(w),
    ensures
        r@ == shares::<T, A>(w, values@, c as int),
{
    let len = values.len();
    let ghost table = values@;
    let ghost rows = (len as int) / (c as int);
    proof {
        let n = len as int;
        let width = c as int;
        assert(n == rows * width) by (nonlinear_arith)
            requires
                width >= 1,
                n % width == 0,
                rows == n / width,
        ;
    }
    let mut entries: Vec<T> = Vec::new();
    let mut start: usize = 0;
    let ghost mut r: int = 0;
    while len - start >= c
        invariant
            c >= 1,
            exact::<T, A>(w),
            table == values@,
            len == table.len(),
            len == rows * c,
            0 <= r <= rows,
            start == r * c,
            start <= len,
            entries@.len() == start,
            forall|k: int| 0 <= k < start ==> #[trigger] entries@[k] == shares::<T, A>(w, table, c as int)[k],
        decreases len - start,
    {
        let ghost this = row(table, r, c as int);
        proof {
            assert(r < rows) by (nonlinear_arith)
                requires
                    rows * c - r * c >= c,
                    c >= 1,
            ;
            assert((r + 1) * c == r * c + c) by (nonlinear_arith);
        }
        let mut mass = nil(w);
        let mut j: usize = 0;
        while j < c
            invariant
                exact::<T, A>(w),
                table == values@,
                len == table.len(),
                start + c <= table.len(),
                this == table.subrange(start as int, start + c),
                j <= c,
                mass == total::<T, A>(w, this.take(j as int)),
            decreases c - j,
        {
            proof {
                assert(this.take(j + 1).drop_last() == this.take(j as int));
                assert(this.take(j + 1).last() == table[start + j]);
            }
            mass = sum(w, mass, values[start + j]);
            j += 1;
        }
        proof {
            assert(this.take(j as int) == this);
        }
        let mut j: usize = 0;
        while j < c
            invariant
                exact::<T, A>(w),
                table == values@,
                len == table.len(),
                c >= 1,
                0 <= r,
                start == r * c,
                start + c <= table.len(),
                mass == total::<T, A>(w, row(table, r, c as int)),
                j <= c,
                entries@.len() == start + j,
                forall|k: int| 0 <= k < start + j ==> #[trigger] entries@[k] == shares::<T, A>(w, table, c as int)[k],
            decreases c - j,
        {
            proof {
                let k = start + j;
                let width = c as int;
                assert(k / width == r) by (nonlinear_arith)
                    requires
                        k == r * width + j,
                        0 <= j < width,
                        0 <= r,
                ;
            }
            let ghost before = entries@;
            entries.push(quotient(w, values[start + j], mass));
            proof {
                assert forall|k: int| 0 <= k < start + j + 1 implies #[trigger] entries@[k] == shares::<T, A>(
                    w,
                    table,
                    c as int,
                )[k] by {
                    if k < start + j {
                        assert(entries@[k] == before[k]);
                    }
                }
            }
            j += 1;
        }
        start = start + c;
        proof {
            r = r + 1;
        }
    }
    proof {
        assert(r == rows) by (nonlinear_arith)
            requires
                rows * c - r * c < c,
                0 <= r <= rows,
                c >= 1,
        ;
        assert(entries@ =~= shares::<T, A>(w, table, c as int));
    }
    entries
}

} // verus!
