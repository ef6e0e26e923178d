//! Promises of blocks of rows and their boxes.

use crate::kernel::{bounds, written};
use crate::layout::{attained, lemma_row_at, rows_of, swapped};
use crate::scalar::Scalar;
use vstd::prelude::*;

verus! {

/// Row `i` of a flat array is its values from place `i * ndim` on, as many as there
/// are axes.
pub proof fn a_row_is_a_run_of_values<T>(flat: Seq<T>, n: int, ndim: int, i: int, d: int)
    requires
        0 < ndim,
        flat.len() == n * ndim,
        0 <= i < n,
        0 <= d < ndim,
    ensures
        rows_of(flat, ndim).len() == n,
        rows_of(flat, ndim)[i].len() == ndim,
        rows_of(flat, ndim)[i][d] == flat[i * ndim + d],
{
    lemma_row_at(flat, n, ndim, i);
}

/// Exchanging two rows puts each in the place of the other and moves nothing else.
pub proof fn two_rows_are_exchanged<T>(rows: Seq<T>, a: int, b: int, i: int)
    requires
        0 <= a < rows.len(),
        0 <= b < rows.len(),
        0 <= i < rows.len(),
    ensures
        swapped(rows, a, b).len() == rows.len(),
        swapped(rows, a, b)[a] == rows[b],
        swapped(rows, a, b)[b] == rows[a],
        i != a && i != b ==> swapped(rows, a, b)[i] == rows[i],
{
}

/// The corners of the box of some rows are, along every axis, the least and the
/// greatest of their coordinates. Those of the box of no rows are the infinities, the
/// greater one first.
pub proof fn corners_are_the_least_and_the_greatest<S: Scalar>(
    lo: Seq<S>,
    hi: Seq<S>,
    rows: Seq<Seq<S>>,
    ndim: int,
    d: int,
)
    requires
        bounds(lo, hi, rows, ndim),
        0 <= d < ndim,
    ensures
        rows.len() > 0 ==> {
            &&& forall|i: int|
                0 <= i < rows.len() ==> lo[d].key() <= (#[trigger] rows[i])[d].key()
                    <= hi[d].key()
            &&& exists|i: int| 0 <= i < rows.len() && (#[trigger] rows[i])[d] == lo[d]
            &&& exists|i: int| 0 <= i < rows.len() && (#[trigger] rows[i])[d] == hi[d]
        },
        rows.len() == 0 ==> lo[d] == S::infinity_spec() && hi[d] == S::neg_infinity_spec(),
{
    if rows.len() > 0 {
        assert forall|i: int| 0 <= i < rows.len() implies lo[d].key() <= (
        #[trigger] rows[i])[d].key() <= hi[d].key() by {
            let v = rows[i][d];
        }
        assert(attained(lo[d], rows, d) && attained(hi[d], rows, d));
        let i = choose|i: int| 0 <= i < rows.len() && #[trigger] rows[i][d] == lo[d];
        let j = choose|j: int| 0 <= j < rows.len() && #[trigger] rows[j][d] == hi[d];
        assert(rows[i][d] == lo[d] && rows[j][d] == hi[d]);
    }
}

/// What is written in front of a longer slice leaves the rest of it.
pub proof fn what_is_written_leaves_the_rest<S>(
    before: Seq<S>,
    after: Seq<S>,
    row: Seq<S>,
    i: int,
)
    requires
        written(before, after, row),
        0 <= i < before.len(),
    ensures
        after.len() == before.len(),
        after[i] == if i < row.len() {
            row[i]
        } else {
            before[i]
        },
{
    if i < row.len() {
        assert(after.subrange(0, row.len() as int)[i] == after[i]);
    }
}

} // verus!
