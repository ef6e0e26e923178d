//! Splitting a block of rows at a median.

use crate::arrange::{gap_filled, parted, partitioned};
use crate::layout::{lemma_row_at, rows_of, swap_rows, swapped, whole_rows};
use crate::perm::{count_by, lemma_count_all, lemma_count_concat, lemma_count_none,
    lemma_same_items_contains, lemma_same_items_count, lemma_swap_same_items, same_items};
use crate::scalar::{lawful, orderly, same, Scalar};
use core::cmp::Ordering;
use vstd::prelude::*;

verus! {

/// Rows with their row numbers.
pub open spec fn pairs<S>(rows: Seq<Seq<S>>, indices: Seq<u32>) -> Seq<(Seq<S>, u32)> {
    Seq::new(rows.len(), |i: int| (rows[i], indices[i]))
}

/// The coordinates along one axis.
pub open spec fn column<S>(rows: Seq<Seq<S>>, dim: int) -> Seq<S> {
    Seq::new(rows.len(), |i: int| rows[i][dim])
}

pub open spec fn below<S: Scalar>(v: S) -> spec_fn(S) -> bool {
    |x: S| x.key() < v.key()
}

pub open spec fn up_to<S: Scalar>(v: S) -> spec_fn(S) -> bool {
    |x: S| x.key() <= v.key()
}

pub open spec fn ahead_of<S: Scalar>(v: S) -> spec_fn(S) -> bool {
    |x: S| x.rank() < v.rank()
}

pub open spec fn not_past<S: Scalar>(v: S) -> spec_fn(S) -> bool {
    |x: S| x.rank() <= v.rank()
}

/// `v` is the value at place `mid` once the column is sorted by the total order.
#[verifier::opaque]
pub open spec fn is_median<S: Scalar>(values: Seq<S>, mid: int, v: S) -> bool {
    &&& values.contains(v)
    &&& count_by(values, ahead_of(v)) <= mid
    &&& count_by(values, not_past(v)) > mid
}

pub proof fn lemma_count_grows<S>(s: Seq<S>, p: spec_fn(S) -> bool, q: spec_fn(S) -> bool)
    requires
        forall|x: S| #[trigger] p(x) ==> q(x),
    ensures
        count_by(s, p) <= count_by(s, q),
    decreases s.len(),
{
    if s.len() > 0 {
        lemma_count_grows(s.drop_last(), p, q);
        assert(p(s.last()) ==> q(s.last()));
    }
}

/// Sorting by keys would put the median at the same place.
pub proof fn lemma_median_by_key<S: Scalar>(values: Seq<S>, mid: int, v: S)
    requires
        lawful::<S>(),
        is_median(values, mid, v),
    ensures
        count_by(values, below(v)) <= mid,
        count_by(values, up_to(v)) > mid,
{
    reveal(is_median);
    reveal(orderly);
    assert forall|x: S| #[trigger] below(v)(x) implies ahead_of(v)(x) by {
        assert(x.rank() < v.rank());
    }
    assert forall|x: S| #[trigger] not_past(v)(x) implies up_to(v)(x) by {
        if v.key() < x.key() {
            assert(v.rank() < x.rank());
        }
    }
    lemma_count_grows(values, below(v), ahead_of(v));
    lemma_count_grows(values, not_past(v), up_to(v));
}

/// A column has one median.
pub proof fn lemma_one_median<S: Scalar>(values: Seq<S>, mid: int, u: S, v: S)
    requires
        lawful::<S>(),
        is_median(values, mid, u),
        is_median(values, mid, v),
    ensures
        u == v,
{
    reveal(is_median);
    reveal(orderly);
    if u.rank() < v.rank() {
        lemma_count_grows(values, not_past(u), ahead_of(v));
    } else if v.rank() < u.rank() {
        lemma_count_grows(values, not_past(v), ahead_of(u));
    }
}

proof fn lemma_count_pairs<S: Scalar>(
    rows: Seq<Seq<S>>,
    indices: Seq<u32>,
    dim: int,
    p: spec_fn(S) -> bool,
)
    requires
        rows.len() == indices.len(),
    ensures
        count_by(column(rows, dim), p) == count_by(
            pairs(rows, indices),
            |x: (Seq<S>, u32)| p(x.0[dim]),
        ),
    decreases rows.len(),
{
    if rows.len() > 0 {
        lemma_count_pairs(rows.drop_last(), indices.drop_last(), dim, p);
        assert(column(rows, dim).drop_last() =~= column(rows.drop_last(), dim));
        assert(pairs(rows, indices).drop_last() =~= pairs(rows.drop_last(), indices.drop_last()));
    }
}

/// Rearranging rows with their numbers rearranges each column.
proof fn lemma_pairs_columns<S: Scalar>(
    rows: Seq<Seq<S>>,
    indices: Seq<u32>,
    rows2: Seq<Seq<S>>,
    indices2: Seq<u32>,
    dim: int,
    p: spec_fn(S) -> bool,
)
    requires
        rows.len() == indices.len(),
        rows2.len() == indices2.len(),
        same_items(pairs(rows, indices), pairs(rows2, indices2)),
    ensures
        count_by(column(rows, dim), p) == count_by(column(rows2, dim), p),
{
    lemma_count_pairs(rows, indices, dim, p);
    lemma_count_pairs(rows2, indices2, dim, p);
    lemma_same_items_count(
        pairs(rows, indices),
        pairs(rows2, indices2),
        |x: (Seq<S>, u32)| p(x.0[dim]),
    );
}

/// Every row after a rearrangement was a row, under the same number.
pub proof fn lemma_pairs_rows<S>(
    rows: Seq<Seq<S>>,
    indices: Seq<u32>,
    rows2: Seq<Seq<S>>,
    indices2: Seq<u32>,
    i: int,
) -> (j: int)
    requires
        rows.len() == indices.len(),
        rows2.len() == indices2.len(),
        same_items(pairs(rows, indices), pairs(rows2, indices2)),
        0 <= i < rows2.len(),
    ensures
        0 <= j < rows.len(),
        rows[j] == rows2[i],
        indices[j] == indices2[i],
{
    let (a, b) = (pairs(rows, indices), pairs(rows2, indices2));
    lemma_same_items_contains(a, b);
    assert(b.contains(b[i]));
    let j = choose|j: int| 0 <= j < a.len() && a[j] == b[i];
    j
}

/// Compares two values by the total order.
fn compare<S: Scalar>(a: S, b: S) -> (r: Ordering)
    ensures
        match r {
            Ordering::Less => a.rank() < b.rank(),
            Ordering::Equal => a.rank() == b.rank(),
            Ordering::Greater => a.rank() > b.rank(),
        },
{
    if a.precedes(b) {
        Ordering::Less
    } else if b.precedes(a) {
        Ordering::Greater
    } else {
        Ordering::Equal
    }
}

/// No value before place `mid` is past the one there in the total order, none
/// behind it is ahead of it.
pub open spec fn parted_at<S: Scalar>(values: Seq<S>, mid: usize) -> bool {
    &&& forall|i: int| 0 <= i < mid ==> (#[trigger] values[i]).rank() <= values[mid as int].rank()
    &&& forall|i: int|
        mid <= i < values.len() ==> values[mid as int].rank() <= (#[trigger] values[i]).rank()
}

/// Calls `select_nth_unstable_by` of slices, which reorders the slice so that
/// the item at `mid` is where sorting would put it: none before it is greater
/// and none behind it is less. It panics if `mid` is out of range, and may if the
/// comparison is no total order, which [`compare`] is.
#[verifier::external_body]
fn select_nth<S: Scalar>(keys: &mut [S], mid: usize)
    requires
        mid < old(keys)@.len(),
    ensures
        same_items(old(keys)@, final(keys)@),
        parted_at(final(keys)@, mid),
{
    keys.select_nth_unstable_by(mid, |a, b| compare(*a, *b));
}

/// The median of `keys`, which are reordered on the way.
pub fn median<S: Scalar>(keys: &mut [S], mid: usize) -> (r: S)
    requires
        mid < old(keys)@.len(),
    ensures
        final(keys)@.len() == old(keys)@.len(),
        is_median(old(keys)@, mid as int, r),
{
    let ghost before = keys@;
    select_nth(keys, mid);
    proof {
        lemma_same_items_contains(before, keys@);
    }
    let v = keys[mid];
    proof {
        reveal(is_median);
        let after = keys@;
        assert(after.contains(v));
        let l = after.subrange(0, mid as int);
        let r = after.subrange(mid as int, after.len() as int);
        assert(after =~= l + r);
        lemma_count_concat(l, r, ahead_of(v));
        lemma_count_none(r, ahead_of(v));
        crate::perm::lemma_count_at_most(l, ahead_of(v));
        let l2 = after.subrange(0, mid + 1);
        let r2 = after.subrange(mid + 1, after.len() as int);
        assert(after =~= l2 + r2);
        lemma_count_concat(l2, r2, not_past(v));
        assert forall|i: int| 0 <= i < l2.len() implies #[trigger] not_past(v)(l2[i]) by {
            assert(l2[i] == after[i]);
        }
        lemma_count_all(l2, not_past(v));
        lemma_same_items_count(before, after, ahead_of(v));
        lemma_same_items_count(before, after, not_past(v));
    }
    v
}

fn coord<S: Scalar>(flat: &[S], ndim: usize, row: usize, dim: usize) -> (r: S)
    requires
        whole_rows(flat@, ndim as int),
        row < rows_of(flat@, ndim as int).len(),
        dim < ndim,
    ensures
        r == rows_of(flat@, ndim as int)[row as int][dim as int],
{
    proof {
        lemma_row_at(
            flat@,
            rows_of(flat@, ndim as int).len() as int,
            ndim as int,
            row as int,
        );
        assert(flat@.len() == flat.len());
    }
    flat[row * ndim + dim]
}

/// The number `indices` exchanged along with the rows.
fn swap_both<S: Scalar>(flat: &mut [S], ndim: usize, indices: &mut [u32], a: usize, b: usize)
    requires
        whole_rows(old(flat)@, ndim as int),
        old(indices)@.len() == rows_of(old(flat)@, ndim as int).len(),
        a < old(indices)@.len(),
        b < old(indices)@.len(),
    ensures
        whole_rows(final(flat)@, ndim as int),
        final(flat)@.len() == old(flat)@.len(),
        rows_of(final(flat)@, ndim as int) == swapped(
            rows_of(old(flat)@, ndim as int),
            a as int,
            b as int,
        ),
        final(indices)@ == swapped(old(indices)@, a as int, b as int),
        same_items(old(indices)@, final(indices)@),
        same_items(
            pairs(rows_of(old(flat)@, ndim as int), old(indices)@),
            pairs(rows_of(final(flat)@, ndim as int), final(indices)@),
        ),
        pairs(rows_of(final(flat)@, ndim as int), final(indices)@) == swapped(
            pairs(rows_of(old(flat)@, ndim as int), old(indices)@),
            a as int,
            b as int,
        ),
{
    let ghost (rows, ids) = (rows_of(flat@, ndim as int), indices@);
    swap_rows(flat, ndim, a, b);
    let x = indices[a];
    let y = indices[b];
    indices[a] = y;
    indices[b] = x;
    proof {
        let (rows2, ids2) = (rows_of(flat@, ndim as int), indices@);
        assert(ids2 =~= swapped(ids, a as int, b as int));
        lemma_swap_same_items(ids, a as int, b as int);
        let p = pairs(rows, ids);
        lemma_swap_same_items(p, a as int, b as int);
        assert(pairs(rows2, ids2) =~= swapped(p, a as int, b as int));
    }
}

/// Moves rows, and their numbers along, so that every row before `mid` has a
/// coordinate of at most `pivot` and every row from `mid` on one of at least
/// `pivot`, however many rows share it.
///
/// The first pass exchanges only misplaced pairs. The second pulls rows at the
/// pivot into the gap up to `mid`; it has nothing to do when the pivot is unique.
pub fn partition_rows<S: Scalar>(
    flat: &mut [S],
    ndim: usize,
    indices: &mut [u32],
    split_dim: usize,
    pivot: S,
    mid: usize,
)
    requires
        lawful::<S>(),
        whole_rows(old(flat)@, ndim as int),
        old(indices)@.len() == rows_of(old(flat)@, ndim as int).len(),
        split_dim < ndim,
        mid < old(indices)@.len(),
        !pivot.nan(),
        forall|i: int|
            0 <= i < old(indices)@.len() ==> !(#[trigger] rows_of(
                old(flat)@,
                ndim as int,
            )[i])[split_dim as int].nan(),
        is_median(
            column(rows_of(old(flat)@, ndim as int), split_dim as int),
            mid as int,
            pivot,
        ),
    ensures
        whole_rows(final(flat)@, ndim as int),
        final(flat)@.len() == old(flat)@.len(),
        final(indices)@.len() == old(indices)@.len(),
        same_items(old(indices)@, final(indices)@),
        same_items(
            pairs(rows_of(old(flat)@, ndim as int), old(indices)@),
            pairs(rows_of(final(flat)@, ndim as int), final(indices)@),
        ),
        crate::tree::splits(
            rows_of(final(flat)@, ndim as int),
            mid as int,
            split_dim as int,
            pivot,
        ),
        pairs(rows_of(final(flat)@, ndim as int), final(indices)@) == partitioned(
            pairs(rows_of(old(flat)@, ndim as int), old(indices)@),
            split_dim as int,
            pivot.key(),
            mid as int,
        ),
{
    let len = indices.len();
    let ghost w = ndim as int;
    let ghost dim = split_dim as int;
    let ghost rows0 = rows_of(flat@, w);
    let ghost ids0 = indices@;
    let ghost items0 = pairs(rows0, ids0);
    let ghost pk = pivot.key();
    proof {
        lemma_median_by_key(column(rows0, dim), mid as int, pivot);
    }
    let mut i: usize = 0;
    let mut j: usize = len;
    while i < j
        invariant
            pk == pivot.key(),
            parted(items0, dim, pk, 0, len as int) == parted(
                pairs(rows_of(flat@, w), indices@),
                dim,
                pk,
                i as int,
                j as int,
            ),
            w == ndim,
            dim == split_dim,
            split_dim < ndim,
            whole_rows(flat@, w),
            flat@.len() == old(flat)@.len(),
            len == ids0.len(),
            rows0.len() == len,
            indices@.len() == len,
            rows_of(flat@, w).len() == len,
            i <= j <= len,
            !pivot.nan(),
            same_items(ids0, indices@),
            same_items(pairs(rows0, ids0), pairs(rows_of(flat@, w), indices@)),
            forall|t: int| 0 <= t < len ==> !(#[trigger] rows_of(flat@, w)[t])[dim].nan(),
            forall|t: int|
                0 <= t < i ==> (#[trigger] rows_of(flat@, w)[t])[dim].key() < pivot.key(),
            forall|t: int|
                j <= t < len ==> pivot.key() <= (#[trigger] rows_of(flat@, w)[t])[dim].key(),
        decreases j - i,
    {
        if coord(flat, ndim, i, split_dim).lt(pivot) {
            i += 1;
        } else if pivot.le(coord(flat, ndim, j - 1, split_dim)) {
            j -= 1;
        } else {
            j -= 1;
            swap_both(flat, ndim, indices, i, j);
            i += 1;
        }
    }
    let ghost at = i as int;
    proof {
        let rows = rows_of(flat@, w);
        let c = column(rows, dim);
        let l = c.subrange(0, at);
        let r = c.subrange(at, len as int);
        assert(c =~= l + r);
        lemma_count_concat(l, r, below(pivot));
        assert forall|t: int| 0 <= t < l.len() implies below(pivot)(#[trigger] l[t]) by {
            assert(l[t] == rows[t][dim]);
        }
        assert forall|t: int| 0 <= t < r.len() implies !below(pivot)(#[trigger] r[t]) by {
            assert(r[t] == rows[at + t][dim]);
        }
        lemma_count_all(l, below(pivot));
        lemma_count_none(r, below(pivot));
        lemma_pairs_columns(rows0, ids0, rows, indices@, dim, below(pivot));
    }
    let mut place: usize = i;
    let mut scan: usize = i;
    while place < mid
        invariant
            pk == pivot.key(),
            partitioned(items0, dim, pk, mid as int) == gap_filled(
                pairs(rows_of(flat@, w), indices@),
                dim,
                pk,
                place as int,
                scan as int,
                mid as int,
            ),
            w == ndim,
            dim == split_dim,
            split_dim < ndim,
            whole_rows(flat@, w),
            flat@.len() == old(flat)@.len(),
            len == ids0.len(),
            rows0.len() == len,
            indices@.len() == len,
            rows_of(flat@, w).len() == len,
            at <= place <= scan <= len,
            place <= mid < len,
            !pivot.nan(),
            count_by(column(rows0, dim), up_to(pivot)) > mid,
            same_items(ids0, indices@),
            same_items(pairs(rows0, ids0), pairs(rows_of(flat@, w), indices@)),
            forall|t: int| 0 <= t < len ==> !(#[trigger] rows_of(flat@, w)[t])[dim].nan(),
            forall|t: int|
                0 <= t < place ==> (#[trigger] rows_of(flat@, w)[t])[dim].key() <= pivot.key(),
            forall|t: int|
                place <= t < scan ==> pivot.key() < (#[trigger] rows_of(flat@, w)[t])[dim].key(),
            forall|t: int|
                scan <= t < len ==> pivot.key() <= (#[trigger] rows_of(flat@, w)[t])[dim].key(),
        decreases len - scan,
    {
        proof {
            if scan == len {
                let rows = rows_of(flat@, w);
                let c = column(rows, dim);
                let l = c.subrange(0, place as int);
                let r = c.subrange(place as int, len as int);
                assert(c =~= l + r);
                lemma_count_concat(l, r, up_to(pivot));
                assert forall|t: int| 0 <= t < r.len() implies !up_to(pivot)(#[trigger] r[t]) by {
                    assert(r[t] == rows[place + t][dim]);
                }
                lemma_count_none(r, up_to(pivot));
                crate::perm::lemma_count_at_most(l, up_to(pivot));
                lemma_pairs_columns(rows0, ids0, rows, indices@, dim, up_to(pivot));
                assert(false);
            }
        }
        if same(coord(flat, ndim, scan, split_dim), pivot) {
            swap_both(flat, ndim, indices, scan, place);
            place += 1;
        }
        scan += 1;
    }
    proof {
        reveal(is_median);
        let c = column(rows0, dim);
        let t = choose|t: int| 0 <= t < c.len() && c[t] == pivot;
        assert(rows0[t][dim] == pivot);
        let p = pairs(rows0, ids0);
        let p2 = pairs(rows_of(flat@, w), indices@);
        lemma_same_items_contains(p, p2);
        assert(p.contains(p[t]));
        let u = choose|u: int| 0 <= u < p2.len() && p2[u] == p[t];
        assert(rows_of(flat@, w)[u][dim] == pivot);
        lemma_one_at_pivot(rows0, ids0, rows_of(flat@, w), indices@, mid as int, dim, pivot);
        lemma_median_rearranged(
            rows0,
            ids0,
            rows_of(flat@, w),
            indices@,
            dim,
            mid as int,
            pivot,
        );
    }
}

/// Rearranging rows leaves the median of a column.
pub proof fn lemma_median_rearranged<S: Scalar>(
    rows0: Seq<Seq<S>>,
    ids0: Seq<u32>,
    rows: Seq<Seq<S>>,
    ids: Seq<u32>,
    dim: int,
    mid: int,
    v: S,
)
    requires
        rows0.len() == ids0.len(),
        rows.len() == ids.len(),
        same_items(pairs(rows0, ids0), pairs(rows, ids)),
        is_median(column(rows0, dim), mid, v),
    ensures
        is_median(column(rows, dim), mid, v),
{
    reveal(is_median);
    let (p, p2) = (pairs(rows0, ids0), pairs(rows, ids));
    lemma_pairs_columns(rows0, ids0, rows, ids, dim, ahead_of(v));
    lemma_pairs_columns(rows0, ids0, rows, ids, dim, not_past(v));
    lemma_same_items_contains(p, p2);
    let c = column(rows0, dim);
    let t = choose|t: int| 0 <= t < c.len() && c[t] == v;
    assert(p.contains(p[t]));
    let u = choose|u: int| 0 <= u < p2.len() && p2[u] == p[t];
    assert(column(rows, dim)[u] == v);
}

/// One row from `mid` on is at the pivot.
proof fn lemma_one_at_pivot<S: Scalar>(
    rows0: Seq<Seq<S>>,
    ids0: Seq<u32>,
    rows: Seq<Seq<S>>,
    ids: Seq<u32>,
    mid: int,
    dim: int,
    pivot: S,
)
    requires
        rows0.len() == ids0.len(),
        rows.len() == ids.len(),
        same_items(pairs(rows0, ids0), pairs(rows, ids)),
        count_by(column(rows0, dim), up_to(pivot)) > mid,
        0 <= mid <= rows.len(),
        forall|t: int| mid <= t < rows.len() ==> pivot.key() <= (#[trigger] rows[t])[dim].key(),
    ensures
        exists|t: int| mid <= t < rows.len() && (#[trigger] rows[t])[dim].key() == pivot.key(),
{
    if forall|t: int| mid <= t < rows.len() ==> pivot.key() < (#[trigger] rows[t])[dim].key() {
        let c = column(rows, dim);
        let l = c.subrange(0, mid);
        let r = c.subrange(mid, rows.len() as int);
        assert(c =~= l + r);
        lemma_count_concat(l, r, up_to(pivot));
        assert forall|t: int| 0 <= t < r.len() implies !up_to(pivot)(#[trigger] r[t]) by {
            assert(r[t] == rows[mid + t][dim]);
        }
        lemma_count_none(r, up_to(pivot));
        crate::perm::lemma_count_at_most(l, up_to(pivot));
        lemma_pairs_columns(rows0, ids0, rows, ids, dim, up_to(pivot));
        assert(false);
    }
}

} // verus!
