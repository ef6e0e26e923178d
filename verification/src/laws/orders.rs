//! Promises of the order in which a build leaves the points.

use crate::arrange::{arranged, gap_filled, lemma_pivot_key, lemma_split_axis, parted, partitioned,
    rows_in};
use crate::layout::{lemma_block_len, lemma_row_at, tight};
use crate::partition::{ahead_of, column, is_median, lemma_one_median, not_past, pairs};
use crate::perm::{lemma_count_all, lemma_count_at_most, lemma_count_concat, lemma_count_none,
    lemma_same_items_contains, lemma_same_items_count};
use crate::scalar::{lawful, Scalar};
use crate::tree::{widest, Tree};
use vstd::prelude::*;

verus! {

/// The points of a tree over `data` are its rows with their numbers, arranged.
pub proof fn points_are_the_rows_arranged<S: Scalar>(
    data: Vec<S>,
    ndim: usize,
    leafsize: usize,
    parallel: bool,
    tree: Tree<S>,
    items: Seq<(Seq<S>, u32)>,
    pos: int,
)
    requires
        lawful::<S>(),
        call_ensures(Tree::<S>::new, (data, ndim, leafsize, parallel), Ok(tree)),
        items.len() * ndim == data@.len(),
        forall|row: int|
            0 <= row < items.len() ==> (#[trigger] items[row]).0 == data@.subrange(
                row * ndim,
                row * ndim + ndim,
            ) && items[row].1 == row,
        0 <= pos < items.len(),
    ensures
        arranged(items, ndim as int, leafsize as int).len() == items.len(),
        arranged(items, ndim as int, leafsize as int)[pos] == (
            tree.data@.subrange(pos * ndim, pos * ndim + ndim),
            tree.indices@[pos],
        ),
{
    let (n, w) = (tree.n_points as int, ndim as int);
    lemma_block_len(tree.data@, n, w);
    lemma_block_len(data@, n, w);
    lemma_block_len(data@, items.len() as int, w);
    let own = pairs(
        crate::layout::rows_of(data@, w),
        Seq::new(n as nat, |i: int| i as u32),
    );
    assert forall|row: int| 0 <= row < n implies #[trigger] items[row] == own[row] by {
        lemma_row_at(data@, n, w, row);
    }
    assert(items =~= own);
    lemma_row_at(tree.data@, n, w, pos);
    assert(pairs(tree.rows(), tree.indices@)[pos] == (tree.rows()[pos], tree.indices@[pos]));
}

/// Rows up to the leaf size stay as they are. More of them are split along the axis
/// `dim` along which their tight box is widest, at the coordinate that sorting would
/// put in the middle, and the two halves are arranged each for itself.
pub proof fn halves_are_arranged_each_for_itself<S: Scalar>(
    items: Seq<(Seq<S>, u32)>,
    ndim: int,
    leafsize: int,
    lo: Seq<S>,
    hi: Seq<S>,
    dim: int,
    value: S,
)
    requires
        lawful::<S>(),
        leafsize > 0,
        crate::layout::rows_finite(rows_in(items), ndim),
        items.len() > leafsize ==> tight(lo, hi, rows_in(items), ndim) && widest(lo, hi, dim)
            && is_median(column(rows_in(items), dim), items.len() as int / 2, value),
    ensures
        arranged(items, ndim, leafsize) == if items.len() <= leafsize {
            items
        } else {
            let mid = items.len() as int / 2;
            let (apart, at) = parted(items, dim, value.key(), 0, items.len() as int);
            let moved = gap_filled(apart, dim, value.key(), at, at, mid);
            arranged(Seq::new(mid as nat, |i: int| moved[i]), ndim, leafsize) + arranged(
                Seq::new((items.len() - mid) as nat, |i: int| moved[mid + i]),
                ndim,
                leafsize,
            )
        },
{
    if items.len() > leafsize {
        let mid = items.len() as int / 2;
        lemma_split_axis(lo, hi, rows_in(items), ndim, dim);
        lemma_pivot_key(column(rows_in(items), dim), mid, value);
        let moved = partitioned(items, dim, value.key(), mid);
        assert(crate::arrange::head(moved, mid) =~= Seq::new(mid as nat, |i: int| moved[i]));
        assert(crate::arrange::tail(moved, mid, items.len() - mid) =~= Seq::new(
            (items.len() - mid) as nat,
            |i: int| moved[mid + i],
        ));
    }
}

/// Rows below the pivot stay at the front and rows at least at it stay at the back;
/// where both ends are misplaced, they are exchanged.
pub proof fn misplaced_rows_are_exchanged<S: Scalar>(
    items: Seq<(Seq<S>, u32)>,
    dim: int,
    pivot: int,
    i: int,
    j: int,
)
    ensures
        parted(items, dim, pivot, i, j) == if i >= j {
            (items, i)
        } else if items[i].0[dim].key() < pivot {
            parted(items, dim, pivot, i + 1, j)
        } else if items[j - 1].0[dim].key() >= pivot {
            parted(items, dim, pivot, i, j - 1)
        } else {
            parted(
                items.update(i, items[j - 1]).update(j - 1, items[i]),
                dim,
                pivot,
                i + 1,
                j - 1,
            )
        },
{
}

/// Rows at the pivot are pulled forward, one after the other, until the first half is
/// full.
pub proof fn rows_at_the_pivot_fill_the_gap<S: Scalar>(
    items: Seq<(Seq<S>, u32)>,
    dim: int,
    pivot: int,
    place: int,
    scan: int,
    mid: int,
)
    requires
        0 <= place <= scan,
    ensures
        gap_filled(items, dim, pivot, place, scan, mid) == if place >= mid || scan
            >= items.len() {
            items
        } else if items[scan].0[dim].key() == pivot {
            gap_filled(
                items.update(scan, items[place]).update(place, items[scan]),
                dim,
                pivot,
                place + 1,
                scan + 1,
                mid,
            )
        } else {
            gap_filled(items, dim, pivot, place, scan + 1, mid)
        },
{
}

/// The median of values is the one in the middle place once they are sorted, and no
/// other value is.
pub proof fn the_median_is_in_the_middle_once_sorted<S: Scalar>(
    values: Seq<S>,
    sorted: Seq<S>,
    mid: int,
    v: S,
)
    requires
        lawful::<S>(),
        values.to_multiset() == sorted.to_multiset(),
        forall|i: int, j: int|
            0 <= i <= j < sorted.len() ==> (#[trigger] sorted[i]).rank() <= (
            #[trigger] sorted[j]).rank(),
        0 <= mid < sorted.len(),
    ensures
        is_median(values, mid, v) <==> v == sorted[mid],
{
    let m = sorted[mid];
    assert(is_median(values, mid, m)) by {
        reveal(is_median);
        lemma_same_items_contains(values, sorted);
        assert(sorted.contains(m));
        let (l, r) = (sorted.subrange(0, mid), sorted.subrange(mid, sorted.len() as int));
        assert(sorted =~= l + r);
        lemma_count_concat(l, r, ahead_of(m));
        assert forall|i: int| 0 <= i < r.len() implies !#[trigger] ahead_of(m)(r[i]) by {
            assert(r[i] == sorted[mid + i]);
        }
        lemma_count_none(r, ahead_of(m));
        lemma_count_at_most(l, ahead_of(m));
        let (l2, r2) = (sorted.subrange(0, mid + 1), sorted.subrange(mid + 1, sorted.len() as int));
        assert(sorted =~= l2 + r2);
        lemma_count_concat(l2, r2, not_past(m));
        assert forall|i: int| 0 <= i < l2.len() implies #[trigger] not_past(m)(l2[i]) by {
            assert(l2[i] == sorted[i]);
        }
        lemma_count_all(l2, not_past(m));
        lemma_same_items_count(values, sorted, ahead_of(m));
        lemma_same_items_count(values, sorted, not_past(m));
    }
    if is_median(values, mid, v) {
        lemma_one_median(values, mid, v, m);
    }
}

} // verus!
