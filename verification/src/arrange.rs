//! The order in which a build leaves the points.
//!
//! The build moves rows only by exchanging two of them, and what it exchanges is
//! decided by comparisons alone. So the order that it leaves depends on the
//! points and the leaf size and on nothing else, threads included.

use crate::kernel::corner_of;
use crate::layout::{attained, hi_of, is_block, lemma_block_len, lemma_place, lemma_row_at,
    lemma_rows_determine, lemma_tight_finite, lo_of, rows_finite, rows_of, swapped, tight};
use crate::node::{unpack_split_spec, Node};
use crate::partition::{column, is_median, lemma_one_median, pairs};
use crate::scalar::{all_finite_spec, finite, lawful, less, orderly, Scalar};
use crate::tree::{count_nodes_spec, lemma_box_valid, node_ok, widest, Tree};
use vstd::prelude::*;

verus! {

/// The rows of numbered rows.
pub open spec fn rows_in<S>(items: Seq<(Seq<S>, u32)>) -> Seq<Seq<S>> {
    Seq::new(items.len(), |i: int| items[i].0)
}

/// Exchanges the misplaced ones between `i` and `j` until those below the pivot
/// come first; returns where the others begin as well.
pub open spec fn parted<S: Scalar>(
    items: Seq<(Seq<S>, u32)>,
    dim: int,
    pivot: int,
    i: int,
    j: int,
) -> (Seq<(Seq<S>, u32)>, int)
    decreases j - i,
{
    if i >= j {
        (items, i)
    } else if items[i].0[dim].key() < pivot {
        parted(items, dim, pivot, i + 1, j)
    } else if pivot <= items[j - 1].0[dim].key() {
        parted(items, dim, pivot, i, j - 1)
    } else {
        parted(swapped(items, i, j - 1), dim, pivot, i + 1, j - 1)
    }
}

/// Pulls those at the pivot from `scan` on into the places from `place` up to
/// `mid`.
pub open spec fn gap_filled<S: Scalar>(
    items: Seq<(Seq<S>, u32)>,
    dim: int,
    pivot: int,
    place: int,
    scan: int,
    mid: int,
) -> Seq<(Seq<S>, u32)>
    decreases items.len() - scan,
{
    if place >= mid || !(0 <= place <= scan < items.len()) {
        items
    } else if items[scan].0[dim].key() == pivot {
        gap_filled(swapped(items, scan, place), dim, pivot, place + 1, scan + 1, mid)
    } else {
        gap_filled(items, dim, pivot, place, scan + 1, mid)
    }
}

/// Those at most at the pivot in the places up to `mid`, those at least at it
/// behind.
pub open spec fn partitioned<S: Scalar>(
    items: Seq<(Seq<S>, u32)>,
    dim: int,
    pivot: int,
    mid: int,
) -> Seq<(Seq<S>, u32)> {
    let (apart, at) = parted(items, dim, pivot, 0, items.len() as int);
    gap_filled(apart, dim, pivot, at, at, mid)
}

/// `dim` is the first axis along which the tight box of the rows is widest.
pub open spec fn splits_along<S: Scalar>(rows: Seq<Seq<S>>, ndim: int, dim: int) -> bool {
    exists|lo: Seq<S>, hi: Seq<S>| #[trigger] tight(lo, hi, rows, ndim) && widest(lo, hi, dim)
}

/// The axis that rows are split along.
pub open spec fn split_axis<S: Scalar>(rows: Seq<Seq<S>>, ndim: int) -> int {
    choose|dim: int| splits_along(rows, ndim, dim)
}

/// The place in the order of the value that sorting would put at `mid`.
pub open spec fn pivot_key<S: Scalar>(values: Seq<S>, mid: int) -> int {
    (choose|v: S| is_median(values, mid, v)).key()
}

/// The first `n` items.
pub open spec fn head<T>(items: Seq<T>, n: int) -> Seq<T> {
    Seq::new(n as nat, |i: int| items[i])
}

/// `n` items from place `first` on.
pub open spec fn tail<T>(items: Seq<T>, first: int, n: int) -> Seq<T> {
    Seq::new(n as nat, |i: int| items[first + i])
}

/// Numbered rows in the order in which a build leaves them.
pub open spec fn arranged<S: Scalar>(
    items: Seq<(Seq<S>, u32)>,
    ndim: int,
    leafsize: int,
) -> Seq<(Seq<S>, u32)>
    decreases items.len(),
{
    let len = items.len() as int;
    if len <= leafsize || len <= 1 {
        items
    } else {
        let mid = len / 2;
        let dim = split_axis(rows_in(items), ndim);
        let pivot = pivot_key(column(rows_in(items), dim), mid);
        let moved = partitioned(items, dim, pivot, mid);
        arranged(head(moved, mid), ndim, leafsize) + arranged(
            tail(moved, mid, len - mid),
            ndim,
            leafsize,
        )
    }
}

/// Rows one behind the other.
pub open spec fn flat_of<S>(rows: Seq<Seq<S>>, ndim: int) -> Seq<S> {
    Seq::new((rows.len() * ndim) as nat, |f: int| rows[f / ndim][f % ndim])
}

/// The box of rows, its lower corner and then its upper one.
pub open spec fn box_row<S: Scalar>(rows: Seq<Seq<S>>, ndim: int) -> Seq<S> {
    corner_of(false, flat_of(rows, ndim), ndim) + corner_of(true, flat_of(rows, ndim), ndim)
}

/// The boxes that a build over numbered rows leaves, in preorder. Each is that of
/// its rows in the order in which the build comes upon them.
pub open spec fn boxed<S: Scalar>(
    items: Seq<(Seq<S>, u32)>,
    ndim: int,
    leafsize: int,
) -> Seq<Seq<S>>
    decreases items.len(),
{
    let len = items.len() as int;
    let own = seq![box_row(rows_in(items), ndim)];
    if len <= leafsize || len <= 1 {
        own
    } else {
        let mid = len / 2;
        let dim = split_axis(rows_in(items), ndim);
        let pivot = pivot_key(column(rows_in(items), dim), mid);
        let moved = partitioned(items, dim, pivot, mid);
        own + boxed(head(moved, mid), ndim, leafsize) + boxed(
            tail(moved, mid, len - mid),
            ndim,
            leafsize,
        )
    }
}

/// The rows of a block, one behind the other, are the block.
pub proof fn lemma_flat_of_rows<S>(data: Seq<S>, n: int, ndim: int)
    requires
        is_block(data, n, ndim),
    ensures
        flat_of(rows_of(data, ndim), ndim) == data,
{
    let flat = flat_of(rows_of(data, ndim), ndim);
    lemma_block_len(data, n, ndim);
    assert forall|f: int| 0 <= f < data.len() implies flat[f] == data[f] by {
        let (i, d) = (f / ndim, f % ndim);
        vstd::arithmetic::div_mod::lemma_fundamental_div_mod(f, ndim);
        let (j, e) = lemma_place(data.len() as int, n, ndim, f);
        vstd::arithmetic::div_mod::lemma_fundamental_div_mod_converse(f, ndim, j, e);
        lemma_row_at(data, n, ndim, i);
        assert(rows_of(data, ndim)[i][d] == data[i * ndim + d]);
    }
    assert(flat =~= data);
}

/// Differences of values at the same places of the order are at the same place.
proof fn lemma_minus_congruent<S: Scalar>(a: S, b: S, c: S, d: S)
    requires
        lawful::<S>(),
        finite(a),
        finite(b),
        finite(c),
        finite(d),
        a.key() == c.key(),
        b.key() == d.key(),
    ensures
        !a.minus_spec(b).nan(),
        a.minus_spec(b).key() == c.minus_spec(d).key(),
{
    reveal(orderly);
    assert(a.minus_spec(b).key() == c.minus_spec(b).key());
    assert(c.minus_spec(b).key() == c.minus_spec(d).key());
}

/// Two tight boxes of the same rows have their corners at the same places.
proof fn lemma_tight_congruent<S: Scalar>(
    lo: Seq<S>,
    hi: Seq<S>,
    lo2: Seq<S>,
    hi2: Seq<S>,
    rows: Seq<Seq<S>>,
    ndim: int,
)
    requires
        tight(lo, hi, rows, ndim),
        tight(lo2, hi2, rows, ndim),
    ensures
        forall|d: int| 0 <= d < ndim ==> (#[trigger] lo[d]).key() == lo2[d].key(),
        forall|d: int| 0 <= d < ndim ==> (#[trigger] hi[d]).key() == hi2[d].key(),
{
    assert forall|d: int| 0 <= d < ndim implies (#[trigger] lo[d]).key() == lo2[d].key() by {
        assert(attained(lo[d], rows, d) && attained(lo2[d], rows, d));
    }
    assert forall|d: int| 0 <= d < ndim implies (#[trigger] hi[d]).key() == hi2[d].key() by {
        assert(attained(hi[d], rows, d) && attained(hi2[d], rows, d));
    }
}

/// Boxes with their corners at the same places are widest along the same axis.
proof fn lemma_widest_congruent<S: Scalar>(
    lo: Seq<S>,
    hi: Seq<S>,
    lo2: Seq<S>,
    hi2: Seq<S>,
    dim: int,
    dim2: int,
)
    requires
        lawful::<S>(),
        all_finite_spec(lo),
        all_finite_spec(hi),
        all_finite_spec(lo2),
        all_finite_spec(hi2),
        lo.len() == hi.len(),
        lo2.len() == lo.len(),
        hi2.len() == lo.len(),
        forall|d: int| 0 <= d < lo.len() ==> (#[trigger] lo[d]).key() == lo2[d].key(),
        forall|d: int| 0 <= d < lo.len() ==> (#[trigger] hi[d]).key() == hi2[d].key(),
        widest(lo, hi, dim),
        widest(lo2, hi2, dim2),
    ensures
        dim == dim2,
{
    assert(lo[dim].key() == lo2[dim].key() && hi[dim].key() == hi2[dim].key());
    assert(lo[dim2].key() == lo2[dim2].key() && hi[dim2].key() == hi2[dim2].key());
    lemma_minus_congruent(hi[dim], lo[dim], hi2[dim], lo2[dim]);
    lemma_minus_congruent(hi[dim2], lo[dim2], hi2[dim2], lo2[dim2]);
    if dim < dim2 {
        assert(less(hi2[dim].minus_spec(lo2[dim]), hi2[dim2].minus_spec(lo2[dim2])));
    } else if dim2 < dim {
        assert(less(hi[dim2].minus_spec(lo[dim2]), hi[dim].minus_spec(lo[dim])));
    }
}

/// The axis that rows are split along is the one that any tight box gives.
pub proof fn lemma_split_axis<S: Scalar>(
    lo: Seq<S>,
    hi: Seq<S>,
    rows: Seq<Seq<S>>,
    ndim: int,
    dim: int,
)
    requires
        lawful::<S>(),
        rows_finite(rows, ndim),
        tight(lo, hi, rows, ndim),
        widest(lo, hi, dim),
    ensures
        split_axis(rows, ndim) == dim,
{
    assert(splits_along(rows, ndim, dim));
    let dim2 = split_axis(rows, ndim);
    assert(splits_along(rows, ndim, dim2));
    let (lo2, hi2) = choose|lo2: Seq<S>, hi2: Seq<S>| #[trigger]
        tight(lo2, hi2, rows, ndim) && widest(lo2, hi2, dim2);
    lemma_tight_finite(lo, hi, rows, ndim);
    lemma_tight_finite(lo2, hi2, rows, ndim);
    lemma_tight_congruent(lo, hi, lo2, hi2, rows, ndim);
    lemma_widest_congruent(lo, hi, lo2, hi2, dim, dim2);
}

/// A median has one place in the order.
pub proof fn lemma_pivot_key<S: Scalar>(values: Seq<S>, mid: int, v: S)
    requires
        lawful::<S>(),
        is_median(values, mid, v),
    ensures
        pivot_key(values, mid) == v.key(),
{
    lemma_one_median(values, mid, choose|u: S| is_median(values, mid, u), v);
}

/// Two trees with the same rows and boxes have the same nodes.
proof fn lemma_same_subtree<S: Scalar>(
    a: &Tree<S>,
    b: &Tree<S>,
    id: int,
    first: int,
    len: int,
)
    requires
        lawful::<S>(),
        a.wf(),
        b.wf(),
        a.ndim == b.ndim,
        a.leafsize == b.leafsize,
        a.rows() == b.rows(),
        a.boxes@ == b.boxes@,
        a.node_ok(id, first, len),
        b.node_ok(id, first, len),
    ensures
        forall|k: int|
            id <= k < id + count_nodes_spec(len, a.leafsize as int) ==> #[trigger] a.nodes@[k]
                == b.nodes@[k],
    decreases len,
{
    let w = a.ndim as int;
    let part = a.rows().subrange(first, first + len);
    lemma_block_len(a.data@, a.n_points as int, w);
    lemma_box_valid(a, id, first, len);
    reveal(node_ok);
    if len > a.leafsize && len > 1 {
        let mid = len / 2;
        let cl = count_nodes_spec(mid, a.leafsize as int);
        lemma_same_subtree(a, b, id + 1, first, mid);
        lemma_same_subtree(a, b, id + 1 + cl, first + mid, len - mid);
        let (x, y) = (a.nodes@[id], b.nodes@[id]);
        let (dx, dy) = (unpack_split_spec(x->split_dim).0, unpack_split_spec(y->split_dim).0);
        let (lo, hi) = (lo_of(a.boxes@[id], w), hi_of(a.boxes@[id], w));
        lemma_widest_congruent(lo, hi, lo, hi, dx as int, dy as int);
        lemma_one_median(column(part, dx as int), mid, x->split_value, y->split_value);
    }
}

/// A build has one outcome: two trees built over the same data with the same leaf
/// size, on one thread or on many, hold the same points in the same order, under the
/// same nodes and boxes, value for value.
pub proof fn a_build_has_one_outcome<S: Scalar>(data: Seq<S>, a: &Tree<S>, b: &Tree<S>)
    requires
        lawful::<S>(),
        a.wf(),
        b.wf(),
        a.ndim == b.ndim,
        a.leafsize == b.leafsize,
        a.holds(data),
        b.holds(data),
        a.laid_out(data),
        b.laid_out(data),
    ensures
        a.data@ == b.data@,
        a.indices@ == b.indices@,
        a.nodes@ == b.nodes@,
        a.boxes@ == b.boxes@,
{
    let w = a.ndim as int;
    let n = a.n_points as int;
    lemma_block_len(a.data@, n, w);
    lemma_block_len(b.data@, b.n_points as int, w);
    let (x, y) = (pairs(a.rows(), a.indices@), pairs(b.rows(), b.indices@));
    assert forall|i: int| 0 <= i < n implies a.rows()[i] == b.rows()[i] && a.indices@[i]
        == b.indices@[i] by {
        assert(x[i] == y[i]);
    }
    assert(a.rows() =~= b.rows());
    assert(a.indices@ =~= b.indices@);
    lemma_rows_determine(a.data@, b.data@, n, w);
    lemma_same_subtree(a, b, 0, 0, n);
    assert(a.nodes@ =~= b.nodes@);
}

/// The nodes are of one kind, with the same positions or children.
pub open spec fn same_place<S, T>(a: Node<S>, b: Node<T>) -> bool {
    match (a, b) {
        (
            Node::Leaf { start, end },
            Node::Leaf { start: start2, end: end2 },
        ) => start == start2 && end == end2,
        (
            Node::Inner { left, right, .. },
            Node::Inner { left: left2, right: right2, .. },
        ) => left == left2 && right == right2,
        _ => false,
    }
}

proof fn lemma_same_layout<S: Scalar, T: Scalar>(
    a: &Tree<S>,
    b: &Tree<T>,
    id: int,
    first: int,
    len: int,
)
    requires
        a.leafsize == b.leafsize,
        a.node_ok(id, first, len),
        b.node_ok(id, first, len),
    ensures
        forall|k: int|
            id <= k < id + count_nodes_spec(len, a.leafsize as int) ==> same_place(
                #[trigger] a.nodes@[k],
                b.nodes@[k],
            ),
    decreases len,
{
    reveal(node_ok);
    if len > a.leafsize && len > 1 {
        let mid = len / 2;
        let cl = count_nodes_spec(mid, a.leafsize as int);
        lemma_same_layout(a, b, id + 1, first, mid);
        lemma_same_layout(a, b, id + 1 + cl, first + mid, len - mid);
    }
}

/// The layout is a function of the number of points and the leaf size: whatever
/// the points are, two trees of one size and leaf size have the same nodes at the
/// same places, over the same positions.
pub proof fn the_layout_depends_on_sizes_only<S: Scalar, T: Scalar>(a: &Tree<S>, b: &Tree<T>)
    requires
        a.wf(),
        b.wf(),
        a.n_points == b.n_points,
        a.leafsize == b.leafsize,
    ensures
        a.nodes@.len() == b.nodes@.len(),
        forall|id: int|
            0 <= id < a.nodes@.len() ==> same_place(#[trigger] a.nodes@[id], b.nodes@[id]),
{
    lemma_same_layout(a, b, 0, 0, a.n_points as int);
}

} // verus!
