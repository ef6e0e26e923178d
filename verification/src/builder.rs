//! Building a tree.
//!
//! Splitting every subtree at half its length makes the preorder layout a pure
//! function of the number of points and the leaf size. So the number of nodes
//! of every subtree is known in advance, disjoint windows can be cut out of
//! every buffer, and the two children of a node can be built at the same time
//! without locks or a merge.

use crate::arrange::{arranged, box_row, boxed, head, lemma_flat_of_rows, lemma_pivot_key,
    lemma_split_axis, partitioned, rows_in, tail};
use crate::error::KDTreeError;
use crate::layout::{attained, hi_of, is_block, lemma_block_len, lemma_row_at, lemma_rows_finite,
    lemma_rows_subrange, lemma_tight_finite, lo_of, rows_finite, rows_of, tight, whole_rows, BBox,
    Boxes, Dyn, Fixed, Rows, Width};
use crate::node::{unpack_split_spec, Node};
use crate::partition::{column, is_median, lemma_median_rearranged, lemma_pairs_rows, median, pairs,
    partition_rows};
use crate::perm::{lemma_concat_same_items, lemma_same_items_contains, lemma_same_items_distinct,
    same_items};
use crate::scalar::{all_finite_spec, filled, finite, lawful, less, Scalar};
use crate::tree::{count_nodes_spec, inner_ok, lemma_count_nodes_bounds, node_ok, shrank_spec,
    splits, widest, Tree, BOX_ORDER_MIN_SUBTREE, ROOT, SHRINK_DEN, SHRINK_NUM};
use vstd::prelude::*;

verus! {

fn split_point(len: usize) -> (r: usize)
    ensures
        r == len / 2,
{
    len / 2
}

/// The number of nodes of a subtree of `len` points.
pub fn count_nodes(len: usize, leafsize: usize) -> (r: usize)
    requires
        len >= 1,
        leafsize >= 1,
        2 * len <= usize::MAX,
    ensures
        r == count_nodes_spec(len as int, leafsize as int),
    decreases len,
{
    proof {
        lemma_count_nodes_bounds(len as int, leafsize as int);
    }
    if len <= leafsize {
        1
    } else {
        let mid = split_point(len);
        proof {
            lemma_count_nodes_bounds(mid as int, leafsize as int);
            lemma_count_nodes_bounds(len - mid, leafsize as int);
        }
        1 + count_nodes(mid, leafsize) + count_nodes(len - mid, leafsize)
    }
}

/// How a tree is built, besides the points.
struct Layout<W> {
    leafsize: usize,
    parallel: bool,
    width: W,
}

/// One subtree's window into every buffer of the build. `first_row` is the
/// position of the first row of the window, `id` the number of its first node.
struct Subtree<'a, S> {
    rows: &'a mut [S],
    indices: &'a mut [u32],
    nodes: &'a mut [Node<S>],
    boxes: &'a mut [S],
    keys: &'a mut [S],
    first_row: usize,
    id: u32,
}

/// The subtree of node `id` over rows that start at position `first` is laid
/// out as the build lays it out; all sequences are the subtree's own windows.
#[verifier::opaque]
spec fn built<S: Scalar>(
    rows: Seq<Seq<S>>,
    nodes: Seq<Node<S>>,
    boxes: Seq<Seq<S>>,
    ndim: int,
    leafsize: int,
    first: int,
    id: int,
) -> bool
    decreases rows.len(),
{
    let len = rows.len() as int;
    let mid = len / 2;
    let left_nodes = count_nodes_spec(mid, leafsize);
    &&& 0 < len
    &&& nodes.len() == count_nodes_spec(len, leafsize)
    &&& boxes.len() == nodes.len()
    &&& tight(lo_of(boxes[0], ndim), hi_of(boxes[0], ndim), rows, ndim)
    &&& if len <= leafsize || len <= 1 {
        nodes[0] matches Node::Leaf { start, end } && start == first && end == first + len
    } else {
        &&& inner_ok(
            nodes[0],
            rows,
            boxes[0],
            boxes[1],
            boxes[1 + left_nodes],
            ndim,
            id,
            left_nodes,
        )
        &&& built(
            rows.subrange(0, mid),
            nodes.subrange(1, 1 + left_nodes),
            boxes.subrange(1, 1 + left_nodes),
            ndim,
            leafsize,
            first,
            id + 1,
        )
        &&& built(
            rows.subrange(mid, len),
            nodes.subrange(1 + left_nodes, nodes.len() as int),
            boxes.subrange(1 + left_nodes, nodes.len() as int),
            ndim,
            leafsize,
            first + mid,
            id + 1 + left_nodes,
        )
    }
}

/// The windows of a subtree fit together.
spec fn windows_ok<S: Scalar>(
    rows: Seq<S>,
    indices: Seq<u32>,
    nodes: Seq<Node<S>>,
    boxes: Seq<S>,
    keys: Seq<S>,
    first_row: int,
    id: int,
    ndim: int,
    leafsize: int,
) -> bool {
    let n = indices.len() as int;
    &&& 0 < ndim <= 0x8000_0000
    &&& 0 < leafsize
    &&& 0 < n
    &&& is_block(rows, n, ndim)
    &&& all_finite_spec(rows)
    &&& nodes.len() == count_nodes_spec(n, leafsize)
    &&& is_block(boxes, nodes.len() as int, 2 * ndim)
    &&& keys.len() == n
    &&& 0 <= first_row
    &&& first_row + n <= u32::MAX
    &&& 0 <= id
    &&& id + nodes.len() <= u32::MAX
    &&& 2 * n <= usize::MAX
}

/// What the build of a subtree leaves behind in its windows.
spec fn subtree_built<S: Scalar>(
    rows: Seq<S>,
    indices: Seq<u32>,
    rows2: Seq<S>,
    indices2: Seq<u32>,
    nodes2: Seq<Node<S>>,
    boxes2: Seq<S>,
    first_row: int,
    id: int,
    ndim: int,
    leafsize: int,
) -> bool {
    &&& rows2.len() == rows.len()
    &&& indices2.len() == indices.len()
    &&& same_items(indices, indices2)
    &&& same_items(
        pairs(rows_of(rows, ndim), indices),
        pairs(rows_of(rows2, ndim), indices2),
    )
    &&& pairs(rows_of(rows2, ndim), indices2) == arranged(
        pairs(rows_of(rows, ndim), indices),
        ndim,
        leafsize,
    )
    &&& rows_of(boxes2, 2 * ndim) == boxed(
        pairs(rows_of(rows, ndim), indices),
        ndim,
        leafsize,
    )
    &&& is_block(boxes2, nodes2.len() as int, 2 * ndim)
    &&& built(
        rows_of(rows2, ndim),
        nodes2,
        rows_of(boxes2, 2 * ndim),
        ndim,
        leafsize,
        first_row,
        id,
    )
}

/// A rearrangement of rows has the tight box that the rows have.
proof fn lemma_tight_rearranged<S: Scalar>(
    lo: Seq<S>,
    hi: Seq<S>,
    rows: Seq<Seq<S>>,
    indices: Seq<u32>,
    rows2: Seq<Seq<S>>,
    indices2: Seq<u32>,
    ndim: int,
)
    requires
        tight(lo, hi, rows, ndim),
        rows.len() == indices.len(),
        rows2.len() == indices2.len(),
        same_items(pairs(rows, indices), pairs(rows2, indices2)),
    ensures
        tight(lo, hi, rows2, ndim),
{
    assert forall|d: int, i: int| 0 <= d < ndim && 0 <= i < rows2.len() implies lo[d].key() <= (
    #[trigger] rows2[i][d]).key() <= hi[d].key() by {
        let j = lemma_pairs_rows(rows, indices, rows2, indices2, i);
        assert(rows[j][d] == rows2[i][d]);
    }
    assert forall|d: int| 0 <= d < ndim implies attained(#[trigger] lo[d], rows2, d) by {
        assert(attained(lo[d], rows, d));
        let i = choose|i: int| 0 <= i < rows.len() && #[trigger] rows[i][d] == lo[d];
        let j = lemma_pairs_rows(rows2, indices2, rows, indices, i);
        assert(rows2[j][d] == lo[d]);
    }
    assert forall|d: int| 0 <= d < ndim implies attained(#[trigger] hi[d], rows2, d) by {
        assert(attained(hi[d], rows, d));
        let i = choose|i: int| 0 <= i < rows.len() && #[trigger] rows[i][d] == hi[d];
        let j = lemma_pairs_rows(rows2, indices2, rows, indices, i);
        assert(rows2[j][d] == hi[d]);
    }
}

/// A rearrangement of finite rows is finite.
proof fn lemma_finite_rearranged<S: Scalar>(
    rows: Seq<Seq<S>>,
    indices: Seq<u32>,
    rows2: Seq<Seq<S>>,
    indices2: Seq<u32>,
    ndim: int,
)
    requires
        rows_finite(rows, ndim),
        rows.len() == indices.len(),
        rows2.len() == indices2.len(),
        same_items(pairs(rows, indices), pairs(rows2, indices2)),
    ensures
        rows_finite(rows2, ndim),
{
    assert forall|i: int, d: int| 0 <= i < rows2.len() && 0 <= d < ndim implies finite(
        #[trigger] rows2[i][d],
    ) by {
        let j = lemma_pairs_rows(rows, indices, rows2, indices2, i);
        assert(finite(rows[j][d]));
    }
}

/// Rearranging both sides of a split keeps it.
proof fn lemma_splits_rearranged<S: Scalar>(
    rows: Seq<Seq<S>>,
    indices: Seq<u32>,
    rows2: Seq<Seq<S>>,
    indices2: Seq<u32>,
    mid: int,
    dim: int,
    value: S,
)
    requires
        splits(rows, mid, dim, value),
        rows.len() == indices.len(),
        rows2.len() == indices2.len(),
        rows.len() == rows2.len(),
        0 <= mid <= rows.len(),
        same_items(
            pairs(rows.subrange(0, mid), indices.subrange(0, mid)),
            pairs(rows2.subrange(0, mid), indices2.subrange(0, mid)),
        ),
        same_items(
            pairs(
                rows.subrange(mid, rows.len() as int),
                indices.subrange(mid, rows.len() as int),
            ),
            pairs(
                rows2.subrange(mid, rows.len() as int),
                indices2.subrange(mid, rows.len() as int),
            ),
        ),
    ensures
        splits(rows2, mid, dim, value),
        same_items(pairs(rows, indices), pairs(rows2, indices2)),
{
    let n = rows.len() as int;
    let (l, li) = (rows.subrange(0, mid), indices.subrange(0, mid));
    let (l2, li2) = (rows2.subrange(0, mid), indices2.subrange(0, mid));
    let (r, ri) = (rows.subrange(mid, n), indices.subrange(mid, n));
    let (r2, ri2) = (rows2.subrange(mid, n), indices2.subrange(mid, n));
    assert forall|i: int| 0 <= i < mid implies (#[trigger] rows2[i])[dim].key() <= value.key() by {
        let j = lemma_pairs_rows(l, li, l2, li2, i);
        assert(l2[i] == rows2[i] && l[j] == rows[j]);
        assert(rows[j][dim].key() <= value.key());
    }
    assert forall|i: int| mid <= i < n implies value.key() <= (#[trigger] rows2[i])[dim].key() by {
        let j = lemma_pairs_rows(r, ri, r2, ri2, i - mid);
        assert(r2[i - mid] == rows2[i] && r[j] == rows[mid + j]);
        assert(value.key() <= rows[mid + j][dim].key());
    }
    let at = choose|i: int| mid <= i < n && (#[trigger] rows[i])[dim].key() == value.key();
    let to = lemma_pairs_rows(r2, ri2, r, ri, at - mid);
    assert(r2[to] == rows2[mid + to] && r[at - mid] == rows[at]);
    assert(rows2[mid + to][dim].key() == value.key());
    lemma_concat_same_items(pairs(l, li), pairs(r, ri), pairs(l2, li2), pairs(r2, ri2));
    assert(pairs(rows, indices) =~= pairs(l, li) + pairs(r, ri));
    assert(pairs(rows2, indices2) =~= pairs(l2, li2) + pairs(r2, ri2));
    let i = choose|i: int| 0 <= i < n && #[trigger] rows[i][dim] == value;
    let j = lemma_pairs_rows(rows2, indices2, rows, indices, i);
    assert(rows2[j][dim] == value);
    lemma_median_rearranged(rows, indices, rows2, indices2, dim, mid, value);
}

/// Whether the child shrank well below the parent along every axis but
/// `split_dim`.
fn shrank_off_axis<S: Scalar>(
    parent: BBox<'_, S>,
    child: BBox<'_, S>,
    split_dim: usize,
) -> (r: bool)
    requires
        parent.lo@.len() == parent.hi@.len(),
        child.lo@.len() == parent.lo@.len(),
        child.hi@.len() == parent.lo@.len(),
    ensures
        r == shrank_spec(parent.lo@, parent.hi@, child.lo@, child.hi@, split_dim as int),
{
    let mut d: usize = 0;
    while d < parent.ndim()
        invariant
            parent.lo@.len() == parent.hi@.len(),
            child.lo@.len() == parent.lo@.len(),
            child.hi@.len() == parent.lo@.len(),
            d <= parent.lo@.len(),
            forall|e: int|
                0 <= e < d && e != split_dim ==> {
                    &&& less(
                        S::zero_spec(),
                        (#[trigger] parent.hi@[e]).minus_spec(parent.lo@[e]),
                    )
                    &&& !child.hi@[e].minus_spec(child.lo@[e]).ratio_reaches_spec(
                        parent.hi@[e].minus_spec(parent.lo@[e]),
                        SHRINK_NUM,
                        SHRINK_DEN,
                    )
                },
        decreases parent.lo@.len() - d,
    {
        if d != split_dim {
            let whole = parent.extent(d);
            if !S::zero().lt(whole) || child.extent(d).ratio_reaches(
                whole,
                SHRINK_NUM,
                SHRINK_DEN,
            ) {
                assert(parent.hi@[d as int] == parent.hi@[d as int]);
                return false;
            }
        }
        d += 1;
    }
    true
}

/// The first box of a window.
fn first_box<S: Scalar>(boxes: &[S], ndim: usize) -> (r: BBox<'_, S>)
    requires
        whole_rows(boxes@, 2 * ndim),
        rows_of(boxes@, 2 * ndim).len() > 0,
    ensures
        r.lo@ == lo_of(rows_of(boxes@, 2 * ndim)[0], ndim as int),
        r.hi@ == hi_of(rows_of(boxes@, 2 * ndim)[0], ndim as int),
        r.lo@.len() == ndim,
        r.hi@.len() == ndim,
{
    proof {
        lemma_row_at(boxes@, rows_of(boxes@, 2 * ndim).len() as int, 2 * ndim, 0);
        assert(boxes@.len() == boxes.len());
    }
    let both = vstd::slice::slice_subrange(boxes, 0, 2 * ndim);
    let (lo, hi) = both.split_at(ndim);
    proof {
        let row = rows_of(boxes@, 2 * ndim)[0];
        assert(both@ =~= row);
        assert(lo@ =~= lo_of(row, ndim as int));
        assert(hi@ =~= hi_of(row, ndim as int));
    }
    BBox { lo, hi }
}

/// Copies the coordinates along one axis. Selecting on a contiguous copy spares
/// the indirection that every comparison would take through the rows.
fn copy_column<S: Scalar>(flat: &[S], ndim: usize, dim: usize, keys: &mut [S])
    requires
        is_block(flat@, old(keys)@.len() as int, ndim as int),
        dim < ndim,
    ensures
        final(keys)@ == column(rows_of(flat@, ndim as int), dim as int),
{
    let n = keys.len();
    let ghost w = ndim as int;
    proof {
        lemma_block_len(flat@, n as int, w);
    }
    let mut i: usize = 0;
    while i < n
        invariant
            i <= n,
            w == ndim,
            n == keys@.len(),
            is_block(flat@, n as int, w),
            dim < ndim,
            forall|t: int| 0 <= t < i ==> #[trigger] keys@[t] == rows_of(flat@, w)[t][dim as int],
        decreases n - i,
    {
        proof {
            lemma_row_at(flat@, n as int, w, i as int);
            assert(flat@.len() == flat.len());
        }
        keys[i] = flat[i * ndim + dim];
        i += 1;
    }
    assert(keys@ =~= column(rows_of(flat@, w), dim as int));
}

impl<'a, S: Scalar> Subtree<'a, S> {
    /// Cuts the windows of the two children out of those of the subtree, and
    /// leaves the subtree's own node and box.
    fn into_children(self, ndim: usize, mid: usize, left_nodes: usize) -> (r: (
        &'a mut Node<S>,
        &'a mut [S],
        Subtree<'a, S>,
        Subtree<'a, S>,
    ))
        requires
            0 < ndim,
            is_block(self.rows@, self.indices@.len() as int, ndim as int),
            is_block(self.boxes@, self.nodes@.len() as int, 2 * ndim),
            self.keys@.len() == self.indices@.len(),
            mid <= self.indices@.len(),
            1 + left_nodes <= self.nodes@.len(),
            self.first_row + mid <= usize::MAX,
            self.id + 1 + left_nodes <= u32::MAX,
        ensures
            ({
                let (node, own, left, right) = r;
                let n = old(self.indices)@.len() as int;
                let w = ndim as int;
                let all = old(self.nodes)@.len() as int;
                let cut = 1 + left_nodes as int;
                // What the windows hold now.
                &&& left.rows@ == old(self.rows)@.subrange(0, mid * w)
                &&& right.rows@ == old(self.rows)@.subrange(mid * w, n * w)
                &&& left.indices@ == old(self.indices)@.subrange(0, mid as int)
                &&& right.indices@ == old(self.indices)@.subrange(mid as int, n)
                &&& left.nodes@ == old(self.nodes)@.subrange(1, cut)
                &&& right.nodes@ == old(self.nodes)@.subrange(cut, all)
                &&& own@ == old(self.boxes)@.subrange(0, 2 * w)
                &&& left.boxes@ == old(self.boxes)@.subrange(2 * w, cut * (2 * w))
                &&& right.boxes@ == old(self.boxes)@.subrange(cut * (2 * w), all * (2 * w))
                &&& left.keys@.len() == mid
                &&& right.keys@.len() == n - mid
                &&& left.first_row == self.first_row
                &&& right.first_row == self.first_row + mid
                &&& left.id == self.id + 1
                &&& right.id == self.id + 1 + left_nodes
                // What they come to hold, the subtree's windows hold.
                &&& final(self.rows)@ == final(left.rows)@ + final(right.rows)@
                &&& final(self.indices)@ == final(left.indices)@ + final(right.indices)@
                &&& final(self.nodes)@ == seq![*final(node)] + final(left.nodes)@
                    + final(right.nodes)@
                &&& final(self.boxes)@ == final(own)@ + final(left.boxes)@ + final(right.boxes)@
            }),
    {
        let ghost n = self.indices@.len() as int;
        let ghost all = self.nodes@.len() as int;
        proof {
            lemma_rows_subrange(self.rows@, n, ndim as int, 0, mid as int);
            lemma_rows_subrange(self.boxes@, all, 2 * ndim, 0, 1);
            lemma_rows_subrange(self.boxes@, all, 2 * ndim, 1, 1 + left_nodes);
            assert(self.rows@.len() == self.rows.len());
            assert(self.boxes@.len() == self.boxes.len());
            assert((1 + left_nodes) * (2 * ndim) == 2 * ndim + 2 * ndim * left_nodes)
                by (nonlinear_arith);
            assert(0 <= 2 * ndim * left_nodes) by (nonlinear_arith)
                requires
                    0 <= ndim,
                    0 <= left_nodes,
            ;
        }
        let (left_rows, right_rows) = self.rows.split_at_mut(mid * ndim);
        let (left_indices, right_indices) = self.indices.split_at_mut(mid);
        let (own_node, child_nodes) = self.nodes.split_at_mut(1);
        let (left_node_slots, right_node_slots) = child_nodes.split_at_mut(left_nodes);
        let (own_box, child_boxes) = self.boxes.split_at_mut(2 * ndim);
        let (left_boxes, right_boxes) = child_boxes.split_at_mut(2 * ndim * left_nodes);
        let (left_keys, right_keys) = self.keys.split_at_mut(mid);
        let node = &mut own_node[0];
        let left = Subtree {
            rows: left_rows,
            indices: left_indices,
            nodes: left_node_slots,
            boxes: left_boxes,
            keys: left_keys,
            first_row: self.first_row,
            id: self.id + 1,
        };
        let right = Subtree {
            rows: right_rows,
            indices: right_indices,
            nodes: right_node_slots,
            boxes: right_boxes,
            keys: right_keys,
            first_row: self.first_row + mid,
            id: self.id + 1 + left_nodes as u32,
        };
        (node, own_box, left, right)
    }
}

/// Builds a subtree whose own box is still to be written.
fn bound_and_build<S: Scalar, W: Width>(l: &Layout<W>, st: Subtree<'_, S>)
    requires
        lawful::<S>(),
        windows_ok(
            st.rows@,
            st.indices@,
            st.nodes@,
            st.boxes@,
            st.keys@,
            st.first_row as int,
            st.id as int,
            l.width.ndim_spec() as int,
            l.leafsize as int,
        ),
    ensures
        final(st.nodes)@.len() == old(st.nodes)@.len(),
        subtree_built(
            old(st.rows)@,
            old(st.indices)@,
            final(st.rows)@,
            final(st.indices)@,
            final(st.nodes)@,
            final(st.boxes)@,
            st.first_row as int,
            st.id as int,
            l.width.ndim_spec() as int,
            l.leafsize as int,
        ),
    decreases st.indices@.len(), 1nat,
{
    let ndim = l.width.ndim();
    let ghost w = ndim as int;
    let ghost n = st.indices@.len() as int;
    let ghost all = st.nodes@.len() as int;
    proof {
        lemma_count_nodes_bounds(n, l.leafsize as int);
        lemma_block_len(st.rows@, n, w);
        lemma_rows_subrange(st.boxes@, all, 2 * w, 0, 1);
        assert(st.boxes@.len() == st.boxes.len());
    }
    {
        let (own, rest) = st.boxes.split_at_mut(2 * ndim);
        let (lo, hi) = own.split_at_mut(ndim);
        let rows = Rows::new(&*st.rows, l.width);
        rows.bbox_into(lo, hi);
        proof {
            assert(lo@ =~= lo@.subrange(0, w));
            assert(hi@ =~= hi@.subrange(0, w));
        }
    }
    proof {
        let boxes = st.boxes@;
        assert(is_block(boxes, all, 2 * w));
        lemma_row_at(boxes, all, 2 * w, 0);
        lemma_flat_of_rows(st.rows@, n, w);
        assert(rows_of(boxes, 2 * w)[0] =~= box_row(rows_of(st.rows@, w), w));
    }
    build_subtree(l, st);
}

/// Two flat arrays of whole rows, one behind the other.
proof fn lemma_rows_concat<T>(a: Seq<T>, na: int, b: Seq<T>, nb: int, ndim: int)
    requires
        is_block(a, na, ndim),
        is_block(b, nb, ndim),
    ensures
        is_block(a + b, na + nb, ndim),
        rows_of(a + b, ndim) == rows_of(a, ndim) + rows_of(b, ndim),
{
    assert(na * ndim + nb * ndim == (na + nb) * ndim) by (nonlinear_arith);
    let c = a + b;
    lemma_block_len(a, na, ndim);
    lemma_block_len(b, nb, ndim);
    lemma_block_len(c, na + nb, ndim);
    lemma_rows_subrange(c, na + nb, ndim, 0, na);
    lemma_rows_subrange(c, na + nb, ndim, na, na + nb);
    assert(c.subrange(0 * ndim, na * ndim) =~= a);
    assert(c.subrange(na * ndim, (na + nb) * ndim) =~= b);
    assert(rows_of(c, ndim) =~= rows_of(a, ndim) + rows_of(b, ndim));
}

/// Arranging rows is arranging both sides of their split, and their boxes are the
/// box of all of them and then those of both sides.
proof fn lemma_arranged_apart<S: Scalar>(
    rows0: Seq<S>,
    ids0: Seq<u32>,
    rows1: Seq<S>,
    ids1: Seq<u32>,
    lo: Seq<S>,
    hi: Seq<S>,
    dim: int,
    pivot: S,
    w: int,
    leafsize: int,
)
    requires
        lawful::<S>(),
        0 < w,
        0 < leafsize < ids0.len(),
        is_block(rows0, ids0.len() as int, w),
        is_block(rows1, ids0.len() as int, w),
        ids1.len() == ids0.len(),
        rows_finite(rows_of(rows0, w), w),
        tight(lo, hi, rows_of(rows0, w), w),
        widest(lo, hi, dim),
        is_median(column(rows_of(rows0, w), dim), ids0.len() as int / 2, pivot),
        pairs(rows_of(rows1, w), ids1) == partitioned(
            pairs(rows_of(rows0, w), ids0),
            dim,
            pivot.key(),
            ids0.len() as int / 2,
        ),
    ensures
        arranged(pairs(rows_of(rows0, w), ids0), w, leafsize) == arranged(
            pairs(
                rows_of(rows1.subrange(0, (ids0.len() as int / 2) * w), w),
                ids1.subrange(0, ids0.len() as int / 2),
            ),
            w,
            leafsize,
        ) + arranged(
            pairs(
                rows_of(rows1.subrange((ids0.len() as int / 2) * w, ids0.len() * w), w),
                ids1.subrange(ids0.len() as int / 2, ids0.len() as int),
            ),
            w,
            leafsize,
        ),
        boxed(pairs(rows_of(rows0, w), ids0), w, leafsize) == seq![
            box_row(rows_of(rows0, w), w),
        ] + boxed(
            pairs(
                rows_of(rows1.subrange(0, (ids0.len() as int / 2) * w), w),
                ids1.subrange(0, ids0.len() as int / 2),
            ),
            w,
            leafsize,
        ) + boxed(
            pairs(
                rows_of(rows1.subrange((ids0.len() as int / 2) * w, ids0.len() * w), w),
                ids1.subrange(ids0.len() as int / 2, ids0.len() as int),
            ),
            w,
            leafsize,
        ),
{
    let n = ids0.len() as int;
    let mid = n / 2;
    let items = pairs(rows_of(rows0, w), ids0);
    let moved = pairs(rows_of(rows1, w), ids1);
    lemma_block_len(rows0, n, w);
    lemma_block_len(rows1, n, w);
    assert(rows_in(items) =~= rows_of(rows0, w));
    lemma_split_axis(lo, hi, rows_of(rows0, w), w, dim);
    lemma_pivot_key(column(rows_of(rows0, w), dim), mid, pivot);
    lemma_rows_subrange(rows1, n, w, 0, mid);
    lemma_rows_subrange(rows1, n, w, mid, n);
    assert(0 * w == 0);
    assert(head(moved, mid) =~= pairs(
        rows_of(rows1.subrange(0, mid * w), w),
        ids1.subrange(0, mid),
    ));
    assert(tail(moved, mid, n - mid) =~= pairs(
        rows_of(rows1.subrange(mid * w, n * w), w),
        ids1.subrange(mid, n),
    ));
}

/// A node over two built children is built.
#[verifier::spinoff_prover]
#[verifier::rlimit(60)]
proof fn lemma_children_built<S: Scalar>(
    rows0: Seq<S>,
    ids0: Seq<u32>,
    rows1: Seq<S>,
    ids1: Seq<u32>,
    node: Node<S>,
    own: Seq<S>,
    lrows: Seq<S>,
    lids: Seq<u32>,
    lnodes: Seq<Node<S>>,
    lboxes: Seq<S>,
    rrows: Seq<S>,
    rids: Seq<u32>,
    rnodes: Seq<Node<S>>,
    rboxes: Seq<S>,
    first: int,
    id: int,
    w: int,
    leafsize: int,
)
    requires
        0 < w,
        0 < leafsize,
        ids0.len() > leafsize,
        is_block(rows0, ids0.len() as int, w),
        is_block(rows1, ids0.len() as int, w),
        ids1.len() == ids0.len(),
        same_items(ids0, ids1),
        same_items(pairs(rows_of(rows0, w), ids0), pairs(rows_of(rows1, w), ids1)),
        lnodes.len() == count_nodes_spec(ids0.len() as int / 2, leafsize),
        rnodes.len() == count_nodes_spec(ids0.len() - ids0.len() as int / 2, leafsize),
        subtree_built(
            rows1.subrange(0, (ids0.len() as int / 2) * w),
            ids1.subrange(0, ids0.len() as int / 2),
            lrows,
            lids,
            lnodes,
            lboxes,
            first,
            id + 1,
            w,
            leafsize,
        ),
        subtree_built(
            rows1.subrange((ids0.len() as int / 2) * w, ids0.len() * w),
            ids1.subrange(ids0.len() as int / 2, ids0.len() as int),
            rrows,
            rids,
            rnodes,
            rboxes,
            first + ids0.len() as int / 2,
            id + 1 + lnodes.len(),
            w,
            leafsize,
        ),
        arranged(pairs(rows_of(rows0, w), ids0), w, leafsize) == arranged(
            pairs(
                rows_of(rows1.subrange(0, (ids0.len() as int / 2) * w), w),
                ids1.subrange(0, ids0.len() as int / 2),
            ),
            w,
            leafsize,
        ) + arranged(
            pairs(
                rows_of(rows1.subrange((ids0.len() as int / 2) * w, ids0.len() * w), w),
                ids1.subrange(ids0.len() as int / 2, ids0.len() as int),
            ),
            w,
            leafsize,
        ),
        boxed(pairs(rows_of(rows0, w), ids0), w, leafsize) == seq![
            box_row(rows_of(rows0, w), w),
        ] + boxed(
            pairs(
                rows_of(rows1.subrange(0, (ids0.len() as int / 2) * w), w),
                ids1.subrange(0, ids0.len() as int / 2),
            ),
            w,
            leafsize,
        ) + boxed(
            pairs(
                rows_of(rows1.subrange((ids0.len() as int / 2) * w, ids0.len() * w), w),
                ids1.subrange(ids0.len() as int / 2, ids0.len() as int),
            ),
            w,
            leafsize,
        ),
        own.len() == 2 * w,
        own == box_row(rows_of(rows0, w), w),
        tight(lo_of(own, w), hi_of(own, w), rows_of(rows1, w), w),
        inner_ok(
            node,
            rows_of(rows1, w),
            own,
            rows_of(lboxes, 2 * w)[0],
            rows_of(rboxes, 2 * w)[0],
            w,
            id,
            lnodes.len() as int,
        ),
    ensures
        subtree_built(
            rows0,
            ids0,
            lrows + rrows,
            lids + rids,
            seq![node] + lnodes + rnodes,
            own + lboxes + rboxes,
            first,
            id,
            w,
            leafsize,
        ),
{
    let n = ids0.len() as int;
    let mid = n / 2;
    let cl = lnodes.len() as int;
    let cr = rnodes.len() as int;
    lemma_count_nodes_bounds(mid, leafsize);
    lemma_count_nodes_bounds(n - mid, leafsize);
    lemma_rows_subrange(rows1, n, w, 0, mid);
    lemma_rows_subrange(rows1, n, w, mid, n);
    lemma_block_len(rows0, n, w);
    lemma_block_len(rows1, n, w);
    assert(0 * w == 0);
    assert(is_block(lrows, mid, w));
    assert(is_block(rrows, n - mid, w));
    lemma_rows_concat(lrows, mid, rrows, n - mid, w);
    lemma_block_len(lrows, mid, w);
    lemma_block_len(rrows, n - mid, w);
    let rows2 = rows_of(lrows + rrows, w);
    let ids2 = lids + rids;
    assert(rows2.subrange(0, mid) =~= rows_of(lrows, w));
    assert(rows2.subrange(mid, n) =~= rows_of(rrows, w));
    assert(ids2.subrange(0, mid) =~= lids);
    assert(ids2.subrange(mid, n) =~= rids);
    assert(pairs(rows2, ids2) =~= pairs(rows_of(lrows, w), lids) + pairs(
        rows_of(rrows, w),
        rids,
    ));
    let dim = unpack_split_spec(node->split_dim).0 as int;
    lemma_splits_rearranged(rows_of(rows1, w), ids1, rows2, ids2, mid, dim, node->split_value);
    lemma_tight_rearranged(
        lo_of(own, w),
        hi_of(own, w),
        rows_of(rows1, w),
        ids1,
        rows2,
        ids2,
        w,
    );
    lemma_concat_same_items(
        ids1.subrange(0, mid),
        ids1.subrange(mid, n),
        lids,
        rids,
    );
    assert(ids1.subrange(0, mid) + ids1.subrange(mid, n) =~= ids1);
    let nodes2 = seq![node] + lnodes + rnodes;
    assert(nodes2.subrange(1, 1 + cl) =~= lnodes);
    assert(nodes2.subrange(1 + cl, nodes2.len() as int) =~= rnodes);
    assert(is_block(own, 1, 2 * w));
    lemma_rows_concat(own, 1, lboxes, cl, 2 * w);
    lemma_rows_concat(own + lboxes, 1 + cl, rboxes, cr, 2 * w);
    let boxes2 = rows_of(own + lboxes + rboxes, 2 * w);
    lemma_block_len(own, 1, 2 * w);
    lemma_block_len(lboxes, cl, 2 * w);
    lemma_block_len(rboxes, cr, 2 * w);
    lemma_row_at(own, 1, 2 * w, 0);
    assert(rows_of(own, 2 * w)[0] =~= own);
    assert(boxes2[0] == own);
    assert(boxes2.subrange(1, 1 + cl) =~= rows_of(lboxes, 2 * w));
    assert(boxes2.subrange(1 + cl, nodes2.len() as int) =~= rows_of(rboxes, 2 * w));
    assert(boxes2[1] == rows_of(lboxes, 2 * w)[0]);
    assert(boxes2[1 + cl] == rows_of(rboxes, 2 * w)[0]);
    assert(boxes2 =~= seq![own] + rows_of(lboxes, 2 * w) + rows_of(rboxes, 2 * w));
    assert(nodes2[0] == node);
    assert(nodes2.len() == count_nodes_spec(n, leafsize));
    assert(inner_ok(node, rows2, own, boxes2[1], boxes2[1 + cl], w, id, cl));
    assert(built(rows2, nodes2, boxes2, w, leafsize, first, id)) by {
        reveal(built);
    }
}

/// Builds a subtree whose own box is written already.
fn build_subtree<S: Scalar, W: Width>(l: &Layout<W>, st: Subtree<'_, S>)
    requires
        lawful::<S>(),
        windows_ok(
            st.rows@,
            st.indices@,
            st.nodes@,
            st.boxes@,
            st.keys@,
            st.first_row as int,
            st.id as int,
            l.width.ndim_spec() as int,
            l.leafsize as int,
        ),
        rows_of(st.boxes@, 2 * l.width.ndim_spec())[0] == box_row(
            rows_of(st.rows@, l.width.ndim_spec() as int),
            l.width.ndim_spec() as int,
        ),
        tight(
            lo_of(
                rows_of(st.boxes@, 2 * l.width.ndim_spec())[0],
                l.width.ndim_spec() as int,
            ),
            hi_of(
                rows_of(st.boxes@, 2 * l.width.ndim_spec())[0],
                l.width.ndim_spec() as int,
            ),
            rows_of(st.rows@, l.width.ndim_spec() as int),
            l.width.ndim_spec() as int,
        ),
    ensures
        final(st.nodes)@.len() == old(st.nodes)@.len(),
        subtree_built(
            old(st.rows)@,
            old(st.indices)@,
            final(st.rows)@,
            final(st.indices)@,
            final(st.nodes)@,
            final(st.boxes)@,
            st.first_row as int,
            st.id as int,
            l.width.ndim_spec() as int,
            l.leafsize as int,
        ),
    decreases st.indices@.len(), 0nat,
{
    let ndim = l.width.ndim();
    let len = st.indices.len();
    let ghost w = ndim as int;
    let ghost n = len as int;
    let ghost all = st.nodes@.len() as int;
    let ghost (rows0, ids0, nodes0, boxes0) = (st.rows@, st.indices@, st.nodes@, st.boxes@);
    proof {
        lemma_count_nodes_bounds(n, l.leafsize as int);
        lemma_block_len(rows0, n, w);
        lemma_block_len(boxes0, all, 2 * w);
        lemma_row_at(boxes0, all, 2 * w, 0);
        lemma_rows_finite(rows0, n, w);
    }
    if len <= l.leafsize {
        st.nodes[0] = Node::Leaf {
            start: st.first_row as u32,
            end: (st.first_row + len) as u32,
        };
        proof {
            reveal(built);
            assert(rows_in(pairs(rows_of(rows0, w), ids0)) =~= rows_of(rows0, w));
            assert(rows_of(boxes0, 2 * w) =~= seq![box_row(rows_of(rows0, w), w)]);
        }
        return;
    }
    let own = first_box(&*st.boxes, ndim);
    let ghost (lo, hi) = (own.lo@, own.hi@);
    proof {
        lemma_tight_finite(lo, hi, rows_of(rows0, w), w);
    }
    let split_dim = own.widest_axis();
    proof {
        assert forall|d: int| 0 <= d < lo.len() implies #[trigger] hi[d].minus_spec(lo[d])
            == own.extent_spec(d) by {}
        assert(widest(lo, hi, split_dim as int));
    }
    let mid = split_point(len);
    copy_column(&*st.rows, ndim, split_dim, st.keys);
    let pivot = median(st.keys, mid);
    proof {
        let c = column(rows_of(rows0, w), split_dim as int);
        assert(c.contains(pivot)) by {
            reveal(is_median);
        }
        let t = choose|t: int| 0 <= t < c.len() && c[t] == pivot;
        assert(finite(rows_of(rows0, w)[t][split_dim as int]));
        assert forall|i: int| 0 <= i < n implies !(#[trigger] rows_of(
            rows0,
            w,
        )[i])[split_dim as int].nan() by {
            assert(finite(rows_of(rows0, w)[i][split_dim as int]));
        }
    }
    partition_rows(st.rows, ndim, st.indices, split_dim, pivot, mid);
    let left_nodes = count_nodes(mid, l.leafsize);
    let ghost (rows1, ids1) = (st.rows@, st.indices@);
    let ghost cut = 1 + left_nodes as int;
    proof {
        lemma_count_nodes_bounds(mid as int, l.leafsize as int);
        lemma_count_nodes_bounds(n - mid, l.leafsize as int);
        assert(is_block(rows1, n, w));
        lemma_block_len(rows1, n, w);
        lemma_finite_rearranged(rows_of(rows0, w), ids0, rows_of(rows1, w), ids1, w);
        lemma_rows_finite(rows1, n, w);
        lemma_tight_rearranged(lo, hi, rows_of(rows0, w), ids0, rows_of(rows1, w), ids1, w);
        lemma_rows_subrange(rows1, n, w, 0, mid as int);
        lemma_rows_subrange(rows1, n, w, mid as int, n);
        lemma_rows_subrange(boxes0, all, 2 * w, 0, 1);
        lemma_rows_subrange(boxes0, all, 2 * w, 1, cut);
        lemma_rows_subrange(boxes0, all, 2 * w, cut, all);
    }
    let (first_row, id) = (st.first_row, st.id);
    let (node, own_box, left, right) = st.into_children(ndim, mid, left_nodes);
    let (left_id, right_id) = (left.id, right.id);
    let Subtree {
        rows: lrows,
        indices: lindices,
        nodes: lnodes,
        boxes: lboxes,
        keys: lkeys,
        first_row: lfirst,
        id: lid,
    } = left;
    let Subtree {
        rows: rrows,
        indices: rindices,
        nodes: rnodes,
        boxes: rboxes,
        keys: rkeys,
        first_row: rfirst,
        id: rid,
    } = right;
    {
        let left = Subtree {
            rows: lrows,
            indices: lindices,
            nodes: lnodes,
            boxes: &mut *lboxes,
            keys: lkeys,
            first_row: lfirst,
            id: lid,
        };
        let right = Subtree {
            rows: rrows,
            indices: rindices,
            nodes: rnodes,
            boxes: &mut *rboxes,
            keys: rkeys,
            first_row: rfirst,
            id: rid,
        };
        if l.parallel {
            join_children(l, left, right);
        } else {
            bound_and_build(l, left);
            bound_and_build(l, right);
        }
    }
    proof {
        lemma_block_len(lboxes@, left_nodes as int, 2 * w);
        lemma_block_len(rboxes@, all - cut, 2 * w);
        lemma_block_len(own_box@, 1, 2 * w);
    }
    let own = first_box(&*own_box, ndim);
    let left_box = first_box(&*lboxes, ndim);
    let right_box = first_box(&*rboxes, ndim);
    let order_by_box = own.ndim() > 1 && len >= BOX_ORDER_MIN_SUBTREE && shrank_off_axis(
        own,
        left_box,
        split_dim,
    ) && shrank_off_axis(own, right_box, split_dim);
    *node = Node::inner(left_id, right_id, split_dim, order_by_box, pivot);
    proof {
        lemma_row_at(own_box@, 1, 2 * w, 0);
        assert(rows_of(own_box@, 2 * w)[0] =~= own_box@);
        assert(rows_of(boxes0, 2 * w)[0] =~= own_box@);
        assert(own.lo@ == lo);
        assert(own.hi@ == hi);
        assert(splits(rows_of(rows1, w), n / 2, split_dim as int, pivot));
        lemma_arranged_apart(
            rows0,
            ids0,
            rows1,
            ids1,
            lo,
            hi,
            split_dim as int,
            pivot,
            w,
            l.leafsize as int,
        );
        lemma_children_built(
            rows0,
            ids0,
            rows1,
            ids1,
            *node,
            own_box@,
            final(lrows)@,
            final(lindices)@,
            final(lnodes)@,
            lboxes@,
            final(rrows)@,
            final(rindices)@,
            final(rnodes)@,
            rboxes@,
            first_row as int,
            id as int,
            w,
            l.leafsize as int,
        );
    }
}

/// Calls `rayon::join`, which runs both closures, possibly at the same time on
/// two threads, and returns once both are done. Each closure builds one child,
/// so each child is left as [`bound_and_build`] leaves it.
#[verifier::external_body]
fn join_children<S: Scalar, W: Width>(l: &Layout<W>, left: Subtree<'_, S>, right: Subtree<'_, S>)
    requires
        lawful::<S>(),
        windows_ok(
            left.rows@,
            left.indices@,
            left.nodes@,
            left.boxes@,
            left.keys@,
            left.first_row as int,
            left.id as int,
            l.width.ndim_spec() as int,
            l.leafsize as int,
        ),
        windows_ok(
            right.rows@,
            right.indices@,
            right.nodes@,
            right.boxes@,
            right.keys@,
            right.first_row as int,
            right.id as int,
            l.width.ndim_spec() as int,
            l.leafsize as int,
        ),
    ensures
        final(left.nodes)@.len() == old(left.nodes)@.len(),
        final(right.nodes)@.len() == old(right.nodes)@.len(),
        subtree_built(
            old(left.rows)@,
            old(left.indices)@,
            final(left.rows)@,
            final(left.indices)@,
            final(left.nodes)@,
            final(left.boxes)@,
            left.first_row as int,
            left.id as int,
            l.width.ndim_spec() as int,
            l.leafsize as int,
        ),
        subtree_built(
            old(right.rows)@,
            old(right.indices)@,
            final(right.rows)@,
            final(right.indices)@,
            final(right.nodes)@,
            final(right.boxes)@,
            right.first_row as int,
            right.id as int,
            l.width.ndim_spec() as int,
            l.leafsize as int,
        ),
{
    rayon::join(|| bound_and_build(l, left), || bound_and_build(l, right));
}

/// A subtree that is built in its windows is laid out in the whole tree.
proof fn lemma_built_node_ok<S: Scalar>(
    rows: Seq<Seq<S>>,
    nodes: Seq<Node<S>>,
    boxes: Seq<Seq<S>>,
    ndim: int,
    leafsize: int,
    id: int,
    first: int,
    len: int,
)
    requires
        0 <= first,
        0 < len,
        first + len <= rows.len(),
        0 <= id,
        id + count_nodes_spec(len, leafsize) <= nodes.len(),
        nodes.len() == boxes.len(),
        built(
            rows.subrange(first, first + len),
            nodes.subrange(id, id + count_nodes_spec(len, leafsize)),
            boxes.subrange(id, id + count_nodes_spec(len, leafsize)),
            ndim,
            leafsize,
            first,
            id,
        ),
    ensures
        node_ok(rows, nodes, boxes, ndim, leafsize, id, first, len),
    decreases len,
{
    reveal(node_ok);
    reveal(built);
    let c = count_nodes_spec(len, leafsize);
    let r = rows.subrange(first, first + len);
    let ns = nodes.subrange(id, id + c);
    let bs = boxes.subrange(id, id + c);
    lemma_count_nodes_bounds(len, leafsize);
    if len > leafsize && len > 1 {
        let mid = len / 2;
        let cl = count_nodes_spec(mid, leafsize);
        lemma_count_nodes_bounds(mid, leafsize);
        lemma_count_nodes_bounds(len - mid, leafsize);
        assert(r.subrange(0, mid) =~= rows.subrange(first, first + mid));
        assert(r.subrange(mid, len) =~= rows.subrange(first + mid, first + len));
        assert(ns.subrange(1, 1 + cl) =~= nodes.subrange(id + 1, id + 1 + cl));
        assert(ns.subrange(1 + cl, c) =~= nodes.subrange(id + 1 + cl, id + c));
        assert(bs.subrange(1, 1 + cl) =~= boxes.subrange(id + 1, id + 1 + cl));
        assert(bs.subrange(1 + cl, c) =~= boxes.subrange(id + 1 + cl, id + c));
        lemma_built_node_ok(rows, nodes, boxes, ndim, leafsize, id + 1, first, mid);
        lemma_built_node_ok(
            rows,
            nodes,
            boxes,
            ndim,
            leafsize,
            id + 1 + cl,
            first + mid,
            len - mid,
        );
    }
}

/// Why `data` makes no tree, if it makes none.
pub open spec fn refusal<S: Scalar>(
    data: Seq<S>,
    ndim: usize,
    leafsize: usize,
) -> Option<KDTreeError<S>> {
    let n_points = data.len() as int / ndim as int;
    let n_nodes = count_nodes_spec(n_points, leafsize as int);
    if leafsize == 0 {
        Some(KDTreeError::InvalidLeafsize)
    } else if ndim == 0 || data.len() == 0 {
        Some(KDTreeError::EmptyData)
    } else if data.len() as int % ndim as int != 0 {
        Some(KDTreeError::InvalidShape("data length must be a multiple of ndim"))
    } else if n_points > u32::MAX {
        Some(KDTreeError::TooManyPoints(n_points as usize))
    } else if n_nodes > u32::MAX {
        Some(KDTreeError::TooManyNodes(n_nodes as usize))
    } else if !all_finite_spec(data) {
        Some(KDTreeError::NonFiniteData)
    } else {
        None
    }
}

/// The row numbers before anything moved.
fn row_numbers(n: usize) -> (r: Vec<u32>)
    requires
        n <= u32::MAX,
    ensures
        r@ == Seq::new(n as nat, |i: int| i as u32),
{
    let mut out: Vec<u32> = Vec::with_capacity(n);
    while out.len() < n
        invariant
            n <= u32::MAX,
            out@.len() <= n,
            forall|i: int| 0 <= i < out@.len() ==> out@[i] == i,
        decreases n - out@.len(),
    {
        out.push(out.len() as u32);
    }
    assert(out@ =~= Seq::new(n as nat, |i: int| i as u32));
    out
}

/// Builds all of a tree whose root box is written already.
fn build_all<S: Scalar, W: Width>(
    leafsize: usize,
    parallel: bool,
    width: W,
    data: &mut [S],
    indices: &mut [u32],
    nodes: &mut [Node<S>],
    boxes: &mut [S],
    keys: &mut [S],
)
    requires
        lawful::<S>(),
        windows_ok(
            old(data)@,
            old(indices)@,
            old(nodes)@,
            old(boxes)@,
            old(keys)@,
            0,
            0,
            width.ndim_spec() as int,
            leafsize as int,
        ),
        rows_of(old(boxes)@, 2 * width.ndim_spec())[0] == box_row(
            rows_of(old(data)@, width.ndim_spec() as int),
            width.ndim_spec() as int,
        ),
        tight(
            lo_of(rows_of(old(boxes)@, 2 * width.ndim_spec())[0], width.ndim_spec() as int),
            hi_of(rows_of(old(boxes)@, 2 * width.ndim_spec())[0], width.ndim_spec() as int),
            rows_of(old(data)@, width.ndim_spec() as int),
            width.ndim_spec() as int,
        ),
    ensures
        final(nodes)@.len() == old(nodes)@.len(),
        subtree_built(
            old(data)@,
            old(indices)@,
            final(data)@,
            final(indices)@,
            final(nodes)@,
            final(boxes)@,
            0,
            0,
            width.ndim_spec() as int,
            leafsize as int,
        ),
{
    let layout = Layout { leafsize, parallel, width };
    build_subtree(
        &layout,
        Subtree { rows: data, indices, nodes, boxes, keys, first_row: 0, id: ROOT },
    );
}

/// Builds a tree over the rows of `data`.
pub fn build<S: Scalar>(
    data: Vec<S>,
    ndim: usize,
    leafsize: usize,
    parallel: bool,
) -> (r: Result<Tree<S>, KDTreeError<S>>)
    requires
        lawful::<S>(),
        4 * data@.len() <= usize::MAX,
        refusal(data@, ndim, leafsize) is None ==> ndim <= 0x8000_0000,
    ensures
        match r {
            Ok(tree) => {
                &&& refusal(data@, ndim, leafsize) is None
                &&& tree.wf()
                &&& tree.ndim == ndim
                &&& tree.leafsize == leafsize
                &&& tree.holds(data@)
                &&& tree.laid_out(data@)
            },
            Err(error) => refusal(data@, ndim, leafsize) == Some(error),
        },
{
    let ghost data0 = data@;
    let mut data = data;
    if leafsize == 0 {
        return Err(KDTreeError::InvalidLeafsize);
    }
    if ndim == 0 || data.len() == 0 {
        return Err(KDTreeError::EmptyData);
    }
    if data.len() % ndim != 0 {
        return Err(KDTreeError::InvalidShape("data length must be a multiple of ndim"));
    }
    let n_points = data.len() / ndim;
    let ghost w = ndim as int;
    let ghost n = n_points as int;
    proof {
        vstd::arithmetic::div_mod::lemma_fundamental_div_mod(data0.len() as int, w);
        assert(w * n == n * w) by (nonlinear_arith);
        assert(is_block(data0, n, w));
        assert(n > 0) by (nonlinear_arith)
            requires
                data0.len() > 0,
                data0.len() == n * w,
                w > 0,
        ;
        assert(n <= n * w) by (nonlinear_arith)
            requires
                n > 0,
                w > 0,
        ;
        lemma_count_nodes_bounds(n, leafsize as int);
    }
    if n_points > u32::MAX as usize {
        return Err(KDTreeError::TooManyPoints(n_points));
    }
    let n_nodes = count_nodes(n_points, leafsize);
    if n_nodes > u32::MAX as usize {
        return Err(KDTreeError::TooManyNodes(n_nodes));
    }
    let ghost all = n_nodes as int;
    proof {
        assert(2 * w * all <= 4 * (n * w)) by (nonlinear_arith)
            requires
                all <= 2 * n - 1,
                w > 0,
                n > 0,
        ;
    }
    let mut indices = row_numbers(n_points);
    let mut nodes = filled(n_nodes, Node::<S>::Leaf { start: 0, end: 0 });
    let mut boxes = Boxes::<S>::zeroed(n_nodes, ndim);
    let mut keys = filled(n_points, S::zero());
    proof {
        lemma_block_len(data0, n, w);
        lemma_rows_subrange(boxes.values@, all, 2 * w, 0, 1);
        assert(boxes.values@.len() == boxes.values.len());
    }
    {
        let (own, rest) = boxes.values.as_mut_slice().split_at_mut(2 * ndim);
        let (lo, hi) = own.split_at_mut(ndim);
        let rows = Rows::new(data.as_slice(), Dyn(ndim));
        let good = rows.bbox_checked_into(lo, hi);
        if !good {
            return Err(KDTreeError::NonFiniteData);
        }
        proof {
            assert(lo@ =~= lo@.subrange(0, w));
            assert(hi@ =~= hi@.subrange(0, w));
        }
    }
    let ghost ids0 = indices@;
    proof {
        lemma_row_at(boxes.values@, all, 2 * w, 0);
        assert(is_block(boxes.values@, all, 2 * w));
        lemma_flat_of_rows(data0, n, w);
        assert(rows_of(boxes.values@, 2 * w)[0] =~= box_row(rows_of(data0, w), w));
    }
    // The listed widths are those whose row moves are worth unrolling.
    let values = &mut boxes.values;
    match ndim {
        1 => build_all(
            leafsize,
            parallel,
            Fixed::<1>,
            &mut data,
            &mut indices,
            &mut nodes,
            values,
            &mut keys,
        ),
        2 => build_all(
            leafsize,
            parallel,
            Fixed::<2>,
            &mut data,
            &mut indices,
            &mut nodes,
            values,
            &mut keys,
        ),
        3 => build_all(
            leafsize,
            parallel,
            Fixed::<3>,
            &mut data,
            &mut indices,
            &mut nodes,
            values,
            &mut keys,
        ),
        4 => build_all(
            leafsize,
            parallel,
            Fixed::<4>,
            &mut data,
            &mut indices,
            &mut nodes,
            values,
            &mut keys,
        ),
        8 => build_all(
            leafsize,
            parallel,
            Fixed::<8>,
            &mut data,
            &mut indices,
            &mut nodes,
            values,
            &mut keys,
        ),
        16 => build_all(
            leafsize,
            parallel,
            Fixed::<16>,
            &mut data,
            &mut indices,
            &mut nodes,
            values,
            &mut keys,
        ),
        other => build_all(
            leafsize,
            parallel,
            Dyn(other),
            &mut data,
            &mut indices,
            &mut nodes,
            values,
            &mut keys,
        ),
    }
    let tree = Tree { data, indices, nodes, boxes, n_points, ndim, leafsize };
    proof {
        lemma_built_tree(tree, data0, ids0);
    }
    Ok(tree)
}

/// What the build leaves behind makes a tree.
proof fn lemma_built_tree<S: Scalar>(tree: Tree<S>, data: Seq<S>, ids: Seq<u32>)
    requires
        lawful::<S>(),
        0 < tree.ndim <= 0x8000_0000,
        0 < tree.leafsize,
        0 < tree.n_points <= u32::MAX,
        is_block(data, tree.n_points as int, tree.ndim as int),
        all_finite_spec(data),
        ids == Seq::new(tree.n_points as nat, |i: int| i as u32),
        tree.nodes@.len() == count_nodes_spec(tree.n_points as int, tree.leafsize as int),
        tree.nodes@.len() <= u32::MAX,
        tree.boxes.ndim == tree.ndim,
        subtree_built(
            data,
            ids,
            tree.data@,
            tree.indices@,
            tree.nodes@,
            tree.boxes.values@,
            0,
            0,
            tree.ndim as int,
            tree.leafsize as int,
        ),
    ensures
        tree.wf(),
        tree.holds(data),
        tree.laid_out(data),
{
    let w = tree.ndim as int;
    let n = tree.n_points as int;
    let all = tree.nodes@.len() as int;
    lemma_block_len(data, n, w);
    lemma_block_len(tree.data@, n, w);
    lemma_block_len(tree.boxes.values@, all, 2 * w);
    lemma_rows_finite(data, n, w);
    lemma_finite_rearranged(rows_of(data, w), ids, tree.rows(), tree.indices@, w);
    lemma_same_items_distinct(ids, tree.indices@);
    lemma_same_items_contains(ids, tree.indices@);
    assert forall|i: int| 0 <= i < n implies (#[trigger] tree.indices@[i]) < n by {
        assert(tree.indices@.contains(tree.indices@[i]));
    }
    assert forall|i: int| 0 <= i < n implies #[trigger] tree.rows()[i] == rows_of(
        data,
        w,
    )[tree.indices@[i] as int] by {
        let j = lemma_pairs_rows(rows_of(data, w), ids, tree.rows(), tree.indices@, i);
    }
    assert(tree.rows().subrange(0, n) =~= tree.rows());
    assert(tree.nodes@.subrange(0, all) =~= tree.nodes@);
    assert(tree.boxes@.subrange(0, all) =~= tree.boxes@);
    lemma_built_node_ok(
        tree.rows(),
        tree.nodes@,
        tree.boxes@,
        w,
        tree.leafsize as int,
        0,
        0,
        n,
    );
}

} // verus!
