//! The tree and its shape.
//!
//! Nodes lie flat in preorder: the left subtree of a node follows it at once,
//! then its right subtree. Points are reordered by the build so that every
//! subtree owns one contiguous block of rows, and `indices[position]` leads back
//! to the row that the caller numbered.

use crate::arrange::{arranged, boxed};
use crate::builder::{build, refusal};
use crate::error::KDTreeError;
use crate::layout::{attained, hi_of, is_block, lemma_block_len, lemma_row_at, lemma_row_in_block,
    lemma_rows_determine, lemma_tight_finite, lo_of, point, rows_finite, rows_of, set_row, tight,
    BBox, Boxes, Dyn, Rows};
use crate::node::{unpack_split_spec, Node};
use crate::partition::{column, is_median, pairs};
use crate::scalar::{all_finite_spec, at_most, filled, finite, lawful, less, Scalar};
use vstd::prelude::*;

verus! {

/// The node number of the root.
pub const ROOT: u32 = 0;

/// A node takes part in ordering by boxes only from this many points on: below,
/// the extents are noisy statistics of few samples.
pub const BOX_ORDER_MIN_SUBTREE: usize = 64;

/// Both children must stay below this fraction of the parent's extent along
/// every axis but the split one, as a numerator and a denominator. Flat data
/// keeps those extents near one; data on a low-dimensional manifold halves them
/// at every split.
pub const SHRINK_NUM: u32 = 3;

pub const SHRINK_DEN: u32 = 5;

/// The number of nodes of a subtree of `len` points.
pub open spec fn count_nodes_spec(len: int, leafsize: int) -> int
    decreases len,
{
    if len <= leafsize || len <= 1 {
        1
    } else {
        1 + count_nodes_spec(len / 2, leafsize) + count_nodes_spec(len - len / 2, leafsize)
    }
}

/// A subtree has a node, and fewer than two per point.
pub proof fn lemma_count_nodes_bounds(len: int, leafsize: int)
    requires
        len >= 1,
    ensures
        1 <= count_nodes_spec(len, leafsize) <= 2 * len - 1,
    decreases len,
{
    if len > leafsize && len > 1 {
        lemma_count_nodes_bounds(len / 2, leafsize);
        lemma_count_nodes_bounds(len - len / 2, leafsize);
    }
}

/// The leaf of the point at `pos`, in a subtree over the `len` points from `first`
/// on: its first position and its number of points.
pub open spec fn leaf_span(first: int, len: int, leafsize: int, pos: int) -> (int, int)
    decreases len,
{
    if len <= leafsize || len <= 1 {
        (first, len)
    } else if pos < first + len / 2 {
        leaf_span(first, len / 2, leafsize, pos)
    } else {
        leaf_span(first + len / 2, len - len / 2, leafsize, pos)
    }
}

/// How many rows of `ndim` axes a query takes up at once.
pub open spec fn group_of(ndim: int) -> int {
    if ndim == 2 {
        4
    } else if ndim == 3 {
        8
    } else if ndim == 4 {
        2
    } else if ndim == 8 {
        8
    } else {
        1
    }
}

/// `dim` is the first axis along which the box is widest.
pub open spec fn widest<S: Scalar>(lo: Seq<S>, hi: Seq<S>, dim: int) -> bool {
    &&& 0 <= dim < lo.len()
    &&& forall|d: int|
        0 <= d < lo.len() ==> at_most(
            (#[trigger] hi[d]).minus_spec(lo[d]),
            hi[dim].minus_spec(lo[dim]),
        )
    &&& forall|d: int|
        0 <= d < dim ==> less((#[trigger] hi[d]).minus_spec(lo[d]), hi[dim].minus_spec(lo[dim]))
}

/// The child's extent is well below the parent's along every axis but `dim`.
pub open spec fn shrank_spec<S: Scalar>(
    plo: Seq<S>,
    phi: Seq<S>,
    clo: Seq<S>,
    chi: Seq<S>,
    dim: int,
) -> bool {
    forall|d: int|
        0 <= d < plo.len() && d != dim ==> {
            &&& less(S::zero_spec(), (#[trigger] phi[d]).minus_spec(plo[d]))
            &&& !chi[d].minus_spec(clo[d]).ratio_reaches_spec(
                phi[d].minus_spec(plo[d]),
                SHRINK_NUM,
                SHRINK_DEN,
            )
        }
}

/// The first `mid` rows lie at most at `value` along axis `dim`, the others at
/// least and one of them at it, and `value` is the coordinate that sorting by the
/// total order puts at `mid`.
pub open spec fn splits<S: Scalar>(rows: Seq<Seq<S>>, mid: int, dim: int, value: S) -> bool {
    &&& forall|i: int| 0 <= i < mid ==> (#[trigger] rows[i])[dim].key() <= value.key()
    &&& forall|i: int| mid <= i < rows.len() ==> value.key() <= (#[trigger] rows[i])[dim].key()
    &&& exists|i: int|
        mid <= i < rows.len() && (#[trigger] rows[i])[dim].key() == value.key()
    &&& attained(value, rows, dim)
    &&& is_median(column(rows, dim), mid, value)
}

/// Node `id` of `len` rows splits them as the build lays down: along the widest
/// axis of its box, at a median, into children that follow it in preorder. The
/// boxes are those of the node and its children.
pub open spec fn inner_ok<S: Scalar>(
    node: Node<S>,
    rows: Seq<Seq<S>>,
    own: Seq<S>,
    left_box: Seq<S>,
    right_box: Seq<S>,
    ndim: int,
    id: int,
    left_nodes: int,
) -> bool {
    node matches Node::Inner { left, right, split_dim, split_value } && {
        let dim = unpack_split_spec(split_dim).0 as int;
        let (lo, hi) = (lo_of(own, ndim), hi_of(own, ndim));
        &&& left == id + 1
        &&& right == id + 1 + left_nodes
        &&& dim < ndim
        &&& widest(lo, hi, dim)
        &&& splits(rows, rows.len() as int / 2, dim, split_value)
        &&& unpack_split_spec(split_dim).1 == (ndim > 1 && rows.len() >= BOX_ORDER_MIN_SUBTREE
            && shrank_spec(lo, hi, lo_of(left_box, ndim), hi_of(left_box, ndim), dim)
            && shrank_spec(lo, hi, lo_of(right_box, ndim), hi_of(right_box, ndim), dim))
    }
}

/// The subtree of node `id` over the `len` rows from `first` on is laid out as
/// the build lays it out, with tight boxes throughout.
#[verifier::opaque]
pub open spec fn node_ok<S: Scalar>(
    rows: Seq<Seq<S>>,
    nodes: Seq<Node<S>>,
    boxes: Seq<Seq<S>>,
    ndim: int,
    leafsize: int,
    id: int,
    first: int,
    len: int,
) -> bool
    decreases len,
{
    let part = rows.subrange(first, first + len);
    let mid = len / 2;
    let left_nodes = count_nodes_spec(mid, leafsize);
    &&& 0 <= first
    &&& 0 < len
    &&& first + len <= rows.len()
    &&& 0 <= id
    &&& id + count_nodes_spec(len, leafsize) <= nodes.len()
    &&& nodes.len() == boxes.len()
    &&& tight(lo_of(boxes[id], ndim), hi_of(boxes[id], ndim), part, ndim)
    &&& if len <= leafsize || len <= 1 {
        nodes[id] matches Node::Leaf { start, end } && start == first && end == first + len
    } else {
        &&& inner_ok(
            nodes[id],
            part,
            boxes[id],
            boxes[id + 1],
            boxes[id + 1 + left_nodes],
            ndim,
            id,
            left_nodes,
        )
        &&& node_ok(rows, nodes, boxes, ndim, leafsize, id + 1, first, mid)
        &&& node_ok(
            rows,
            nodes,
            boxes,
            ndim,
            leafsize,
            id + 1 + left_nodes,
            first + mid,
            len - mid,
        )
    }
}

pub struct Tree<S> {
    /// Row-major, in tree order.
    pub data: Vec<S>,
    /// Tree position to original row number.
    pub indices: Vec<u32>,
    pub nodes: Vec<Node<S>>,
    /// Tight boxes, which bound the distance to a subtree by the points that it
    /// holds rather than by the planes around it.
    pub boxes: Boxes<S>,
    pub n_points: usize,
    pub ndim: usize,
    pub leafsize: usize,
}

impl<S: Scalar> Tree<S> {
    /// The points in tree order.
    pub open spec fn rows(&self) -> Seq<Seq<S>> {
        rows_of(self.data@, self.ndim as int)
    }

    /// What every built tree keeps.
    pub open spec fn wf(&self) -> bool {
        &&& 0 < self.ndim <= 0x8000_0000
        &&& 0 < self.leafsize
        &&& 0 < self.n_points <= u32::MAX
        &&& is_block(self.data@, self.n_points as int, self.ndim as int)
        &&& rows_finite(self.rows(), self.ndim as int)
        &&& self.indices@.len() == self.n_points
        &&& self.indices@.no_duplicates()
        &&& forall|i: int|
            0 <= i < self.n_points ==> (#[trigger] self.indices@[i]) < self.n_points
        &&& self.nodes@.len() == count_nodes_spec(self.n_points as int, self.leafsize as int)
        &&& self.nodes@.len() <= u32::MAX
        &&& self.boxes.ndim == self.ndim
        &&& is_block(self.boxes.values@, self.nodes@.len() as int, 2 * self.ndim)
        &&& self.node_ok(0, 0, self.n_points as int)
    }

    /// [`node_ok`] of a node of this tree.
    pub open spec fn node_ok(&self, id: int, first: int, len: int) -> bool {
        node_ok(
            self.rows(),
            self.nodes@,
            self.boxes@,
            self.ndim as int,
            self.leafsize as int,
            id,
            first,
            len,
        )
    }

    /// The leaf of the point at `pos`: its first position and its number of points.
    pub open spec fn leaf_at(&self, pos: int) -> (int, int) {
        leaf_span(0, self.n_points as int, self.leafsize as int, pos)
    }

    /// The point at `pos` stands in a full group of its leaf.
    pub open spec fn grouped(&self, pos: int) -> bool {
        let (first, len) = self.leaf_at(pos);
        let group = group_of(self.ndim as int);
        pos < first + len / group * group
    }

    /// The points from position `start` up to `end` are those of one leaf.
    pub open spec fn is_leaf(&self, start: int, end: int) -> bool {
        forall|pos: int|
            start <= pos < end ==> #[trigger] self.leaf_at(pos) == (start, end - start)
    }

    /// The leaves of the `len` points from `first` on are those of a subtree over
    /// them.
    pub open spec fn nests(&self, first: int, len: int) -> bool {
        forall|pos: int|
            first <= pos < first + len ==> #[trigger] self.leaf_at(pos) == leaf_span(
                first,
                len,
                self.leafsize as int,
                pos,
            )
    }

    /// The tree holds the rows of `data`: position by position, the row that
    /// `indices` names.
    pub open spec fn holds(&self, data: Seq<S>) -> bool {
        &&& data.len() == self.data@.len()
        &&& forall|i: int|
            0 <= i < self.n_points ==> #[trigger] self.rows()[i] == rows_of(
                data,
                self.ndim as int,
            )[self.indices@[i] as int]
    }

    /// The points are in the order in which a build over `data` leaves them, and the
    /// boxes are those that it leaves.
    pub open spec fn laid_out(&self, data: Seq<S>) -> bool {
        let items = pairs(
            rows_of(data, self.ndim as int),
            Seq::new(self.n_points as nat, |i: int| i as u32),
        );
        &&& pairs(self.rows(), self.indices@) == arranged(
            items,
            self.ndim as int,
            self.leafsize as int,
        )
        &&& self.boxes@ == boxed(items, self.ndim as int, self.leafsize as int)
    }

    /// Builds a tree over the rows of `data`, row-major and `ndim` values each,
    /// with at most `leafsize` points per leaf. `parallel` spreads the work over
    /// threads and changes nothing else.
    pub fn new(data: Vec<S>, ndim: usize, leafsize: usize, parallel: bool) -> (r: Result<
        Self,
        KDTreeError<S>,
    >)
        requires
            lawful::<S>(),
            4 * data@.len() <= usize::MAX,
            refusal(data@, ndim, leafsize) is None ==> ndim <= 0x8000_0000,
        ensures
            match r {
                Ok(tree) => {
                    &&& refusal(data@, ndim, leafsize) is None
                    &&& tree.wf()
                    &&& tree.ndim == ndim
                    &&& tree.leafsize == leafsize
                    &&& tree.holds(data@)
                    &&& tree.laid_out(data@)
                },
                Err(error) => refusal(data@, ndim, leafsize) == Some(error),
            },
    {
        build(data, ndim, leafsize, parallel)
    }

    pub fn ndim(&self) -> (r: usize)
        ensures
            r == self.ndim,
    {
        self.ndim
    }

    pub fn n_points(&self) -> (r: usize)
        ensures
            r == self.n_points,
    {
        self.n_points
    }

    pub fn leafsize(&self) -> (r: usize)
        ensures
            r == self.leafsize,
    {
        self.leafsize
    }

    /// The points in the order in which the caller numbered them.
    pub fn original_data(&self) -> (r: Vec<S>)
        requires
            self.wf(),
        ensures
            is_block(r@, self.n_points as int, self.ndim as int),
            self.holds(r@),
    {
        let ghost n = self.n_points as int;
        let ghost w = self.ndim as int;
        proof {
            lemma_block_len(self.data@, n, w);
            assert(self.data@.len() == self.data.len());
        }
        let mut original = filled(self.n_points * self.ndim, S::zero());
        let mut pos: usize = 0;
        while pos < self.n_points
            invariant
                self.wf(),
                n == self.n_points,
                w == self.ndim,
                pos <= n,
                is_block(original@, n, w),
                rows_of(original@, w).len() == n,
                forall|i: int|
                    0 <= i < pos ==> #[trigger] self.rows()[i] == rows_of(
                        original@,
                        w,
                    )[self.indices@[i] as int],
            decreases n - pos,
        {
            proof {
                lemma_row_at(self.data@, n, w, pos as int);
                lemma_row_in_block(pos as int, n, w);
            }
            let row = point(self.data.as_slice(), self.ndim, pos);
            set_row(original.as_mut_slice(), self.ndim, self.indices[pos] as usize, row);
            pos += 1;
        }
        original
    }

    pub(crate) fn node(&self, id: u32) -> (r: Node<S>)
        requires
            id < self.nodes@.len(),
        ensures
            r == self.nodes@[id as int],
    {
        self.nodes[id as usize]
    }

    /// The tight box of a node.
    pub(crate) fn box_of(&self, id: u32) -> (r: BBox<'_, S>)
        requires
            self.wf(),
            id < self.nodes@.len(),
        ensures
            r.lo@ == lo_of(self.boxes@[id as int], self.ndim as int),
            r.hi@ == hi_of(self.boxes@[id as int], self.ndim as int),
            r.lo@.len() == self.ndim,
            r.hi@.len() == self.ndim,
    {
        proof {
            lemma_block_len(self.boxes.values@, self.nodes@.len() as int, 2 * self.ndim);
        }
        self.boxes.of(id)
    }

    /// The points from position `start` to `end`.
    pub(crate) fn block(&self, start: usize, end: usize) -> (r: Rows<'_, S, Dyn>)
        requires
            self.wf(),
            start <= end <= self.n_points,
        ensures
            r.valid(),
            r.width.0 == self.ndim,
            r@ == self.rows().subrange(start as int, end as int),
    {
        proof {
            lemma_block_len(self.data@, self.n_points as int, self.ndim as int);
        }
        Rows::new(self.data.as_slice(), Dyn(self.ndim)).slice(start, end)
    }
}

/// A tree holds the rows of one array only, so what [`Tree::original_data`]
/// returns is the array that the tree was built over.
pub proof fn a_tree_holds_one_array<S: Scalar>(tree: &Tree<S>, a: Seq<S>, b: Seq<S>)
    requires
        tree.wf(),
        tree.holds(a),
        tree.holds(b),
    ensures
        a == b,
{
    let n = tree.n_points as int;
    let w = tree.ndim as int;
    lemma_block_len(a, n, w);
    lemma_block_len(b, n, w);
    assert forall|j: int| 0 <= j < n implies rows_of(a, w)[j] == rows_of(b, w)[j] by {
        let pos = every_row_has_a_position(tree, j);
        assert(tree.rows()[pos] == rows_of(a, w)[j]);
    }
    assert(rows_of(a, w) =~= rows_of(b, w));
    lemma_rows_determine(a, b, n, w);
}

/// Every row number is that of one position of the tree.
pub proof fn every_row_has_a_position<S: Scalar>(tree: &Tree<S>, row: int) -> (pos: int)
    requires
        tree.wf(),
        0 <= row < tree.n_points,
    ensures
        0 <= pos < tree.n_points,
        tree.indices@[pos] == row,
{
    let n = tree.n_points as int;
    let ids = tree.indices@;
    let named = ids.map_values(|i: u32| i as int);
    assert(named.no_duplicates());
    named.unique_seq_to_set();
    vstd::set_lib::lemma_int_range(0, n);
    let all = vstd::set_lib::set_int_range(0, n);
    assert(named.to_set().subset_of(all)) by {
        assert forall|v: int| named.to_set().contains(v) implies all.contains(v) by {
            let i = choose|i: int| 0 <= i < named.len() && named[i] == v;
            assert(ids[i] < n);
        }
    }
    vstd::set_lib::lemma_subset_equality(named.to_set(), all);
    assert(named.to_set().contains(row));
    choose|i: int| 0 <= i < named.len() && named[i] == row
}

/// The coordinates of a point of a tree are finite and as many as its axes.
pub proof fn lemma_row_of_tree<S: Scalar>(tree: &Tree<S>, pos: int)
    requires
        tree.wf(),
        0 <= pos < tree.n_points,
    ensures
        tree.rows().len() == tree.n_points,
        tree.rows()[pos].len() == tree.ndim,
        all_finite_spec(tree.rows()[pos]),
{
    lemma_row_at(tree.data@, tree.n_points as int, tree.ndim as int, pos);
}

/// The box of a node is finite and holds the points of the node.
pub proof fn lemma_box_valid<S: Scalar>(tree: &Tree<S>, id: int, first: int, len: int)
    requires
        tree.wf(),
        tree.node_ok(id, first, len),
    ensures
        0 <= first,
        0 < len,
        first + len <= tree.n_points,
        0 <= id < tree.nodes@.len(),
        lo_of(tree.boxes@[id], tree.ndim as int).len() == tree.ndim,
        hi_of(tree.boxes@[id], tree.ndim as int).len() == tree.ndim,
        all_finite_spec(lo_of(tree.boxes@[id], tree.ndim as int)),
        all_finite_spec(hi_of(tree.boxes@[id], tree.ndim as int)),
        forall|pos: int, d: int|
            first <= pos < first + len && 0 <= d < tree.ndim ==> lo_of(
                tree.boxes@[id],
                tree.ndim as int,
            )[d].key() <= (#[trigger] tree.rows()[pos][d]).key() <= hi_of(
                tree.boxes@[id],
                tree.ndim as int,
            )[d].key(),
{
    let w = tree.ndim as int;
    let part = tree.rows().subrange(first, first + len);
    let (lo, hi) = (lo_of(tree.boxes@[id], w), hi_of(tree.boxes@[id], w));
    reveal(node_ok);
    lemma_block_len(tree.data@, tree.n_points as int, w);
    lemma_count_nodes_bounds(len, tree.leafsize as int);
    assert(rows_finite(part, w)) by {
        assert forall|i: int, d: int| 0 <= i < part.len() && 0 <= d < w implies finite(
            #[trigger] part[i][d],
        ) by {
            assert(part[i] == tree.rows()[first + i]);
            assert(finite(tree.rows()[first + i][d]));
        }
    }
    lemma_tight_finite(lo, hi, part, w);
    assert forall|pos: int, d: int| first <= pos < first + len && 0 <= d < w implies lo[d].key()
        <= (#[trigger] tree.rows()[pos][d]).key() <= hi[d].key() by {
        assert(part[pos - first] == tree.rows()[pos]);
        assert(lo[d].key() <= part[pos - first][d].key() <= hi[d].key());
    }
}

/// The children of an inner node.
pub proof fn lemma_children<S: Scalar>(tree: &Tree<S>, id: int, first: int, len: int)
    requires
        tree.wf(),
        tree.node_ok(id, first, len),
    ensures
        0 <= first,
        0 < len,
        first + len <= tree.n_points,
        0 <= id < tree.nodes@.len(),
        match tree.nodes@[id] {
            Node::Leaf { start, end } => start == first && end == first + len && (len
                <= tree.leafsize || len <= 1),
            Node::Inner { left, right, split_dim, split_value } => {
                &&& len > tree.leafsize && len > 1
                &&& tree.node_ok(left as int, first, len / 2)
                &&& tree.node_ok(right as int, first + len / 2, len - len / 2)
                &&& unpack_split_spec(split_dim).0 < tree.ndim
                &&& finite(split_value)
            },
        },
{
    let w = tree.ndim as int;
    let part = tree.rows().subrange(first, first + len);
    reveal(node_ok);
    lemma_block_len(tree.data@, tree.n_points as int, w);
    lemma_count_nodes_bounds(len, tree.leafsize as int);
    match tree.nodes@[id] {
        Node::Leaf { .. } => {},
        Node::Inner { left, right, split_dim, split_value } => {
            let dim = unpack_split_spec(split_dim).0 as int;
            assert(attained(split_value, part, dim));
            let i = choose|i: int| 0 <= i < part.len() && #[trigger] part[i][dim] == split_value;
            lemma_row_of_tree(tree, first + i);
            assert(part[i] == tree.rows()[first + i]);
        },
    }
}

} // verus!
