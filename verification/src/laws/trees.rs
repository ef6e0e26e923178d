//! Promises of [`Tree::new`] and of the trees that it builds.

use crate::arrange::a_build_has_one_outcome;
use crate::builder::count_nodes;
use crate::error::KDTreeError;
use crate::layout::{attained, hi_of, lemma_block_len, lemma_row_at, lo_of, rows_of};
use crate::node::Node;
use crate::scalar::{all_finite_spec, at_most, finite, lawful, less, Scalar};
use crate::tree::{a_tree_holds_one_array, count_nodes_spec, every_row_has_a_position, inner_ok,
    leaf_span, lemma_box_valid, lemma_children, lemma_count_nodes_bounds, node_ok, shrank_spec,
    splits, widest, Tree};
use vstd::prelude::*;

verus! {

/// A build is refused for a leaf size of zero, else for no axes or no values, else
/// for values that are not whole rows, else for more points or more nodes than 32 bits
/// number, else for a value that is infinite or a nan, and for nothing else. `nodes`
/// is the number of nodes of a tree of that many points.
pub proof fn a_build_is_refused_for_what_is_wrong_first<S: Scalar>(
    data: Vec<S>,
    ndim: usize,
    leafsize: usize,
    parallel: bool,
    r: Result<Tree<S>, KDTreeError<S>>,
)
    requires
        lawful::<S>(),
        call_ensures(Tree::<S>::new, (data, ndim, leafsize, parallel), r),
    ensures
        ({
            let n = data@.len() as int / ndim as int;
            let nodes = count_nodes_spec(n, leafsize as int);
            let all_finite = forall|f: int|
                0 <= f < data@.len() ==> !(#[trigger] data@[f]).nan()
                    && S::neg_infinity_spec().key() < data@[f].key() < S::infinity_spec().key();
            if leafsize == 0 {
                r matches Err(KDTreeError::InvalidLeafsize)
            } else if ndim == 0 || data@.len() == 0 {
                r matches Err(KDTreeError::EmptyData)
            } else if data@.len() as int % ndim as int != 0 {
                r matches Err(KDTreeError::InvalidShape(message)) && message@
                    == "data length must be a multiple of ndim"@
            } else if n > 0xffff_ffff {
                r matches Err(KDTreeError::TooManyPoints(x)) && x == n as usize
            } else if nodes > 0xffff_ffff {
                r matches Err(KDTreeError::TooManyNodes(x)) && x == nodes as usize
            } else if !all_finite {
                r matches Err(KDTreeError::NonFiniteData)
            } else {
                r is Ok
            }
        }),
{
    if all_finite_spec(data@) {
        assert forall|f: int| 0 <= f < data@.len() implies !(#[trigger] data@[f]).nan()
            && S::neg_infinity_spec().key() < data@[f].key() < S::infinity_spec().key() by {
            assert(finite(data@[f]));
        }
    } else {
        let f = choose|f: int| 0 <= f < data@.len() && !finite(#[trigger] data@[f]);
        assert(!(!data@[f].nan() && S::neg_infinity_spec().key() < data@[f].key()
            < S::infinity_spec().key()));
    }
}

/// Finite values that are whole rows make a tree, whatever the leaf size, as long as
/// there are at most half as many rows as 32 bits number.
pub proof fn finite_rows_make_a_tree<S: Scalar>(
    data: Vec<S>,
    ndim: usize,
    leafsize: usize,
    parallel: bool,
    r: Result<Tree<S>, KDTreeError<S>>,
)
    requires
        lawful::<S>(),
        call_ensures(Tree::<S>::new, (data, ndim, leafsize, parallel), r),
        leafsize > 0,
        ndim > 0,
        data@.len() > 0,
        data@.len() as int % ndim as int == 0,
        data@.len() as int / ndim as int <= 0x8000_0000,
        forall|f: int|
            0 <= f < data@.len() ==> !(#[trigger] data@[f]).nan() && S::neg_infinity_spec().key()
                < data@[f].key() < S::infinity_spec().key(),
    ensures
        r is Ok,
{
    let n = data@.len() as int / ndim as int;
    vstd::arithmetic::div_mod::lemma_fundamental_div_mod(data@.len() as int, ndim as int);
    assert(n >= 1) by (nonlinear_arith)
        requires
            data@.len() == ndim * n,
            data@.len() > 0,
            ndim > 0,
    ;
    lemma_count_nodes_bounds(n, leafsize as int);
    a_build_is_refused_for_what_is_wrong_first(data, ndim, leafsize, parallel, r);
}

/// Points up to the leaf size take one node. More of them take one for themselves and
/// those of their two halves, of which the second has the odd point.
pub proof fn nodes_are_those_of_both_halves(
    len: usize,
    leafsize: usize,
    nodes: usize,
    first: usize,
    second: usize,
)
    requires
        leafsize > 0,
        len > 0,
        call_ensures(count_nodes, (len, leafsize), nodes),
        len > leafsize ==> call_ensures(count_nodes, ((len / 2) as usize, leafsize), first),
        len > leafsize ==> call_ensures(
            count_nodes,
            ((len - len / 2) as usize, leafsize),
            second,
        ),
    ensures
        nodes == if len <= leafsize {
            1
        } else {
            1 + first + second
        },
        nodes == count_nodes_spec(len as int, leafsize as int),
{
}

/// A tree over `data` has its rows as points, with the axes and the leaf size that
/// were asked for. Position by position, its points are rows of `data` and `indices`
/// names them, every row once.
pub proof fn a_tree_holds_the_rows<S: Scalar>(
    data: Vec<S>,
    ndim: usize,
    leafsize: usize,
    parallel: bool,
    tree: Tree<S>,
)
    requires
        lawful::<S>(),
        call_ensures(Tree::<S>::new, (data, ndim, leafsize, parallel), Ok(tree)),
    ensures
        tree.ndim == ndim,
        tree.leafsize == leafsize,
        tree.n_points * ndim == data@.len(),
        tree.data@.len() == data@.len(),
        tree.indices@.len() == tree.n_points,
        forall|pos: int, d: int|
            0 <= pos < tree.n_points && 0 <= d < ndim ==> #[trigger] tree.data@[pos * ndim + d]
                == data@[tree.indices@[pos] * ndim + d],
        forall|a: int, b: int|
            0 <= a < b < tree.n_points ==> #[trigger] tree.indices@[a]
                != #[trigger] tree.indices@[b],
        forall|row: u32| row < tree.n_points ==> #[trigger] tree.indices@.contains(row),
{
    let (n, w) = (tree.n_points as int, ndim as int);
    lemma_block_len(tree.data@, n, w);
    assert forall|pos: int, d: int| 0 <= pos < tree.n_points && 0 <= d < ndim implies
        #[trigger] tree.data@[pos * ndim + d] == data@[tree.indices@[pos] * ndim + d] by {
        let row = tree.indices@[pos] as int;
        lemma_row_at(tree.data@, n, w, pos);
        lemma_row_at(data@, n, w, row);
        assert(tree.rows()[pos] == rows_of(data@, w)[row]);
        assert(tree.rows()[pos][d] == rows_of(data@, w)[row][d]);
    }
    assert forall|row: u32| row < tree.n_points implies #[trigger] tree.indices@.contains(row) by {
        let pos = every_row_has_a_position(&tree, row as int);
        assert(tree.indices@[pos] == row);
    }
}

/// The array that a tree was built over comes back out of it, value for value.
pub proof fn the_data_comes_back<S: Scalar>(
    data: Vec<S>,
    ndim: usize,
    leafsize: usize,
    parallel: bool,
    tree: Tree<S>,
    back: Vec<S>,
)
    requires
        lawful::<S>(),
        call_ensures(Tree::<S>::new, (data, ndim, leafsize, parallel), Ok(tree)),
        call_ensures(Tree::<S>::original_data, (&tree,), back),
    ensures
        back@ == data@,
{
    a_tree_holds_one_array(&tree, data@, back@);
}

/// Two builds over the same values, on one thread or on many, leave the same tree.
pub proof fn two_builds_leave_the_same_tree<S: Scalar>(
    data: Vec<S>,
    ndim: usize,
    leafsize: usize,
    parallel: bool,
    again: bool,
    a: Tree<S>,
    b: Tree<S>,
)
    requires
        lawful::<S>(),
        call_ensures(Tree::<S>::new, (data, ndim, leafsize, parallel), Ok(a)),
        call_ensures(Tree::<S>::new, (data, ndim, leafsize, again), Ok(b)),
    ensures
        a.n_points == b.n_points,
        a.data@ == b.data@,
        a.indices@ == b.indices@,
        a.nodes@ == b.nodes@,
        a.boxes@ == b.boxes@,
{
    let w = ndim as int;
    lemma_block_len(a.data@, a.n_points as int, w);
    lemma_block_len(b.data@, b.n_points as int, w);
    a_build_has_one_outcome(data@, &a, &b);
}

/// The root of a tree is over all of its points.
pub proof fn the_root_is_over_all_points<S: Scalar>(
    data: Vec<S>,
    ndim: usize,
    leafsize: usize,
    parallel: bool,
    tree: Tree<S>,
)
    requires
        lawful::<S>(),
        call_ensures(Tree::<S>::new, (data, ndim, leafsize, parallel), Ok(tree)),
    ensures
        tree.node_ok(0, 0, tree.n_points as int),
        tree.nodes@.len() == count_nodes_spec(tree.n_points as int, leafsize as int),
        tree.boxes.values@.len() == 2 * ndim * tree.nodes@.len(),
{
    let (c, w) = (tree.nodes@.len() as int, ndim as int);
    assert(c * (2 * w) == 2 * w * c) by (nonlinear_arith);
}

/// Every node of a tree is over one run of its points.
pub proof fn every_node_is_over_a_run<S: Scalar>(tree: &Tree<S>, id: int) -> (span: (int, int))
    requires
        tree.wf(),
        0 <= id < tree.nodes@.len(),
    ensures
        tree.node_ok(id, span.0, span.1),
{
    lemma_run_of(tree, 0, 0, tree.n_points as int, id)
}

proof fn lemma_run_of<S: Scalar>(
    tree: &Tree<S>,
    at: int,
    first: int,
    len: int,
    id: int,
) -> (span: (int, int))
    requires
        tree.wf(),
        tree.node_ok(at, first, len),
        at <= id < at + count_nodes_spec(len, tree.leafsize as int),
    ensures
        tree.node_ok(id, span.0, span.1),
        forall|pos: int|
            span.0 <= pos < span.0 + span.1 ==> #[trigger] leaf_span(
                first,
                len,
                tree.leafsize as int,
                pos,
            ) == leaf_span(span.0, span.1, tree.leafsize as int, pos),
        first <= span.0,
        span.0 + span.1 <= first + len,
    decreases len,
{
    if id == at {
        (first, len)
    } else {
        reveal(node_ok);
        let mid = len / 2;
        let ls = tree.leafsize as int;
        let cl = count_nodes_spec(mid, ls);
        if id < at + 1 + cl {
            let span = lemma_run_of(tree, at + 1, first, mid, id);
            assert forall|pos: int| span.0 <= pos < span.0 + span.1 implies #[trigger] leaf_span(
                first,
                len,
                ls,
                pos,
            ) == leaf_span(span.0, span.1, ls, pos) by {
                assert(leaf_span(first, mid, ls, pos) == leaf_span(span.0, span.1, ls, pos));
            }
            span
        } else {
            let span = lemma_run_of(tree, at + 1 + cl, first + mid, len - mid, id);
            assert forall|pos: int| span.0 <= pos < span.0 + span.1 implies #[trigger] leaf_span(
                first,
                len,
                ls,
                pos,
            ) == leaf_span(span.0, span.1, ls, pos) by {
                assert(leaf_span(first + mid, len - mid, ls, pos) == leaf_span(
                    span.0,
                    span.1,
                    ls,
                    pos,
                ));
            }
            span
        }
    }
}

/// A point is in the leaf whose positions hold its own. It stands in a full group of
/// the leaf exactly if the groups that are counted from the start of the leaf, as many
/// as fit, reach past it. Rows of two axes go by fours, of three and of eight axes by
/// eights, and of four axes by twos; any other by itself.
pub proof fn points_are_grouped_from_the_start_of_their_leaf<S: Scalar>(
    tree: &Tree<S>,
    id: int,
    pos: int,
)
    requires
        tree.wf(),
        0 <= id < tree.nodes@.len(),
    ensures
        tree.nodes@[id] matches Node::Leaf { start, end } ==> start <= pos < end ==> {
            let group = if tree.ndim == 2 {
                4
            } else if tree.ndim == 3 || tree.ndim == 8 {
                8
            } else if tree.ndim == 4 {
                2
            } else {
                1int
            };
            &&& tree.leaf_at(pos) == (start as int, end - start)
            &&& tree.grouped(pos) <==> pos < start + (end - start) / group * group
        },
{
    let span = lemma_run_of(tree, 0, 0, tree.n_points as int, id);
    lemma_children(tree, id, span.0, span.1);
    if let Node::Leaf { start, end } = tree.nodes@[id] {
        if start <= pos < end {
            assert(tree.leaf_at(pos) == leaf_span(span.0, span.1, tree.leafsize as int, pos));
        }
    }
}

/// The box of a node over the `len` points from position `first` on: along every axis
/// its corners are the least and the greatest coordinate of those points.
pub proof fn boxes_are_tight<S: Scalar>(tree: &Tree<S>, id: int, first: int, len: int, d: int)
    requires
        tree.wf(),
        tree.node_ok(id, first, len),
        0 <= d < tree.ndim,
    ensures
        ({
            let w = tree.ndim as int;
            let lo = tree.boxes.values@[id * (2 * w) + d];
            let hi = tree.boxes.values@[id * (2 * w) + w + d];
            &&& forall|pos: int|
                first <= pos < first + len ==> lo.key() <= (#[trigger] tree.data@[pos * w
                    + d]).key() <= hi.key()
            &&& exists|pos: int|
                first <= pos < first + len && #[trigger] tree.data@[pos * w + d] == lo
            &&& exists|pos: int|
                first <= pos < first + len && #[trigger] tree.data@[pos * w + d] == hi
        }),
{
    let w = tree.ndim as int;
    let (n, c) = (tree.n_points as int, tree.nodes@.len() as int);
    let part = tree.rows().subrange(first, first + len);
    let b = tree.boxes@[id];
    let (lo, hi) = (lo_of(b, w), hi_of(b, w));
    reveal(node_ok);
    lemma_count_nodes_bounds(len, tree.leafsize as int);
    lemma_block_len(tree.data@, n, w);
    lemma_row_at(tree.boxes.values@, c, 2 * w, id);
    assert(lo[d] == tree.boxes.values@[id * (2 * w) + d]);
    assert(hi[d] == b[w + d]);
    assert(b[w + d] == tree.boxes.values@[id * (2 * w) + (w + d)]);
    assert forall|pos: int| first <= pos < first + len implies lo[d].key() <= (
    #[trigger] tree.data@[pos * w + d]).key() <= hi[d].key() by {
        lemma_row_at(tree.data@, n, w, pos);
        assert(tree.rows()[pos][d] == tree.data@[pos * w + d]);
        assert(part[pos - first] == tree.rows()[pos]);
        assert(lo[d].key() <= part[pos - first][d].key() <= hi[d].key());
    }
    assert(attained(lo[d], part, d) && attained(hi[d], part, d));
    let i = choose|i: int| 0 <= i < part.len() && #[trigger] part[i][d] == lo[d];
    let j = choose|j: int| 0 <= j < part.len() && #[trigger] part[j][d] == hi[d];
    lemma_row_at(tree.data@, n, w, first + i);
    lemma_row_at(tree.data@, n, w, first + j);
    assert(tree.rows()[first + i][d] == tree.data@[(first + i) * w + d]);
    assert(tree.rows()[first + j][d] == tree.data@[(first + j) * w + d]);
}

/// How an inner node splits its points, as the build lays it down.
proof fn lemma_inner<S: Scalar>(tree: &Tree<S>, id: int, first: int, len: int)
    requires
        tree.wf(),
        tree.node_ok(id, first, len),
    ensures
        tree.nodes@[id] matches Node::Inner { left, right, split_dim, split_value } ==> {
            let w = tree.ndim as int;
            let part = tree.rows().subrange(first, first + len);
            let dim = split_dim as int % 0x8000_0000;
            let (own, at, by) = (
                tree.boxes@[id],
                tree.boxes@[left as int],
                tree.boxes@[right as int],
            );
            &&& left == id + 1
            &&& 0 <= dim < w
            &&& part.len() == len
            &&& widest(lo_of(own, w), hi_of(own, w), dim)
            &&& splits(part, len / 2, dim, split_value)
            &&& split_dim >= 0x8000_0000 <==> (w > 1 && len >= 64 && shrank_spec(
                lo_of(own, w),
                hi_of(own, w),
                lo_of(at, w),
                hi_of(at, w),
                dim,
            ) && shrank_spec(lo_of(own, w), hi_of(own, w), lo_of(by, w), hi_of(by, w), dim))
        },
{
    lemma_children(tree, id, first, len);
    lemma_block_len(tree.data@, tree.n_points as int, tree.ndim as int);
    if tree.nodes@[id] is Inner {
        let cl = count_nodes_spec(len / 2, tree.leafsize as int);
        assert(inner_ok(
            tree.nodes@[id],
            tree.rows().subrange(first, first + len),
            tree.boxes@[id],
            tree.boxes@[id + 1],
            tree.boxes@[id + 1 + cl],
            tree.ndim as int,
            id,
            cl,
        )) by {
            reveal_with_fuel(node_ok, 1);
        }
    }
}

/// A node over the `len` points from position `first` on is a leaf exactly if there
/// are no more than the leaf size. Otherwise its children are over the two halves of
/// them, of which the second has the odd point, and `split_dim` is an axis along which
/// no point of the first half lies past `split_value` and none of the second before
/// it. The left child follows the node at once.
pub proof fn a_node_is_a_leaf_or_splits<S: Scalar>(tree: &Tree<S>, id: int, first: int, len: int)
    requires
        tree.wf(),
        tree.node_ok(id, first, len),
    ensures
        match tree.nodes@[id] {
            Node::Leaf { start, end } => start == first && end == first + len && len
                <= tree.leafsize,
            Node::Inner { left, right, split_dim, split_value } => {
                let w = tree.ndim as int;
                let mid = len / 2;
                let dim = split_dim as int % 0x8000_0000;
                &&& len > tree.leafsize
                &&& left == id + 1
                &&& tree.node_ok(left as int, first, mid)
                &&& tree.node_ok(right as int, first + mid, len - mid)
                &&& dim < w
                &&& forall|pos: int|
                    first <= pos < first + mid ==> (#[trigger] tree.data@[pos * w + dim]).key()
                        <= split_value.key()
                &&& forall|pos: int|
                    first + mid <= pos < first + len ==> split_value.key() <= (
                    #[trigger] tree.data@[pos * w + dim]).key()
                &&& exists|pos: int|
                    first + mid <= pos < first + len && (#[trigger] tree.data@[pos * w
                        + dim]).key() == split_value.key()
                &&& exists|pos: int|
                    first <= pos < first + len && #[trigger] tree.data@[pos * w + dim]
                        == split_value
            },
        },
{
    let w = tree.ndim as int;
    let n = tree.n_points as int;
    let part = tree.rows().subrange(first, first + len);
    lemma_children(tree, id, first, len);
    lemma_block_len(tree.data@, n, w);
    if let Node::Inner { left, right, split_dim, split_value } = tree.nodes@[id] {
        let mid = len / 2;
        let dim = split_dim as int % 0x8000_0000;
        lemma_inner(tree, id, first, len);
        assert forall|pos: int| first <= pos < first + len implies #[trigger] tree.data@[pos * w
            + dim] == part[pos - first][dim] by {
            lemma_row_at(tree.data@, n, w, pos);
            assert(tree.rows()[pos][dim] == tree.data@[pos * w + dim]);
        }
        let i = choose|i: int|
            mid <= i < part.len() && (#[trigger] part[i])[dim].key() == split_value.key();
        assert(tree.data@[(first + i) * w + dim] == part[i][dim]);
        assert(attained(split_value, part, dim));
        let j = choose|j: int| 0 <= j < part.len() && #[trigger] part[j][dim] == split_value;
        assert(tree.data@[(first + j) * w + dim] == part[j][dim]);
        assert forall|pos: int| first <= pos < first + mid implies (#[trigger] tree.data@[pos * w
            + dim]).key() <= split_value.key() by {
            assert(part[pos - first][dim].key() <= split_value.key());
        }
        assert forall|pos: int| first + mid <= pos < first + len implies split_value.key() <= (
        #[trigger] tree.data@[pos * w + dim]).key() by {
            assert(split_value.key() <= part[pos - first][dim].key());
        }
    }
}

/// A node splits along the first of the axes along which its box is widest. It is
/// marked exactly if it has at least 64 points of more than one axis and both children
/// have less than three fifths of its extent, which is not zero, along every other
/// axis.
pub proof fn a_node_splits_its_widest_axis<S: Scalar>(tree: &Tree<S>, id: int, first: int, len: int)
    requires
        tree.wf(),
        tree.node_ok(id, first, len),
    ensures
        tree.nodes@[id] matches Node::Inner { left, right, split_dim, split_value } ==> {
            let w = tree.ndim as int;
            let dim = split_dim as int % 0x8000_0000;
            let b = tree.boxes.values@;
            &&& forall|d: int| #![trigger b[id * (2 * w) + d]]
                0 <= d < w ==> {
                    let own = b[id * (2 * w) + (w + d)].minus_spec(b[id * (2 * w) + d]);
                    let most = b[id * (2 * w) + (w + dim)].minus_spec(b[id * (2 * w) + dim]);
                    !own.nan() && !most.nan() && if d < dim {
                        own.key() < most.key()
                    } else {
                        own.key() <= most.key()
                    }
                }
            &&& split_dim >= 0x8000_0000 <==> w > 1 && len >= 64 && forall|d: int|
                #![trigger b[id * (2 * w) + d]]
                0 <= d < w && d != dim ==> {
                    let own = b[id * (2 * w) + (w + d)].minus_spec(b[id * (2 * w) + d]);
                    let at = b[left * (2 * w) + (w + d)].minus_spec(b[left * (2 * w) + d]);
                    let by = b[right * (2 * w) + (w + d)].minus_spec(b[right * (2 * w) + d]);
                    &&& less(S::zero_spec(), own)
                    &&& !at.ratio_reaches_spec(own, 3, 5)
                    &&& !by.ratio_reaches_spec(own, 3, 5)
                }
        },
{
    let w = tree.ndim as int;
    let c = tree.nodes@.len() as int;
    let part = tree.rows().subrange(first, first + len);
    let b = tree.boxes.values@;
    lemma_children(tree, id, first, len);
    if let Node::Inner { left, right, split_dim, split_value } = tree.nodes@[id] {
        let dim = split_dim as int % 0x8000_0000;
        lemma_box_valid(tree, left as int, first, len / 2);
        lemma_box_valid(tree, right as int, first + len / 2, len - len / 2);
        lemma_row_at(b, c, 2 * w, id);
        lemma_row_at(b, c, 2 * w, left as int);
        lemma_row_at(b, c, 2 * w, right as int);
        lemma_inner(tree, id, first, len);
        lemma_block_len(tree.data@, tree.n_points as int, w);
        assert(part.len() == len);
        let (own, at, by) = (tree.boxes@[id], tree.boxes@[left as int], tree.boxes@[right as int]);
        assert forall|d: int| 0 <= d < w implies {
            &&& lo_of(own, w)[d] == #[trigger] b[id * (2 * w) + d]
            &&& hi_of(own, w)[d] == b[id * (2 * w) + (w + d)]
            &&& lo_of(at, w)[d] == b[left * (2 * w) + d]
            &&& hi_of(at, w)[d] == b[left * (2 * w) + (w + d)]
            &&& lo_of(by, w)[d] == b[right * (2 * w) + d]
            &&& hi_of(by, w)[d] == b[right * (2 * w) + (w + d)]
        } by {
            assert(own[d] == b[id * (2 * w) + d] && own[w + d] == b[id * (2 * w) + (w + d)]);
            assert(at[d] == b[left * (2 * w) + d] && at[w + d] == b[left * (2 * w) + (w + d)]);
            assert(by[d] == b[right * (2 * w) + d] && by[w + d] == b[right * (2 * w) + (w + d)]);
        }
        assert forall|d: int| #![trigger b[id * (2 * w) + d]] 0 <= d < w implies {
            let own = b[id * (2 * w) + (w + d)].minus_spec(b[id * (2 * w) + d]);
            let most = b[id * (2 * w) + (w + dim)].minus_spec(b[id * (2 * w) + dim]);
            !own.nan() && !most.nan() && if d < dim {
                own.key() < most.key()
            } else {
                own.key() <= most.key()
            }
        } by {
            assert(lo_of(own, w)[dim] == b[id * (2 * w) + dim]);
            assert(at_most(
                hi_of(own, w)[d].minus_spec(lo_of(own, w)[d]),
                hi_of(own, w)[dim].minus_spec(lo_of(own, w)[dim]),
            ));
            if d < dim {
                assert(less(
                    hi_of(own, w)[d].minus_spec(lo_of(own, w)[d]),
                    hi_of(own, w)[dim].minus_spec(lo_of(own, w)[dim]),
                ));
            }
        }
        lemma_marked(b, w, own, at, by, id, left as int, right as int, dim);
    }
}

/// That both children shrank, over the flat array of boxes.
proof fn lemma_marked<S: Scalar>(
    b: Seq<S>,
    w: int,
    own: Seq<S>,
    at: Seq<S>,
    by: Seq<S>,
    id: int,
    left: int,
    right: int,
    dim: int,
)
    requires
        0 < w,
        own.len() == 2 * w,
        forall|d: int|
            0 <= d < w ==> {
                &&& lo_of(own, w)[d] == #[trigger] b[id * (2 * w) + d]
                &&& hi_of(own, w)[d] == b[id * (2 * w) + (w + d)]
                &&& lo_of(at, w)[d] == b[left * (2 * w) + d]
                &&& hi_of(at, w)[d] == b[left * (2 * w) + (w + d)]
                &&& lo_of(by, w)[d] == b[right * (2 * w) + d]
                &&& hi_of(by, w)[d] == b[right * (2 * w) + (w + d)]
            },
    ensures
        ({
            (shrank_spec(lo_of(own, w), hi_of(own, w), lo_of(at, w), hi_of(at, w), dim)
                && shrank_spec(lo_of(own, w), hi_of(own, w), lo_of(by, w), hi_of(by, w), dim))
                <==> forall|d: int|
                #![trigger b[id * (2 * w) + d]]
                0 <= d < w && d != dim ==> {
                    let own = b[id * (2 * w) + (w + d)].minus_spec(b[id * (2 * w) + d]);
                    let at = b[left * (2 * w) + (w + d)].minus_spec(b[left * (2 * w) + d]);
                    let by = b[right * (2 * w) + (w + d)].minus_spec(b[right * (2 * w) + d]);
                    &&& less(S::zero_spec(), own)
                    &&& !at.ratio_reaches_spec(own, 3, 5)
                    &&& !by.ratio_reaches_spec(own, 3, 5)
                }
        }),
{
    let (lo, hi) = (lo_of(own, w), hi_of(own, w));
    let one = shrank_spec(lo, hi, lo_of(at, w), hi_of(at, w), dim);
    let other = shrank_spec(lo, hi, lo_of(by, w), hi_of(by, w), dim);
    let flat = forall|d: int| #![trigger b[id * (2 * w) + d]]
        0 <= d < w && d != dim ==> {
            let own = b[id * (2 * w) + (w + d)].minus_spec(b[id * (2 * w) + d]);
            let at = b[left * (2 * w) + (w + d)].minus_spec(b[left * (2 * w) + d]);
            let by = b[right * (2 * w) + (w + d)].minus_spec(b[right * (2 * w) + d]);
            &&& less(S::zero_spec(), own)
            &&& !at.ratio_reaches_spec(own, 3, 5)
            &&& !by.ratio_reaches_spec(own, 3, 5)
        };
    assert(lo.len() == w);
    if flat {
        assert forall|d: int| 0 <= d < w && d != dim implies {
            &&& less(S::zero_spec(), (#[trigger] hi[d]).minus_spec(lo[d]))
            &&& !hi_of(at, w)[d].minus_spec(lo_of(at, w)[d]).ratio_reaches_spec(
                hi[d].minus_spec(lo[d]),
                3,
                5,
            )
            &&& !hi_of(by, w)[d].minus_spec(lo_of(by, w)[d]).ratio_reaches_spec(
                hi[d].minus_spec(lo[d]),
                3,
                5,
            )
        } by {
            assert(lo[d] == b[id * (2 * w) + d]);
        }
        assert(one && other);
    }
    if one && other {
        assert forall|d: int| #![trigger b[id * (2 * w) + d]] 0 <= d < w && d != dim implies {
            let own = b[id * (2 * w) + (w + d)].minus_spec(b[id * (2 * w) + d]);
            let at = b[left * (2 * w) + (w + d)].minus_spec(b[left * (2 * w) + d]);
            let by = b[right * (2 * w) + (w + d)].minus_spec(b[right * (2 * w) + d]);
            &&& less(S::zero_spec(), own)
            &&& !at.ratio_reaches_spec(own, 3, 5)
            &&& !by.ratio_reaches_spec(own, 3, 5)
        } by {
            assert(lo[d] == b[id * (2 * w) + d]);
            assert(less(S::zero_spec(), hi[d].minus_spec(lo[d])));
        }
    }
}

} // verus!
