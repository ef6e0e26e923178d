//! Promises of the descent that answers a question.
//!
//! [`Ask::search`] is what a query leaves in its slots. These laws say how a search
//! starts, what a visit of a node does in terms of visits of its children, and what a
//! point in a leaf does to the candidates, so that nothing of an answer is left open.

use crate::best::{place, Hit};
use crate::lanes::{lane_box_dist_spec, scan_dist};
use crate::laws::nearest::lemma_asked;
use crate::layout::{axis_offset_spec, hi_of, lemma_block_len, lemma_row_at, lo_of, rows_of};
use crate::metric::{Dist, Metric};
use crate::node::Node;
use crate::query::{question, responds};
use crate::scalar::{lawful, Scalar};
use crate::search::Ask;
use crate::tree::{lemma_box_valid, lemma_children, Tree};
use vstd::prelude::*;

verus! {

/// The slots of question `i` hold what a search ends with: the plain distances and the
/// row numbers of its candidates, and after the last one infinity and the number of
/// points. The search is about the row itself, looks as far as `max_distance` reduces
/// to, and counts bounds by what `1 + eps` reduces to.
pub proof fn slots_hold_what_a_search_ends_with<S: Scalar>(
    tree: &Tree<S>,
    queries: &[S],
    k: usize,
    p: S,
    m: Metric<S>,
    max_distance: Option<S>,
    eps: S,
    parallel: bool,
    distances: Vec<S>,
    indices: Vec<i64>,
    i: int,
)
    requires
        lawful::<S>(),
        tree.wf(),
        call_ensures(Metric::<S>::new, (p,), Ok(m)),
        call_ensures(
            Tree::<S>::query,
            (tree, queries, k, p, max_distance, eps, parallel),
            Ok((distances, indices)),
        ),
        0 <= i,
        i * tree.ndim < queries@.len(),
    ensures
        ({
            let ask = Ask {
                m,
                q: queries@.subrange(i * tree.ndim, i * tree.ndim + tree.ndim),
                k: k as nat,
                cutoff: match max_distance {
                    Some(r) => m.reduce_spec(r),
                    None => m.reduce_spec(S::infinity_spec()),
                },
                factor: m.reduce_spec(S::one_spec().plus_spec(eps)),
            };
            let hits = ask.search(tree);
            &&& hits.len() <= k
            &&& forall|j: int| #![trigger distances@[i * k + j]]
                0 <= j < k ==> distances@[i * k + j] == if j < hits.len() {
                    m.restore_spec(hits[j].dist.value)
                } else {
                    S::infinity_spec()
                }
            &&& forall|j: int| #![trigger indices@[i * k + j]]
                0 <= j < k ==> indices@[i * k + j] == if j < hits.len() {
                    hits[j].index as int
                } else {
                    tree.n_points as int
                }
        }),
{
    let w = tree.ndim as int;
    let nq = queries@.len() as int / w;
    let q = queries@.subrange(i * w, i * w + w);
    let ask = question(q, k, p, max_distance, eps);
    lemma_asked(tree, queries@, k, p, m, max_distance, eps, i);
    vstd::arithmetic::div_mod::lemma_fundamental_div_mod(queries@.len() as int, w);
    assert(w * nq == nq * w) by (nonlinear_arith);
    assert(i < nq) by (nonlinear_arith)
        requires
            i * w < nq * w,
            0 < w,
    ;
    lemma_block_len(queries@, nq, w);
    lemma_row_at(queries@, nq, w, i);
    lemma_row_at(distances@, nq, k as int, i);
    lemma_row_at(indices@, nq, k as int, i);
    let (ds, is) = (rows_of(distances@, k as int)[i], rows_of(indices@, k as int)[i]);
    assert(responds(tree, ask, eps, ds, is));
    assert forall|j: int| #![trigger distances@[i * k + j]] 0 <= j < k implies distances@[i * k + j]
        == ds[j] by {}
    assert forall|j: int| #![trigger indices@[i * k + j]] 0 <= j < k implies indices@[i * k + j]
        == is[j] by {}
}

/// A search visits the root with no candidates, if the bound to its cell counts to no
/// more than the cutoff, and is over otherwise. For a question at no distance from the
/// box of the root, that bound and all its contributions are zero. Otherwise axis `d`
/// contributes what the offset from the box reduces to, and the bound folds that axis
/// by axis.
pub proof fn a_search_starts_at_the_root<S: Scalar>(ask: Ask<S>, tree: &Tree<S>, d: int, n: int)
    requires
        lawful::<S>(),
        tree.wf(),
        ask.valid(tree),
        0 <= d < tree.ndim,
        n >= 0,
    ensures
        ({
            let w = tree.ndim as int;
            let b = tree.boxes.values@;
            let gate = lane_box_dist_spec(
                ask.m,
                ask.q,
                b.subrange(0, w),
                b.subrange(w, 2 * w),
            );
            let inside = !gate.nan() && gate.key() == S::zero_spec().key();
            let cell = if inside {
                S::zero_spec()
            } else {
                ask.root_fold(tree, w)
            };
            let counted = cell.times_spec(ask.factor);
            let axis = ask.m.reduce_spec(axis_offset_spec(ask.q[d], b[d], b[w + d]));
            let was = ask.root_fold(tree, d);
            &&& ask.search(tree) == if !counted.nan() && counted.key() <= ask.cutoff.key() {
                ask.visited(
                    tree,
                    0,
                    0,
                    tree.n_points as int,
                    ask.root_axes(tree),
                    cell,
                    Seq::empty(),
                )
            } else {
                Seq::empty()
            }
            &&& ask.root_axes(tree).len() == w
            &&& ask.root_axes(tree)[d].value == if inside {
                S::zero_spec()
            } else {
                axis
            }
            &&& ask.root_fold(tree, 0) == S::zero_spec()
            &&& ask.root_fold(tree, d + 1) == match ask.m {
                Metric::L1 | Metric::L2 | Metric::LP(_) => was.plus_spec(axis),
                Metric::LInf => if !was.nan() && !axis.nan() && was.key() < axis.key() {
                    axis
                } else {
                    was
                },
            }
        }),
{
    let w = tree.ndim as int;
    let b = tree.boxes.values@;
    lemma_box_valid(tree, 0, 0, tree.n_points as int);
    lemma_row_at(b, tree.nodes@.len() as int, 2 * w, 0);
    assert(lo_of(tree.boxes@[0], w) =~= b.subrange(0, w));
    assert(hi_of(tree.boxes@[0], w) =~= b.subrange(w, 2 * w));
    assert(ask.k > 0);
}

/// A point is taken up if its distance is at most the cutoff and, once there are `k`
/// candidates, that of the last one. A visit of a leaf takes its points up in order.
pub proof fn a_leaf_takes_its_points_up_in_order<S: Scalar>(
    ask: Ask<S>,
    tree: &Tree<S>,
    id: int,
    first: int,
    len: int,
    axes: Seq<Dist<S>>,
    cell: S,
    hits: Seq<Hit<S>>,
    upto: int,
)
    requires
        tree.wf(),
        tree.node_ok(id, first, len),
        first <= upto < first + len,
    ensures
        tree.nodes@[id] is Leaf ==> ask.visited(tree, id, first, len, axes, cell, hits)
            == ask.scanned(tree, hits, first, first + len),
        ask.scanned(tree, hits, first, first) == hits,
        ({
            let w = tree.ndim as int;
            let was = ask.scanned(tree, hits, first, upto);
            let near = scan_dist(
                ask.m,
                ask.q,
                tree.data@.subrange(upto * w, upto * w + w),
                tree.grouped(upto),
            );
            ask.scanned(tree, hits, first, upto + 1) == if near.key() <= ask.cutoff.key() && (
            was.len() < ask.k || near.key() <= was.last().dist.value.key()) {
                place(was, ask.k, Hit { dist: Dist { value: near }, index: tree.indices@[upto] })
            } else {
                was
            }
        }),
{
    lemma_children(tree, id, first, len);
    lemma_row_at(tree.data@, tree.n_points as int, tree.ndim as int, upto);
}

/// A candidate is put behind those that are nearer, or as near with a smaller row
/// number, and before the others. Of more than `k` candidates the last one goes.
pub proof fn a_candidate_is_put_in_its_place<S: Scalar>(
    hits: Seq<Hit<S>>,
    k: nat,
    h: Hit<S>,
    c: int,
)
    requires
        k > 0,
        hits.len() <= k,
        0 <= c <= hits.len(),
        forall|i: int|
            0 <= i < c ==> (#[trigger] hits[i]).dist.value.key() < h.dist.value.key() || (
            hits[i].dist.value.key() == h.dist.value.key() && hits[i].index < h.index),
        forall|i: int|
            c <= i < hits.len() ==> h.dist.value.key() < (#[trigger] hits[i]).dist.value.key() || (
            hits[i].dist.value.key() == h.dist.value.key() && h.index < hits[i].index),
    ensures
        ({
            let all = hits.subrange(0, c).push(h) + hits.subrange(c, hits.len() as int);
            place(hits, k, h) == if all.len() <= k {
                all
            } else {
                all.drop_last()
            }
        }),
{
    if hits.len() < k {
        lemma_put(hits, h, c);
    } else if c < hits.len() {
        let rest = hits.drop_last();
        lemma_put(rest, h, c);
        assert(rest.subrange(0, c) =~= hits.subrange(0, c));
        assert((hits.subrange(0, c).push(h) + hits.subrange(c, hits.len() as int)).drop_last()
            =~= rest.subrange(0, c).push(h) + rest.subrange(c, rest.len() as int));
    } else {
        assert((hits.subrange(0, c).push(h) + hits.subrange(c, hits.len() as int)).drop_last()
            =~= hits);
    }
}

proof fn lemma_put<S: Scalar>(hits: Seq<Hit<S>>, h: Hit<S>, c: int)
    requires
        0 <= c <= hits.len(),
        forall|i: int|
            0 <= i < c ==> (#[trigger] hits[i]).dist.value.key() < h.dist.value.key() || (
            hits[i].dist.value.key() == h.dist.value.key() && hits[i].index < h.index),
        forall|i: int|
            c <= i < hits.len() ==> h.dist.value.key() < (#[trigger] hits[i]).dist.value.key() || (
            hits[i].dist.value.key() == h.dist.value.key() && h.index < hits[i].index),
    ensures
        crate::best::insert_sorted(hits, h) == hits.subrange(0, c).push(h) + hits.subrange(
            c,
            hits.len() as int,
        ),
    decreases hits.len(),
{
    if c == hits.len() {
        assert(hits.subrange(0, c).push(h) + hits.subrange(c, hits.len() as int) =~= hits.push(h));
    } else {
        let rest = hits.drop_last();
        lemma_put(rest, h, c);
        assert(rest.subrange(0, c) =~= hits.subrange(0, c));
        assert((rest.subrange(0, c).push(h) + rest.subrange(c, rest.len() as int)).push(hits.last())
            =~= hits.subrange(0, c).push(h) + hits.subrange(c, hits.len() as int));
    }
}

/// A visit of an inner node visits the child on the side of the question, and the
/// other one if both the bound to its cell and that to its box count to no more than
/// what a candidate may then have. A marked node visits the child with the nearer box
/// first, and each if its box counts to no more than that. In the cell of the other
/// child, the contribution of the split axis is exchanged for what the distance from
/// the split reduces to.
pub proof fn a_visit_goes_on_to_the_children<S: Scalar>(
    ask: Ask<S>,
    tree: &Tree<S>,
    id: int,
    first: int,
    len: int,
    axes: Seq<Dist<S>>,
    cell: S,
    hits: Seq<Hit<S>>,
)
    requires
        tree.wf(),
        tree.node_ok(id, first, len),
    ensures
        tree.nodes@[id] matches Node::Inner { left, right, split_dim, split_value } ==> {
            let w = tree.ndim as int;
            let b = tree.boxes.values@;
            let mid = len / 2;
            let dim = split_dim as int % 0x8000_0000;
            let off = ask.q[dim].minus_spec(split_value);
            let axis = ask.m.reduce_spec(off.abs_spec());
            let far_axes = axes.update(dim, Dist { value: axis });
            let far_cell = match ask.m {
                Metric::L1 | Metric::L2 | Metric::LP(_) => cell.minus_spec(
                    axes[dim].value,
                ).plus_spec(axis),
                Metric::LInf => if !cell.nan() && !axis.nan() && cell.key() < axis.key() {
                    axis
                } else {
                    cell
                },
            };
            let gate = |child: int|
                lane_box_dist_spec(
                    ask.m,
                    ask.q,
                    b.subrange(child * (2 * w), child * (2 * w) + w),
                    b.subrange(child * (2 * w) + w, child * (2 * w) + 2 * w),
                );
            let most = |then: Seq<Hit<S>>|
                if then.len() < ask.k || ask.cutoff.key() < then.last().dist.value.key() {
                    ask.cutoff.key()
                } else {
                    then.last().dist.value.key()
                };
            let counts = |bound: S, then: Seq<Hit<S>>|
                !bound.times_spec(ask.factor).nan() && bound.times_spec(ask.factor).key() <= most(
                    then,
                );
            let left_near = !off.nan() && off.key() <= S::zero_spec().key();
            let (near, far) = if left_near {
                (left as int, right as int)
            } else {
                (right as int, left as int)
            };
            let go_near = |then: Seq<Hit<S>>|
                if left_near {
                    ask.visited(tree, near, first, mid, axes, cell, then)
                } else {
                    ask.visited(tree, near, first + mid, len - mid, axes, cell, then)
                };
            let go_far = |then: Seq<Hit<S>>|
                if left_near {
                    ask.visited(tree, far, first + mid, len - mid, far_axes, far_cell, then)
                } else {
                    ask.visited(tree, far, first, mid, far_axes, far_cell, then)
                };
            let all = ask.visited(tree, id, first, len, axes, cell, hits);
            !S::zero_spec().nan() ==> if split_dim < 0x8000_0000 {
                let then = go_near(hits);
                all == if counts(far_cell, then) && counts(gate(far), then) {
                    go_far(then)
                } else {
                    then
                }
            } else if !gate(near).nan() && !gate(far).nan() && gate(near).key() <= gate(
                far,
            ).key() {
                let then = if counts(gate(near), hits) {
                    go_near(hits)
                } else {
                    hits
                };
                all == if counts(gate(far), then) {
                    go_far(then)
                } else {
                    then
                }
            } else {
                let then = if counts(gate(far), hits) {
                    go_far(hits)
                } else {
                    hits
                };
                all == if counts(gate(near), then) {
                    go_near(then)
                } else {
                    then
                }
            }
        },
{
    lemma_children(tree, id, first, len);
    if let Node::Inner { left, right, split_dim, split_value } = tree.nodes@[id] {
        lemma_gate(ask, tree, left as int, first, len / 2);
        lemma_gate(ask, tree, right as int, first + len / 2, len - len / 2);
    }
}

/// The box of a node in the flat array of boxes.
proof fn lemma_gate<S: Scalar>(ask: Ask<S>, tree: &Tree<S>, id: int, first: int, len: int)
    requires
        tree.wf(),
        tree.node_ok(id, first, len),
    ensures
        ({
            let w = tree.ndim as int;
            let b = tree.boxes.values@;
            ask.box_gate(tree, id) == lane_box_dist_spec(
                ask.m,
                ask.q,
                b.subrange(id * (2 * w), id * (2 * w) + w),
                b.subrange(id * (2 * w) + w, id * (2 * w) + 2 * w),
            )
        }),
{
    let w = tree.ndim as int;
    let b = tree.boxes.values@;
    lemma_box_valid(tree, id, first, len);
    lemma_row_at(b, tree.nodes@.len() as int, 2 * w, id);
    assert(lo_of(tree.boxes@[id], w) =~= b.subrange(id * (2 * w), id * (2 * w) + w));
    assert(hi_of(tree.boxes@[id], w) =~= b.subrange(id * (2 * w) + w, id * (2 * w) + 2 * w));
}

} // verus!
