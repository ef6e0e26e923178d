//! What the answer to a nearest-neighbour question is.
//!
//! [`Ask::search`] is what a search ends with. The descent prunes with two kinds of
//! bounds, checked in order of cost: an incrementally updated lower bound from the
//! question to the current cell, and the distance to the tight box of the points
//! that a subtree holds. So a point may be missing from an answer only if it comes
//! after everything that is in a full answer, or if one of the bounds on the way to
//! it was not admitted ([`Ask::answered`]). Where no bound exceeds the distance of
//! the points behind it ([`Ask::sound`]), the answer is the `k` nearest points and
//! nothing else ([`Ask::nearest`]).

use crate::best::{before, bound_key, distances_of, indices_of, lemma_no_earlier, lemma_place, place,
    ranked, settled, unseen, Hit};
use crate::distance::{lemma_box_below_row, lemma_restore_monotone, monotone, restores_in_order};
use crate::lanes::{lane_box_dist_spec, lemma_box_term_nonneg, lemma_lane_box_nonneg,
    lemma_scan_dist_nonneg, lemma_serial, placeless, scan_dist, serial};
use crate::layout::{axis_offset_spec, hi_of, lemma_block_len, lo_of};
use crate::metric::{lemma_fold_grows, Dist, Metric};
use crate::node::{unpack_split_spec, Node};
use crate::scalar::{all_finite_spec, at_most, finite, lawful, nonneg, orderly, Scalar};
use crate::tree::{every_row_has_a_position, lemma_box_valid, lemma_children, lemma_row_of_tree,
    Tree};
use vstd::prelude::*;

verus! {

/// A question: the `k` points nearest to `q` that lie within `cutoff`, where a
/// bound counts `factor` times. Distances are reduced ones.
pub struct Ask<S> {
    pub m: Metric<S>,
    pub q: Seq<S>,
    pub k: nat,
    pub cutoff: S,
    pub factor: S,
}

impl<S: Scalar> Ask<S> {
    pub open spec fn valid(self, tree: &Tree<S>) -> bool {
        &&& self.m.valid()
        &&& self.q.len() == tree.ndim
        &&& all_finite_spec(self.q)
        &&& nonneg(self.cutoff)
        &&& self.k > 0
    }

    /// The distance of the point at position `pos`.
    pub open spec fn dist(self, tree: &Tree<S>, pos: int) -> S {
        scan_dist(self.m, self.q, tree.rows()[pos], tree.grouped(pos))
    }

    /// The candidate that the point at position `pos` makes.
    pub open spec fn hit(self, tree: &Tree<S>, pos: int) -> Hit<S> {
        Hit { dist: Dist { value: self.dist(tree, pos) }, index: tree.indices@[pos] }
    }

    /// `h` is the candidate of a point within the cutoff, from position `a` up to
    /// `b`.
    pub open spec fn made(self, tree: &Tree<S>, h: Hit<S>, a: int, b: int) -> bool {
        exists|pos: int|
            a <= pos < b && #[trigger] self.hit(tree, pos) == h && h.dist.value.key()
                <= self.cutoff.key()
    }

    /// A list of candidates as the search keeps it.
    pub open spec fn kept(self, tree: &Tree<S>, hits: Seq<Hit<S>>) -> bool {
        &&& ranked(hits)
        &&& hits.len() <= self.k
        &&& forall|i: int|
            0 <= i < hits.len() ==> self.made(tree, #[trigger] hits[i], 0, tree.n_points as int)
    }

    /// The point at `pos` is beyond the cutoff, kept, or after everything that is
    /// kept in a full list.
    pub open spec fn done(self, tree: &Tree<S>, hits: Seq<Hit<S>>, pos: int) -> bool {
        self.dist(tree, pos).key() > self.cutoff.key() || settled(
            hits,
            self.k,
            self.hit(tree, pos),
        )
    }

    /// The `k` nearest points within the cutoff, nearest first, those at the same
    /// distance in the order of their row numbers.
    pub open spec fn nearest(self, tree: &Tree<S>, hits: Seq<Hit<S>>) -> bool {
        &&& self.kept(tree, hits)
        &&& forall|pos: int| 0 <= pos < tree.n_points ==> #[trigger] self.done(tree, hits, pos)
    }

    /// A lower bound does not rule a subtree out.
    pub open spec fn admits(self, gate: S, bound: int) -> bool {
        !gate.times_spec(self.factor).nan() && gate.times_spec(self.factor).key() <= bound
    }

    /// The distance to the tight box of a node.
    pub open spec fn box_gate(self, tree: &Tree<S>, id: int) -> S {
        lane_box_dist_spec(
            self.m,
            self.q,
            lo_of(tree.boxes@[id], tree.ndim as int),
            hi_of(tree.boxes@[id], tree.ndim as int),
        )
    }

    /// The question lies at the left of a split or on it.
    pub open spec fn left_near(self, dim: int, value: S) -> bool {
        at_most(self.q[dim].minus_spec(value), S::zero_spec())
    }

    /// What axis `dim` contributes to the distance of the far side of a split.
    pub open spec fn far_axis(self, dim: int, value: S) -> S {
        self.m.reduce_spec(self.q[dim].minus_spec(value).abs_spec())
    }

    /// A lower bound on the way from node `id` to the point at `pos` is not
    /// admitted at `bound`. `axes` and `cell` are the contributions and the total
    /// of the bound to the cell of the node.
    pub open spec fn barred(
        self,
        tree: &Tree<S>,
        id: int,
        first: int,
        len: int,
        axes: Seq<Dist<S>>,
        cell: S,
        pos: int,
        bound: int,
    ) -> bool
        decreases len,
    {
        if len <= tree.leafsize || len <= 1 {
            false
        } else {
            match tree.nodes@[id] {
                Node::Leaf { .. } => false,
                Node::Inner { left, right, split_dim, split_value } => {
                    let (dim, by_box) = unpack_split_spec(split_dim);
                    let mid = len / 2;
                    let at_left = pos < first + mid;
                    let child = if at_left {
                        left as int
                    } else {
                        right as int
                    };
                    let cfirst = if at_left {
                        first
                    } else {
                        first + mid
                    };
                    let clen = if at_left {
                        mid
                    } else {
                        len - mid
                    };
                    let gate = self.box_gate(tree, child);
                    if at_left == self.left_near(dim as int, split_value) {
                        ||| by_box && !self.admits(gate, bound)
                        ||| self.barred(tree, child, cfirst, clen, axes, cell, pos, bound)
                    } else {
                        let axis = self.far_axis(dim as int, split_value);
                        let far = self.m.replace_axis_spec(cell, axes[dim as int].value, axis);
                        ||| !by_box && !self.admits(far, bound)
                        ||| !self.admits(gate, bound)
                        ||| self.barred(
                            tree,
                            child,
                            cfirst,
                            clen,
                            axes.update(dim as int, Dist { value: axis }),
                            far,
                            pos,
                            bound,
                        )
                    }
                },
            }
        }
    }

    /// The distance that a candidate may not exceed, as a key.
    pub open spec fn bound(self, hits: Seq<Hit<S>>) -> int {
        bound_key(hits, self.k, self.cutoff)
    }

    /// The candidates after the point at `pos` came up: it is taken up if it is
    /// within the bound.
    pub open spec fn taken(self, tree: &Tree<S>, hits: Seq<Hit<S>>, pos: int) -> Seq<Hit<S>> {
        if self.dist(tree, pos).key() <= self.bound(hits) {
            place(hits, self.k, self.hit(tree, pos))
        } else {
            hits
        }
    }

    /// The candidates after the points from position `a` up to `b` came up.
    pub open spec fn scanned(self, tree: &Tree<S>, hits: Seq<Hit<S>>, a: int, b: int) -> Seq<Hit<S>>
        decreases b - a,
    {
        if b <= a {
            hits
        } else {
            self.taken(tree, self.scanned(tree, hits, a, b - 1), b - 1)
        }
    }

    /// The candidates after a visit of node `id`. `axes` and `cell` are the
    /// contributions and the total of the bound to the cell of the node.
    ///
    /// The child on the side of the question comes first, and the other one if
    /// both its bounds are admitted. At a node that is visited by boxes, the child
    /// with the nearer box comes first, and each one if its box is admitted.
    pub open spec fn visited(
        self,
        tree: &Tree<S>,
        id: int,
        first: int,
        len: int,
        axes: Seq<Dist<S>>,
        cell: S,
        hits: Seq<Hit<S>>,
    ) -> Seq<Hit<S>>
        decreases len,
    {
        if len <= tree.leafsize || len <= 1 {
            self.scanned(tree, hits, first, first + len)
        } else {
            match tree.nodes@[id] {
                Node::Leaf { .. } => hits,
                Node::Inner { left, right, split_dim, split_value } => {
                    let (dim, by_box) = unpack_split_spec(split_dim);
                    let mid = len / 2;
                    let left_near = self.left_near(dim as int, split_value);
                    let near = if left_near {
                        left as int
                    } else {
                        right as int
                    };
                    let far = if left_near {
                        right as int
                    } else {
                        left as int
                    };
                    let nfirst = if left_near {
                        first
                    } else {
                        first + mid
                    };
                    let ffirst = if left_near {
                        first + mid
                    } else {
                        first
                    };
                    let nlen = if left_near {
                        mid
                    } else {
                        len - mid
                    };
                    let flen = if left_near {
                        len - mid
                    } else {
                        mid
                    };
                    let axis = self.far_axis(dim as int, split_value);
                    let beyond = axes.update(dim as int, Dist { value: axis });
                    let far_cell = self.m.replace_axis_spec(cell, axes[dim as int].value, axis);
                    let near_gate = self.box_gate(tree, near);
                    let far_gate = self.box_gate(tree, far);
                    if !by_box {
                        let then = self.visited(tree, near, nfirst, nlen, axes, cell, hits);
                        if self.admits(far_cell, self.bound(then)) && self.admits(
                            far_gate,
                            self.bound(then),
                        ) {
                            self.visited(tree, far, ffirst, flen, beyond, far_cell, then)
                        } else {
                            then
                        }
                    } else if at_most(near_gate, far_gate) {
                        let then = if self.admits(near_gate, self.bound(hits)) {
                            self.visited(tree, near, nfirst, nlen, axes, cell, hits)
                        } else {
                            hits
                        };
                        if self.admits(far_gate, self.bound(then)) {
                            self.visited(tree, far, ffirst, flen, beyond, far_cell, then)
                        } else {
                            then
                        }
                    } else {
                        let then = if self.admits(far_gate, self.bound(hits)) {
                            self.visited(tree, far, ffirst, flen, beyond, far_cell, hits)
                        } else {
                            hits
                        };
                        if self.admits(near_gate, self.bound(then)) {
                            self.visited(tree, near, nfirst, nlen, axes, cell, then)
                        } else {
                            then
                        }
                    }
                },
            }
        }
    }

    /// The candidates that a search of the tree ends with.
    pub open spec fn search(self, tree: &Tree<S>) -> Seq<Hit<S>> {
        if self.admits(self.root_cell(tree), self.bound(Seq::empty())) {
            self.visited(
                tree,
                0,
                0,
                tree.n_points as int,
                self.root_axes(tree),
                self.root_cell(tree),
                Seq::empty(),
            )
        } else {
            Seq::empty()
        }
    }

    /// The question lies in the box of the root.
    pub open spec fn inside(self, tree: &Tree<S>) -> bool {
        let d = self.box_gate(tree, 0);
        !d.nan() && d.key() == S::zero_spec().key()
    }

    /// What axis `d` contributes to the distance of the root box.
    pub open spec fn root_axis(self, tree: &Tree<S>, d: int) -> S {
        self.m.reduce_spec(
            axis_offset_spec(
                self.q[d],
                lo_of(tree.boxes@[0], tree.ndim as int)[d],
                hi_of(tree.boxes@[0], tree.ndim as int)[d],
            ),
        )
    }

    /// The fold of what the first `n` axes contribute.
    pub open spec fn root_fold(self, tree: &Tree<S>, n: int) -> S
        decreases n,
    {
        if n <= 0 {
            S::zero_spec()
        } else {
            self.m.fold_spec(self.root_fold(tree, n - 1), self.root_axis(tree, n - 1))
        }
    }

    /// The contributions to the bound to the cell of the root.
    pub open spec fn root_axes(self, tree: &Tree<S>) -> Seq<Dist<S>> {
        Seq::new(
            tree.ndim as nat,
            |d: int|
                if self.inside(tree) {
                    Dist::zero_spec()
                } else {
                    Dist { value: self.root_axis(tree, d) }
                },
        )
    }

    /// The bound to the cell of the root.
    pub open spec fn root_cell(self, tree: &Tree<S>) -> S {
        if self.inside(tree) {
            S::zero_spec()
        } else {
            self.root_fold(tree, tree.ndim as int)
        }
    }

    /// A lower bound on the way from the root to the point at `pos` is not
    /// admitted at `bound`.
    pub open spec fn shut_out(self, tree: &Tree<S>, pos: int, bound: int) -> bool {
        ||| !self.admits(self.root_cell(tree), bound)
        ||| self.barred(
            tree,
            0,
            0,
            tree.n_points as int,
            self.root_axes(tree),
            self.root_cell(tree),
            pos,
            bound,
        )
    }

    /// `hits` answers the question as far as the bounds of the descent decide it.
    pub open spec fn answered(self, tree: &Tree<S>, hits: Seq<Hit<S>>) -> bool {
        &&& self.kept(tree, hits)
        &&& forall|pos: int|
            0 <= pos < tree.n_points ==> #[trigger] self.done(tree, hits, pos) || self.shut_out(
                tree,
                pos,
                bound_key(hits, self.k, self.cutoff),
            )
    }

    /// No bound that the descent derives from split planes, on the way from node
    /// `id` to the point at `pos`, exceeds the distance of the point.
    pub open spec fn planes_below(
        self,
        tree: &Tree<S>,
        id: int,
        first: int,
        len: int,
        axes: Seq<Dist<S>>,
        cell: S,
        pos: int,
    ) -> bool
        decreases len,
    {
        if len <= tree.leafsize || len <= 1 {
            true
        } else {
            match tree.nodes@[id] {
                Node::Leaf { .. } => true,
                Node::Inner { left, right, split_dim, split_value } => {
                    let dim = unpack_split_spec(split_dim).0 as int;
                    let mid = len / 2;
                    let at_left = pos < first + mid;
                    let child = if at_left {
                        left as int
                    } else {
                        right as int
                    };
                    let cfirst = if at_left {
                        first
                    } else {
                        first + mid
                    };
                    let clen = if at_left {
                        mid
                    } else {
                        len - mid
                    };
                    if at_left == self.left_near(dim, split_value) {
                        self.planes_below(tree, child, cfirst, clen, axes, cell, pos)
                    } else {
                        let axis = self.far_axis(dim, split_value);
                        let far = self.m.replace_axis_spec(cell, axes[dim].value, axis);
                        &&& nonneg(far)
                        &&& at_most(far, self.dist(tree, pos))
                        &&& self.planes_below(
                            tree,
                            child,
                            cfirst,
                            clen,
                            axes.update(dim, Dist { value: axis }),
                            far,
                            pos,
                        )
                    }
                },
            }
        }
    }

    /// No bound that the descent derives from split planes on the way to the
    /// point at `pos` exceeds the distance of the point.
    pub open spec fn planes_hold_at(self, tree: &Tree<S>, pos: int) -> bool {
        &&& nonneg(self.root_cell(tree))
        &&& at_most(self.root_cell(tree), self.dist(tree, pos))
        &&& self.planes_below(
            tree,
            0,
            0,
            tree.n_points as int,
            self.root_axes(tree),
            self.root_cell(tree),
            pos,
        )
    }

    /// No bound that the descent derives from split planes exceeds the distance
    /// of a point behind it. Rounding may break this by a hair; where it does not
    /// come in, [`exact_planes_stay_below`] and [`greatest_axis_planes_stay_below`]
    /// establish it.
    ///
    /// [`exact_planes_stay_below`]: crate::planes::exact_planes_stay_below
    /// [`greatest_axis_planes_stay_below`]: crate::planes::greatest_axis_planes_stay_below
    pub open spec fn planes_hold(self, tree: &Tree<S>) -> bool {
        forall|pos: int| 0 <= pos < tree.n_points ==> #[trigger] self.planes_hold_at(tree, pos)
    }

    /// No box around the point at `pos` is further than the point.
    pub open spec fn boxes_hold_at(self, tree: &Tree<S>, pos: int) -> bool {
        forall|id: int, first: int, len: int| #[trigger]
            tree.node_ok(id, first, len) && first <= pos < first + len ==> nonneg(
                self.box_gate(tree, id),
            ) && at_most(self.box_gate(tree, id), self.dist(tree, pos))
    }

    /// No box is further than a point in it. The two add up in different orders, so
    /// rounding may break this by a hair; where it does not come in,
    /// [`serial_boxes_stay_below`] and [`exact_boxes_stay_below`] establish it.
    ///
    /// [`exact_boxes_stay_below`]: crate::planes::exact_boxes_stay_below
    pub open spec fn boxes_hold(self, tree: &Tree<S>) -> bool {
        forall|pos: int| 0 <= pos < tree.n_points ==> #[trigger] self.boxes_hold_at(tree, pos)
    }

    /// The bounds of the descent are lower bounds: plane bounds and boxes stay below
    /// the distances behind them, and the factor does not shrink a bound.
    pub open spec fn sound(self, tree: &Tree<S>) -> bool {
        &&& self.boxes_hold(tree)
        &&& self.planes_hold(tree)
        &&& finite(self.factor)
        &&& at_most(S::one_spec(), self.factor)
    }

    /// The nearest points up to the factor: a point that is missing, although it
    /// comes before some point of the answer or the answer is not full, is out of
    /// reach once its distance counts `factor` times.
    pub open spec fn nearly_nearest(self, tree: &Tree<S>, hits: Seq<Hit<S>>) -> bool {
        &&& self.kept(tree, hits)
        &&& forall|pos: int|
            0 <= pos < tree.n_points ==> #[trigger] self.done(tree, hits, pos) || !self.admits(
                self.dist(tree, pos),
                bound_key(hits, self.k, self.cutoff),
            )
    }

    /// Both trees measure every row at the same distance.
    pub open spec fn measured_alike(self, a: &Tree<S>, b: &Tree<S>) -> bool {
        forall|i: int, j: int|
            0 <= i < a.n_points && 0 <= j < b.n_points && #[trigger] a.indices@[i]
                == #[trigger] b.indices@[j] ==> self.dist(a, i) == self.dist(b, j)
    }

    /// The slots hold what a search ends with.
    pub open spec fn answered_in(
        self,
        tree: &Tree<S>,
        distances: Seq<S>,
        indices: Seq<i64>,
    ) -> bool {
        &&& distances == distances_of(self.search(tree), self.k, self.m)
        &&& indices == indices_of(self.search(tree), self.k, tree.n_points as int)
    }

    /// No candidate has the row number of a point from position `a` up to `b`.
    spec fn fresh(self, tree: &Tree<S>, hits: Seq<Hit<S>>, a: int, b: int) -> bool {
        forall|i: int, pos: int|
            0 <= i < hits.len() && a <= pos < b ==> (#[trigger] hits[i]).index
                != #[trigger] tree.indices@[pos]
    }

    /// `next` follows `hits` by taking up points from position `a` up to `b` only.
    #[verifier::opaque]
    spec fn advances(
        self,
        tree: &Tree<S>,
        hits: Seq<Hit<S>>,
        next: Seq<Hit<S>>,
        a: int,
        b: int,
    ) -> bool {
        &&& self.kept(tree, next)
        &&& forall|i: int|
            0 <= i < next.len() ==> hits.contains(#[trigger] next[i]) || self.made(
                tree,
                next[i],
                a,
                b,
            )
        &&& forall|g: Hit<S>| settled(hits, self.k, g) ==> #[trigger] settled(next, self.k, g)
        &&& bound_key(next, self.k, self.cutoff) <= bound_key(hits, self.k, self.cutoff)
    }
}

proof fn lemma_advances_self<S: Scalar>(
    ask: Ask<S>,
    tree: &Tree<S>,
    hits: Seq<Hit<S>>,
    a: int,
    b: int,
)
    requires
        ask.kept(tree, hits),
    ensures
        ask.advances(tree, hits, hits, a, b),
{
    reveal(Ask::advances);
    assert forall|i: int| 0 <= i < hits.len() implies hits.contains(#[trigger] hits[i]) by {}
}

/// Two steps over ranges within a third are one step over the third.
proof fn lemma_advances_join<S: Scalar>(
    ask: Ask<S>,
    tree: &Tree<S>,
    x: Seq<Hit<S>>,
    y: Seq<Hit<S>>,
    z: Seq<Hit<S>>,
    xy: (int, int),
    yz: (int, int),
    a: int,
    b: int,
)
    requires
        ask.advances(tree, x, y, xy.0, xy.1),
        ask.advances(tree, y, z, yz.0, yz.1),
        a <= xy.0,
        xy.1 <= b,
        a <= yz.0,
        yz.1 <= b,
    ensures
        ask.advances(tree, x, z, a, b),
{
    reveal(Ask::advances);
    assert forall|i: int| 0 <= i < z.len() implies x.contains(#[trigger] z[i]) || ask.made(
        tree,
        z[i],
        a,
        b,
    ) by {
        if y.contains(z[i]) {
            let c = choose|c: int| 0 <= c < y.len() && y[c] == z[i];
            if !x.contains(y[c]) {
                assert(ask.made(tree, y[c], xy.0, xy.1));
                let pos = choose|pos: int|
                    xy.0 <= pos < xy.1 && #[trigger] ask.hit(tree, pos) == y[c]
                        && y[c].dist.value.key() <= ask.cutoff.key();
                assert(ask.hit(tree, pos) == z[i]);
            }
        } else {
            let pos = choose|pos: int|
                yz.0 <= pos < yz.1 && #[trigger] ask.hit(tree, pos) == z[i]
                    && z[i].dist.value.key() <= ask.cutoff.key();
            assert(ask.hit(tree, pos) == z[i]);
        }
    }
    assert forall|g: Hit<S>| settled(x, ask.k, g) implies #[trigger] settled(z, ask.k, g) by {
        assert(settled(y, ask.k, g));
    }
}

/// A step leaves done what was, and the bound only tightens.
proof fn lemma_advances_done<S: Scalar>(
    ask: Ask<S>,
    tree: &Tree<S>,
    x: Seq<Hit<S>>,
    y: Seq<Hit<S>>,
    a: int,
    b: int,
)
    requires
        ask.advances(tree, x, y, a, b),
    ensures
        ask.kept(tree, y),
        forall|pos: int| #[trigger] ask.done(tree, x, pos) ==> ask.done(tree, y, pos),
        bound_key(y, ask.k, ask.cutoff) <= bound_key(x, ask.k, ask.cutoff),
{
    reveal(Ask::advances);
    assert forall|pos: int| #[trigger] ask.done(tree, x, pos) implies ask.done(tree, y, pos) by {
        if settled(x, ask.k, ask.hit(tree, pos)) {
            assert(settled(y, ask.k, ask.hit(tree, pos)));
        }
    }
}

/// A step over one range leaves fresh what is apart from it.
proof fn lemma_advances_fresh<S: Scalar>(
    ask: Ask<S>,
    tree: &Tree<S>,
    x: Seq<Hit<S>>,
    y: Seq<Hit<S>>,
    a: int,
    b: int,
    c: int,
    d: int,
)
    requires
        tree.wf(),
        ask.advances(tree, x, y, a, b),
        ask.fresh(tree, x, c, d),
        b <= c || d <= a,
        0 <= a,
        b <= tree.n_points,
        0 <= c,
        d <= tree.n_points,
    ensures
        ask.fresh(tree, y, c, d),
{
    reveal(Ask::advances);
    assert forall|i: int, pos: int| 0 <= i < y.len() && c <= pos < d implies (
    #[trigger] y[i]).index != #[trigger] tree.indices@[pos] by {
        if x.contains(y[i]) {
            let j = choose|j: int| 0 <= j < x.len() && x[j] == y[i];
            assert(x[j].index != tree.indices@[pos]);
        } else {
            assert(ask.made(tree, y[i], a, b));
            let at = choose|at: int|
                a <= at < b && #[trigger] ask.hit(tree, at) == y[i] && y[i].dist.value.key()
                    <= ask.cutoff.key();
            assert(tree.indices@[at] != tree.indices@[pos]);
        }
    }
}

/// Taking up a point within the cutoff is a step that leaves it done.
proof fn lemma_take<S: Scalar>(ask: Ask<S>, tree: &Tree<S>, hits: Seq<Hit<S>>, pos: int)
    requires
        ask.kept(tree, hits),
        ask.k > 0,
        0 <= pos < tree.n_points,
        ask.fresh(tree, hits, pos, pos + 1),
        ask.dist(tree, pos).key() <= ask.cutoff.key(),
    ensures
        ask.advances(tree, hits, place(hits, ask.k, ask.hit(tree, pos)), pos, pos + 1),
        ask.done(tree, place(hits, ask.k, ask.hit(tree, pos)), pos),
{
    reveal(Ask::advances);
    let h = ask.hit(tree, pos);
    let next = place(hits, ask.k, h);
    assert(unseen(hits, h)) by {
        assert forall|i: int| 0 <= i < hits.len() implies (#[trigger] hits[i]).index != h.index by {
            assert(hits[i].index != tree.indices@[pos]);
        }
    }
    lemma_place(hits, ask.k, h, ask.cutoff);
    assert forall|i: int| 0 <= i < next.len() implies ask.made(
        tree,
        #[trigger] next[i],
        0,
        tree.n_points as int,
    ) && (hits.contains(next[i]) || ask.made(tree, next[i], pos, pos + 1)) by {
        if next[i] == h {
            assert(ask.hit(tree, pos) == next[i]);
        } else {
            assert(hits.contains(next[i]));
            let j = choose|j: int| 0 <= j < hits.len() && hits[j] == next[i];
            assert(ask.made(tree, hits[j], 0, tree.n_points as int));
        }
    }
}

/// A point past the bound is done with.
proof fn lemma_past<S: Scalar>(ask: Ask<S>, tree: &Tree<S>, hits: Seq<Hit<S>>, pos: int)
    requires
        ask.dist(tree, pos).key() > bound_key(hits, ask.k, ask.cutoff),
    ensures
        ask.done(tree, hits, pos),
{
}

/// What is barred stays barred as the bound tightens.
proof fn lemma_barred_tightens<S: Scalar>(
    ask: Ask<S>,
    tree: &Tree<S>,
    id: int,
    first: int,
    len: int,
    axes: Seq<Dist<S>>,
    cell: S,
    pos: int,
    bound: int,
    tighter: int,
)
    requires
        tighter <= bound,
        ask.barred(tree, id, first, len, axes, cell, pos, bound),
    ensures
        ask.barred(tree, id, first, len, axes, cell, pos, tighter),
    decreases len,
{
    if len > tree.leafsize && len > 1 {
        match tree.nodes@[id] {
            Node::Leaf { .. } => {},
            Node::Inner { left, right, split_dim, split_value } => {
                let (dim, by_box) = unpack_split_spec(split_dim);
                let mid = len / 2;
                let at_left = pos < first + mid;
                let (child, cfirst, clen) = if at_left {
                    (left as int, first, mid)
                } else {
                    (right as int, first + mid, len - mid)
                };
                let near = at_left == ask.left_near(dim as int, split_value);
                let axis = ask.far_axis(dim as int, split_value);
                let far = ask.m.replace_axis_spec(cell, axes[dim as int].value, axis);
                let (axes2, cell2) = if near {
                    (axes, cell)
                } else {
                    (axes.update(dim as int, Dist { value: axis }), far)
                };
                if ask.barred(tree, child, cfirst, clen, axes2, cell2, pos, bound) {
                    lemma_barred_tightens(
                        ask,
                        tree,
                        child,
                        cfirst,
                        clen,
                        axes2,
                        cell2,
                        pos,
                        bound,
                        tighter,
                    );
                }
            },
        }
    }
}

/// A scan is a step over the points that came up and leaves them done.
proof fn lemma_scanned<S: Scalar>(
    ask: Ask<S>,
    tree: &Tree<S>,
    hits: Seq<Hit<S>>,
    a: int,
    b: int,
)
    requires
        tree.wf(),
        ask.k > 0,
        ask.kept(tree, hits),
        0 <= a <= b <= tree.n_points,
        ask.fresh(tree, hits, a, b),
    ensures
        ask.advances(tree, hits, ask.scanned(tree, hits, a, b), a, b),
        forall|pos: int|
            a <= pos < b ==> #[trigger] ask.done(tree, ask.scanned(tree, hits, a, b), pos),
    decreases b - a,
{
    if a == b {
        lemma_advances_self(ask, tree, hits, a, b);
    } else {
        let last = b - 1;
        let was = ask.scanned(tree, hits, a, last);
        let now = ask.scanned(tree, hits, a, b);
        lemma_scanned(ask, tree, hits, a, last);
        lemma_advances_fresh(ask, tree, hits, was, a, last, last, b);
        lemma_advances_done(ask, tree, hits, was, a, last);
        if ask.dist(tree, last).key() <= ask.bound(was) {
            lemma_take(ask, tree, was, last);
        } else {
            lemma_past(ask, tree, was, last);
            lemma_advances_self(ask, tree, was, last, b);
        }
        lemma_advances_done(ask, tree, was, now, last, b);
        lemma_advances_join(ask, tree, hits, was, now, (a, last), (last, b), a, b);
        assert forall|pos: int| a <= pos < b implies #[trigger] ask.done(tree, now, pos) by {
            if pos < last {
                assert(ask.done(tree, was, pos));
            }
        }
    }
}

/// Every point from position `a` up to `b`, all of them in the subtree of node
/// `id`, is done with or barred.
spec fn cleared<S: Scalar>(
    ask: Ask<S>,
    tree: &Tree<S>,
    id: int,
    first: int,
    len: int,
    axes: Seq<Dist<S>>,
    cell: S,
    hits: Seq<Hit<S>>,
    a: int,
    b: int,
) -> bool {
    forall|pos: int|
        a <= pos < b ==> #[trigger] ask.done(tree, hits, pos) || ask.barred(
            tree,
            id,
            first,
            len,
            axes,
            cell,
            pos,
            ask.bound(hits),
        )
}

/// A step leaves cleared what was.
proof fn lemma_cleared_stays<S: Scalar>(
    ask: Ask<S>,
    tree: &Tree<S>,
    id: int,
    first: int,
    len: int,
    axes: Seq<Dist<S>>,
    cell: S,
    x: Seq<Hit<S>>,
    y: Seq<Hit<S>>,
    a: int,
    b: int,
    c: int,
    d: int,
)
    requires
        cleared(ask, tree, id, first, len, axes, cell, x, a, b),
        ask.advances(tree, x, y, c, d),
    ensures
        cleared(ask, tree, id, first, len, axes, cell, y, a, b),
{
    lemma_advances_done(ask, tree, x, y, c, d);
    assert forall|pos: int| a <= pos < b implies #[trigger] ask.done(tree, y, pos) || ask.barred(
        tree,
        id,
        first,
        len,
        axes,
        cell,
        pos,
        ask.bound(y),
    ) by {
        if !ask.done(tree, x, pos) {
            lemma_barred_tightens(
                ask,
                tree,
                id,
                first,
                len,
                axes,
                cell,
                pos,
                ask.bound(x),
                ask.bound(y),
            );
        }
    }
}

/// A step that clears one child of a node and another one that clears the other
/// child are a step that clears the node.
proof fn lemma_both_cleared<S: Scalar>(
    ask: Ask<S>,
    tree: &Tree<S>,
    id: int,
    first: int,
    len: int,
    axes: Seq<Dist<S>>,
    cell: S,
    x: Seq<Hit<S>>,
    y: Seq<Hit<S>>,
    z: Seq<Hit<S>>,
    one: (int, int),
    other: (int, int),
)
    requires
        ask.advances(tree, x, y, one.0, one.1),
        ask.advances(tree, y, z, other.0, other.1),
        cleared(ask, tree, id, first, len, axes, cell, y, one.0, one.1),
        cleared(ask, tree, id, first, len, axes, cell, z, other.0, other.1),
        first <= one.0,
        one.1 <= first + len,
        first <= other.0,
        other.1 <= first + len,
        forall|pos: int|
            first <= pos < first + len ==> one.0 <= pos < one.1 || #[trigger] between(
                pos,
                other.0,
                other.1,
            ),
    ensures
        ask.advances(tree, x, z, first, first + len),
        cleared(ask, tree, id, first, len, axes, cell, z, first, first + len),
{
    lemma_advances_join(ask, tree, x, y, z, one, other, first, first + len);
    lemma_cleared_stays(
        ask,
        tree,
        id,
        first,
        len,
        axes,
        cell,
        y,
        z,
        one.0,
        one.1,
        other.0,
        other.1,
    );
    assert forall|pos: int| first <= pos < first + len implies #[trigger] ask.done(tree, z, pos)
        || ask.barred(tree, id, first, len, axes, cell, pos, ask.bound(z)) by {
        assert(one.0 <= pos < one.1 || between(pos, other.0, other.1));
    }
}

spec fn between(pos: int, a: int, b: int) -> bool {
    a <= pos < b
}

/// A visit is a step over the points of the node and clears them.
proof fn lemma_visited<S: Scalar>(
    ask: Ask<S>,
    tree: &Tree<S>,
    id: int,
    first: int,
    len: int,
    axes: Seq<Dist<S>>,
    cell: S,
    hits: Seq<Hit<S>>,
)
    requires
        tree.wf(),
        ask.k > 0,
        ask.kept(tree, hits),
        tree.node_ok(id, first, len),
        ask.fresh(tree, hits, first, first + len),
    ensures
        ask.advances(
            tree,
            hits,
            ask.visited(tree, id, first, len, axes, cell, hits),
            first,
            first + len,
        ),
        cleared(
            ask,
            tree,
            id,
            first,
            len,
            axes,
            cell,
            ask.visited(tree, id, first, len, axes, cell, hits),
            first,
            first + len,
        ),
    decreases len,
{
    lemma_children(tree, id, first, len);
    if len <= tree.leafsize || len <= 1 {
        lemma_scanned(ask, tree, hits, first, first + len);
    } else {
        match tree.nodes@[id] {
            Node::Leaf { .. } => {},
            Node::Inner { left, right, split_dim, split_value } => {
                let (dim, by_box) = unpack_split_spec(split_dim);
                let mid = len / 2;
                let left_near = ask.left_near(dim as int, split_value);
                let (near, nfirst, nlen, far, ffirst, flen) = if left_near {
                    (left as int, first, mid, right as int, first + mid, len - mid)
                } else {
                    (right as int, first + mid, len - mid, left as int, first, mid)
                };
                let axis = ask.far_axis(dim as int, split_value);
                let beyond = axes.update(dim as int, Dist { value: axis });
                let far_cell = ask.m.replace_axis_spec(cell, axes[dim as int].value, axis);
                let near_gate = ask.box_gate(tree, near);
                let far_gate = ask.box_gate(tree, far);
                let nrange = (nfirst, nfirst + nlen);
                let frange = (ffirst, ffirst + flen);
                lemma_advances_self(ask, tree, hits, nrange.0, nrange.1);
                lemma_advances_self(ask, tree, hits, frange.0, frange.1);
                if !by_box || at_most(near_gate, far_gate) {
                    let then = if !by_box || ask.admits(near_gate, ask.bound(hits)) {
                        ask.visited(tree, near, nfirst, nlen, axes, cell, hits)
                    } else {
                        hits
                    };
                    if !by_box || ask.admits(near_gate, ask.bound(hits)) {
                        lemma_visited(ask, tree, near, nfirst, nlen, axes, cell, hits);
                    }
                    lemma_advances_done(ask, tree, hits, then, nrange.0, nrange.1);
                    lemma_advances_fresh(
                        ask,
                        tree,
                        hits,
                        then,
                        nrange.0,
                        nrange.1,
                        frange.0,
                        frange.1,
                    );
                    lemma_advances_self(ask, tree, then, frange.0, frange.1);
                    let enters = (by_box || ask.admits(far_cell, ask.bound(then))) && ask.admits(
                        far_gate,
                        ask.bound(then),
                    );
                    if enters {
                        lemma_visited(ask, tree, far, ffirst, flen, beyond, far_cell, then);
                    }
                    let end = ask.visited(tree, id, first, len, axes, cell, hits);
                    assert(cleared(
                        ask,
                        tree,
                        id,
                        first,
                        len,
                        axes,
                        cell,
                        then,
                        nrange.0,
                        nrange.1,
                    ));
                    assert(cleared(
                        ask,
                        tree,
                        id,
                        first,
                        len,
                        axes,
                        cell,
                        end,
                        frange.0,
                        frange.1,
                    ));
                    lemma_both_cleared(
                        ask,
                        tree,
                        id,
                        first,
                        len,
                        axes,
                        cell,
                        hits,
                        then,
                        end,
                        nrange,
                        frange,
                    );
                } else {
                    let then = if ask.admits(far_gate, ask.bound(hits)) {
                        ask.visited(tree, far, ffirst, flen, beyond, far_cell, hits)
                    } else {
                        hits
                    };
                    if ask.admits(far_gate, ask.bound(hits)) {
                        lemma_visited(ask, tree, far, ffirst, flen, beyond, far_cell, hits);
                    }
                    lemma_advances_done(ask, tree, hits, then, frange.0, frange.1);
                    lemma_advances_fresh(
                        ask,
                        tree,
                        hits,
                        then,
                        frange.0,
                        frange.1,
                        nrange.0,
                        nrange.1,
                    );
                    lemma_advances_self(ask, tree, then, nrange.0, nrange.1);
                    if ask.admits(near_gate, ask.bound(then)) {
                        lemma_visited(ask, tree, near, nfirst, nlen, axes, cell, then);
                    }
                    let end = ask.visited(tree, id, first, len, axes, cell, hits);
                    assert(cleared(
                        ask,
                        tree,
                        id,
                        first,
                        len,
                        axes,
                        cell,
                        then,
                        frange.0,
                        frange.1,
                    ));
                    assert(cleared(
                        ask,
                        tree,
                        id,
                        first,
                        len,
                        axes,
                        cell,
                        end,
                        nrange.0,
                        nrange.1,
                    ));
                    lemma_both_cleared(
                        ask,
                        tree,
                        id,
                        first,
                        len,
                        axes,
                        cell,
                        hits,
                        then,
                        end,
                        frange,
                        nrange,
                    );
                }
            },
        }
    }
}

/// A search ends with an answer: every point is in it, comes after everything in
/// a full one, is beyond the cutoff, or is shut out by a bound.
pub proof fn a_search_ends_with_an_answer<S: Scalar>(ask: Ask<S>, tree: &Tree<S>)
    requires
        tree.wf(),
        ask.k > 0,
    ensures
        ask.answered(tree, ask.search(tree)),
{
    let none = Seq::<Hit<S>>::empty();
    if ask.admits(ask.root_cell(tree), ask.bound(none)) {
        let n = tree.n_points as int;
        lemma_visited(ask, tree, 0, 0, n, ask.root_axes(tree), ask.root_cell(tree), none);
        lemma_advances_done(ask, tree, none, ask.search(tree), 0, n);
    }
}

/// A bound that is not admitted rules out every distance that is no less.
proof fn lemma_gate_rules_out<S: Scalar>(ask: Ask<S>, gate: S, dist: S, bound: int)
    requires
        lawful::<S>(),
        finite(ask.factor),
        at_most(S::one_spec(), ask.factor),
        nonneg(gate),
        at_most(gate, dist),
        !ask.admits(gate, bound),
    ensures
        !ask.admits(dist, bound),
{
    reveal(orderly);
    assert(at_most(gate.times_spec(ask.factor), dist.times_spec(ask.factor)));
}

/// Where every axis is folded after the one before it, no box is further than a
/// point in it, in any lawful arithmetic, as long as the metric keeps the order of
/// plain distances.
pub proof fn serial_boxes_stay_below<S: Scalar>(ask: Ask<S>, tree: &Tree<S>)
    requires
        lawful::<S>(),
        tree.wf(),
        ask.valid(tree),
        monotone(ask.m),
        serial(ask.m, tree.ndim as int),
    ensures
        ask.boxes_hold(tree),
{
    let w = tree.ndim as int;
    lemma_block_len(tree.data@, tree.n_points as int, w);
    assert forall|pos: int| 0 <= pos < tree.n_points implies #[trigger] ask.boxes_hold_at(
        tree,
        pos,
    ) by {
        assert forall|id: int, first: int, len: int| #[trigger]
            tree.node_ok(id, first, len) && first <= pos < first + len implies nonneg(
            ask.box_gate(tree, id),
        ) && at_most(ask.box_gate(tree, id), ask.dist(tree, pos)) by {
            let (lo, hi) = (lo_of(tree.boxes@[id], w), hi_of(tree.boxes@[id], w));
            let row = tree.rows()[pos];
            lemma_box_valid(tree, id, first, len);
            lemma_row_of_tree(tree, pos);
            lemma_lane_box_nonneg(ask.m, ask.q, lo, hi);
            lemma_serial(ask.m, ask.q, row, lo, hi, tree.grouped(pos));
            assert forall|d: int| 0 <= d < w implies lo[d].key() <= (#[trigger] row[d]).key()
                <= hi[d].key() by {
                assert(lo[d].key() <= tree.rows()[pos][d].key() <= hi[d].key());
            }
            lemma_box_below_row(ask.m, ask.q, lo, hi, row, w);
        }
    }
}

/// A barred point is out of reach once its distance counts as the bounds do.
proof fn lemma_barred_is_far<S: Scalar>(
    ask: Ask<S>,
    tree: &Tree<S>,
    id: int,
    first: int,
    len: int,
    axes: Seq<Dist<S>>,
    cell: S,
    pos: int,
    bound: int,
)
    requires
        lawful::<S>(),
        tree.wf(),
        ask.valid(tree),
        ask.boxes_hold_at(tree, pos),
        finite(ask.factor),
        at_most(S::one_spec(), ask.factor),
        tree.node_ok(id, first, len),
        first <= pos < first + len,
        ask.planes_below(tree, id, first, len, axes, cell, pos),
        ask.barred(tree, id, first, len, axes, cell, pos, bound),
    ensures
        !ask.admits(ask.dist(tree, pos), bound),
    decreases len,
{
    lemma_children(tree, id, first, len);
    match tree.nodes@[id] {
        Node::Leaf { .. } => {},
        Node::Inner { left, right, split_dim, split_value } => {
            let (dim, by_box) = unpack_split_spec(split_dim);
            let mid = len / 2;
            let at_left = pos < first + mid;
            let (child, cfirst, clen) = if at_left {
                (left as int, first, mid)
            } else {
                (right as int, first + mid, len - mid)
            };
            let near = at_left == ask.left_near(dim as int, split_value);
            let axis = ask.far_axis(dim as int, split_value);
            let far = ask.m.replace_axis_spec(cell, axes[dim as int].value, axis);
            let (axes2, cell2) = if near {
                (axes, cell)
            } else {
                (axes.update(dim as int, Dist { value: axis }), far)
            };
            let gate = ask.box_gate(tree, child);
            let dist = ask.dist(tree, pos);
            assert(tree.node_ok(child, cfirst, clen));
            if !ask.admits(gate, bound) {
                lemma_gate_rules_out(ask, gate, dist, bound);
            } else if !near && !ask.admits(far, bound) {
                lemma_gate_rules_out(ask, far, dist, bound);
            } else {
                lemma_barred_is_far(ask, tree, child, cfirst, clen, axes2, cell2, pos, bound);
            }
        },
    }
}

/// An answer holds the nearest points up to the factor, wherever the bounds stay
/// below the distances behind them.
pub proof fn answers_are_nearly_nearest<S: Scalar>(
    ask: Ask<S>,
    tree: &Tree<S>,
    hits: Seq<Hit<S>>,
)
    requires
        lawful::<S>(),
        tree.wf(),
        ask.valid(tree),
        ask.sound(tree),
        ask.answered(tree, hits),
    ensures
        ask.nearly_nearest(tree, hits),
{
    let bound = bound_key(hits, ask.k, ask.cutoff);
    assert forall|pos: int| 0 <= pos < tree.n_points implies #[trigger] ask.done(tree, hits, pos)
        || !ask.admits(ask.dist(tree, pos), bound) by {
        if !ask.done(tree, hits, pos) {
            lemma_shut_out_is_far(ask, tree, pos, bound);
        }
    }
}

/// A point that a sound bound shuts out is out of reach once its distance counts
/// `factor` times.
pub proof fn lemma_shut_out_is_far<S: Scalar>(ask: Ask<S>, tree: &Tree<S>, pos: int, bound: int)
    requires
        lawful::<S>(),
        tree.wf(),
        ask.valid(tree),
        ask.sound(tree),
        0 <= pos < tree.n_points,
        ask.shut_out(tree, pos, bound),
    ensures
        !ask.admits(ask.dist(tree, pos), bound),
{
    assert(ask.planes_hold_at(tree, pos));
    assert(ask.boxes_hold_at(tree, pos));
    if !ask.admits(ask.root_cell(tree), bound) {
        lemma_gate_rules_out(ask, ask.root_cell(tree), ask.dist(tree, pos), bound);
    } else {
        lemma_barred_is_far(
            ask,
            tree,
            0,
            0,
            tree.n_points as int,
            ask.root_axes(tree),
            ask.root_cell(tree),
            pos,
            bound,
        );
    }
}

/// The nearest points up to a factor of one are the nearest points.
pub proof fn a_factor_of_one_is_exact<S: Scalar>(ask: Ask<S>, tree: &Tree<S>, hits: Seq<Hit<S>>)
    requires
        lawful::<S>(),
        tree.wf(),
        ask.valid(tree),
        !ask.factor.nan(),
        ask.factor.key() == S::one_spec().key(),
        ask.nearly_nearest(tree, hits),
    ensures
        ask.nearest(tree, hits),
{
    reveal(orderly);
    let bound = bound_key(hits, ask.k, ask.cutoff);
    assert forall|pos: int| 0 <= pos < tree.n_points implies #[trigger] ask.done(
        tree,
        hits,
        pos,
    ) by {
        let dist = ask.dist(tree, pos);
        lemma_row_of_tree(tree, pos);
        lemma_scan_dist_nonneg(ask.m, ask.q, tree.rows()[pos], tree.grouped(pos));
        if !ask.admits(dist, bound) {
            assert(dist.times_spec(ask.factor).key() == dist.key());
            lemma_past(ask, tree, hits, pos);
        }
    }
}

/// A candidate of one tree is settled in the answer of another tree over the same
/// points.
proof fn lemma_settled_elsewhere<S: Scalar>(
    ask: Ask<S>,
    a: &Tree<S>,
    b: &Tree<S>,
    h: Hit<S>,
    y: Seq<Hit<S>>,
)
    requires
        a.wf(),
        b.wf(),
        a.n_points == b.n_points,
        ask.measured_alike(a, b),
        ask.made(a, h, 0, a.n_points as int),
        ask.nearest(b, y),
    ensures
        settled(y, ask.k, h),
        ask.made(b, h, 0, b.n_points as int),
{
    let pos = choose|pos: int|
        0 <= pos < a.n_points && #[trigger] ask.hit(a, pos) == h && h.dist.value.key()
            <= ask.cutoff.key();
    let at = every_row_has_a_position(b, a.indices@[pos] as int);
    assert(a.indices@[pos] == b.indices@[at]);
    assert(ask.hit(b, at) == h);
    assert(ask.done(b, y, at));
}

/// Candidates of one row are one candidate.
proof fn lemma_same_row_same_hit<S: Scalar>(ask: Ask<S>, tree: &Tree<S>, g: Hit<S>, h: Hit<S>)
    requires
        tree.wf(),
        ask.made(tree, g, 0, tree.n_points as int),
        ask.made(tree, h, 0, tree.n_points as int),
        g.index == h.index,
    ensures
        g == h,
{
    let i = choose|pos: int|
        0 <= pos < tree.n_points && #[trigger] ask.hit(tree, pos) == g && g.dist.value.key()
            <= ask.cutoff.key();
    let j = choose|pos: int|
        0 <= pos < tree.n_points && #[trigger] ask.hit(tree, pos) == h && h.dist.value.key()
            <= ask.cutoff.key();
    assert(tree.indices@[i] == tree.indices@[j]);
}

/// Up to one place, two answers over the same points agree.
proof fn lemma_agree_upto<S: Scalar>(
    ask: Ask<S>,
    a: &Tree<S>,
    b: &Tree<S>,
    x: Seq<Hit<S>>,
    y: Seq<Hit<S>>,
    n: int,
)
    requires
        a.wf(),
        b.wf(),
        a.n_points == b.n_points,
        ask.measured_alike(a, b),
        ask.nearest(a, x),
        ask.nearest(b, y),
        0 <= n <= x.len(),
        n <= y.len(),
    ensures
        forall|i: int| 0 <= i < n ==> #[trigger] x[i] == y[i],
    decreases n,
{
    if n > 0 {
        let i = n - 1;
        lemma_agree_upto(ask, a, b, x, y, i);
        lemma_measured_alike_swaps(ask, a, b);
        lemma_settled_elsewhere(ask, a, b, x[i], y);
        lemma_settled_elsewhere(ask, b, a, y[i], x);
        assert(!before(x[i], y[i])) by {
            if y.contains(x[i]) {
                let c = choose|c: int| 0 <= c < y.len() && y[c] == x[i];
                if c < i {
                    assert(before(x[c], x[i]));
                } else if c > i {
                    assert(before(y[i], y[c]));
                }
            } else if i < y.len() - 1 {
                assert(before(y[i], y[y.len() - 1]));
            }
        }
        assert(!before(y[i], x[i])) by {
            if x.contains(y[i]) {
                let c = choose|c: int| 0 <= c < x.len() && x[c] == y[i];
                if c < i {
                    assert(before(y[c], y[i]));
                } else if c > i {
                    assert(before(x[i], x[c]));
                }
            } else if i < x.len() - 1 {
                assert(before(x[i], x[x.len() - 1]));
            }
        }
        lemma_same_row_same_hit(ask, b, x[i], y[i]);
    }
}

/// No answer over the same points is longer than another.
proof fn lemma_no_longer<S: Scalar>(
    ask: Ask<S>,
    a: &Tree<S>,
    b: &Tree<S>,
    x: Seq<Hit<S>>,
    y: Seq<Hit<S>>,
)
    requires
        a.wf(),
        b.wf(),
        a.n_points == b.n_points,
        ask.measured_alike(a, b),
        ask.nearest(a, x),
        ask.nearest(b, y),
    ensures
        y.len() <= x.len(),
{
    if x.len() < y.len() {
        let n = x.len() as int;
        lemma_agree_upto(ask, a, b, x, y, n);
        lemma_measured_alike_swaps(ask, a, b);
        lemma_settled_elsewhere(ask, b, a, y[n], x);
        let c = choose|c: int| 0 <= c < x.len() && x[c] == y[n];
        assert(before(y[c], y[n]));
    }
}

proof fn lemma_measured_alike_swaps<S: Scalar>(ask: Ask<S>, a: &Tree<S>, b: &Tree<S>)
    requires
        ask.measured_alike(a, b),
    ensures
        ask.measured_alike(b, a),
{
    assert forall|i: int, j: int|
        0 <= i < b.n_points && 0 <= j < a.n_points && #[trigger] b.indices@[i]
            == #[trigger] a.indices@[j] implies ask.dist(b, i) == ask.dist(a, j) by {
        assert(a.indices@[j] == b.indices@[i]);
    }
}

/// Where the place of a row in its leaf makes no difference, two trees over the
/// same rows measure them alike.
pub proof fn placeless_trees_measure_alike<S: Scalar>(
    ask: Ask<S>,
    data: Seq<S>,
    a: &Tree<S>,
    b: &Tree<S>,
)
    requires
        a.ndim == b.ndim,
        a.holds(data),
        b.holds(data),
        ask.q.len() == a.ndim,
        placeless(ask.m, a.ndim as int),
    ensures
        ask.measured_alike(a, b),
{
    assert forall|i: int, j: int|
        0 <= i < a.n_points && 0 <= j < b.n_points && #[trigger] a.indices@[i]
            == #[trigger] b.indices@[j] implies ask.dist(a, i) == ask.dist(b, j) by {
        assert(a.rows()[i] == b.rows()[j]);
    }
}

/// The nearest points are one list, whatever the tree over them looks like: two
/// trees that measure the same rows alike, built with other leaf sizes or on other
/// threads, have the same nearest points.
pub proof fn the_nearest_points_are_one_list<S: Scalar>(
    ask: Ask<S>,
    a: &Tree<S>,
    b: &Tree<S>,
    x: Seq<Hit<S>>,
    y: Seq<Hit<S>>,
)
    requires
        a.wf(),
        b.wf(),
        a.n_points == b.n_points,
        ask.measured_alike(a, b),
        ask.nearest(a, x),
        ask.nearest(b, y),
    ensures
        x == y,
{
    lemma_measured_alike_swaps(ask, a, b);
    lemma_no_longer(ask, a, b, x, y);
    lemma_no_longer(ask, b, a, y, x);
    lemma_agree_upto(ask, a, b, x, y, x.len() as int);
    assert(x =~= y);
}

/// A search whose bounds are sound ends with the nearest points up to the factor,
/// and with the nearest points if the factor is one.
pub proof fn a_sound_search_finds_the_nearest<S: Scalar>(ask: Ask<S>, tree: &Tree<S>)
    requires
        lawful::<S>(),
        tree.wf(),
        ask.valid(tree),
        ask.sound(tree),
    ensures
        ask.nearly_nearest(tree, ask.search(tree)),
        ask.factor.key() == S::one_spec().key() ==> ask.nearest(tree, ask.search(tree)),
{
    a_search_ends_with_an_answer(ask, tree);
    answers_are_nearly_nearest(ask, tree, ask.search(tree));
    if ask.factor.key() == S::one_spec().key() {
        a_factor_of_one_is_exact(ask, tree, ask.search(tree));
    }
}

/// One question has one answer: sound searches of two trees that hold the same rows
/// and measure them alike end with the same points, whatever the leaf sizes and on
/// however many threads the trees were built.
pub proof fn one_question_has_one_answer<S: Scalar>(
    ask: Ask<S>,
    data: Seq<S>,
    a: &Tree<S>,
    b: &Tree<S>,
)
    requires
        lawful::<S>(),
        a.wf(),
        b.wf(),
        a.ndim == b.ndim,
        a.holds(data),
        b.holds(data),
        ask.measured_alike(a, b),
        ask.valid(a),
        ask.sound(a),
        ask.sound(b),
        ask.factor.key() == S::one_spec().key(),
    ensures
        ask.search(a) == ask.search(b),
{
    a_sound_search_finds_the_nearest(ask, a);
    a_sound_search_finds_the_nearest(ask, b);
    let w = a.ndim as int;
    lemma_block_len(a.data@, a.n_points as int, w);
    lemma_block_len(b.data@, b.n_points as int, w);
    the_nearest_points_are_one_list(ask, a, b, ask.search(a), ask.search(b));
}

/// The question for fewer points.
pub open spec fn fewer<S>(ask: Ask<S>, k: nat) -> Ask<S> {
    Ask { k, ..ask }
}

/// The first `n` items, or all of them if they are fewer.
pub open spec fn first_of<T>(items: Seq<T>, n: nat) -> Seq<T> {
    items.take(if items.len() < n {
        items.len() as int
    } else {
        n as int
    })
}

/// The nearest points are the first of more nearest points.
proof fn lemma_first_are_nearest<S: Scalar>(
    ask: Ask<S>,
    tree: &Tree<S>,
    k: nat,
    y: Seq<Hit<S>>,
)
    requires
        0 < k <= ask.k,
        ask.nearest(tree, y),
    ensures
        fewer(ask, k).nearest(tree, first_of(y, k)),
{
    let small = fewer(ask, k);
    let x = first_of(y, k);
    assert forall|i: int| 0 <= i < x.len() implies small.made(
        tree,
        #[trigger] x[i],
        0,
        tree.n_points as int,
    ) by {
        assert(ask.made(tree, y[i], 0, tree.n_points as int));
        let pos = choose|pos: int|
            0 <= pos < tree.n_points && #[trigger] ask.hit(tree, pos) == y[i]
                && y[i].dist.value.key() <= ask.cutoff.key();
        assert(small.hit(tree, pos) == x[i]);
    }
    assert forall|pos: int| 0 <= pos < tree.n_points implies #[trigger] small.done(
        tree,
        x,
        pos,
    ) by {
        let h = ask.hit(tree, pos);
        assert(small.hit(tree, pos) == h);
        assert(ask.done(tree, y, pos));
        if ask.dist(tree, pos).key() <= ask.cutoff.key() {
            if y.contains(h) {
                let c = choose|c: int| 0 <= c < y.len() && y[c] == h;
                if c < x.len() {
                    assert(x[c] == h);
                } else {
                    assert(before(y[k - 1], y[c]));
                }
            } else if k < y.len() {
                assert(before(y[k - 1], y[y.len() - 1]));
            }
        }
    }
}

proof fn lemma_measured_alike_self<S: Scalar>(ask: Ask<S>, tree: &Tree<S>)
    requires
        tree.wf(),
    ensures
        ask.measured_alike(tree, tree),
{
}

/// Fewer nearest points are a prefix of more: of the points and of the slots that
/// they are written to, one point included.
pub proof fn fewer_nearest_points_are_a_prefix<S: Scalar>(
    ask: Ask<S>,
    tree: &Tree<S>,
    k: nat,
    x: Seq<Hit<S>>,
    y: Seq<Hit<S>>,
)
    requires
        tree.wf(),
        0 < k <= ask.k,
        fewer(ask, k).nearest(tree, x),
        ask.nearest(tree, y),
    ensures
        x == first_of(y, k),
        distances_of(x, k, ask.m) == distances_of(y, ask.k, ask.m).take(k as int),
        indices_of(x, k, tree.n_points as int) == indices_of(
            y,
            ask.k,
            tree.n_points as int,
        ).take(k as int),
{
    let small = fewer(ask, k);
    lemma_first_are_nearest(ask, tree, k, y);
    lemma_measured_alike_self(small, tree);
    the_nearest_points_are_one_list(small, tree, tree, x, first_of(y, k));
    assert(distances_of(x, k, ask.m) =~= distances_of(y, ask.k, ask.m).take(k as int));
    assert(indices_of(x, k, tree.n_points as int) =~= indices_of(
        y,
        ask.k,
        tree.n_points as int,
    ).take(k as int));
}

/// Sound searches for fewer points end with a prefix of what those for more end
/// with.
pub proof fn a_search_for_fewer_finds_a_prefix<S: Scalar>(ask: Ask<S>, tree: &Tree<S>, k: nat)
    requires
        lawful::<S>(),
        tree.wf(),
        ask.valid(tree),
        ask.sound(tree),
        ask.factor.key() == S::one_spec().key(),
        0 < k <= ask.k,
    ensures
        fewer(ask, k).search(tree) == first_of(ask.search(tree), k),
{
    let small = fewer(ask, k);
    lemma_sound_for_fewer(ask, tree, k);
    a_sound_search_finds_the_nearest(ask, tree);
    a_sound_search_finds_the_nearest(small, tree);
    fewer_nearest_points_are_a_prefix(ask, tree, k, small.search(tree), ask.search(tree));
}

/// Whether bounds are sound does not depend on the number of points that a question
/// is for.
proof fn lemma_sound_for_fewer<S: Scalar>(ask: Ask<S>, tree: &Tree<S>, k: nat)
    requires
        ask.sound(tree),
    ensures
        fewer(ask, k).sound(tree),
{
    let small = fewer(ask, k);
    assert(small.root_axes(tree) =~= ask.root_axes(tree));
    lemma_root_for_fewer(ask, tree, k, tree.ndim as int);
    assert forall|pos: int| 0 <= pos < tree.n_points implies #[trigger] small.boxes_hold_at(
        tree,
        pos,
    ) && small.planes_hold_at(tree, pos) by {
        assert(ask.boxes_hold_at(tree, pos));
        assert(ask.planes_hold_at(tree, pos));
        lemma_planes_for_fewer(
            ask,
            tree,
            k,
            0,
            0,
            tree.n_points as int,
            ask.root_axes(tree),
            ask.root_cell(tree),
            pos,
        );
        assert forall|id: int, first: int, len: int| #[trigger]
            tree.node_ok(id, first, len) && first <= pos < first + len implies nonneg(
            small.box_gate(tree, id),
        ) && at_most(small.box_gate(tree, id), small.dist(tree, pos)) by {
            assert(small.box_gate(tree, id) == ask.box_gate(tree, id));
        }
    }
    assert forall|pos: int| 0 <= pos < tree.n_points implies #[trigger] small.planes_hold_at(
        tree,
        pos,
    ) by {
        assert(small.boxes_hold_at(tree, pos));
    }
}

proof fn lemma_root_for_fewer<S: Scalar>(ask: Ask<S>, tree: &Tree<S>, k: nat, n: int)
    ensures
        fewer(ask, k).root_fold(tree, n) == ask.root_fold(tree, n),
    decreases n,
{
    if n > 0 {
        lemma_root_for_fewer(ask, tree, k, n - 1);
    }
}

proof fn lemma_planes_for_fewer<S: Scalar>(
    ask: Ask<S>,
    tree: &Tree<S>,
    k: nat,
    id: int,
    first: int,
    len: int,
    axes: Seq<Dist<S>>,
    cell: S,
    pos: int,
)
    requires
        ask.planes_below(tree, id, first, len, axes, cell, pos),
    ensures
        fewer(ask, k).planes_below(tree, id, first, len, axes, cell, pos),
    decreases len,
{
    if len > tree.leafsize && len > 1 {
        match tree.nodes@[id] {
            Node::Leaf { .. } => {},
            Node::Inner { left, right, split_dim, split_value } => {
                let dim = unpack_split_spec(split_dim).0 as int;
                let mid = len / 2;
                let at_left = pos < first + mid;
                let (child, cfirst, clen) = if at_left {
                    (left as int, first, mid)
                } else {
                    (right as int, first + mid, len - mid)
                };
                if at_left == ask.left_near(dim, split_value) {
                    lemma_planes_for_fewer(ask, tree, k, child, cfirst, clen, axes, cell, pos);
                } else {
                    let axis = ask.far_axis(dim, split_value);
                    let far = ask.m.replace_axis_spec(cell, axes[dim].value, axis);
                    let axes2 = axes.update(dim, Dist { value: axis });
                    lemma_planes_for_fewer(ask, tree, k, child, cfirst, clen, axes2, far, pos);
                }
            },
        }
    }
}

/// Every point stays within the cutoff once its distance counts as the bounds do.
pub open spec fn within_reach<S: Scalar>(ask: Ask<S>, tree: &Tree<S>) -> bool {
    forall|pos: int|
        0 <= pos < tree.n_points ==> #[trigger] ask.admits(
            ask.dist(tree, pos),
            ask.cutoff.key(),
        )
}

/// A question with an infinite cutoff reaches every point.
pub proof fn an_open_question_reaches_everything<S: Scalar>(ask: Ask<S>, tree: &Tree<S>)
    requires
        lawful::<S>(),
        tree.wf(),
        ask.valid(tree),
        finite(ask.factor),
        at_most(S::one_spec(), ask.factor),
        ask.cutoff.key() == S::infinity_spec().key(),
    ensures
        within_reach(ask, tree),
{
    assert forall|pos: int| 0 <= pos < tree.n_points implies #[trigger] ask.admits(
        ask.dist(tree, pos),
        ask.cutoff.key(),
    ) by {
        reveal(orderly);
        let dist = ask.dist(tree, pos);
        lemma_row_of_tree(tree, pos);
        lemma_scan_dist_nonneg(ask.m, ask.q, tree.rows()[pos], tree.grouped(pos));
        assert(at_most(dist, dist.times_spec(ask.factor)));
    }
}

/// No bound that the descent derives from split planes, on the way from node `id` to
/// the point at `pos`, is a nan.
pub open spec fn planes_are_numbers<S: Scalar>(
    ask: Ask<S>,
    tree: &Tree<S>,
    id: int,
    first: int,
    len: int,
    axes: Seq<Dist<S>>,
    cell: S,
    pos: int,
) -> bool
    decreases len,
{
    if len <= tree.leafsize || len <= 1 {
        true
    } else {
        match tree.nodes@[id] {
            Node::Leaf { .. } => true,
            Node::Inner { left, right, split_dim, split_value } => {
                let dim = unpack_split_spec(split_dim).0 as int;
                let mid = len / 2;
                let at_left = pos < first + mid;
                let child = if at_left {
                    left as int
                } else {
                    right as int
                };
                let cfirst = if at_left {
                    first
                } else {
                    first + mid
                };
                let clen = if at_left {
                    mid
                } else {
                    len - mid
                };
                if at_left == ask.left_near(dim, split_value) {
                    planes_are_numbers(ask, tree, child, cfirst, clen, axes, cell, pos)
                } else {
                    let axis = ask.far_axis(dim, split_value);
                    let far = ask.m.replace_axis_spec(cell, axes[dim].value, axis);
                    &&& !far.nan()
                    &&& planes_are_numbers(
                        ask,
                        tree,
                        child,
                        cfirst,
                        clen,
                        axes.update(dim, Dist { value: axis }),
                        far,
                        pos,
                    )
                }
            },
        }
    }
}

/// No bound that the descent derives from split planes on the way to the point at
/// `pos` is a nan.
pub open spec fn numbers_at<S: Scalar>(ask: Ask<S>, tree: &Tree<S>, pos: int) -> bool {
    planes_are_numbers(
        ask,
        tree,
        0,
        0,
        tree.n_points as int,
        ask.root_axes(tree),
        ask.root_cell(tree),
        pos,
    )
}

/// No bound that the descent derives from split planes is a nan. One is only where
/// contributions overflow: see [`greatest_axis_bounds_are_numbers`] and
/// [`sound_bounds_are_numbers`].
pub open spec fn bounds_are_numbers<S: Scalar>(ask: Ask<S>, tree: &Tree<S>) -> bool {
    forall|pos: int| 0 <= pos < tree.n_points ==> #[trigger] numbers_at(ask, tree, pos)
}

/// The bound to the cell of the root is never negative.
proof fn lemma_root_cell_nonneg<S: Scalar>(ask: Ask<S>, tree: &Tree<S>, n: int)
    requires
        lawful::<S>(),
        tree.wf(),
        ask.valid(tree),
        0 <= n <= tree.ndim,
    ensures
        nonneg(ask.root_fold(tree, n)),
        nonneg(ask.root_cell(tree)) || n < tree.ndim,
    decreases n,
{
    if n > 0 {
        let w = tree.ndim as int;
        let (lo, hi) = (lo_of(tree.boxes@[0], w), hi_of(tree.boxes@[0], w));
        lemma_root_cell_nonneg(ask, tree, n - 1);
        lemma_box_valid(tree, 0, 0, tree.n_points as int);
        lemma_box_term_nonneg(ask.m, ask.q[n - 1], lo[n - 1], hi[n - 1]);
        lemma_fold_grows(ask.m, ask.root_fold(tree, n - 1), ask.root_axis(tree, n - 1));
    }
}

/// An infinite bound admits every lower bound that is a number.
proof fn lemma_infinity_admits<S: Scalar>(ask: Ask<S>, gate: S)
    requires
        lawful::<S>(),
        finite(ask.factor),
        at_most(S::one_spec(), ask.factor),
        !gate.nan(),
    ensures
        ask.admits(gate, S::infinity_spec().key()),
{
    reveal(orderly);
    assert(!gate.times_spec(ask.factor).nan());
}

/// An infinite bound bars no point.
proof fn lemma_infinity_bars_nothing<S: Scalar>(
    ask: Ask<S>,
    tree: &Tree<S>,
    id: int,
    first: int,
    len: int,
    axes: Seq<Dist<S>>,
    cell: S,
    pos: int,
)
    requires
        lawful::<S>(),
        tree.wf(),
        ask.valid(tree),
        finite(ask.factor),
        at_most(S::one_spec(), ask.factor),
        tree.node_ok(id, first, len),
        planes_are_numbers(ask, tree, id, first, len, axes, cell, pos),
    ensures
        !ask.barred(tree, id, first, len, axes, cell, pos, S::infinity_spec().key()),
    decreases len,
{
    lemma_children(tree, id, first, len);
    if len > tree.leafsize && len > 1 {
        match tree.nodes@[id] {
            Node::Leaf { .. } => {},
            Node::Inner { left, right, split_dim, split_value } => {
                let w = tree.ndim as int;
                let dim = unpack_split_spec(split_dim).0 as int;
                let mid = len / 2;
                let at_left = pos < first + mid;
                let (child, cfirst, clen) = if at_left {
                    (left as int, first, mid)
                } else {
                    (right as int, first + mid, len - mid)
                };
                assert(tree.node_ok(child, cfirst, clen));
                lemma_box_valid(tree, child, cfirst, clen);
                lemma_lane_box_nonneg(
                    ask.m,
                    ask.q,
                    lo_of(tree.boxes@[child], w),
                    hi_of(tree.boxes@[child], w),
                );
                lemma_infinity_admits(ask, ask.box_gate(tree, child));
                if at_left == ask.left_near(dim, split_value) {
                    lemma_infinity_bars_nothing(ask, tree, child, cfirst, clen, axes, cell, pos);
                } else {
                    let axis = ask.far_axis(dim, split_value);
                    let far = ask.m.replace_axis_spec(cell, axes[dim].value, axis);
                    let axes2 = axes.update(dim, Dist { value: axis });
                    lemma_infinity_admits(ask, far);
                    lemma_infinity_bars_nothing(ask, tree, child, cfirst, clen, axes2, far, pos);
                }
            },
        }
    }
}

/// A search with an infinite cutoff finds as many points as are asked for, or all of
/// them, wherever no bound of the descent is a nan: as long as the list is not full,
/// no bound rules anything out, sound or not.
pub proof fn an_open_search_is_full<S: Scalar>(ask: Ask<S>, tree: &Tree<S>)
    requires
        lawful::<S>(),
        tree.wf(),
        ask.valid(tree),
        finite(ask.factor),
        at_most(S::one_spec(), ask.factor),
        ask.cutoff.key() == S::infinity_spec().key(),
        bounds_are_numbers(ask, tree),
    ensures
        ask.search(tree).len() == if tree.n_points < ask.k {
            tree.n_points as nat
        } else {
            ask.k
        },
{
    let x = ask.search(tree);
    let n = tree.n_points as int;
    a_search_ends_with_an_answer(ask, tree);
    lemma_root_cell_nonneg(ask, tree, tree.ndim as int);
    lemma_infinity_admits(ask, ask.root_cell(tree));
    assert forall|pos: int| 0 <= pos < n && x.len() < ask.k implies x.contains(
        #[trigger] ask.hit(tree, pos),
    ) by {
        assert(numbers_at(ask, tree, pos));
        lemma_infinity_bars_nothing(
            ask,
            tree,
            0,
            0,
            n,
            ask.root_axes(tree),
            ask.root_cell(tree),
            pos,
        );
        lemma_row_of_tree(tree, pos);
        lemma_scan_dist_nonneg(ask.m, ask.q, tree.rows()[pos], tree.grouped(pos));
        assert(ask.dist(tree, pos).key() <= S::infinity_spec().key());
        assert(ask.done(tree, x, pos));
    }
    lemma_count_kept(ask, tree, x);
}

proof fn lemma_greatest_numbers<S: Scalar>(
    ask: Ask<S>,
    tree: &Tree<S>,
    id: int,
    first: int,
    len: int,
    axes: Seq<Dist<S>>,
    cell: S,
    pos: int,
)
    requires
        lawful::<S>(),
        tree.wf(),
        ask.valid(tree),
        ask.m is LInf,
        tree.node_ok(id, first, len),
        !cell.nan(),
    ensures
        planes_are_numbers(ask, tree, id, first, len, axes, cell, pos),
    decreases len,
{
    lemma_children(tree, id, first, len);
    if len > tree.leafsize && len > 1 {
        match tree.nodes@[id] {
            Node::Leaf { .. } => {},
            Node::Inner { left, right, split_dim, split_value } => {
                let dim = unpack_split_spec(split_dim).0 as int;
                let mid = len / 2;
                let at_left = pos < first + mid;
                let (child, cfirst, clen) = if at_left {
                    (left as int, first, mid)
                } else {
                    (right as int, first + mid, len - mid)
                };
                assert(tree.node_ok(child, cfirst, clen));
                if at_left == ask.left_near(dim, split_value) {
                    lemma_greatest_numbers(ask, tree, child, cfirst, clen, axes, cell, pos);
                } else {
                    let axis = ask.far_axis(dim, split_value);
                    let far = ask.m.replace_axis_spec(cell, axes[dim].value, axis);
                    assert(finite(ask.q[dim]) && finite(split_value));
                    assert(!ask.q[dim].minus_spec(split_value).nan());
                    assert(nonneg(ask.q[dim].minus_spec(split_value).abs_spec()));
                    let axes2 = axes.update(dim, Dist { value: axis });
                    lemma_greatest_numbers(ask, tree, child, cfirst, clen, axes2, far, pos);
                }
            },
        }
    }
}

/// By the metric of the greatest axis, no bound of the descent is a nan.
pub proof fn greatest_axis_bounds_are_numbers<S: Scalar>(ask: Ask<S>, tree: &Tree<S>)
    requires
        lawful::<S>(),
        tree.wf(),
        ask.valid(tree),
        ask.m is LInf,
    ensures
        bounds_are_numbers(ask, tree),
{
    let n = tree.n_points as int;
    lemma_root_cell_nonneg(ask, tree, tree.ndim as int);
    assert forall|pos: int| 0 <= pos < n implies #[trigger] numbers_at(ask, tree, pos) by {
        lemma_greatest_numbers(
            ask,
            tree,
            0,
            0,
            n,
            ask.root_axes(tree),
            ask.root_cell(tree),
            pos,
        );
    }
}

proof fn lemma_below_are_numbers<S: Scalar>(
    ask: Ask<S>,
    tree: &Tree<S>,
    id: int,
    first: int,
    len: int,
    axes: Seq<Dist<S>>,
    cell: S,
    pos: int,
)
    requires
        ask.planes_below(tree, id, first, len, axes, cell, pos),
    ensures
        planes_are_numbers(ask, tree, id, first, len, axes, cell, pos),
    decreases len,
{
    if len > tree.leafsize && len > 1 {
        match tree.nodes@[id] {
            Node::Leaf { .. } => {},
            Node::Inner { left, right, split_dim, split_value } => {
                let dim = unpack_split_spec(split_dim).0 as int;
                let mid = len / 2;
                let at_left = pos < first + mid;
                let (child, cfirst, clen) = if at_left {
                    (left as int, first, mid)
                } else {
                    (right as int, first + mid, len - mid)
                };
                if at_left == ask.left_near(dim, split_value) {
                    lemma_below_are_numbers(ask, tree, child, cfirst, clen, axes, cell, pos);
                } else {
                    let axis = ask.far_axis(dim, split_value);
                    let far = ask.m.replace_axis_spec(cell, axes[dim].value, axis);
                    let axes2 = axes.update(dim, Dist { value: axis });
                    lemma_below_are_numbers(ask, tree, child, cfirst, clen, axes2, far, pos);
                }
            },
        }
    }
}

/// No bound of a sound search is a nan.
pub proof fn sound_bounds_are_numbers<S: Scalar>(ask: Ask<S>, tree: &Tree<S>)
    requires
        ask.sound(tree),
    ensures
        bounds_are_numbers(ask, tree),
{
    let n = tree.n_points as int;
    assert forall|pos: int| 0 <= pos < n implies #[trigger] numbers_at(ask, tree, pos) by {
        assert(ask.planes_hold_at(tree, pos));
        lemma_below_are_numbers(
            ask,
            tree,
            0,
            0,
            n,
            ask.root_axes(tree),
            ask.root_cell(tree),
            pos,
        );
    }
}

/// A point that is missing from a list up to the factor leaves the list full, with
/// no candidate at more than the factor times the distance of the point.
proof fn lemma_missing_is_matched<S: Scalar>(
    ask: Ask<S>,
    tree: &Tree<S>,
    x: Seq<Hit<S>>,
    pos: int,
)
    requires
        lawful::<S>(),
        tree.wf(),
        ask.valid(tree),
        finite(ask.factor),
        at_most(S::one_spec(), ask.factor),
        within_reach(ask, tree),
        ask.nearly_nearest(tree, x),
        0 <= pos < tree.n_points,
        !x.contains(ask.hit(tree, pos)),
    ensures
        x.len() == ask.k,
        x.last().dist.value.key() <= ask.dist(tree, pos).times_spec(ask.factor).key(),
{
    let dist = ask.dist(tree, pos);
    lemma_row_of_tree(tree, pos);
    lemma_scan_dist_nonneg(ask.m, ask.q, tree.rows()[pos], tree.grouped(pos));
    reveal(orderly);
    assert(at_most(dist, dist.times_spec(ask.factor)));
    assert(ask.admits(dist, ask.cutoff.key()));
    assert(ask.done(tree, x, pos) || !ask.admits(dist, bound_key(x, ask.k, ask.cutoff)));
}

/// An approximate answer keeps pace with the exact one, place by place: its points
/// are no nearer, and no further than the factor times as far. It has as many of
/// them, all points if those are no more than `k`.
pub proof fn an_approximate_answer_keeps_pace<S: Scalar>(
    ask: Ask<S>,
    tree: &Tree<S>,
    x: Seq<Hit<S>>,
    y: Seq<Hit<S>>,
)
    requires
        lawful::<S>(),
        tree.wf(),
        ask.valid(tree),
        finite(ask.factor),
        at_most(S::one_spec(), ask.factor),
        within_reach(ask, tree),
        ask.nearly_nearest(tree, x),
        ask.nearest(tree, y),
    ensures
        x.len() == y.len(),
        x.len() == if tree.n_points < ask.k {
            tree.n_points as nat
        } else {
            ask.k
        },
        forall|j: int|
            0 <= j < x.len() ==> y[j].dist.value.key() <= (#[trigger] x[j]).dist.value.key()
                && x[j].dist.value.key() <= y[j].dist.value.times_spec(ask.factor).key(),
{
    lemma_count_hits(ask, tree, x);
    lemma_nearest_is_nearly(ask, tree, y);
    lemma_count_hits(ask, tree, y);
    assert forall|j: int| 0 <= j < x.len() implies y[j].dist.value.key() <= (
    #[trigger] x[j]).dist.value.key() && x[j].dist.value.key() <= y[j].dist.value.times_spec(
        ask.factor,
    ).key() by {
        lemma_no_nearer(ask, tree, x, y, j);
        lemma_no_further(ask, tree, x, y, j);
    }
}

/// Sound searches keep pace with each other in the same way, one with a factor and
/// one without. Where plain distances keep the order of reduced ones, those of the
/// exact search are no greater, slot by slot, and those of the other are no greater
/// than what the factor makes of the exact ones.
pub proof fn an_approximate_search_keeps_pace<S: Scalar>(
    ask: Ask<S>,
    exact: Ask<S>,
    tree: &Tree<S>,
)
    requires
        lawful::<S>(),
        tree.wf(),
        ask.valid(tree),
        exact == (Ask { factor: exact.factor, ..ask }),
        exact.factor.key() == S::one_spec().key(),
        ask.sound(tree),
        exact.sound(tree),
        within_reach(ask, tree),
    ensures
        ({
            let (x, y) = (ask.search(tree), exact.search(tree));
            &&& x.len() == y.len()
            &&& x.len() == if tree.n_points < ask.k {
                tree.n_points as nat
            } else {
                ask.k
            }
            &&& forall|j: int|
                0 <= j < x.len() ==> y[j].dist.value.key() <= (#[trigger] x[j]).dist.value.key()
                    && x[j].dist.value.key() <= y[j].dist.value.times_spec(ask.factor).key()
            &&& restores_in_order(ask.m) ==> forall|j: int|
                0 <= j < ask.k ==> at_most(
                    distances_of(y, ask.k, ask.m)[j],
                    #[trigger] distances_of(x, ask.k, ask.m)[j],
                )
            &&& restores_in_order(ask.m) ==> forall|j: int|
                0 <= j < x.len() ==> at_most(
                    #[trigger] distances_of(x, ask.k, ask.m)[j],
                    ask.m.restore_spec(y[j].dist.value.times_spec(ask.factor)),
                )
        }),
{
    let (x, y) = (ask.search(tree), exact.search(tree));
    a_sound_search_finds_the_nearest(ask, tree);
    a_sound_search_finds_the_nearest(exact, tree);
    assert(ask.nearest(tree, y)) by {
        assert forall|i: int| 0 <= i < y.len() implies ask.made(
            tree,
            #[trigger] y[i],
            0,
            tree.n_points as int,
        ) by {
            assert(exact.made(tree, y[i], 0, tree.n_points as int));
            let pos = choose|pos: int|
                0 <= pos < tree.n_points && #[trigger] exact.hit(tree, pos) == y[i]
                    && y[i].dist.value.key() <= exact.cutoff.key();
            assert(ask.hit(tree, pos) == y[i]);
        }
        assert forall|pos: int| 0 <= pos < tree.n_points implies #[trigger] ask.done(
            tree,
            y,
            pos,
        ) by {
            assert(exact.done(tree, y, pos));
            assert(exact.hit(tree, pos) == ask.hit(tree, pos));
        }
    }
    an_approximate_answer_keeps_pace(ask, tree, x, y);
    if restores_in_order(ask.m) {
        assert forall|j: int| 0 <= j < ask.k implies at_most(
            distances_of(y, ask.k, ask.m)[j],
            #[trigger] distances_of(x, ask.k, ask.m)[j],
        ) by {
            if j < x.len() {
                let p = lemma_hit_position(ask, tree, x[j]);
                let q = lemma_hit_position(ask, tree, y[j]);
                assert(y[j].dist.value.key() <= x[j].dist.value.key());
                lemma_restore_monotone(ask.m, y[j].dist.value, x[j].dist.value);
            }
        }
        assert forall|j: int| 0 <= j < x.len() implies at_most(
            #[trigger] distances_of(x, ask.k, ask.m)[j],
            ask.m.restore_spec(y[j].dist.value.times_spec(ask.factor)),
        ) by {
            let p = lemma_hit_position(ask, tree, x[j]);
            let q = lemma_hit_position(ask, tree, y[j]);
            let far = y[j].dist.value.times_spec(ask.factor);
            assert(x[j].dist.value.key() <= far.key());
            assert(!far.nan()) by {
                reveal(orderly);
            }
            lemma_restore_monotone(ask.m, x[j].dist.value, far);
        }
    }
}

/// The nearest points are nearest up to any factor.
proof fn lemma_nearest_is_nearly<S: Scalar>(ask: Ask<S>, tree: &Tree<S>, y: Seq<Hit<S>>)
    requires
        ask.nearest(tree, y),
    ensures
        ask.nearly_nearest(tree, y),
{
}

proof fn lemma_no_nearer<S: Scalar>(
    ask: Ask<S>,
    tree: &Tree<S>,
    x: Seq<Hit<S>>,
    y: Seq<Hit<S>>,
    j: int,
)
    requires
        tree.wf(),
        ask.kept(tree, x),
        ask.nearest(tree, y),
        0 <= j < x.len(),
        j < y.len(),
    ensures
        y[j].dist.value.key() <= x[j].dist.value.key(),
{
    if before(x[j], y[j]) {
        assert forall|i: int| 0 <= i <= j implies y.contains(#[trigger] x[i]) by {
            assert(ask.made(tree, x[i], 0, tree.n_points as int));
            let pos = choose|pos: int|
                0 <= pos < tree.n_points && #[trigger] ask.hit(tree, pos) == x[i]
                    && x[i].dist.value.key() <= ask.cutoff.key();
            assert(ask.done(tree, y, pos));
            if i < j {
                assert(before(x[i], x[j]));
            }
            if j < y.len() - 1 {
                assert(before(y[j], y[y.len() - 1]));
            }
        }
        let c = lemma_no_earlier(y, x, j);
        if j < c {
            assert(before(y[j], y[c]));
        }
    }
}

proof fn lemma_no_further<S: Scalar>(
    ask: Ask<S>,
    tree: &Tree<S>,
    x: Seq<Hit<S>>,
    y: Seq<Hit<S>>,
    j: int,
)
    requires
        lawful::<S>(),
        tree.wf(),
        ask.valid(tree),
        finite(ask.factor),
        at_most(S::one_spec(), ask.factor),
        within_reach(ask, tree),
        ask.nearly_nearest(tree, x),
        ask.kept(tree, y),
        0 <= j < x.len(),
        j < y.len(),
    ensures
        x[j].dist.value.key() <= y[j].dist.value.times_spec(ask.factor).key(),
{
    let f = ask.factor;
    let far = lemma_hit_position(ask, tree, y[j]);
    if forall|i: int| 0 <= i <= j ==> x.contains(#[trigger] y[i]) {
        let c = lemma_no_earlier(x, y, j);
        if j < c {
            assert(before(x[j], x[c]));
        }
        assert(at_most(y[j].dist.value, y[j].dist.value.times_spec(f))) by {
            reveal(orderly);
        }
    } else {
        let i = choose|i: int| 0 <= i <= j && !x.contains(#[trigger] y[i]);
        let pos = lemma_hit_position(ask, tree, y[i]);
        lemma_missing_is_matched(ask, tree, x, pos);
        if i < j {
            assert(before(y[i], y[j]));
        }
        if j < x.len() - 1 {
            assert(before(x[j], x[x.len() - 1]));
        }
        assert(at_most(y[i].dist.value.times_spec(f), y[j].dist.value.times_spec(f))) by {
            reveal(orderly);
            assert(at_most(y[i].dist.value, y[j].dist.value));
        }
    }
}

/// The position of the point that a kept candidate stands for.
pub proof fn lemma_hit_position<S: Scalar>(ask: Ask<S>, tree: &Tree<S>, h: Hit<S>) -> (pos: int)
    requires
        lawful::<S>(),
        tree.wf(),
        ask.valid(tree),
        ask.made(tree, h, 0, tree.n_points as int),
    ensures
        0 <= pos < tree.n_points,
        ask.hit(tree, pos) == h,
        nonneg(h.dist.value),
{
    let pos = choose|pos: int|
        0 <= pos < tree.n_points && #[trigger] ask.hit(tree, pos) == h && h.dist.value.key()
            <= ask.cutoff.key();
    lemma_row_of_tree(tree, pos);
    lemma_scan_dist_nonneg(ask.m, ask.q, tree.rows()[pos], tree.grouped(pos));
    pos
}

/// A list up to the factor is full, or holds every point.
proof fn lemma_count_hits<S: Scalar>(ask: Ask<S>, tree: &Tree<S>, x: Seq<Hit<S>>)
    requires
        lawful::<S>(),
        tree.wf(),
        ask.valid(tree),
        finite(ask.factor),
        at_most(S::one_spec(), ask.factor),
        within_reach(ask, tree),
        ask.nearly_nearest(tree, x),
    ensures
        x.len() == if tree.n_points < ask.k {
            tree.n_points as nat
        } else {
            ask.k
        },
{
    assert forall|pos: int| 0 <= pos < tree.n_points && x.len() < ask.k implies x.contains(
        #[trigger] ask.hit(tree, pos),
    ) by {
        if !x.contains(ask.hit(tree, pos)) {
            lemma_missing_is_matched(ask, tree, x, pos);
        }
    }
    lemma_count_kept(ask, tree, x);
}

/// A list that is full or holds every point has as many candidates as it can.
proof fn lemma_count_kept<S: Scalar>(ask: Ask<S>, tree: &Tree<S>, x: Seq<Hit<S>>)
    requires
        lawful::<S>(),
        tree.wf(),
        ask.valid(tree),
        ask.kept(tree, x),
        forall|pos: int|
            0 <= pos < tree.n_points && x.len() < ask.k ==> x.contains(
                #[trigger] ask.hit(tree, pos),
            ),
    ensures
        x.len() == if tree.n_points < ask.k {
            tree.n_points as nat
        } else {
            ask.k
        },
{
    let n = tree.n_points as int;
    let rows = x.map_values(|h: Hit<S>| h.index as int);
    let all = vstd::set_lib::set_int_range(0, n);
    assert(rows.no_duplicates()) by {
        assert forall|i: int, j: int| 0 <= i < rows.len() && 0 <= j < rows.len() && i
            != j implies rows[i] != rows[j] by {
            if rows[i] == rows[j] {
                lemma_same_row_same_hit(ask, tree, x[i], x[j]);
                if i < j {
                    assert(before(x[i], x[j]));
                } else {
                    assert(before(x[j], x[i]));
                }
            }
        }
    }
    rows.unique_seq_to_set();
    vstd::set_lib::lemma_int_range(0, n);
    assert(rows.to_set().subset_of(all)) by {
        assert forall|v: int| rows.to_set().contains(v) implies all.contains(v) by {
            let i = choose|i: int| 0 <= i < rows.len() && rows[i] == v;
            let pos = lemma_hit_position(ask, tree, x[i]);
            assert(tree.indices@[pos] < n);
        }
    }
    vstd::set_lib::lemma_len_subset(rows.to_set(), all);
    if x.len() < ask.k {
        assert(all.subset_of(rows.to_set())) by {
            assert forall|v: int| all.contains(v) implies rows.to_set().contains(v) by {
                let pos = every_row_has_a_position(tree, v);
                let h = ask.hit(tree, pos);
                assert(x.contains(h));
                let c = choose|c: int| 0 <= c < x.len() && x[c] == h;
                assert(rows[c] == v);
            }
        }
        vstd::set_lib::lemma_len_subset(all, rows.to_set());
    }
}

/// No value is greater than a later one.
pub open spec fn ascending<S: Scalar>(values: Seq<S>) -> bool {
    forall|i: int, j: int|
        0 <= i <= j < values.len() ==> at_most(#[trigger] values[i], #[trigger] values[j])
}

/// The distances of an answer do not decrease, where plain distances keep the order
/// of reduced ones: for every metric but that of a general exponent, always.
pub proof fn answers_come_nearest_first<S: Scalar>(ask: Ask<S>, tree: &Tree<S>, hits: Seq<Hit<S>>)
    requires
        lawful::<S>(),
        tree.wf(),
        ask.valid(tree),
        restores_in_order(ask.m),
        ask.kept(tree, hits),
    ensures
        ascending(distances_of(hits, ask.k, ask.m)),
{
    let d = distances_of(hits, ask.k, ask.m);
    assert forall|i: int, j: int| 0 <= i <= j < d.len() implies at_most(
        #[trigger] d[i],
        #[trigger] d[j],
    ) by {
        if i < hits.len() {
            let p = lemma_hit_position(ask, tree, hits[i]);
            let (a, b) = if j < hits.len() {
                let q = lemma_hit_position(ask, tree, hits[j]);
                if i < j {
                    assert(before(hits[i], hits[j]));
                }
                (hits[i].dist.value, hits[j].dist.value)
            } else {
                (hits[i].dist.value, hits[i].dist.value)
            };
            lemma_restore_monotone(ask.m, a, b);
        }
    }
}

} // verus!
