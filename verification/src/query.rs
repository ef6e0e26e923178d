//! Nearest-neighbour queries.
//!
//! Box distances decide visits and nothing else. A child is always entered with
//! a bound that derives from [`CellBound`], never with its own box distance: a
//! total that held a box distance would lose, at every later exchange of an
//! axis, a contribution that was never in it.

use crate::best::{distances_of, indices_of, Best, Best1, BestK, Hit};
use crate::distance::restores_in_order;
use crate::error::KDTreeError;
use crate::kernel::all_finite;
use crate::lanes::{lane_box_dist, packs};
use crate::layout::{axis_offset, hi_of, is_block, lemma_block_len, lemma_one_row_differs,
    lemma_row_at, lemma_rows_determine, lo_of, point, rows_of, BBox};
use crate::metric::{metric_of, Dist, Metric};
use crate::node::{unpack_split, unpack_split_spec, Node};
use crate::scalar::{all_finite_spec, at_most, filled, finite, is_finite, lawful, less, nonneg,
    orderly, Scalar};
use crate::scan::{Packed, QueryParams, Strategy, Streamed};
use crate::search::{a_search_ends_with_an_answer, a_sound_search_finds_the_nearest,
    an_approximate_search_keeps_pace, an_open_question_reaches_everything, an_open_search_is_full,
    answers_come_nearest_first, ascending, bounds_are_numbers, Ask};
use crate::tree::{lemma_box_valid, lemma_children, Tree, ROOT};
use rayon::iter::{IndexedParallelIterator, ParallelIterator};
use rayon::slice::ParallelSliceMut;
use vstd::prelude::*;

verus! {

/// The lower bound to a cell, kept as what each axis contributes, so that an
/// axis is exchanged in one step. The total travels down the descent instead.
///
/// All axes are zero between queries. That is already the answer for a question
/// inside the root box, the common case.
struct CellBound<S> {
    axes: Vec<Dist<S>>,
    seeded: bool,
}

impl<S: Scalar> CellBound<S> {
    spec fn view(&self) -> Seq<Dist<S>> {
        self.axes@
    }

    /// The axes are to be cleared at the end of the query.
    spec fn is_seeded(&self) -> bool {
        self.seeded
    }

    /// As between queries.
    spec fn rests(&self, ndim: usize) -> bool {
        &&& self@ == Seq::new(ndim as nat, |d: int| Dist::<S>::zero_spec())
        &&& !self.is_seeded()
    }

    fn new(ndim: usize) -> (r: Self)
        ensures
            r.rests(ndim),
    {
        CellBound { axes: filled(ndim, Dist::zero()), seeded: false }
    }

    /// Sets the bound to the cell of the root up and returns its total.
    fn start(&mut self, m: Metric<S>, q: &[S], tree: &Tree<S>, Ghost(ask): Ghost<Ask<S>>) -> (r:
        Dist<S>)
        requires
            lawful::<S>(),
            tree.wf(),
            ask.valid(tree),
            ask.m == m,
            ask.q == q@,
            old(self).rests(tree.ndim),
        ensures
            r.value == ask.root_cell(tree),
            final(self)@ == ask.root_axes(tree),
            final(self).is_seeded() == !ask.inside(tree),
    {
        proof {
            lemma_box_valid(tree, 0, 0, tree.n_points as int);
        }
        let root = tree.box_of(ROOT);
        if lane_box_dist(m, q, root).same(Dist::zero()) {
            assert(self@ =~= ask.root_axes(tree));
            return Dist::zero();
        }
        let dist = self.seed(m, q, root, Ghost(tree), Ghost(ask));
        assert(self@ =~= ask.root_axes(tree));
        dist
    }

    fn seed(
        &mut self,
        m: Metric<S>,
        q: &[S],
        root: BBox<'_, S>,
        Ghost(tree): Ghost<&Tree<S>>,
        Ghost(ask): Ghost<Ask<S>>,
    ) -> (r: Dist<S>)
        requires
            lawful::<S>(),
            ask.valid(tree),
            ask.m == m,
            ask.q == q@,
            root.valid(),
            root.lo@.len() == tree.ndim,
            root.lo@ == lo_of(tree.boxes@[0], tree.ndim as int),
            root.hi@ == hi_of(tree.boxes@[0], tree.ndim as int),
            old(self)@.len() == tree.ndim,
        ensures
            r.value == ask.root_fold(tree, tree.ndim as int),
            final(self)@.len() == tree.ndim,
            forall|d: int|
                0 <= d < tree.ndim ==> (#[trigger] final(self)@[d]).value == ask.root_axis(
                    tree,
                    d,
                ),
            final(self).is_seeded(),
    {
        let mut dist: Dist<S> = Dist::zero();
        let mut d: usize = 0;
        while d < q.len()
            invariant
                lawful::<S>(),
                ask.valid(tree),
                ask.m == m,
                ask.q == q@,
                root.valid(),
                root.lo@.len() == tree.ndim,
                root.lo@ == lo_of(tree.boxes@[0], tree.ndim as int),
                root.hi@ == hi_of(tree.boxes@[0], tree.ndim as int),
                self.axes@.len() == tree.ndim,
                d <= tree.ndim,
                dist.value == ask.root_fold(tree, d as int),
                forall|i: int|
                    0 <= i < d ==> (#[trigger] self.axes@[i]).value == ask.root_axis(tree, i),
            decreases q@.len() - d,
        {
            let axis = m.reduce(axis_offset(q[d], root.lo[d], root.hi[d]));
            self.axes[d] = axis;
            dist = m.fold(dist, axis);
            d += 1;
        }
        self.seeded = true;
        dist
    }

    /// Clears what [`CellBound::start`] set up.
    fn finish(&mut self)
        requires
            !old(self).is_seeded() ==> old(self).rests(old(self)@.len() as usize),
        ensures
            final(self).rests(old(self)@.len() as usize),
    {
        if self.seeded {
            let mut d: usize = 0;
            let n = self.axes.len();
            while d < n
                invariant
                    d <= n,
                    n == self.axes@.len(),
                    forall|i: int| 0 <= i < d ==> self.axes@[i] == Dist::<S>::zero_spec(),
                decreases n - d,
            {
                self.axes[d] = Dist::zero();
                d += 1;
            }
            self.seeded = false;
            assert(self@ =~= Seq::new(n as nat, |d: int| Dist::<S>::zero_spec()));
        }
    }

    /// What axis `dim` contributes.
    fn axis(&self, dim: usize) -> (r: Dist<S>)
        requires
            dim < self@.len(),
        ensures
            r == self@[dim as int],
    {
        self.axes[dim]
    }

    /// Exchanges the contribution of an axis and returns the one before, which
    /// [`CellBound::leave`] has to restore.
    fn enter(&mut self, dim: usize, axis: Dist<S>) -> (r: Dist<S>)
        requires
            dim < old(self)@.len(),
        ensures
            r == old(self)@[dim as int],
            final(self)@ == old(self)@.update(dim as int, axis),
            final(self).is_seeded() == old(self).is_seeded(),
    {
        let saved = self.axes[dim];
        self.axes[dim] = axis;
        saved
    }

    fn leave(&mut self, dim: usize, saved: Dist<S>)
        requires
            dim < old(self)@.len(),
        ensures
            final(self)@ == old(self)@.update(dim as int, saved),
            final(self).is_seeded() == old(self).is_seeded(),
    {
        self.axes[dim] = saved;
    }
}

/// What one question after the other uses.
struct Scratch<S, B> {
    cell: CellBound<S>,
    best: B,
}

/// One question on its way through the tree.
struct Descent<'a, S, K> {
    tree: &'a Tree<S>,
    params: QueryParams<S>,
    q: &'a [S],
    strategy: K,
}

impl<'a, S: Scalar, K: Strategy> Descent<'a, S, K> {
    spec fn ask(self, k: nat) -> Ask<S> {
        self.params.ask(self.q@, k)
    }

    /// The descent may go on.
    spec fn ready<B: Best<S>>(self, s: Scratch<S, B>) -> bool {
        &&& lawful::<S>()
        &&& self.tree.wf()
        &&& K::suits(self.params.metric is LP, self.tree.ndim)
        &&& self.ask(s.best.cap()).valid(self.tree)
        &&& s.best.valid()
        &&& s.cell@.len() == self.tree.ndim
    }

    /// The descent took up what leaves `hits`, and is back where it was.
    spec fn back<B: Best<S>>(
        self,
        s: Scratch<S, B>,
        next: Scratch<S, B>,
        hits: Seq<Hit<S>>,
    ) -> bool {
        &&& next.best.valid()
        &&& next.best.cap() == s.best.cap()
        &&& next.best.hits() == hits
        &&& next.cell@ == s.cell@
        &&& next.cell.is_seeded() == s.cell.is_seeded()
    }

    fn admits<B: Best<S>>(&self, dist: Dist<S>, s: &Scratch<S, B>) -> (r: bool)
        requires
            lawful::<S>(),
            s.best.valid(),
            !self.params.cutoff.value.nan(),
        ensures
            r == self.ask(s.best.cap()).admits(
                dist.value,
                self.ask(s.best.cap()).bound(s.best.hits()),
            ),
    {
        self.admits_at(dist, s.best.bound(self.params.cutoff))
    }

    /// Whether the bound `dist` leaves a subtree to be visited, at a bound that
    /// is at hand already.
    fn admits_at(&self, dist: Dist<S>, bound: Dist<S>) -> (r: bool)
        requires
            !bound.value.nan(),
        ensures
            forall|k: nat| r == #[trigger] self.ask(k).admits(dist.value, bound.value.key()),
    {
        dist.get().times(self.params.eps_factor).le(bound.get())
    }

    /// Visits the subtree of a node. `cell_dist` is the lower bound of its cell,
    /// whose contributions are in `s.cell`.
    fn descend<B: Best<S>>(
        &self,
        node_id: u32,
        cell_dist: Dist<S>,
        s: &mut Scratch<S, B>,
        Ghost(first): Ghost<int>,
        Ghost(len): Ghost<int>,
    )
        requires
            self.ready(*old(s)),
            self.tree.node_ok(node_id as int, first, len),
            self.tree.nests(first, len),
        ensures
            self.back(
                *old(s),
                *final(s),
                self.ask(old(s).best.cap()).visited(
                    self.tree,
                    node_id as int,
                    first,
                    len,
                    old(s).cell@,
                    cell_dist.value,
                    old(s).best.hits(),
                ),
            ),
        decreases len, 1int,
    {
        proof {
            lemma_children(self.tree, node_id as int, first, len);
        }
        match self.tree.node(node_id) {
            Node::Leaf { start, end } => {
                self.strategy.scan(
                    self.tree,
                    self.params,
                    self.q,
                    start as usize,
                    end as usize,
                    &mut s.best,
                );
            },
            Node::Inner { left, right, split_dim, split_value } => {
                let metric = self.params.metric;
                let (dim, order_by_box) = unpack_split(split_dim);
                let diff = self.q[dim].minus(split_value);
                let left_near = diff.le(S::zero());
                let (near, far) = if left_near {
                    (left, right)
                } else {
                    (right, left)
                };
                let far_axis = metric.reduce(diff.abs());
                let far_dist = metric.replace_axis(cell_dist, s.cell.axis(dim), far_axis);

                if order_by_box {
                    self.descend_by_box(
                        near,
                        far,
                        dim,
                        cell_dist,
                        far_axis,
                        far_dist,
                        s,
                        Ghost(node_id as int),
                        Ghost(first),
                        Ghost(len),
                    );
                    return;
                }
                let ghost mid = len / 2;
                let ghost (nfirst, nlen, ffirst, flen) = if left_near {
                    (first, mid, first + mid, len - mid)
                } else {
                    (first + mid, len - mid, first, mid)
                };
                self.descend(near, cell_dist, s, Ghost(nfirst), Ghost(nlen));

                let bound = s.best.bound(self.params.cutoff);
                if self.admits_at(far_dist, bound) {
                    proof {
                        lemma_box_valid(self.tree, far as int, ffirst, flen);
                    }
                    let far_box = lane_box_dist(metric, self.q, self.tree.box_of(far));
                    if self.admits_at(far_box, bound) {
                        self.enter_far(far, dim, far_axis, far_dist, s, Ghost(ffirst), Ghost(flen));
                    }
                }
            },
        }
    }

    /// Visits a node by the boxes of its children, the nearer box first. A visit
    /// tightens the bound for the other child, so both boxes are tested as they
    /// come up.
    fn descend_by_box<B: Best<S>>(
        &self,
        near: u32,
        far: u32,
        dim: usize,
        cell_dist: Dist<S>,
        far_axis: Dist<S>,
        far_dist: Dist<S>,
        s: &mut Scratch<S, B>,
        Ghost(id): Ghost<int>,
        Ghost(first): Ghost<int>,
        Ghost(len): Ghost<int>,
    )
        requires
            self.ready(*old(s)),
            self.tree.node_ok(id, first, len),
            self.tree.nests(first, len),
            self.tree.nodes@[id] matches Node::Inner { left, right, split_dim, split_value } && {
                let ask = self.ask(old(s).best.cap());
                &&& unpack_split_spec(split_dim) == (dim, true)
                &&& (near, far) == if ask.left_near(dim as int, split_value) {
                    (left, right)
                } else {
                    (right, left)
                }
                &&& far_axis.value == ask.far_axis(dim as int, split_value)
                &&& far_dist.value == ask.m.replace_axis_spec(
                    cell_dist.value,
                    old(s).cell@[dim as int].value,
                    far_axis.value,
                )
            },
        ensures
            self.back(
                *old(s),
                *final(s),
                self.ask(old(s).best.cap()).visited(
                    self.tree,
                    id,
                    first,
                    len,
                    old(s).cell@,
                    cell_dist.value,
                    old(s).best.hits(),
                ),
            ),
        decreases len, 0int,
    {
        proof {
            lemma_children(self.tree, id, first, len);
        }
        let metric = self.params.metric;
        let ghost left_near = self.tree.nodes@[id] matches Node::Inner { split_value, .. }
            && self.ask(s.best.cap()).left_near(dim as int, split_value);
        let ghost mid = len / 2;
        let ghost (nfirst, nlen, ffirst, flen) = if left_near {
            (first, mid, first + mid, len - mid)
        } else {
            (first + mid, len - mid, first, mid)
        };
        proof {
            lemma_box_valid(self.tree, near as int, nfirst, nlen);
            lemma_box_valid(self.tree, far as int, ffirst, flen);
        }
        let near_box = lane_box_dist(metric, self.q, self.tree.box_of(near));
        let far_box = lane_box_dist(metric, self.q, self.tree.box_of(far));
        if near_box.le(far_box) {
            if self.admits(near_box, s) {
                self.descend(near, cell_dist, s, Ghost(nfirst), Ghost(nlen));
            }
            if self.admits(far_box, s) {
                self.enter_far(far, dim, far_axis, far_dist, s, Ghost(ffirst), Ghost(flen));
            }
        } else {
            if self.admits(far_box, s) {
                self.enter_far(far, dim, far_axis, far_dist, s, Ghost(ffirst), Ghost(flen));
            }
            if self.admits(near_box, s) {
                self.descend(near, cell_dist, s, Ghost(nfirst), Ghost(nlen));
            }
        }
    }

    /// Visits the far side of a split.
    fn enter_far<B: Best<S>>(
        &self,
        far: u32,
        dim: usize,
        far_axis: Dist<S>,
        far_dist: Dist<S>,
        s: &mut Scratch<S, B>,
        Ghost(first): Ghost<int>,
        Ghost(len): Ghost<int>,
    )
        requires
            self.ready(*old(s)),
            self.tree.node_ok(far as int, first, len),
            self.tree.nests(first, len),
            dim < self.tree.ndim,
        ensures
            self.back(
                *old(s),
                *final(s),
                self.ask(old(s).best.cap()).visited(
                    self.tree,
                    far as int,
                    first,
                    len,
                    old(s).cell@.update(dim as int, far_axis),
                    far_dist.value,
                    old(s).best.hits(),
                ),
            ),
        decreases len, 2int,
    {
        let saved = s.cell.enter(dim, far_axis);
        self.descend(far, far_dist, s, Ghost(first), Ghost(len));
        s.cell.leave(dim, saved);
        assert(s.cell@ =~= old(s).cell@);
    }
}

impl<S: Scalar, B: Best<S>> Scratch<S, B> {
    /// Ready for a question about the `k` nearest of points with `ndim` axes.
    spec fn rests(&self, ndim: usize, k: nat) -> bool {
        &&& self.cell.rests(ndim)
        &&& self.best.valid()
        &&& self.best.cap() == k
    }

    fn new(ndim: usize, k: usize) -> (r: Self)
        requires
            lawful::<S>(),
            B::keeps(k),
        ensures
            r.rests(ndim, k as nat),
    {
        Scratch { cell: CellBound::new(ndim), best: B::new(k) }
    }
}

impl<'a, S: Scalar, K: Strategy> Descent<'a, S, K> {
    /// Answers the question into the slots of `out_d` and `out_i`.
    fn run<B: Best<S>>(&self, s: &mut Scratch<S, B>, out_d: &mut [S], out_i: &mut [i64])
        requires
            lawful::<S>(),
            self.tree.wf(),
            K::suits(self.params.metric is LP, self.tree.ndim),
            self.ask(old(out_d)@.len()).valid(self.tree),
            old(s).rests(self.tree.ndim, old(out_d)@.len()),
            old(out_d)@.len() == old(out_i)@.len(),
        ensures
            final(s).rests(self.tree.ndim, old(out_d)@.len()),
            final(out_d)@.len() == old(out_d)@.len(),
            final(out_i)@.len() == old(out_i)@.len(),
            self.ask(old(out_d)@.len()).answered_in(self.tree, final(out_d)@, final(out_i)@),
    {
        let metric = self.params.metric;
        let ghost ask = self.ask(out_d@.len());
        s.best.reset();
        assert(s.best.hits() =~= Seq::empty());
        let seed = s.cell.start(metric, self.q, self.tree, Ghost(ask));
        if self.admits(seed, s) {
            self.descend(ROOT, seed, s, Ghost(0int), Ghost(self.tree.n_points as int));
        }
        assert(s.best.hits() == ask.search(self.tree));
        assert(!s.cell.is_seeded() ==> s.cell@ =~= Seq::new(
            self.tree.ndim as nat,
            |d: int| Dist::<S>::zero_spec(),
        ));
        s.cell.finish();
        s.best.write_results(out_d, out_i, self.tree.n_points, metric);
    }
}

/// Every question up to `upto` is answered in its row of slots.
pub open spec fn answered_upto<S: Scalar>(
    tree: &Tree<S>,
    queries: Seq<S>,
    params: QueryParams<S>,
    k: nat,
    distances: Seq<S>,
    indices: Seq<i64>,
    upto: int,
) -> bool {
    forall|i: int|
        0 <= i < upto ==> #[trigger] params.ask(
            rows_of(queries, tree.ndim as int)[i],
            k,
        ).answered_in(
            tree,
            rows_of(distances, k as int)[i],
            rows_of(indices, k as int)[i],
        )
}

/// The parameters, the questions and the room for their answers fit the tree.
spec fn run_ok<S: Scalar>(
    tree: &Tree<S>,
    queries: Seq<S>,
    params: QueryParams<S>,
    k: usize,
    distances: Seq<S>,
    indices: Seq<i64>,
) -> bool {
    let n = rows_of(queries, tree.ndim as int).len() as int;
    &&& lawful::<S>()
    &&& tree.wf()
    &&& params.metric.valid()
    &&& nonneg(params.cutoff.value)
    &&& is_block(queries, n, tree.ndim as int)
    &&& all_finite_spec(queries)
    &&& is_block(distances, n, k as int)
    &&& is_block(indices, n, k as int)
}

/// Answers question `i` into the slots of `out_d` and `out_i`.
fn answer_one<S: Scalar, B: Best<S>, K: Strategy>(
    tree: &Tree<S>,
    queries: &[S],
    params: QueryParams<S>,
    strategy: K,
    i: usize,
    s: &mut Scratch<S, B>,
    out_d: &mut [S],
    out_i: &mut [i64],
)
    requires
        lawful::<S>(),
        tree.wf(),
        K::suits(params.metric is LP, tree.ndim),
        params.metric.valid(),
        nonneg(params.cutoff.value),
        is_block(queries@, rows_of(queries@, tree.ndim as int).len() as int, tree.ndim as int),
        all_finite_spec(queries@),
        i < rows_of(queries@, tree.ndim as int).len(),
        old(out_d)@.len() > 0,
        old(out_d)@.len() == old(out_i)@.len(),
        old(s).rests(tree.ndim, old(out_d)@.len()),
    ensures
        final(s).rests(tree.ndim, old(out_d)@.len()),
        final(out_d)@.len() == old(out_d)@.len(),
        final(out_i)@.len() == old(out_i)@.len(),
        params.ask(
            rows_of(queries@, tree.ndim as int)[i as int],
            old(out_d)@.len(),
        ).answered_in(tree, final(out_d)@, final(out_i)@),
{
    proof {
        lemma_row_at(
            queries@,
            rows_of(queries@, tree.ndim as int).len() as int,
            tree.ndim as int,
            i as int,
        );
    }
    let descent = Descent { tree, params, q: point(queries, tree.ndim, i), strategy };
    descent.run(s, out_d, out_i);
}

/// Answers every question, one after the other.
fn answer_in_turn<S: Scalar, B: Best<S>, K: Strategy>(
    tree: &Tree<S>,
    queries: &[S],
    k: usize,
    params: QueryParams<S>,
    strategy: K,
    distances: &mut [S],
    indices: &mut [i64],
)
    requires
        run_ok(tree, queries@, params, k, old(distances)@, old(indices)@),
        K::suits(params.metric is LP, tree.ndim),
        B::keeps(k),
    ensures
        final(distances)@.len() == old(distances)@.len(),
        final(indices)@.len() == old(indices)@.len(),
        answered_upto(
            tree,
            queries@,
            params,
            k as nat,
            final(distances)@,
            final(indices)@,
            rows_of(queries@, tree.ndim as int).len() as int,
        ),
{
    let mut s: Scratch<S, B> = Scratch::new(tree.ndim, k);
    let n = queries.len() / tree.ndim;
    let ghost w = tree.ndim as int;
    let mut i: usize = 0;
    while i < n
        invariant
            run_ok(tree, queries@, params, k, distances@, indices@),
            K::suits(params.metric is LP, tree.ndim),
            n == rows_of(queries@, w).len(),
            w == tree.ndim,
            distances@.len() == old(distances)@.len(),
            indices@.len() == old(indices)@.len(),
            s.rests(tree.ndim, k as nat),
            i <= n,
            answered_upto(tree, queries@, params, k as nat, distances@, indices@, i as int),
        decreases n - i,
    {
        let ghost d0 = distances@;
        let ghost i0 = indices@;
        proof {
            lemma_row_at(d0, n as int, k as int, i as int);
            lemma_row_at(i0, n as int, k as int, i as int);
            assert(distances@.len() == distances.len());
        }
        let at = i * k;
        let ghost mut got_d: Seq<S> = d0;
        let ghost mut got_i: Seq<i64> = i0;
        {
            let (_, rest_d) = distances.split_at_mut(at);
            let (out_d, _) = rest_d.split_at_mut(k);
            let (_, rest_i) = indices.split_at_mut(at);
            let (out_i, _) = rest_i.split_at_mut(k);
            answer_one(tree, queries, params, strategy, i, &mut s, out_d, out_i);
            proof {
                got_d = out_d@;
                got_i = out_i@;
            }
        }
        proof {
            lemma_one_row_differs(d0, distances@, n as int, k as int, i as int);
            lemma_one_row_differs(i0, indices@, n as int, k as int, i as int);
            assert(distances@.subrange(at as int, at + k) =~= got_d);
            assert(indices@.subrange(at as int, at + k) =~= got_i);
            assert forall|j: int| 0 <= j < i + 1 implies #[trigger] params.ask(
                rows_of(queries@, w)[j],
                k as nat,
            ).answered_in(
                tree,
                rows_of(distances@, k as int)[j],
                rows_of(indices@, k as int)[j],
            ) by {
                if j < i {
                    assert(params.ask(rows_of(queries@, w)[j], k as nat).answered_in(
                        tree,
                        rows_of(d0, k as int)[j],
                        rows_of(i0, k as int)[j],
                    ));
                }
            }
        }
        i += 1;
    }
}

/// Answers every question, at least `min_len` of them per task.
///
/// Calls `for_each_init` of rayon on the chunks of `k` slots of `distances`,
/// zipped with those of `indices` and numbered. That runs the given function
/// once on every chunk, with its number, and hands it a scratch that was made by
/// the given initialiser and may have served other chunks since. The function is
/// [`answer_one`], which leaves a scratch as it found it, so what
/// [`answer_one`] ensures of one chunk holds of every chunk afterwards.
#[verifier::external_body]
fn answer_in_parallel<S: Scalar, B: Best<S>, K: Strategy>(
    tree: &Tree<S>,
    queries: &[S],
    k: usize,
    params: QueryParams<S>,
    strategy: K,
    min_len: usize,
    distances: &mut [S],
    indices: &mut [i64],
)
    requires
        run_ok(tree, queries@, params, k, old(distances)@, old(indices)@),
        K::suits(params.metric is LP, tree.ndim),
        B::keeps(k),
    ensures
        final(distances)@.len() == old(distances)@.len(),
        final(indices)@.len() == old(indices)@.len(),
        answered_upto(
            tree,
            queries@,
            params,
            k as nat,
            final(distances)@,
            final(indices)@,
            rows_of(queries@, tree.ndim as int).len() as int,
        ),
{
    distances
        .par_chunks_mut(k)
        .zip(indices.par_chunks_mut(k))
        .enumerate()
        .with_min_len(min_len)
        .for_each_init(
            || Scratch::<S, B>::new(tree.ndim, k),
            |s, (i, (out_d, out_i))| {
                answer_one(tree, queries, params, strategy, i, s, out_d, out_i)
            },
        );
}

/// A question can take well under a microsecond, so without a floor the cost of
/// a task would swamp the work in it.
const PARALLEL_QUERY_MIN_CHUNK: usize = 16;

/// Why a query is refused, if it is.
pub open spec fn query_refusal<S: Scalar>(
    ndim: usize,
    queries: Seq<S>,
    k: usize,
    p: S,
    max_distance: Option<S>,
    eps: S,
) -> Option<KDTreeError<S>> {
    let reach = reach_of(max_distance);
    if k == 0 {
        Some(KDTreeError::InvalidK)
    } else if queries.len() == 0 || queries.len() as int % ndim as int != 0 {
        Some(KDTreeError::InvalidShape("queries must be a contiguous row-major matrix"))
    } else if !all_finite_spec(queries) {
        Some(KDTreeError::NonFiniteData)
    } else if !finite(eps) || less(eps, S::zero_spec()) {
        Some(KDTreeError::InvalidEps(eps))
    } else if reach.nan() || less(reach, S::zero_spec()) {
        Some(KDTreeError::InvalidMaxDistance(reach))
    } else {
        match metric_of(p) {
            Ok(_) => None,
            Err(error) => Some(error),
        }
    }
}

/// How far a query looks: without a bound, any distance.
pub open spec fn reach_of<S: Scalar>(max_distance: Option<S>) -> S {
    match max_distance {
        Some(distance) => distance,
        None => S::infinity_spec(),
    }
}

/// The question that a query asks about the point `q`.
pub open spec fn question<S: Scalar>(
    q: Seq<S>,
    k: usize,
    p: S,
    max_distance: Option<S>,
    eps: S,
) -> Ask<S> {
    let m = metric_of(p)->Ok_0;
    Ask {
        m,
        q,
        k: k as nat,
        cutoff: m.reduce_spec(reach_of(max_distance)),
        factor: m.reduce_spec(S::one_spec().plus_spec(eps)),
    }
}

/// The slots hold what a search ends with, the distances in ascending order where
/// plain distances keep the order of reduced ones. That is an answer as far as the
/// bounds of the descent decide it; where they are sound, it is the nearest points
/// up to the factor, and without an `eps` the nearest points.
pub open spec fn responds<S: Scalar>(
    tree: &Tree<S>,
    ask: Ask<S>,
    eps: S,
    distances: Seq<S>,
    indices: Seq<i64>,
) -> bool {
    &&& ask.answered_in(tree, distances, indices)
    &&& restores_in_order(ask.m) ==> ascending(distances)
    &&& ask.answered(tree, ask.search(tree))
    &&& ask.sound(tree) ==> ask.nearly_nearest(tree, ask.search(tree))
    &&& ask.sound(tree) && eps.key() == S::zero_spec().key() ==> ask.nearest(
        tree,
        ask.search(tree),
    )
}

impl<S: Scalar> Tree<S> {
    /// The `k` points nearest to each of the `queries`, by the metric of exponent
    /// `p`: their distances and their row numbers, `k` slots per query, nearest
    /// first and of two at the same distance the smaller row number first. Slots
    /// without a point hold infinity and the number of points. Only points up to
    /// `max_distance` count. With `eps` above zero a point may be missed in favour
    /// of one that is at most `1 + eps` times as far. `parallel` spreads the
    /// questions over threads and changes nothing else.
    pub fn query(
        &self,
        queries: &[S],
        k: usize,
        p: S,
        max_distance: Option<S>,
        eps: S,
        parallel: bool,
    ) -> (r: Result<(Vec<S>, Vec<i64>), KDTreeError<S>>)
        requires
            lawful::<S>(),
            self.wf(),
            query_refusal(self.ndim, queries@, k, p, max_distance, eps) is None ==> rows_of(
                queries@,
                self.ndim as int,
            ).len() * k <= usize::MAX,
        ensures
            match r {
                Ok((distances, indices)) => {
                    let n = rows_of(queries@, self.ndim as int).len() as int;
                    &&& query_refusal(self.ndim, queries@, k, p, max_distance, eps) is None
                    &&& is_block(distances@, n, k as int)
                    &&& is_block(indices@, n, k as int)
                    &&& forall|i: int|
                        0 <= i < n ==> #[trigger] responds(
                            self,
                            question(
                                rows_of(queries@, self.ndim as int)[i],
                                k,
                                p,
                                max_distance,
                                eps,
                            ),
                            eps,
                            rows_of(distances@, k as int)[i],
                            rows_of(indices@, k as int)[i],
                        )
                },
                Err(error) => query_refusal(self.ndim, queries@, k, p, max_distance, eps) == Some(
                    error,
                ),
            },
    {
        if k == 0 {
            return Err(KDTreeError::InvalidK);
        }
        if queries.len() == 0 || queries.len() % self.ndim != 0 {
            return Err(KDTreeError::InvalidShape("queries must be a contiguous row-major matrix"));
        }
        if !all_finite(queries) {
            return Err(KDTreeError::NonFiniteData);
        }
        if !is_finite(eps) || eps.lt(S::zero()) {
            return Err(KDTreeError::InvalidEps(eps));
        }
        let reach = match max_distance {
            Some(distance) => distance,
            None => S::infinity(),
        };
        if !reach.le(reach) || reach.lt(S::zero()) {
            return Err(KDTreeError::InvalidMaxDistance(reach));
        }
        let metric = match Metric::new(p) {
            Ok(metric) => metric,
            Err(error) => {
                return Err(error);
            },
        };
        let params = QueryParams {
            cutoff: metric.reduce(reach),
            eps_factor: metric.reduce(S::one().plus(eps)).get(),
            metric,
        };

        let n_queries = queries.len() / self.ndim;
        proof {
            let w = self.ndim as int;
            vstd::arithmetic::div_mod::lemma_fundamental_div_mod(queries@.len() as int, w);
            assert(w * n_queries == n_queries * w) by (nonlinear_arith);
        }
        let mut distances = filled(n_queries * k, S::zero());
        let mut indices = filled(n_queries * k, 0i64);
        // The metric stays a value: only the strategy and the list of candidates
        // are chosen at compile time.
        if packs(metric, self.ndim) {
            self.run_best(queries, k, params, Packed, parallel, &mut distances, &mut indices);
        } else {
            self.run_best(queries, k, params, Streamed, parallel, &mut distances, &mut indices);
        }
        proof {
            assert forall|i: int| 0 <= i < n_queries implies #[trigger] responds(
                self,
                question(rows_of(queries@, self.ndim as int)[i], k, p, max_distance, eps),
                eps,
                rows_of(distances@, k as int)[i],
                rows_of(indices@, k as int)[i],
            ) by {
                let q = rows_of(queries@, self.ndim as int)[i];
                assert(params.ask(q, k as nat) == question(q, k, p, max_distance, eps));
                assert(params.ask(q, k as nat).answered_in(
                    self,
                    rows_of(distances@, k as int)[i],
                    rows_of(indices@, k as int)[i],
                ));
                lemma_row_at(queries@, n_queries as int, self.ndim as int, i);
                lemma_answer_is_nearest(self, q, k, p, max_distance, eps);
            }
        }
        Ok((distances, indices))
    }

    fn run_best<K: Strategy>(
        &self,
        queries: &[S],
        k: usize,
        params: QueryParams<S>,
        strategy: K,
        parallel: bool,
        distances: &mut [S],
        indices: &mut [i64],
    )
        requires
            run_ok(self, queries@, params, k, old(distances)@, old(indices)@),
            K::suits(params.metric is LP, self.ndim),
        ensures
            final(distances)@.len() == old(distances)@.len(),
            final(indices)@.len() == old(indices)@.len(),
            answered_upto(
                self,
                queries@,
                params,
                k as nat,
                final(distances)@,
                final(indices)@,
                rows_of(queries@, self.ndim as int).len() as int,
            ),
    {
        if k == 1 {
            self.run::<Best1<S>, K>(queries, k, params, strategy, parallel, distances, indices)
        } else {
            self.run::<BestK<S>, K>(queries, k, params, strategy, parallel, distances, indices)
        }
    }

    fn run<B: Best<S>, K: Strategy>(
        &self,
        queries: &[S],
        k: usize,
        params: QueryParams<S>,
        strategy: K,
        parallel: bool,
        distances: &mut [S],
        indices: &mut [i64],
    )
        requires
            run_ok(self, queries@, params, k, old(distances)@, old(indices)@),
            K::suits(params.metric is LP, self.ndim),
            B::keeps(k),
        ensures
            final(distances)@.len() == old(distances)@.len(),
            final(indices)@.len() == old(indices)@.len(),
            answered_upto(
                self,
                queries@,
                params,
                k as nat,
                final(distances)@,
                final(indices)@,
                rows_of(queries@, self.ndim as int).len() as int,
            ),
    {
        let n_queries = queries.len() / self.ndim;
        if parallel && n_queries > 1 {
            answer_in_parallel::<S, B, K>(
                self,
                queries,
                k,
                params,
                strategy,
                PARALLEL_QUERY_MIN_CHUNK,
                distances,
                indices,
            );
        } else {
            answer_in_turn::<S, B, K>(self, queries, k, params, strategy, distances, indices);
        }
    }
}

/// Two runs over the same questions leave the same slots, whatever the slots held
/// before and on however many threads the questions were answered: every slot is
/// written, and what question `i` leaves depends on question `i` only.
pub proof fn two_runs_leave_the_same_slots<S: Scalar>(
    tree: &Tree<S>,
    queries: Seq<S>,
    params: QueryParams<S>,
    k: nat,
    one: (Seq<S>, Seq<i64>),
    other: (Seq<S>, Seq<i64>),
)
    requires
        k > 0,
        is_block(one.0, rows_of(queries, tree.ndim as int).len() as int, k as int),
        is_block(one.1, rows_of(queries, tree.ndim as int).len() as int, k as int),
        is_block(other.0, rows_of(queries, tree.ndim as int).len() as int, k as int),
        is_block(other.1, rows_of(queries, tree.ndim as int).len() as int, k as int),
        answered_upto(
            tree,
            queries,
            params,
            k,
            one.0,
            one.1,
            rows_of(queries, tree.ndim as int).len() as int,
        ),
        answered_upto(
            tree,
            queries,
            params,
            k,
            other.0,
            other.1,
            rows_of(queries, tree.ndim as int).len() as int,
        ),
    ensures
        one.0 == other.0,
        one.1 == other.1,
{
    let (n, w) = (rows_of(queries, tree.ndim as int).len() as int, k as int);
    lemma_block_len(one.0, n, w);
    lemma_block_len(one.1, n, w);
    lemma_block_len(other.0, n, w);
    lemma_block_len(other.1, n, w);
    assert forall|i: int|
        #![trigger rows_of(one.0, w)[i]]
        #![trigger rows_of(one.1, w)[i]]
        0 <= i < n implies rows_of(one.0, w)[i] == rows_of(other.0, w)[i] && rows_of(one.1, w)[i]
        == rows_of(other.1, w)[i] by {
        let ask = params.ask(rows_of(queries, tree.ndim as int)[i], k);
        assert(ask.answered_in(tree, rows_of(one.0, w)[i], rows_of(one.1, w)[i]));
        assert(ask.answered_in(tree, rows_of(other.0, w)[i], rows_of(other.1, w)[i]));
    }
    assert(rows_of(one.0, w) =~= rows_of(other.0, w));
    assert(rows_of(one.1, w) =~= rows_of(other.1, w));
    lemma_rows_determine(one.0, other.0, n, w);
    lemma_rows_determine(one.1, other.1, n, w);
}

/// Without a `max_distance`, a query with an `eps` above zero keeps pace with one
/// without: as many points, which are all of them or `k`, none nearer than the exact
/// one at its place and none further than the factor times as far. Where reduced
/// distances are the plain ones, the factor is `1 + eps`.
pub proof fn an_approximate_query_keeps_pace<S: Scalar>(
    tree: &Tree<S>,
    q: Seq<S>,
    k: usize,
    p: S,
    eps: S,
    zero: S,
)
    requires
        lawful::<S>(),
        tree.wf(),
        metric_of(p) is Ok,
        k > 0,
        q.len() == tree.ndim,
        all_finite_spec(q),
        nonneg(eps),
        nonneg(zero),
        zero.key() == S::zero_spec().key(),
        question(q, k, p, None, eps).sound(tree),
        question(q, k, p, None, zero).sound(tree),
    ensures
        ({
            let ask = question(q, k, p, None, eps);
            let (x, y) = (ask.search(tree), question(q, k, p, None, zero).search(tree));
            &&& x.len() == y.len()
            &&& x.len() == if tree.n_points < k {
                tree.n_points as nat
            } else {
                k as nat
            }
            &&& forall|j: int|
                0 <= j < x.len() ==> y[j].dist.value.key() <= (#[trigger] x[j]).dist.value.key()
                    && x[j].dist.value.key() <= y[j].dist.value.times_spec(ask.factor).key()
            &&& restores_in_order(ask.m) ==> forall|j: int|
                0 <= j < k ==> at_most(
                    distances_of(y, k as nat, ask.m)[j],
                    #[trigger] distances_of(x, k as nat, ask.m)[j],
                )
            &&& restores_in_order(ask.m) ==> forall|j: int|
                0 <= j < x.len() ==> at_most(
                    #[trigger] distances_of(x, k as nat, ask.m)[j],
                    ask.m.restore_spec(y[j].dist.value.times_spec(ask.factor)),
                )
            &&& ask.m is L1 || ask.m is LInf ==> forall|j: int|
                0 <= j < x.len() ==> at_most(
                    #[trigger] distances_of(x, k as nat, ask.m)[j],
                    distances_of(y, k as nat, ask.m)[j].times_spec(S::one_spec().plus_spec(eps)),
                )
        }),
{
    let (ask, exact) = (question(q, k, p, None, eps), question(q, k, p, None, zero));
    lemma_no_limit(ask.m);
    lemma_no_eps(exact.m, zero);
    an_open_question_reaches_everything(ask, tree);
    an_approximate_search_keeps_pace(ask, exact, tree);
}

/// Without a `max_distance`, a query returns as many points as are asked for, or all
/// of them, wherever no bound of the descent is a nan: in arithmetic that rounds too.
pub proof fn a_query_without_a_limit_is_full<S: Scalar>(
    tree: &Tree<S>,
    q: Seq<S>,
    k: usize,
    p: S,
    eps: S,
)
    requires
        lawful::<S>(),
        tree.wf(),
        metric_of(p) is Ok,
        k > 0,
        q.len() == tree.ndim,
        all_finite_spec(q),
        finite(question(q, k, p, None, eps).factor),
        at_most(S::one_spec(), question(q, k, p, None, eps).factor),
        bounds_are_numbers(question(q, k, p, None, eps), tree),
    ensures
        ({
            let x = question(q, k, p, None, eps).search(tree);
            let n = if tree.n_points < k {
                tree.n_points as int
            } else {
                k as int
            };
            &&& x.len() == n
            &&& forall|j: int|
                0 <= j < k ==> (#[trigger] indices_of(x, k as nat, tree.n_points as int)[j]
                    < tree.n_points <==> j < n)
        }),
{
    let ask = question(q, k, p, None, eps);
    let x = ask.search(tree);
    lemma_no_limit(ask.m);
    an_open_search_is_full(ask, tree);
    a_search_ends_with_an_answer(ask, tree);
    assert forall|j: int| 0 <= j < k implies (#[trigger] indices_of(
        x,
        k as nat,
        tree.n_points as int,
    )[j] < tree.n_points <==> j < x.len()) by {
        if j < x.len() {
            assert(ask.made(tree, x[j], 0, tree.n_points as int));
            let pos = choose|pos: int|
                0 <= pos < tree.n_points && #[trigger] ask.hit(tree, pos) == x[j]
                    && x[j].dist.value.key() <= ask.cutoff.key();
            assert(tree.indices@[pos] < tree.n_points);
        }
    }
}

/// Without a `max_distance`, the cutoff is infinite.
pub proof fn lemma_no_limit<S: Scalar>(m: Metric<S>)
    requires
        lawful::<S>(),
        m.valid(),
    ensures
        nonneg(m.reduce_spec(S::infinity_spec())),
        m.reduce_spec(S::infinity_spec()).key() == S::infinity_spec().key(),
{
    reveal(orderly);
    let inf = S::infinity_spec();
    assert(nonneg(inf.times_spec(inf)));
}

/// Without an `eps`, bounds count once.
pub proof fn lemma_no_eps<S: Scalar>(m: Metric<S>, eps: S)
    requires
        lawful::<S>(),
        m.valid(),
        nonneg(eps),
        eps.key() == S::zero_spec().key(),
    ensures
        !m.reduce_spec(S::one_spec().plus_spec(eps)).nan(),
        m.reduce_spec(S::one_spec().plus_spec(eps)).key() == S::one_spec().key(),
{
    reveal(orderly);
    let one = S::one_spec();
    let whole = one.plus_spec(eps);
    assert(whole.key() == one.key());
    assert(at_most(one, whole));
    assert(one.times_spec(one).key() == one.key());
    assert(whole.times_spec(whole).key() <= one.times_spec(one).key());
    assert(one.times_spec(one).key() <= whole.times_spec(whole).key());
    assert(nonneg(whole.times_spec(whole)));
}

/// An answer of a query is exact wherever its bounds are sound.
proof fn lemma_answer_is_nearest<S: Scalar>(
    tree: &Tree<S>,
    q: Seq<S>,
    k: usize,
    p: S,
    max_distance: Option<S>,
    eps: S,
)
    requires
        lawful::<S>(),
        tree.wf(),
        question(q, k, p, max_distance, eps).valid(tree),
        metric_of(p) is Ok,
        finite(eps),
        nonneg(eps),
    ensures
        ({
            let ask = question(q, k, p, max_distance, eps);
            &&& restores_in_order(ask.m) ==> ascending(
                distances_of(ask.search(tree), ask.k, ask.m),
            )
            &&& ask.answered(tree, ask.search(tree))
            &&& ask.sound(tree) ==> ask.nearly_nearest(tree, ask.search(tree))
            &&& ask.sound(tree) && eps.key() == S::zero_spec().key() ==> ask.nearest(
                tree,
                ask.search(tree),
            )
        }),
{
    let ask = question(q, k, p, max_distance, eps);
    a_search_ends_with_an_answer(ask, tree);
    if restores_in_order(ask.m) {
        answers_come_nearest_first(ask, tree, ask.search(tree));
    }
    if ask.sound(tree) {
        if eps.key() == S::zero_spec().key() {
            lemma_no_eps(ask.m, eps);
        }
        a_sound_search_finds_the_nearest(ask, tree);
    }
}

} // verus!
