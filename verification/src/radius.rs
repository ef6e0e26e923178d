//! All points within a radius.

use crate::distance::{box_dist, box_dist_spec, fold_scalar, lemma_box_below_row,
    lemma_box_dist_nonneg, lemma_reduce_monotone, lemma_row_dist_nonneg, monotone, row_dist};
use crate::error::KDTreeError;
use crate::kernel::all_finite;
use crate::layout::{hi_of, is_block, lemma_block_len, lemma_row_at, lo_of, point, rows_of};
use crate::metric::{metric_of, Dist, Metric};
use crate::node::Node;
use crate::perm::{lemma_same_items_contains, lemma_same_items_distinct, same_items};
use crate::scalar::{all_finite_spec, at_most, finite, is_finite, lawful, less, nonneg, Scalar};
use crate::tree::{lemma_box_valid, lemma_children, lemma_row_of_tree, Tree, ROOT};
use core::cmp::Ordering;
use rayon::iter::{IntoParallelIterator, ParallelIterator};
use vstd::prelude::*;

verus! {

/// The distance from a point to the tight box of a node.
pub open spec fn box_gate<S: Scalar>(m: Metric<S>, q: Seq<S>, tree: &Tree<S>, id: int) -> S {
    box_dist_spec(
        m,
        q,
        lo_of(tree.boxes@[id], tree.ndim as int),
        hi_of(tree.boxes@[id], tree.ndim as int),
    )
}

/// No point of a node is nearer than the box of the node.
proof fn lemma_box_gate_below<S: Scalar>(
    m: Metric<S>,
    q: Seq<S>,
    tree: &Tree<S>,
    id: int,
    first: int,
    len: int,
    pos: int,
)
    requires
        lawful::<S>(),
        tree.wf(),
        m.valid(),
        monotone(m),
        q.len() == tree.ndim,
        all_finite_spec(q),
        tree.node_ok(id, first, len),
        first <= pos < first + len,
    ensures
        nonneg(box_gate(m, q, tree, id)),
        at_most(box_gate(m, q, tree, id), row_dist(m, q, tree.rows()[pos])),
{
    let w = tree.ndim as int;
    let (lo, hi) = (lo_of(tree.boxes@[id], w), hi_of(tree.boxes@[id], w));
    lemma_block_len(tree.data@, tree.n_points as int, w);
    lemma_box_valid(tree, id, first, len);
    lemma_row_of_tree(tree, pos);
    lemma_box_dist_nonneg(m, q, lo, hi, w);
    let row = tree.rows()[pos];
    assert forall|d: int| 0 <= d < q.len() implies lo[d].key() <= (#[trigger] row[d]).key()
        <= hi[d].key() by {
        assert(lo[d].key() <= tree.rows()[pos][d].key() <= hi[d].key());
    }
    lemma_box_below_row(m, q, lo, hi, row, w);
}

/// A ball: the points whose reduced distance to `q` is at most `radius`.
pub struct Ball<S> {
    pub m: Metric<S>,
    pub q: Seq<S>,
    pub radius: S,
}

impl<S: Scalar> Ball<S> {
    pub open spec fn valid(self, tree: &Tree<S>) -> bool {
        &&& self.m.valid()
        &&& self.q.len() == tree.ndim
        &&& all_finite_spec(self.q)
        &&& nonneg(self.radius)
    }

    pub open spec fn dist(self, tree: &Tree<S>, pos: int) -> S {
        row_dist(self.m, self.q, tree.rows()[pos])
    }

    /// The point at `pos` lies in the ball.
    pub open spec fn holds(self, tree: &Tree<S>, pos: int) -> bool {
        at_most(self.dist(tree, pos), self.radius)
    }

    /// The positions from `a` up to `b` that lie in the ball, in order.
    pub open spec fn in_run(self, tree: &Tree<S>, a: int, b: int) -> Seq<int>
        decreases b - a,
    {
        if b <= a {
            Seq::empty()
        } else if self.holds(tree, b - 1) {
            self.in_run(tree, a, b - 1).push(b - 1)
        } else {
            self.in_run(tree, a, b - 1)
        }
    }

    /// The positions that a visit of node `id` finds: none if its box is beyond
    /// the radius, else those of its right subtree and then of its left one.
    pub open spec fn found(self, tree: &Tree<S>, id: int, first: int, len: int) -> Seq<int>
        decreases len,
    {
        if less(self.radius, box_gate(self.m, self.q, tree, id)) {
            Seq::empty()
        } else if len <= tree.leafsize || len <= 1 {
            self.in_run(tree, first, first + len)
        } else {
            match tree.nodes@[id] {
                Node::Leaf { .. } => Seq::empty(),
                Node::Inner { left, right, .. } => self.found(
                    tree,
                    right as int,
                    first + len / 2,
                    len - len / 2,
                ) + self.found(tree, left as int, first, len / 2),
            }
        }
    }

    /// The positions that a search finds.
    pub open spec fn found_in(self, tree: &Tree<S>) -> Seq<int> {
        self.found(tree, 0, 0, tree.n_points as int)
    }

    /// The row number and the plain distance of a point.
    pub open spec fn entry(self, tree: &Tree<S>, pos: int) -> (usize, S) {
        (tree.indices@[pos] as usize, self.m.restore_spec(self.dist(tree, pos)))
    }

    /// The row numbers and plain distances of positions.
    pub open spec fn entries(self, tree: &Tree<S>, positions: Seq<int>) -> Seq<(usize, S)> {
        positions.map_values(|pos: int| self.entry(tree, pos))
    }
}

/// What a search finds lies in the ball, each point once and in the range that
/// was visited.
pub proof fn found_points_are_in_the_ball<S: Scalar>(
    ball: Ball<S>,
    tree: &Tree<S>,
    id: int,
    first: int,
    len: int,
)
    requires
        tree.wf(),
        tree.node_ok(id, first, len),
    ensures
        ball.found(tree, id, first, len).no_duplicates(),
        forall|i: int|
            0 <= i < ball.found(tree, id, first, len).len() ==> first <= (#[trigger] ball.found(
                tree,
                id,
                first,
                len,
            )[i]) < first + len && ball.holds(tree, ball.found(tree, id, first, len)[i]),
    decreases len,
{
    lemma_children(tree, id, first, len);
    if less(ball.radius, box_gate(ball.m, ball.q, tree, id)) {
    } else if len <= tree.leafsize || len <= 1 {
        lemma_in_run(ball, tree, first, first + len);
    } else {
        match tree.nodes@[id] {
            Node::Leaf { .. } => {},
            Node::Inner { left, right, .. } => {
                let mid = len / 2;
                found_points_are_in_the_ball(ball, tree, left as int, first, mid);
                found_points_are_in_the_ball(ball, tree, right as int, first + mid, len - mid);
                let r = ball.found(tree, right as int, first + mid, len - mid);
                let l = ball.found(tree, left as int, first, mid);
                assert forall|i: int| 0 <= i < (r + l).len() implies first <= (#[trigger] (r
                    + l)[i]) < first + len && ball.holds(tree, (r + l)[i]) by {
                    if i >= r.len() {
                        assert((r + l)[i] == l[i - r.len()]);
                    }
                }
                assert forall|i: int, j: int|
                    0 <= i < (r + l).len() && 0 <= j < (r + l).len() && i != j implies (r + l)[i]
                    != (r + l)[j] by {
                    if i >= r.len() {
                        assert((r + l)[i] == l[i - r.len()]);
                    } else {
                        assert((r + l)[i] == r[i]);
                    }
                    if j >= r.len() {
                        assert((r + l)[j] == l[j - r.len()]);
                    } else {
                        assert((r + l)[j] == r[j]);
                    }
                }
            },
        }
    }
}

proof fn lemma_in_run<S: Scalar>(ball: Ball<S>, tree: &Tree<S>, a: int, b: int)
    requires
        a <= b,
    ensures
        ball.in_run(tree, a, b).no_duplicates(),
        forall|i: int|
            0 <= i < ball.in_run(tree, a, b).len() ==> a <= (#[trigger] ball.in_run(
                tree,
                a,
                b,
            )[i]) < b && ball.holds(tree, ball.in_run(tree, a, b)[i]),
        forall|pos: int|
            a <= pos < b && #[trigger] ball.holds(tree, pos) ==> ball.in_run(tree, a, b).contains(
                pos,
            ),
    decreases b - a,
{
    if a < b {
        lemma_in_run(ball, tree, a, b - 1);
        let rest = ball.in_run(tree, a, b - 1);
        let all = ball.in_run(tree, a, b);
        assert forall|pos: int| a <= pos < b && #[trigger] ball.holds(
            tree,
            pos,
        ) implies all.contains(pos) by {
            if pos < b - 1 {
                let i = choose|i: int| 0 <= i < rest.len() && rest[i] == pos;
                assert(all[i] == pos);
            } else {
                assert(all[rest.len() as int] == pos);
            }
        }
    }
}

/// A search by a metric that keeps the order of plain distances finds every point
/// of the ball.
pub proof fn every_point_in_the_ball_is_found<S: Scalar>(
    ball: Ball<S>,
    tree: &Tree<S>,
    id: int,
    first: int,
    len: int,
    pos: int,
)
    requires
        lawful::<S>(),
        tree.wf(),
        ball.valid(tree),
        monotone(ball.m),
        tree.node_ok(id, first, len),
        first <= pos < first + len,
        ball.holds(tree, pos),
    ensures
        ball.found(tree, id, first, len).contains(pos),
    decreases len,
{
    lemma_children(tree, id, first, len);
    lemma_box_gate_below(ball.m, ball.q, tree, id, first, len, pos);
    if len <= tree.leafsize || len <= 1 {
        lemma_in_run(ball, tree, first, first + len);
    } else {
        match tree.nodes@[id] {
            Node::Leaf { .. } => {},
            Node::Inner { left, right, .. } => {
                let mid = len / 2;
                let r = ball.found(tree, right as int, first + mid, len - mid);
                let l = ball.found(tree, left as int, first, mid);
                if pos < first + mid {
                    every_point_in_the_ball_is_found(ball, tree, left as int, first, mid, pos);
                    let i = choose|i: int| 0 <= i < l.len() && l[i] == pos;
                    assert((r + l)[r.len() + i] == pos);
                } else {
                    every_point_in_the_ball_is_found(
                        ball,
                        tree,
                        right as int,
                        first + mid,
                        len - mid,
                        pos,
                    );
                    let i = choose|i: int| 0 <= i < r.len() && r[i] == pos;
                    assert((r + l)[i] == pos);
                }
            },
        }
    }
}

proof fn lemma_entries_concat<S: Scalar>(
    ball: Ball<S>,
    tree: &Tree<S>,
    a: Seq<int>,
    b: Seq<int>,
)
    ensures
        ball.entries(tree, a + b) == ball.entries(tree, a) + ball.entries(tree, b),
{
    assert(ball.entries(tree, a + b) =~= ball.entries(tree, a) + ball.entries(tree, b));
}

/// The place of an entry: nearer first, of two at the same distance the smaller
/// row number.
pub open spec fn entry_before<S: Scalar>(a: (usize, S), b: (usize, S)) -> bool {
    a.1.key() < b.1.key() || (a.1.key() == b.1.key() && a.0 <= b.0)
}

/// Nearest first, those at the same distance in the order of their row numbers.
pub open spec fn in_order<S: Scalar>(entries: Seq<(usize, S)>) -> bool {
    forall|i: int, j: int|
        0 <= i < j < entries.len() ==> entry_before(#[trigger] entries[i], #[trigger] entries[j])
}

/// Compares two entries whose distances are no nan.
fn compare_entries<S: Scalar>(a: &(usize, S), b: &(usize, S)) -> (r: Ordering)
    ensures
        !a.1.nan() && !b.1.nan() ==> match r {
            Ordering::Less => entry_before(*a, *b) && *a != *b,
            Ordering::Equal => a.0 == b.0 && a.1.key() == b.1.key(),
            Ordering::Greater => entry_before(*b, *a) && *a != *b,
        },
{
    if a.1.lt(b.1) {
        Ordering::Less
    } else if b.1.lt(a.1) {
        Ordering::Greater
    } else if a.0 < b.0 {
        Ordering::Less
    } else if b.0 < a.0 {
        Ordering::Greater
    } else {
        Ordering::Equal
    }
}

/// Calls `sort_by` of slices, which rearranges the slice into the order of the
/// given comparison. It may panic if the comparison is no total order, which
/// [`compare_entries`] is of entries whose distances are no nan.
#[verifier::external_body]
fn sort_entries<S: Scalar>(entries: &mut Vec<(usize, S)>)
    requires
        forall|i: int| 0 <= i < old(entries)@.len() ==> !(#[trigger] old(entries)@[i]).1.nan(),
    ensures
        same_items(old(entries)@, final(entries)@),
        in_order(final(entries)@),
{
    entries.sort_by(|a, b| compare_entries(a, b));
}

/// Why a radius query is refused, if it is.
pub open spec fn radius_refusal<S: Scalar>(
    ndim: usize,
    query: Seq<S>,
    radius: S,
    p: S,
) -> Option<KDTreeError<S>> {
    if query.len() != ndim {
        Some(KDTreeError::DimensionMismatch { expected: ndim, got: query.len() as usize })
    } else if !all_finite_spec(query) {
        Some(KDTreeError::NonFiniteData)
    } else if !finite(radius) || less(radius, S::zero_spec()) {
        Some(KDTreeError::InvalidRadius(radius))
    } else {
        match metric_of(p) {
            Ok(_) => None,
            Err(error) => Some(error),
        }
    }
}

/// The ball that a radius query asks about.
pub open spec fn ball_of<S: Scalar>(query: Seq<S>, radius: S, p: S) -> Ball<S> {
    let m = metric_of(p)->Ok_0;
    Ball { m, q: query, radius: m.reduce_spec(radius) }
}

/// Two parallel sequences as one.
pub open spec fn zipped<S>(indices: Seq<usize>, distances: Seq<S>) -> Seq<(usize, S)> {
    Seq::new(indices.len(), |i: int| (indices[i], distances[i]))
}

/// The entries of the points that a search of the ball finds, in the order of the
/// visit or sorted. By a metric that keeps the order of plain distances those are
/// all points of the ball.
pub open spec fn reports<S: Scalar>(
    ball: Ball<S>,
    tree: &Tree<S>,
    sort: bool,
    indices: Seq<usize>,
    distances: Seq<S>,
) -> bool {
    let entries = ball.entries(tree, ball.found_in(tree));
    &&& indices.len() == distances.len()
    &&& if sort {
        same_items(entries, zipped(indices, distances)) && in_order(zipped(indices, distances))
    } else {
        zipped(indices, distances) == entries
    }
    &&& ball.found_in(tree).no_duplicates()
    &&& forall|i: int|
        0 <= i < ball.found_in(tree).len() ==> 0 <= (#[trigger] ball.found_in(tree)[i])
            < tree.n_points && ball.holds(tree, ball.found_in(tree)[i])
    &&& monotone(ball.m) ==> forall|pos: int|
        0 <= pos < tree.n_points && ball.holds(tree, pos) ==> #[trigger] ball.found_in(
            tree,
        ).contains(pos)
}

/// What a radius query returns.
pub open spec fn radius_outcome<S: Scalar>(
    tree: &Tree<S>,
    query: Seq<S>,
    radius: S,
    p: S,
    sort: bool,
    r: Result<(Vec<usize>, Vec<S>), KDTreeError<S>>,
) -> bool {
    match r {
        Ok((indices, distances)) => {
            &&& radius_refusal(tree.ndim, query, radius, p) is None
            &&& reports(ball_of(query, radius, p), tree, sort, indices@, distances@)
        },
        Err(error) => radius_refusal(tree.ndim, query, radius, p) == Some(error),
    }
}

impl<S: Scalar> Tree<S> {
    /// The row numbers and distances of the points within `radius` of `query`, by
    /// the metric of exponent `p`; with `sort`, nearest first and those at the
    /// same distance in the order of their row numbers.
    pub fn query_radius_one(&self, query: &[S], radius: S, p: S, sort: bool) -> (r: Result<
        (Vec<usize>, Vec<S>),
        KDTreeError<S>,
    >)
        requires
            lawful::<S>(),
            self.wf(),
        ensures
            radius_outcome(self, query@, radius, p, sort, r),
    {
        if query.len() != self.ndim {
            return Err(KDTreeError::DimensionMismatch { expected: self.ndim, got: query.len() });
        }
        if !all_finite(query) {
            return Err(KDTreeError::NonFiniteData);
        }
        if !is_finite(radius) || radius.lt(S::zero()) {
            return Err(KDTreeError::InvalidRadius(radius));
        }
        let metric = match Metric::new(p) {
            Ok(metric) => metric,
            Err(error) => {
                return Err(error);
            },
        };
        let reach = metric.reduce(radius);
        let ghost ball = ball_of(query@, radius, p);
        let mut entries: Vec<(usize, S)> = Vec::new();
        self.collect_ball(
            ROOT,
            metric,
            query,
            reach,
            &mut entries,
            Ghost(0int),
            Ghost(self.n_points as int),
        );
        proof {
            lemma_search(ball, self);
            assert(entries@ =~= ball.entries(self, ball.found_in(self)));
        }
        if sort {
            sort_entries(&mut entries);
        }
        let mut indices: Vec<usize> = Vec::with_capacity(entries.len());
        let mut distances: Vec<S> = Vec::with_capacity(entries.len());
        let mut i: usize = 0;
        while i < entries.len()
            invariant
                i <= entries@.len(),
                indices@.len() == i,
                distances@.len() == i,
                forall|j: int| 0 <= j < i ==> #[trigger] indices@[j] == entries@[j].0,
                forall|j: int| 0 <= j < i ==> #[trigger] distances@[j] == entries@[j].1,
            decreases entries@.len() - i,
        {
            indices.push(entries[i].0);
            distances.push(entries[i].1);
            i += 1;
        }
        assert(zipped(indices@, distances@) =~= entries@);
        Ok((indices, distances))
    }

    /// Appends the entries of the points in the ball among those of node `id`, in
    /// the order of the visit.
    fn collect_ball(
        &self,
        id: u32,
        metric: Metric<S>,
        query: &[S],
        reach: Dist<S>,
        entries: &mut Vec<(usize, S)>,
        Ghost(first): Ghost<int>,
        Ghost(len): Ghost<int>,
    )
        requires
            lawful::<S>(),
            self.wf(),
            (Ball { m: metric, q: query@, radius: reach.value }).valid(self),
            self.node_ok(id as int, first, len),
            forall|i: int| 0 <= i < old(entries)@.len() ==> !(#[trigger] old(entries)@[i]).1.nan(),
        ensures
            final(entries)@ == old(entries)@ + (Ball {
                m: metric,
                q: query@,
                radius: reach.value,
            }).entries(
                self,
                (Ball { m: metric, q: query@, radius: reach.value }).found(
                    self,
                    id as int,
                    first,
                    len,
                ),
            ),
            forall|i: int|
                0 <= i < final(entries)@.len() ==> !(#[trigger] final(entries)@[i]).1.nan(),
        decreases len,
    {
        let ghost ball = Ball { m: metric, q: query@, radius: reach.value };
        let ghost before = entries@;
        proof {
            lemma_block_len(self.data@, self.n_points as int, self.ndim as int);
            lemma_box_valid(self, id as int, first, len);
            lemma_children(self, id as int, first, len);
        }
        if reach.lt(box_dist(metric, query, self.box_of(id))) {
            assert(entries@ =~= before + ball.entries(
                self,
                ball.found(self, id as int, first, len),
            ));
            return;
        }
        match self.node(id) {
            Node::Leaf { start, end } => {
                self.collect_leaf(
                    metric,
                    query,
                    reach,
                    start as usize,
                    end as usize,
                    entries,
                );
            },
            Node::Inner { left, right, .. } => {
                let ghost mid = len / 2;
                self.collect_ball(
                    right,
                    metric,
                    query,
                    reach,
                    entries,
                    Ghost(first + mid),
                    Ghost(len - mid),
                );
                self.collect_ball(left, metric, query, reach, entries, Ghost(first), Ghost(mid));
                proof {
                    let r = ball.found(self, right as int, first + mid, len - mid);
                    let l = ball.found(self, left as int, first, mid);
                    lemma_entries_concat(ball, self, r, l);
                    assert(before + (ball.entries(self, r) + ball.entries(self, l))
                        =~= before + ball.entries(self, r) + ball.entries(self, l));
                }
            },
        }
    }

    /// Appends the entries of the points in the ball among the positions from
    /// `start` up to `end`.
    fn collect_leaf(
        &self,
        metric: Metric<S>,
        query: &[S],
        reach: Dist<S>,
        start: usize,
        end: usize,
        entries: &mut Vec<(usize, S)>,
    )
        requires
            lawful::<S>(),
            self.wf(),
            start <= end <= self.n_points,
            (Ball { m: metric, q: query@, radius: reach.value }).valid(self),
            forall|i: int| 0 <= i < old(entries)@.len() ==> !(#[trigger] old(entries)@[i]).1.nan(),
        ensures
            final(entries)@ == old(entries)@ + (Ball {
                m: metric,
                q: query@,
                radius: reach.value,
            }).entries(
                self,
                (Ball { m: metric, q: query@, radius: reach.value }).in_run(
                    self,
                    start as int,
                    end as int,
                ),
            ),
            forall|i: int|
                0 <= i < final(entries)@.len() ==> !(#[trigger] final(entries)@[i]).1.nan(),
    {
        let ghost ball = Ball { m: metric, q: query@, radius: reach.value };
        let ghost before = entries@;
        let mut pos = start;
        assert(before + ball.entries(self, ball.in_run(self, start as int, start as int))
            =~= before);
        while pos < end
            invariant
                lawful::<S>(),
                self.wf(),
                start <= pos <= end <= self.n_points,
                ball.valid(self),
                ball == (Ball { m: metric, q: query@, radius: reach.value }),
                entries@ == before + ball.entries(self, ball.in_run(self, start as int, pos as int)),
                forall|i: int| 0 <= i < entries@.len() ==> !(#[trigger] entries@[i]).1.nan(),
            decreases end - pos,
        {
            proof {
                lemma_row_of_tree(self, pos as int);
                lemma_row_dist_nonneg(metric, query@, self.rows()[pos as int]);
                assert(self.rows().subrange(pos as int, pos + 1)[0] == self.rows()[pos as int]);
            }
            let dist = fold_scalar(metric, Dist::zero(), query, self.block(pos, pos + 1).row(0));
            if dist.le(reach) {
                entries.push((self.indices[pos] as usize, metric.restore(dist)));
            }
            proof {
                assert(entries@ =~= before + ball.entries(
                    self,
                    ball.in_run(self, start as int, pos + 1),
                ));
            }
            pos += 1;
        }
    }
}

/// What a search finds, in one statement.
proof fn lemma_search<S: Scalar>(ball: Ball<S>, tree: &Tree<S>)
    requires
        lawful::<S>(),
        tree.wf(),
        ball.valid(tree),
    ensures
        ball.found_in(tree).no_duplicates(),
        forall|i: int|
            0 <= i < ball.found_in(tree).len() ==> 0 <= (#[trigger] ball.found_in(tree)[i])
                < tree.n_points && ball.holds(tree, ball.found_in(tree)[i]),
        monotone(ball.m) ==> forall|pos: int|
            0 <= pos < tree.n_points && ball.holds(tree, pos) ==> #[trigger] ball.found_in(
                tree,
            ).contains(pos),
{
    let n = tree.n_points as int;
    found_points_are_in_the_ball(ball, tree, 0, 0, n);
    if monotone(ball.m) {
        assert forall|pos: int| 0 <= pos < n && ball.holds(
            tree,
            pos,
        ) implies #[trigger] ball.found_in(tree).contains(pos) by {
            every_point_in_the_ball_is_found(ball, tree, 0, 0, n, pos);
        }
    }
}

/// Why a radius query about many points is refused, if it is: for the shape of
/// the questions, or for the first question that is refused.
pub open spec fn radius_many_refusal<S: Scalar>(
    ndim: usize,
    queries: Seq<S>,
    n_queries: usize,
    radius: S,
    p: S,
) -> Option<KDTreeError<S>> {
    if queries.len() != n_queries * ndim {
        Some(KDTreeError::InvalidShape("queries must be a contiguous row-major matrix"))
    } else {
        first_refusal(ndim, rows_of(queries, ndim as int), radius, p, n_queries as int)
    }
}

/// The refusal of the first of `n` questions that is refused.
pub open spec fn first_refusal<S: Scalar>(
    ndim: usize,
    rows: Seq<Seq<S>>,
    radius: S,
    p: S,
    n: int,
) -> Option<KDTreeError<S>>
    decreases n,
{
    if n <= 0 {
        None
    } else {
        match first_refusal(ndim, rows, radius, p, n - 1) {
            Some(error) => Some(error),
            None => radius_refusal(ndim, rows[n - 1], radius, p),
        }
    }
}

proof fn lemma_first_refusal_stays<S: Scalar>(
    ndim: usize,
    rows: Seq<Seq<S>>,
    radius: S,
    p: S,
    i: int,
    n: int,
)
    requires
        0 <= i <= n,
        first_refusal(ndim, rows, radius, p, i) is Some,
    ensures
        first_refusal(ndim, rows, radius, p, n) == first_refusal(ndim, rows, radius, p, i),
    decreases n,
{
    if i < n {
        lemma_first_refusal_stays(ndim, rows, radius, p, i, n - 1);
    }
}

/// Answers every question, possibly at the same time on several threads.
///
/// Calls `map` of rayon on the numbers from zero up to `n_queries` and collects
/// the results into a vector. That applies the given function once to every
/// number, and the vector holds the results in the order of the numbers. The
/// function is [`Tree::radius_at`], so every result is as that ensures.
#[verifier::external_body]
fn radius_in_parallel<S: Scalar>(
    tree: &Tree<S>,
    queries: &[S],
    n_queries: usize,
    radius: S,
    p: S,
    sort: bool,
) -> (r: Vec<Result<(Vec<usize>, Vec<S>), KDTreeError<S>>>)
    requires
        lawful::<S>(),
        tree.wf(),
        is_block(queries@, n_queries as int, tree.ndim as int),
    ensures
        r@.len() == n_queries,
        forall|i: int|
            0 <= i < n_queries ==> radius_outcome(
                tree,
                rows_of(queries@, tree.ndim as int)[i],
                radius,
                p,
                sort,
                #[trigger] r@[i],
            ),
{
    (0..n_queries).into_par_iter().map(|i| tree.radius_at(queries, i, radius, p, sort)).collect()
}

impl<S: Scalar> Tree<S> {
    /// Answers question `i`.
    fn radius_at(&self, queries: &[S], i: usize, radius: S, p: S, sort: bool) -> (r: Result<
        (Vec<usize>, Vec<S>),
        KDTreeError<S>,
    >)
        requires
            lawful::<S>(),
            self.wf(),
            is_block(
                queries@,
                rows_of(queries@, self.ndim as int).len() as int,
                self.ndim as int,
            ),
            i < rows_of(queries@, self.ndim as int).len(),
        ensures
            radius_outcome(
                self,
                rows_of(queries@, self.ndim as int)[i as int],
                radius,
                p,
                sort,
                r,
            ),
    {
        proof {
            lemma_row_at(
                queries@,
                rows_of(queries@, self.ndim as int).len() as int,
                self.ndim as int,
                i as int,
            );
        }
        self.query_radius_one(point(queries, self.ndim, i), radius, p, sort)
    }

    /// [`Tree::query_radius_one`] for each of the `n_queries` rows of `queries`.
    /// The first question that is refused refuses all. `parallel` spreads the
    /// questions over threads and changes nothing else.
    pub fn query_radius_many(
        &self,
        queries: &[S],
        n_queries: usize,
        radius: S,
        p: S,
        sort: bool,
        parallel: bool,
    ) -> (r: Result<(Vec<Vec<usize>>, Vec<Vec<S>>), KDTreeError<S>>)
        requires
            lawful::<S>(),
            self.wf(),
            n_queries * self.ndim <= usize::MAX,
        ensures
            match r {
                Ok((indices, distances)) => {
                    &&& radius_many_refusal(self.ndim, queries@, n_queries, radius, p) is None
                    &&& indices@.len() == n_queries
                    &&& distances@.len() == n_queries
                    &&& forall|i: int|
                        0 <= i < n_queries ==> reports(
                            ball_of(rows_of(queries@, self.ndim as int)[i], radius, p),
                            self,
                            sort,
                            (#[trigger] indices@[i])@,
                            distances@[i]@,
                        )
                },
                Err(error) => radius_many_refusal(self.ndim, queries@, n_queries, radius, p)
                    == Some(error),
            },
    {
        if queries.len() != n_queries * self.ndim {
            return Err(KDTreeError::InvalidShape("queries must be a contiguous row-major matrix"));
        }
        let ghost rows = rows_of(queries@, self.ndim as int);
        proof {
            lemma_block_len(queries@, n_queries as int, self.ndim as int);
        }
        let results = if parallel && n_queries > 1 {
            radius_in_parallel(self, queries, n_queries, radius, p, sort)
        } else {
            let mut results: Vec<Result<(Vec<usize>, Vec<S>), KDTreeError<S>>> =
                Vec::with_capacity(n_queries);
            while results.len() < n_queries
                invariant
                    lawful::<S>(),
                    self.wf(),
                    rows == rows_of(queries@, self.ndim as int),
                    is_block(queries@, n_queries as int, self.ndim as int),
                    rows.len() == n_queries,
                    results@.len() <= n_queries,
                    forall|i: int|
                        0 <= i < results@.len() ==> radius_outcome(
                            self,
                            rows[i],
                            radius,
                            p,
                            sort,
                            #[trigger] results@[i],
                        ),
                decreases n_queries - results@.len(),
            {
                let i = results.len();
                results.push(self.radius_at(queries, i, radius, p, sort));
            }
            results
        };
        let mut indices: Vec<Vec<usize>> = Vec::with_capacity(n_queries);
        let mut distances: Vec<Vec<S>> = Vec::with_capacity(n_queries);
        let ghost all = results@;
        for result in it: results
            invariant
                all.len() == n_queries,
                it.seq() == all,
                forall|i: int|
                    0 <= i < all.len() ==> radius_outcome(
                        self,
                        rows[i],
                        radius,
                        p,
                        sort,
                        #[trigger] all[i],
                    ),
                rows == rows_of(queries@, self.ndim as int),
                queries@.len() == n_queries * self.ndim,
                indices@.len() == it.index(),
                distances@.len() == it.index(),
                first_refusal(self.ndim, rows, radius, p, it.index() as int) is None,
                forall|i: int|
                    0 <= i < it.index() ==> reports(
                        ball_of(rows[i], radius, p),
                        self,
                        sort,
                        (#[trigger] indices@[i])@,
                        distances@[i]@,
                    ),
        {
            let ghost at = it.index() as int;
            assert(radius_outcome(self, rows[at], radius, p, sort, all[at]));
            match result {
                Ok((found, near)) => {
                    indices.push(found);
                    distances.push(near);
                },
                Err(error) => {
                    proof {
                        lemma_first_refusal_stays(
                            self.ndim,
                            rows,
                            radius,
                            p,
                            it.index() + 1,
                            n_queries as int,
                        );
                    }
                    return Err(error);
                },
            }
        }
        Ok((indices, distances))
    }
}

/// What lies in a ball does not depend on the tree: a row that one tree over the
/// points finds, at position `i`, every other tree over them finds too, at the
/// position `j` that it has there.
pub proof fn a_ball_holds_the_same_rows_in_every_tree<S: Scalar>(
    ball: Ball<S>,
    data: Seq<S>,
    a: &Tree<S>,
    b: &Tree<S>,
    i: int,
    j: int,
)
    requires
        lawful::<S>(),
        a.wf(),
        b.wf(),
        a.ndim == b.ndim,
        a.holds(data),
        b.holds(data),
        ball.valid(a),
        monotone(ball.m),
        0 <= i < a.n_points,
        0 <= j < b.n_points,
        a.indices@[i] == b.indices@[j],
    ensures
        ball.found_in(a).contains(i) <==> ball.found_in(b).contains(j),
        ball.entry(a, i) == ball.entry(b, j),
{
    lemma_block_len(a.data@, a.n_points as int, a.ndim as int);
    lemma_block_len(b.data@, b.n_points as int, b.ndim as int);
    assert(a.rows()[i] == b.rows()[j]);
    lemma_search(ball, a);
    lemma_search(ball, b);
    if ball.found_in(a).contains(i) {
        let c = choose|c: int| 0 <= c < ball.found_in(a).len() && ball.found_in(a)[c] == i;
        assert(ball.holds(a, ball.found_in(a)[c]));
    }
    if ball.found_in(b).contains(j) {
        let c = choose|c: int| 0 <= c < ball.found_in(b).len() && ball.found_in(b)[c] == j;
        assert(ball.holds(b, ball.found_in(b)[c]));
    }
}

/// What a radius query reports is no point twice, and the row of a position exactly
/// if a search finds the position.
pub proof fn lemma_reported<S: Scalar>(
    ball: Ball<S>,
    tree: &Tree<S>,
    sort: bool,
    indices: Seq<usize>,
    distances: Seq<S>,
    pos: int,
)
    requires
        tree.wf(),
        reports(ball, tree, sort, indices, distances),
        0 <= pos < tree.n_points,
    ensures
        zipped(indices, distances).no_duplicates(),
        zipped(indices, distances).contains(ball.entry(tree, pos)) <==> ball.found_in(
            tree,
        ).contains(pos),
        indices.contains(tree.indices@[pos] as usize) <==> ball.found_in(tree).contains(pos),
{
    let found = ball.found_in(tree);
    let entries = ball.entries(tree, found);
    let all = zipped(indices, distances);
    let row = tree.indices@[pos] as usize;
    assert(entries.no_duplicates()) by {
        assert forall|i: int, j: int|
            0 <= i < entries.len() && 0 <= j < entries.len() && i != j implies entries[i]
            != entries[j] by {
            assert(found[i] != found[j]);
            assert(tree.indices@[found[i]] != tree.indices@[found[j]]);
        }
    }
    if sort {
        lemma_same_items_contains(entries, all);
        lemma_same_items_distinct(entries, all);
    }
    if found.contains(pos) {
        let c = choose|c: int| 0 <= c < found.len() && found[c] == pos;
        assert(entries[c] == ball.entry(tree, pos));
        assert(entries.contains(ball.entry(tree, pos)));
        let d = choose|d: int| 0 <= d < all.len() && all[d] == ball.entry(tree, pos);
        assert(indices[d] == row);
    }
    if indices.contains(row) {
        let d = choose|d: int| 0 <= d < indices.len() && indices[d] == row;
        assert(all.contains(all[d]));
        assert(entries.contains(all[d]));
        let c = choose|c: int| 0 <= c < entries.len() && entries[c] == all[d];
        assert(tree.indices@[found[c]] == tree.indices@[pos]);
        assert(found[c] == pos);
    }
    if all.contains(ball.entry(tree, pos)) {
        let d = choose|d: int| 0 <= d < all.len() && all[d] == ball.entry(tree, pos);
        assert(indices[d] == row);
    }
}

/// A larger radius loses no match: every row that is reported is reported with the
/// same distance, and as often, where the radius is larger.
pub proof fn a_larger_radius_loses_no_match<S: Scalar>(
    tree: &Tree<S>,
    query: Seq<S>,
    radius: S,
    larger: S,
    p: S,
    sort: bool,
    x: (Seq<usize>, Seq<S>),
    y: (Seq<usize>, Seq<S>),
)
    requires
        lawful::<S>(),
        tree.wf(),
        radius_refusal(tree.ndim, query, radius, p) is None,
        radius_refusal(tree.ndim, query, larger, p) is None,
        at_most(radius, larger),
        monotone(ball_of(query, radius, p).m),
        reports(ball_of(query, radius, p), tree, sort, x.0, x.1),
        reports(ball_of(query, larger, p), tree, sort, y.0, y.1),
    ensures
        zipped(x.0, x.1).to_multiset().subset_of(zipped(y.0, y.1).to_multiset()),
{
    let (small, large) = (ball_of(query, radius, p), ball_of(query, larger, p));
    let (a, b) = (zipped(x.0, x.1), zipped(y.0, y.1));
    let (found, more) = (small.found_in(tree), large.found_in(tree));
    lemma_reduce_monotone(small.m, radius, larger);
    lemma_reported(small, tree, sort, x.0, x.1, 0);
    lemma_reported(large, tree, sort, y.0, y.1, 0);
    a.lemma_multiset_has_no_duplicates();
    assert forall|e: (usize, S)| a.to_multiset().count(e) <= b.to_multiset().count(e) by {
        vstd::seq_lib::to_multiset_contains(a, e);
        vstd::seq_lib::to_multiset_contains(b, e);
        if a.contains(e) {
            let entries = small.entries(tree, found);
            if sort {
                lemma_same_items_contains(entries, a);
            }
            let c = choose|c: int| 0 <= c < entries.len() && entries[c] == e;
            let pos = found[c];
            assert(small.holds(tree, pos));
            assert(large.holds(tree, pos));
            assert(more.contains(pos));
            lemma_reported(large, tree, sort, y.0, y.1, pos);
            assert(large.entry(tree, pos) == e);
        }
    }
}

} // verus!
