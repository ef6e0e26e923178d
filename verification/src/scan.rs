//! Leaf scans.
//!
//! Which strategy scans the leaves of a query is fixed by the metric and the
//! width of a row. Both take up the points of a leaf in order. They differ in how
//! much of a distance they compute before they look at the bound, and in the order
//! in which they add it up (see [`crate::lanes`]).

use crate::best::{Best, Hit};
use crate::distance::fold_scalar;
use crate::kernel::LANES;
use crate::lanes::{grouped_dist, grouped_dist_spec, lemma_scan_dist_nonneg, packs_spec, point_dist,
    MAX_PACKED_WIDTH};
use crate::layout::{Dyn, Rows};
use crate::metric::{Dist, Metric};
use crate::scalar::{at_most, lawful, less, nonneg, Scalar};
use crate::search::Ask;
use crate::tree::{group_of, lemma_row_of_tree, Tree};
use vstd::prelude::*;

verus! {

/// What a query call fixes for all its questions.
#[derive(Clone, Copy)]
pub struct QueryParams<S> {
    pub cutoff: Dist<S>,
    pub eps_factor: S,
    pub metric: Metric<S>,
}

impl<S: Scalar> QueryParams<S> {
    /// The question that the parameters make of a point.
    pub open spec fn ask(self, q: Seq<S>, k: nat) -> Ask<S> {
        Ask { m: self.metric, q, k, cutoff: self.cutoff.value, factor: self.eps_factor }
    }
}

/// How the points of a leaf are taken up.
pub trait Strategy: Copy + Send + Sync {
    /// Whether the strategy is for rows of `ndim` axes, by a metric of a general
    /// exponent or by another one.
    spec fn suits(general: bool, ndim: usize) -> bool;

    /// Takes up the points of the leaf from position `start` up to `end`.
    fn scan<S: Scalar, B: Best<S>>(
        self,
        tree: &Tree<S>,
        params: QueryParams<S>,
        q: &[S],
        start: usize,
        end: usize,
        best: &mut B,
    )
        requires
            lawful::<S>(),
            tree.wf(),
            start <= end <= tree.n_points,
            tree.is_leaf(start as int, end as int),
            Self::suits(params.metric is LP, tree.ndim),
            params.ask(q@, old(best).cap()).valid(tree),
            old(best).valid(),
        ensures
            final(best).valid(),
            final(best).cap() == old(best).cap(),
            final(best).hits() == params.ask(q@, old(best).cap()).scanned(
                tree,
                old(best).hits(),
                start as int,
                end as int,
            ),
    ;
}

/// Rows short enough that an early exit would save nothing: several points per
/// step, and a look at the single ones only where one of them is close.
#[derive(Clone, Copy)]
pub struct Packed;

/// Rows long enough that leaving a row early skips most of it once the bound is
/// tight; the only option for a general exponent.
#[derive(Clone, Copy)]
pub struct Streamed;

/// `best` keeps `hits`, and `bound` is the bound that they leave.
spec fn holds<S: Scalar, B: Best<S>>(
    ask: Ask<S>,
    tree: &Tree<S>,
    best: B,
    hits: Seq<Hit<S>>,
    bound: Dist<S>,
) -> bool {
    &&& tree.wf()
    &&& ask.valid(tree)
    &&& best.valid()
    &&& best.cap() == ask.k
    &&& best.hits() == hits
    &&& !bound.value.nan()
    &&& bound.value.key() == ask.bound(hits)
}

/// Takes the point at `pos` up if `dist` is within the bound, and returns the
/// bound after that. A `dist` within the bound is the distance of the point, and
/// any `dist` is if that is within the bound.
fn offer<S: Scalar, B: Best<S>>(
    tree: &Tree<S>,
    params: QueryParams<S>,
    q: &[S],
    pos: usize,
    dist: Dist<S>,
    bound: Dist<S>,
    best: &mut B,
) -> (r: Dist<S>)
    requires
        lawful::<S>(),
        holds(params.ask(q@, old(best).cap()), tree, *old(best), old(best).hits(), bound),
        pos < tree.n_points,
        nonneg(dist.value),
        at_most(dist.value, bound.value) ==> dist.value == params.ask(q@, old(best).cap()).dist(
            tree,
            pos as int,
        ),
        at_most(
            params.ask(q@, old(best).cap()).dist(tree, pos as int),
            bound.value,
        ) ==> dist.value == params.ask(q@, old(best).cap()).dist(tree, pos as int),
    ensures
        final(best).cap() == old(best).cap(),
        holds(
            params.ask(q@, old(best).cap()),
            tree,
            *final(best),
            params.ask(q@, old(best).cap()).taken(tree, old(best).hits(), pos as int),
            r,
        ),
{
    proof {
        lemma_row_of_tree(tree, pos as int);
        lemma_scan_dist_nonneg(
            params.metric,
            q@,
            tree.rows()[pos as int],
            tree.grouped(pos as int),
        );
    }
    if dist.le(bound) {
        best.consider(dist, tree.indices[pos]);
        best.bound(params.cutoff)
    } else {
        bound
    }
}

/// Takes up the points from `from` on one by one, each distance whole. None of them
/// is in a full group, or being in one makes no difference.
fn unrolled_from<S: Scalar, B: Best<S>>(
    tree: &Tree<S>,
    params: QueryParams<S>,
    q: &[S],
    from: usize,
    end: usize,
    bound: Dist<S>,
    best: &mut B,
)
    requires
        lawful::<S>(),
        from <= end <= tree.n_points,
        tree.ndim <= MAX_PACKED_WIDTH,
        tree.ndim != 4 && tree.ndim != 8 || forall|pos: int|
            from <= pos < end ==> !#[trigger] tree.grouped(pos),
        holds(params.ask(q@, old(best).cap()), tree, *old(best), old(best).hits(), bound),
    ensures
        final(best).valid(),
        final(best).cap() == old(best).cap(),
        final(best).hits() == params.ask(q@, old(best).cap()).scanned(
            tree,
            old(best).hits(),
            from as int,
            end as int,
        ),
{
    let ghost ask = params.ask(q@, best.cap());
    let ghost hits = best.hits();
    let mut bound = bound;
    let mut pos = from;
    while pos < end
        invariant
            lawful::<S>(),
            ask == params.ask(q@, best.cap()),
            from <= pos <= end <= tree.n_points,
            tree.ndim <= MAX_PACKED_WIDTH,
            tree.ndim != 4 && tree.ndim != 8 || forall|pos: int|
                from <= pos < end ==> !#[trigger] tree.grouped(pos),
            holds(ask, tree, *best, ask.scanned(tree, hits, from as int, pos as int), bound),
        decreases end - pos,
    {
        proof {
            lemma_row_of_tree(tree, pos as int);
            let grouped = tree.grouped(pos as int);
            lemma_scan_dist_nonneg(ask.m, q@, tree.rows()[pos as int], grouped);
            assert(tree.rows().subrange(pos as int, pos + 1)[0] == tree.rows()[pos as int]);
        }
        let row = tree.block(pos, pos + 1).row(0);
        let dist = fold_scalar(params.metric, Dist::zero(), q, row);
        bound = offer(tree, params, q, pos, dist, bound, best);
        pos += 1;
    }
}

/// The distances of the first `group` rows of a block, a lane each.
fn lane_dists<S: Scalar>(m: Metric<S>, q: &[S], block: Rows<'_, S, Dyn>, group: usize) -> (r: [Dist<
    S,
>; LANES])
    requires
        block.valid(),
        block.width.0 == q@.len(),
        group <= block@.len(),
        group <= LANES,
    ensures
        forall|j: int|
            0 <= j < group ==> (#[trigger] r@[j]).value == grouped_dist_spec(m, q@, block@[j]),
{
    let mut lanes = [Dist::<S>::zero(); LANES];
    let mut j: usize = 0;
    while j < group
        invariant
            block.valid(),
            block.width.0 == q@.len(),
            group <= block@.len(),
            group <= LANES,
            j <= group,
            forall|i: int|
                0 <= i < j ==> (#[trigger] lanes@[i]).value == grouped_dist_spec(
                    m,
                    q@,
                    block@[i],
                ),
        decreases group - j,
    {
        lanes[j] = grouped_dist(m, q, block.row(j));
        j += 1;
    }
    lanes
}

/// Points past the bound change nothing.
proof fn lemma_all_past<S: Scalar>(
    ask: Ask<S>,
    tree: &Tree<S>,
    hits: Seq<Hit<S>>,
    start: int,
    pos: int,
    upto: int,
)
    requires
        start <= pos <= upto,
        forall|i: int|
            pos <= i < upto ==> ask.bound(ask.scanned(tree, hits, start, pos)) < (
            #[trigger] ask.dist(tree, i)).key(),
    ensures
        ask.scanned(tree, hits, start, upto) == ask.scanned(tree, hits, start, pos),
    decreases upto - pos,
{
    if pos < upto {
        lemma_all_past(ask, tree, hits, start, pos, upto - 1);
        assert(ask.bound(ask.scanned(tree, hits, start, pos)) < ask.dist(tree, upto - 1).key());
    }
}

/// Walks the points in groups of `group` and takes up the single ones of a group
/// only if one of them is within the bound; what is left over goes one by one.
fn packed<S: Scalar, B: Best<S>>(
    tree: &Tree<S>,
    params: QueryParams<S>,
    q: &[S],
    start: usize,
    end: usize,
    group: usize,
    bound: Dist<S>,
    best: &mut B,
)
    requires
        lawful::<S>(),
        0 < group <= LANES,
        group == group_of(tree.ndim as int),
        tree.ndim <= MAX_PACKED_WIDTH,
        start <= end <= tree.n_points,
        tree.is_leaf(start as int, end as int),
        holds(params.ask(q@, old(best).cap()), tree, *old(best), old(best).hits(), bound),
    ensures
        final(best).valid(),
        final(best).cap() == old(best).cap(),
        final(best).hits() == params.ask(q@, old(best).cap()).scanned(
            tree,
            old(best).hits(),
            start as int,
            end as int,
        ),
{
    let ghost ask = params.ask(q@, best.cap());
    let ghost hits = best.hits();
    let mut bound = bound;
    let mut pos = start;
    let ghost mut steps: int = 0;
    let ghost full = (end - start) / group as int * group;
    while end - pos >= group
        invariant
            lawful::<S>(),
            0 < group <= LANES,
            group == group_of(tree.ndim as int),
            tree.ndim <= MAX_PACKED_WIDTH,
            tree.is_leaf(start as int, end as int),
            ask == params.ask(q@, best.cap()),
            start <= pos <= end <= tree.n_points,
            pos == start + steps * group,
            full == (end - start) / group as int * group,
            holds(ask, tree, *best, ask.scanned(tree, hits, start as int, pos as int), bound),
        decreases end - pos,
    {
        proof {
            lemma_row_of_tree(tree, pos as int);
            lemma_step_is_full((end - start) as int, group as int, steps);
        }
        let dists = lane_dists(params.metric, q, tree.block(pos, pos + group), group);
        proof {
            assert forall|i: int| 0 <= i < group implies (#[trigger] dists@[i]).value == ask.dist(
                tree,
                pos + i,
            ) && nonneg(dists@[i].value) by {
                lemma_row_of_tree(tree, pos + i);
                assert(tree.leaf_at(pos + i) == (start as int, end - start));
                assert(tree.grouped(pos + i));
                lemma_scan_dist_nonneg(ask.m, q@, tree.rows()[pos + i], true);
            }
        }
        let mut close = false;
        let mut j: usize = 0;
        while j < group
            invariant
                0 < group <= LANES,
                j <= group,
                !bound.value.nan(),
                forall|i: int| 0 <= i < group ==> nonneg((#[trigger] dists@[i]).value),
                !close ==> forall|i: int|
                    0 <= i < j ==> less(bound.value, (#[trigger] dists@[i]).value),
            decreases group - j,
        {
            if dists[j].le(bound) {
                close = true;
            }
            j += 1;
        }
        if close {
            let mut i: usize = 0;
            while i < group
                invariant
                    lawful::<S>(),
                    0 < group <= LANES,
                    i <= group,
                    start <= pos <= end <= tree.n_points,
                    end - pos >= group,
                    ask == params.ask(q@, best.cap()),
                    holds(ask, tree, *best, ask.scanned(tree, hits, start as int, pos + i), bound),
                    forall|i: int|
                        0 <= i < group ==> (#[trigger] dists@[i]).value == ask.dist(tree, pos + i)
                            && nonneg(dists@[i].value),
                decreases group - i,
            {
                assert(dists@[i as int].value == ask.dist(tree, pos + i));
                bound = offer(tree, params, q, pos + i, dists[i], bound, best);
                i += 1;
            }
        } else {
            proof {
                assert forall|i: int| pos <= i < pos + group implies bound.value.key() < (
                #[trigger] ask.dist(tree, i)).key() by {
                    assert(dists@[i - pos].value == ask.dist(tree, pos + (i - pos)));
                }
                lemma_all_past(ask, tree, hits, start as int, pos as int, pos + group);
            }
        }
        pos += group;
        proof {
            assert((steps + 1) * group == steps * group + group) by (nonlinear_arith);
            steps = steps + 1;
        }
    }
    proof {
        lemma_steps_end((end - start) as int, group as int, steps);
        assert forall|i: int| pos <= i < end implies !#[trigger] tree.grouped(i) by {
            assert(tree.leaf_at(i) == (start as int, end - start));
        }
        lemma_scan_on(ask, tree, hits, start as int, pos as int, end as int);
    }
    unrolled_from(tree, params, q, pos, end, bound, best);
}

/// A step that fits behind the steps before it lies in the full groups.
proof fn lemma_step_is_full(len: int, group: int, steps: int)
    requires
        0 < group,
        steps * group + group <= len,
    ensures
        steps * group + group <= len / group * group,
{
    vstd::arithmetic::div_mod::lemma_fundamental_div_mod(len, group);
    let c = len / group;
    assert(steps + 1 <= c) by (nonlinear_arith)
        requires
            0 < group,
            steps * group + group <= len,
            len == group * c + len % group,
            0 <= len % group < group,
    ;
    assert(steps * group + group <= c * group) by (nonlinear_arith)
        requires
            0 < group,
            steps + 1 <= c,
    ;
}

/// Steps that no other one fits behind are all the full groups.
proof fn lemma_steps_end(len: int, group: int, steps: int)
    requires
        0 < group,
        0 <= len - steps * group < group,
    ensures
        steps * group == len / group * group,
{
    vstd::arithmetic::div_mod::lemma_fundamental_div_mod_converse(
        len,
        group,
        steps,
        len - steps * group,
    );
}

/// A scan is a scan of its first part and then of the rest.
proof fn lemma_scan_on<S: Scalar>(
    ask: Ask<S>,
    tree: &Tree<S>,
    hits: Seq<Hit<S>>,
    a: int,
    b: int,
    c: int,
)
    requires
        a <= b <= c,
    ensures
        ask.scanned(tree, hits, a, c) == ask.scanned(
            tree,
            ask.scanned(tree, hits, a, b),
            b,
            c,
        ),
    decreases c - b,
{
    if b < c {
        lemma_scan_on(ask, tree, hits, a, b, c - 1);
    }
}

/// Takes up the points one by one and leaves a row as soon as it is past the
/// bound.
fn streamed<S: Scalar, B: Best<S>>(
    tree: &Tree<S>,
    params: QueryParams<S>,
    q: &[S],
    start: usize,
    end: usize,
    bound: Dist<S>,
    best: &mut B,
)
    requires
        lawful::<S>(),
        start <= end <= tree.n_points,
        !packs_spec(params.metric, tree.ndim),
        holds(params.ask(q@, old(best).cap()), tree, *old(best), old(best).hits(), bound),
    ensures
        final(best).valid(),
        final(best).cap() == old(best).cap(),
        final(best).hits() == params.ask(q@, old(best).cap()).scanned(
            tree,
            old(best).hits(),
            start as int,
            end as int,
        ),
{
    let ghost ask = params.ask(q@, best.cap());
    let ghost hits = best.hits();
    let mut bound = bound;
    let mut pos = start;
    while pos < end
        invariant
            lawful::<S>(),
            ask == params.ask(q@, best.cap()),
            start <= pos <= end <= tree.n_points,
            !packs_spec(params.metric, tree.ndim),
            holds(ask, tree, *best, ask.scanned(tree, hits, start as int, pos as int), bound),
        decreases end - pos,
    {
        proof {
            lemma_row_of_tree(tree, pos as int);
            let grouped = tree.grouped(pos as int);
            lemma_scan_dist_nonneg(ask.m, q@, tree.rows()[pos as int], grouped);
            assert(tree.rows().subrange(pos as int, pos + 1)[0] == tree.rows()[pos as int]);
        }
        let row = tree.block(pos, pos + 1).row(0);
        let dist = point_dist(params.metric, q, row, bound);
        bound = offer(tree, params, q, pos, dist, bound, best);
        pos += 1;
    }
}

impl Strategy for Packed {
    open spec fn suits(general: bool, ndim: usize) -> bool {
        !general && ndim <= MAX_PACKED_WIDTH
    }

    fn scan<S: Scalar, B: Best<S>>(
        self,
        tree: &Tree<S>,
        params: QueryParams<S>,
        q: &[S],
        start: usize,
        end: usize,
        best: &mut B,
    ) {
        let bound = best.bound(params.cutoff);
        // As many points as fill one step of lanes at the width of a row.
        match tree.ndim {
            2 => packed(tree, params, q, start, end, 4, bound, best),
            3 => packed(tree, params, q, start, end, LANES, bound, best),
            4 => packed(tree, params, q, start, end, 2, bound, best),
            8 => packed(tree, params, q, start, end, LANES, bound, best),
            _ => unrolled_from(tree, params, q, start, end, bound, best),
        }
    }
}

impl Strategy for Streamed {
    open spec fn suits(general: bool, ndim: usize) -> bool {
        general || ndim > MAX_PACKED_WIDTH
    }

    fn scan<S: Scalar, B: Best<S>>(
        self,
        tree: &Tree<S>,
        params: QueryParams<S>,
        q: &[S],
        start: usize,
        end: usize,
        best: &mut B,
    ) {
        let bound = best.bound(params.cutoff);
        streamed(tree, params, q, start, end, bound, best);
    }
}

} // verus!
