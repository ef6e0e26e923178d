//! Distances as a query adds them up.
//!
//! Contributions that add up do so several at a time, in an order that keeps the
//! additions apart from each other: a row of more than [`LANES`] axes adds up
//! [`LANES`] of them per step, and so does a box. Rows of four and of eight axes
//! add up in pairs where they stand in a full group of a leaf. Sums that do not
//! round are the same in every order; rounded ones may differ in the last place.
//! Where contributions do not add up, and in rows of any other width, every axis
//! is folded after the one before it.
//!
//! A distance never shrinks on the way, so a partial value past the caller's bound
//! already decides a comparison. The bound is tested once per step.

use crate::distance::{a_box_is_as_far_as_its_nearest_point, a_point_at_no_distance_is_inside,
    a_point_inside_is_at_no_distance, axis, axis_term, box_dist, box_dist_spec, box_ok, clamped,
    fold_axes, fold_from, fold_scalar, inside, lemma_axis_term_nonneg, lemma_box_dist_nonneg,
    lemma_fold_from_grows, lemma_offset_is_nearest, lemma_reduce_zero, lemma_row_dist_nonneg,
    monotone, partial_box_dist, plain_or_exact, row_dist};
use crate::kernel::LANES;
use crate::layout::{axis_offset, axis_offset_spec, BBox};
use crate::metric::{Dist, Metric};
use crate::scalar::{all_finite_spec, at_most, finite, lawful, less, nonneg, orderly, Scalar};
use vstd::prelude::*;

verus! {

/// What the axes contribute adds up.
pub open spec fn adds<S: Scalar>(m: Metric<S>) -> bool {
    m is L1 || m is L2
}

fn sums<S: Scalar>(m: Metric<S>) -> (r: bool)
    ensures
        r == adds(m),
{
    match m {
        Metric::L1 | Metric::L2 => true,
        Metric::LInf | Metric::LP(_) => false,
    }
}

/// Four values added up: those two apart, then the two sums.
pub open spec fn quad_sum<S: Scalar>(t: Seq<S>) -> S {
    t[0].plus_spec(t[2]).plus_spec(t[1].plus_spec(t[3]))
}

/// Eight values added up: neighbours, then neighbouring sums, and once more.
pub open spec fn pair_sum<S: Scalar>(t: Seq<S>) -> S {
    t[0].plus_spec(t[1]).plus_spec(t[2].plus_spec(t[3])).plus_spec(
        t[4].plus_spec(t[5]).plus_spec(t[6].plus_spec(t[7])),
    )
}

/// Eight values added up: those four apart, then the sums two apart, and then the
/// last two.
pub open spec fn half_sum<S: Scalar>(t: Seq<S>) -> S {
    t[0].plus_spec(t[4]).plus_spec(t[2].plus_spec(t[6])).plus_spec(
        t[1].plus_spec(t[5]).plus_spec(t[3].plus_spec(t[7])),
    )
}

/// What `n` axes from `at` on contribute to the distance between two points.
pub open spec fn terms_at<S: Scalar>(
    m: Metric<S>,
    a: Seq<S>,
    b: Seq<S>,
    at: int,
    n: nat,
) -> Seq<S> {
    Seq::new(n, |i: int| axis_term(m, a[at + i], b[at + i]))
}

/// The first `c` steps of axes, each added up before it is added.
pub open spec fn steps_dist<S: Scalar>(m: Metric<S>, a: Seq<S>, b: Seq<S>, c: int) -> S
    decreases c,
{
    if c <= 0 {
        S::zero_spec()
    } else {
        steps_dist(m, a, b, c - 1).plus_spec(half_sum(terms_at(m, a, b, LANES * (c - 1), 8)))
    }
}

/// The number of full steps in `n` axes.
pub open spec fn steps(n: nat) -> int {
    n as int / LANES as int
}

/// The reduced distance of a row that is taken up on its own: full steps first,
/// then the axes that are left.
pub open spec fn long_dist<S: Scalar>(m: Metric<S>, a: Seq<S>, b: Seq<S>) -> S {
    if adds(m) {
        fold_from(
            m,
            steps_dist(m, a, b, steps(a.len())),
            a,
            b,
            LANES * steps(a.len()),
            a.len() as int,
        )
    } else {
        row_dist(m, a, b)
    }
}

/// The reduced distance of a row in a full group.
pub open spec fn grouped_dist_spec<S: Scalar>(m: Metric<S>, a: Seq<S>, b: Seq<S>) -> S {
    if adds(m) && a.len() == 4 {
        quad_sum(terms_at(m, a, b, 0, 4))
    } else if adds(m) && a.len() == 8 {
        pair_sum(terms_at(m, a, b, 0, 8))
    } else {
        row_dist(m, a, b)
    }
}

/// Rows up to this wide are compared whole.
pub const MAX_PACKED_WIDTH: usize = 8;

/// Rows are short enough for an early exit to save nothing, and their
/// contributions are no powers.
pub open spec fn packs_spec<S: Scalar>(m: Metric<S>, ndim: usize) -> bool {
    !(m is LP) && ndim <= MAX_PACKED_WIDTH
}

/// Whether [`Packed`](crate::scan::Packed) scans the leaves, rather than
/// [`Streamed`](crate::scan::Streamed).
pub fn packs<S: Scalar>(m: Metric<S>, ndim: usize) -> (r: bool)
    ensures
        r == packs_spec(m, ndim),
{
    match m {
        Metric::LP(_) => false,
        _ => ndim <= MAX_PACKED_WIDTH,
    }
}

/// The reduced distance of a row as a query measures it. `grouped` says whether the
/// row stands in a full group of its leaf.
pub open spec fn scan_dist<S: Scalar>(m: Metric<S>, a: Seq<S>, b: Seq<S>, grouped: bool) -> S {
    if a.len() > MAX_PACKED_WIDTH {
        long_dist(m, a, b)
    } else if grouped {
        grouped_dist_spec(m, a, b)
    } else {
        row_dist(m, a, b)
    }
}

/// How a query measures a row does not depend on where it stands in its leaf.
pub open spec fn placeless<S: Scalar>(m: Metric<S>, ndim: int) -> bool {
    adds(m) ==> ndim != 4 && ndim != 8
}

/// A query folds every axis after the one before it.
pub open spec fn serial<S: Scalar>(m: Metric<S>, ndim: int) -> bool {
    adds(m) ==> ndim != 4 && ndim < LANES
}

/// What the axes contribute to the distance to a box.
pub open spec fn box_terms<S: Scalar>(
    m: Metric<S>,
    q: Seq<S>,
    lo: Seq<S>,
    hi: Seq<S>,
) -> Seq<S> {
    Seq::new(q.len(), |d: int| m.reduce_spec(axis_offset_spec(q[d], lo[d], hi[d])))
}

/// Lane `l` over the first `c` steps, each step added to the one before.
pub open spec fn lane_sum<S: Scalar>(t: Seq<S>, l: int, c: int) -> S
    decreases c,
{
    if c <= 0 {
        S::zero_spec()
    } else {
        lane_sum(t, l, c - 1).plus_spec(t[LANES * (c - 1) + l])
    }
}

/// The first `c` steps, lane by lane and then across the lanes.
pub open spec fn lanes_sum<S: Scalar>(t: Seq<S>, c: int) -> S {
    if c <= 0 {
        S::zero_spec()
    } else {
        half_sum(Seq::new(8, |l: int| lane_sum(t, l, c)))
    }
}

/// `sum` with the values from `from` up to `n` added one after the other.
pub open spec fn rest_sum<S: Scalar>(sum: S, t: Seq<S>, from: int, n: int) -> S
    decreases n - from,
{
    if n <= from {
        sum
    } else {
        rest_sum(sum, t, from, n - 1).plus_spec(t[n - 1])
    }
}

/// The reduced distance to a box as a query adds it up.
pub open spec fn lane_box_dist_spec<S: Scalar>(
    m: Metric<S>,
    q: Seq<S>,
    lo: Seq<S>,
    hi: Seq<S>,
) -> S {
    if adds(m) {
        let t = box_terms(m, q, lo, hi);
        let c = steps(q.len());
        rest_sum(lanes_sum(t, c), t, LANES * c, q.len() as int)
    } else {
        box_dist_spec(m, q, lo, hi)
    }
}

fn half<S: Scalar>(t: &[S; LANES]) -> (r: S)
    ensures
        r == half_sum(t@),
{
    t[0].plus(t[4]).plus(t[2].plus(t[6])).plus(t[1].plus(t[5]).plus(t[3].plus(t[7])))
}

/// What one step of axes from `at` on contributes.
fn step_terms<S: Scalar>(m: Metric<S>, lhs: &[S], rhs: &[S], at: usize) -> (r: [S; LANES])
    requires
        at + LANES <= lhs@.len(),
        lhs@.len() == rhs@.len(),
    ensures
        r@ == terms_at(m, lhs@, rhs@, at as int, 8),
{
    let n = lhs.len();
    let mut t = [S::zero(); LANES];
    let mut i: usize = 0;
    while i < LANES
        invariant
            at + LANES <= n,
            n == lhs@.len(),
            lhs@.len() == rhs@.len(),
            i <= LANES,
            forall|j: int| 0 <= j < i ==> t@[j] == axis_term(m, lhs@[at + j], rhs@[at + j]),
        decreases LANES - i,
    {
        t[i] = axis(m, lhs[at + i], rhs[at + i]);
        i += 1;
    }
    assert(t@ =~= terms_at(m, lhs@, rhs@, at as int, 8));
    t
}

proof fn lemma_terms_nonneg<S: Scalar>(m: Metric<S>, a: Seq<S>, b: Seq<S>, at: int, n: nat)
    requires
        lawful::<S>(),
        m.valid(),
        all_finite_spec(a),
        all_finite_spec(b),
        a.len() == b.len(),
        0 <= at,
        at + n <= a.len(),
    ensures
        forall|i: int| 0 <= i < n ==> nonneg(#[trigger] terms_at(m, a, b, at, n)[i]),
{
    assert forall|i: int| 0 <= i < n implies nonneg(#[trigger] terms_at(m, a, b, at, n)[i]) by {
        lemma_axis_term_nonneg(m, a[at + i], b[at + i]);
    }
}

/// Sums of nonnegative values are.
proof fn lemma_sums_nonneg<S: Scalar>(t: Seq<S>)
    requires
        lawful::<S>(),
        t.len() >= 4,
        forall|i: int| 0 <= i < t.len() ==> nonneg(#[trigger] t[i]),
    ensures
        nonneg(quad_sum(t)),
        t.len() >= 8 ==> nonneg(half_sum(t)) && nonneg(pair_sum(t)),
{
    assert(nonneg(t[0]) && nonneg(t[1]) && nonneg(t[2]) && nonneg(t[3]));
    if t.len() >= 8 {
        assert(nonneg(t[4]) && nonneg(t[5]) && nonneg(t[6]) && nonneg(t[7]));
    }
}

/// Steps never bring a distance down.
proof fn lemma_steps_grow<S: Scalar>(m: Metric<S>, a: Seq<S>, b: Seq<S>, i: int, j: int)
    requires
        lawful::<S>(),
        m.valid(),
        all_finite_spec(a),
        all_finite_spec(b),
        a.len() == b.len(),
        0 <= i <= j <= steps(a.len()),
    ensures
        nonneg(steps_dist(m, a, b, i)),
        at_most(steps_dist(m, a, b, i), steps_dist(m, a, b, j)),
    decreases j,
{
    if j > 0 {
        if i < j {
            lemma_steps_grow(m, a, b, i, j - 1);
            lemma_steps_grow(m, a, b, j - 1, j - 1);
        } else {
            lemma_steps_grow(m, a, b, i - 1, j - 1);
        }
        lemma_terms_nonneg(m, a, b, LANES * (j - 1), 8);
        lemma_sums_nonneg(terms_at(m, a, b, LANES * (j - 1), 8));
        assert(nonneg(half_sum(terms_at(m, a, b, LANES * (j - 1), 8))));
    }
}

/// A distance as a query measures it is never negative.
pub proof fn lemma_scan_dist_nonneg<S: Scalar>(
    m: Metric<S>,
    a: Seq<S>,
    b: Seq<S>,
    grouped: bool,
)
    requires
        lawful::<S>(),
        m.valid(),
        all_finite_spec(a),
        all_finite_spec(b),
        a.len() == b.len(),
    ensures
        nonneg(scan_dist(m, a, b, grouped)),
        nonneg(long_dist(m, a, b)),
{
    let c = steps(a.len());
    lemma_row_dist_nonneg(m, a, b);
    lemma_steps_grow(m, a, b, c, c);
    lemma_fold_from_grows(m, steps_dist(m, a, b, c), a, b, LANES * c, a.len() as int);
    if a.len() == 4 {
        lemma_terms_nonneg(m, a, b, 0, 4);
        lemma_sums_nonneg(terms_at(m, a, b, 0, 4));
    }
    if a.len() == 8 {
        lemma_terms_nonneg(m, a, b, 0, 8);
        lemma_sums_nonneg(terms_at(m, a, b, 0, 8));
    }
}

/// The reduced distance of a row in a full group.
pub fn grouped_dist<S: Scalar>(m: Metric<S>, lhs: &[S], rhs: &[S]) -> (r: Dist<S>)
    requires
        lhs@.len() == rhs@.len(),
    ensures
        r.value == grouped_dist_spec(m, lhs@, rhs@),
{
    if !sums(m) {
        return fold_scalar(m, Dist::zero(), lhs, rhs);
    }
    if lhs.len() == 4 {
        let t0 = axis(m, lhs[0], rhs[0]);
        let t1 = axis(m, lhs[1], rhs[1]);
        let t2 = axis(m, lhs[2], rhs[2]);
        let t3 = axis(m, lhs[3], rhs[3]);
        Dist::from_repr(t0.plus(t2).plus(t1.plus(t3)))
    } else if lhs.len() == 8 {
        let t = step_terms(m, lhs, rhs, 0);
        Dist::from_repr(
            t[0].plus(t[1]).plus(t[2].plus(t[3])).plus(
                t[4].plus(t[5]).plus(t[6].plus(t[7])),
            ),
        )
    } else {
        fold_scalar(m, Dist::zero(), lhs, rhs)
    }
}

/// The reduced distance between two points. Where that is past `bound`, it may be
/// what the first axes contribute, as far as that is past the bound too.
pub fn point_dist<S: Scalar>(m: Metric<S>, lhs: &[S], rhs: &[S], bound: Dist<S>) -> (r: Dist<S>)
    requires
        lawful::<S>(),
        m.valid(),
        all_finite_spec(lhs@),
        all_finite_spec(rhs@),
        lhs@.len() == rhs@.len(),
        !bound.value.nan(),
    ensures
        nonneg(r.value),
        at_most(r.value, long_dist(m, lhs@, rhs@)),
        at_most(long_dist(m, lhs@, rhs@), bound.value) ==> r.value == long_dist(m, lhs@, rhs@),
        less(bound.value, long_dist(m, lhs@, rhs@)) ==> less(bound.value, r.value),
{
    proof {
        lemma_scan_dist_nonneg(m, lhs@, rhs@, false);
    }
    if sums(m) {
        point_dist_sum(m, lhs, rhs, bound)
    } else {
        point_dist_fold(m, lhs, rhs, bound)
    }
}

/// [`point_dist`] where contributions add up.
fn point_dist_sum<S: Scalar>(m: Metric<S>, lhs: &[S], rhs: &[S], bound: Dist<S>) -> (r: Dist<S>)
    requires
        lawful::<S>(),
        m.valid(),
        adds(m),
        all_finite_spec(lhs@),
        all_finite_spec(rhs@),
        lhs@.len() == rhs@.len(),
        !bound.value.nan(),
    ensures
        nonneg(r.value),
        at_most(r.value, long_dist(m, lhs@, rhs@)),
        r.value == long_dist(m, lhs@, rhs@) || less(bound.value, r.value),
{
    let n = lhs.len();
    let ghost (a, b, c) = (lhs@, rhs@, steps(lhs@.len()));
    let mut dist = S::zero();
    let mut at: usize = 0;
    let ghost mut i: int = 0;
    while n - at >= LANES
        invariant
            lawful::<S>(),
            m.valid(),
            adds(m),
            all_finite_spec(a),
            all_finite_spec(b),
            a == lhs@,
            b == rhs@,
            n == a.len(),
            a.len() == b.len(),
            c == steps(a.len()),
            at <= n,
            at == LANES * i,
            0 <= i <= c,
            !bound.value.nan(),
            dist == steps_dist(m, a, b, i),
        decreases n - at,
    {
        let t = step_terms(m, lhs, rhs, at);
        dist = dist.plus(half(&t));
        at += LANES;
        proof {
            i = i + 1;
            lemma_steps_grow(m, a, b, i, c);
            lemma_steps_grow(m, a, b, c, c);
            lemma_fold_from_grows(m, steps_dist(m, a, b, c), a, b, LANES * c, n as int);
        }
        if bound.value.lt(dist) {
            return Dist::from_repr(dist);
        }
    }
    proof {
        assert(i == c);
        lemma_steps_grow(m, a, b, c, c);
        lemma_fold_from_grows(m, steps_dist(m, a, b, c), a, b, LANES * c, n as int);
    }
    fold_axes(m, Dist::from_repr(dist), lhs, rhs, at, n)
}

/// [`point_dist`] where every axis is folded after the one before it.
fn point_dist_fold<S: Scalar>(m: Metric<S>, lhs: &[S], rhs: &[S], bound: Dist<S>) -> (r: Dist<S>)
    requires
        lawful::<S>(),
        m.valid(),
        all_finite_spec(lhs@),
        all_finite_spec(rhs@),
        lhs@.len() == rhs@.len(),
        !bound.value.nan(),
    ensures
        nonneg(r.value),
        at_most(r.value, row_dist(m, lhs@, rhs@)),
        r.value == row_dist(m, lhs@, rhs@) || less(bound.value, r.value),
{
    let n = lhs.len();
    let mut dist: Dist<S> = Dist::zero();
    let mut i: usize = 0;
    proof {
        lemma_row_dist_nonneg(m, lhs@, rhs@);
    }
    while i < n
        invariant
            lawful::<S>(),
            m.valid(),
            all_finite_spec(lhs@),
            all_finite_spec(rhs@),
            i <= n,
            n == lhs@.len(),
            lhs@.len() == rhs@.len(),
            !bound.value.nan(),
            dist.value == fold_from(m, S::zero_spec(), lhs@, rhs@, 0, i as int),
            nonneg(row_dist(m, lhs@, rhs@)),
        decreases n - i,
    {
        let end = if n - i < LANES {
            n
        } else {
            i + LANES
        };
        let ghost was = i as int;
        dist = fold_axes(m, dist, lhs, rhs, i, end);
        i = end;
        proof {
            lemma_fold_on(m, S::zero_spec(), lhs@, rhs@, 0, was, end as int);
            lemma_fold_on(m, S::zero_spec(), lhs@, rhs@, 0, end as int, n as int);
            lemma_fold_from_grows(m, S::zero_spec(), lhs@, rhs@, 0, end as int);
            lemma_fold_from_grows(m, dist.value, lhs@, rhs@, end as int, n as int);
        }
        if bound.lt(dist) {
            return dist;
        }
    }
    dist
}

/// Folding some axes and then more is folding them all.
proof fn lemma_fold_on<S: Scalar>(
    m: Metric<S>,
    dist: S,
    a: Seq<S>,
    b: Seq<S>,
    from: int,
    mid: int,
    n: int,
)
    requires
        from <= mid <= n,
    ensures
        fold_from(m, fold_from(m, dist, a, b, from, mid), a, b, mid, n) == fold_from(
            m,
            dist,
            a,
            b,
            from,
            n,
        ),
    decreases n - mid,
{
    if mid < n {
        lemma_fold_on(m, dist, a, b, from, mid, n - 1);
    }
}

/// What an axis contributes to the distance to a box is never negative.
pub proof fn lemma_box_term_nonneg<S: Scalar>(m: Metric<S>, q: S, lo: S, hi: S)
    requires
        lawful::<S>(),
        m.valid(),
        finite(q),
        finite(lo),
        finite(hi),
    ensures
        nonneg(axis_offset_spec(q, lo, hi)),
        nonneg(m.reduce_spec(axis_offset_spec(q, lo, hi))),
{
    let off = axis_offset_spec(q, lo, hi);
    assert(!lo.minus_spec(q).nan());
    assert(!q.minus_spec(hi).nan());
    assert(nonneg(off));
    assert(nonneg(off.times_spec(off)));
}

proof fn lemma_lane_sum_nonneg<S: Scalar>(t: Seq<S>, l: int, c: int)
    requires
        lawful::<S>(),
        forall|i: int| 0 <= i < t.len() ==> nonneg(#[trigger] t[i]),
        0 <= l < LANES,
        LANES * c <= t.len(),
    ensures
        nonneg(lane_sum(t, l, c)),
    decreases c,
{
    if c > 0 {
        lemma_lane_sum_nonneg(t, l, c - 1);
        assert(nonneg(t[LANES * (c - 1) + l]));
    }
}

proof fn lemma_rest_sum_nonneg<S: Scalar>(sum: S, t: Seq<S>, from: int, n: int)
    requires
        lawful::<S>(),
        nonneg(sum),
        forall|i: int| 0 <= i < t.len() ==> nonneg(#[trigger] t[i]),
        0 <= from <= n <= t.len(),
    ensures
        nonneg(rest_sum(sum, t, from, n)),
    decreases n - from,
{
    if from < n {
        lemma_rest_sum_nonneg(sum, t, from, n - 1);
        assert(nonneg(t[n - 1]));
    }
}

/// A distance to a box as a query adds it up is never negative.
pub proof fn lemma_lane_box_nonneg<S: Scalar>(
    m: Metric<S>,
    q: Seq<S>,
    lo: Seq<S>,
    hi: Seq<S>,
)
    requires
        lawful::<S>(),
        m.valid(),
        all_finite_spec(q),
        all_finite_spec(lo),
        all_finite_spec(hi),
        lo.len() == q.len(),
        hi.len() == q.len(),
    ensures
        nonneg(lane_box_dist_spec(m, q, lo, hi)),
{
    let t = box_terms(m, q, lo, hi);
    let c = steps(q.len());
    assert forall|d: int| 0 <= d < t.len() implies nonneg(#[trigger] t[d]) by {
        lemma_box_term_nonneg(m, q[d], lo[d], hi[d]);
    }
    if adds(m) {
        if c > 0 {
            let lanes = Seq::new(8, |l: int| lane_sum(t, l, c));
            assert forall|l: int| 0 <= l < lanes.len() implies nonneg(#[trigger] lanes[l]) by {
                lemma_lane_sum_nonneg(t, l, c);
            }
            lemma_sums_nonneg(lanes);
        }
        lemma_rest_sum_nonneg(lanes_sum(t, c), t, LANES * c, q.len() as int);
    } else {
        lemma_box_dist_nonneg(m, q, lo, hi, q.len() as int);
    }
}

/// The reduced distance from a point to a box, zero inside. Comparable with
/// [`point_dist`].
pub fn lane_box_dist<S: Scalar>(m: Metric<S>, q: &[S], b: BBox<'_, S>) -> (r: Dist<S>)
    requires
        lawful::<S>(),
        m.valid(),
        b.valid(),
        all_finite_spec(q@),
        q@.len() == b.lo@.len(),
    ensures
        r.value == lane_box_dist_spec(m, q@, b.lo@, b.hi@),
        nonneg(r.value),
{
    if !sums(m) {
        return box_dist(m, q, b);
    }
    proof {
        lemma_lane_box_nonneg(m, q@, b.lo@, b.hi@);
    }
    let n = q.len();
    let ghost t = box_terms(m, q@, b.lo@, b.hi@);
    let ghost c = steps(q@.len());
    let mut lanes = [S::zero(); LANES];
    let mut at: usize = 0;
    let ghost mut i: int = 0;
    while n - at >= LANES
        invariant
            lawful::<S>(),
            m.valid(),
            b.valid(),
            all_finite_spec(q@),
            q@.len() == b.lo@.len(),
            n == q@.len(),
            t == box_terms(m, q@, b.lo@, b.hi@),
            c == steps(q@.len()),
            at <= n,
            at == LANES * i,
            0 <= i <= c,
            forall|l: int| 0 <= l < LANES ==> #[trigger] lanes@[l] == lane_sum(t, l, i),
        decreases n - at,
    {
        let mut l: usize = 0;
        while l < LANES
            invariant
                lawful::<S>(),
                m.valid(),
                b.valid(),
                all_finite_spec(q@),
                q@.len() == b.lo@.len(),
                n == q@.len(),
                t == box_terms(m, q@, b.lo@, b.hi@),
                at + LANES <= n,
                at == LANES * i,
                0 <= i,
                l <= LANES,
                forall|j: int| 0 <= j < l ==> #[trigger] lanes@[j] == lane_sum(t, j, i + 1),
                forall|j: int| l <= j < LANES ==> #[trigger] lanes@[j] == lane_sum(t, j, i),
            decreases LANES - l,
        {
            proof {
                let d = at + l;
                lemma_box_term_nonneg(m, q@[d], b.lo@[d], b.hi@[d]);
            }
            let axis = m.reduce(axis_offset(q[at + l], b.lo[at + l], b.hi[at + l]));
            lanes[l] = lanes[l].plus(axis.get());
            l += 1;
        }
        at += LANES;
        proof {
            i = i + 1;
        }
    }
    assert(i == c);
    let mut dist = if at == 0 {
        S::zero()
    } else {
        assert(lanes@ =~= Seq::new(8, |l: int| lane_sum(t, l, c)));
        half(&lanes)
    };
    let mut d = at;
    while d < n
        invariant
            lawful::<S>(),
            m.valid(),
            b.valid(),
            all_finite_spec(q@),
            q@.len() == b.lo@.len(),
            n == q@.len(),
            t == box_terms(m, q@, b.lo@, b.hi@),
            at <= d <= n,
            dist == rest_sum(lanes_sum(t, c), t, at as int, d as int),
        decreases n - d,
    {
        proof {
            lemma_box_term_nonneg(m, q@[d as int], b.lo@[d as int], b.hi@[d as int]);
        }
        dist = dist.plus(m.reduce(axis_offset(q[d], b.lo[d], b.hi[d])).get());
        d += 1;
    }
    Dist::from_repr(dist)
}

/// Where every axis is folded after the one before it, a query measures rows and
/// boxes as [`row_dist`] and [`box_dist_spec`] do.
pub proof fn lemma_serial<S: Scalar>(
    m: Metric<S>,
    q: Seq<S>,
    b: Seq<S>,
    lo: Seq<S>,
    hi: Seq<S>,
    grouped: bool,
)
    requires
        serial(m, q.len() as int),
    ensures
        scan_dist(m, q, b, grouped) == row_dist(m, q, b),
        lane_box_dist_spec(m, q, lo, hi) == box_dist_spec(m, q, lo, hi),
{
    if adds(m) {
        lemma_serial_box(m, q, lo, hi, q.len() as int);
    }
}

/// All values are zero.
spec fn all_zero<S: Scalar>(t: Seq<S>) -> bool {
    forall|i: int| 0 <= i < t.len() ==> (#[trigger] t[i]).key() == S::zero_spec().key()
}

/// No value is negative.
spec fn all_nonneg<S: Scalar>(t: Seq<S>) -> bool {
    forall|i: int| 0 <= i < t.len() ==> nonneg(#[trigger] t[i])
}

/// The sum of eight values is no less than any of them, and zero if they are.
proof fn lemma_half_sum<S: Scalar>(t: Seq<S>)
    requires
        lawful::<S>(),
        t.len() == 8,
        all_nonneg(t),
    ensures
        nonneg(half_sum(t)),
        forall|i: int| 0 <= i < 8 ==> at_most(#[trigger] t[i], half_sum(t)),
        all_zero(t) ==> half_sum(t).key() == S::zero_spec().key(),
{
    assert(nonneg(t[0]) && nonneg(t[1]) && nonneg(t[2]) && nonneg(t[3]));
    assert(nonneg(t[4]) && nonneg(t[5]) && nonneg(t[6]) && nonneg(t[7]));
    if all_zero(t) {
        reveal(orderly);
        let zero = S::zero_spec().key();
        assert(t[0].key() == zero && t[1].key() == zero && t[2].key() == zero);
        assert(t[3].key() == zero && t[4].key() == zero && t[5].key() == zero);
        assert(t[6].key() == zero && t[7].key() == zero);
    }
}

proof fn lemma_lane_sum<S: Scalar>(t: Seq<S>, l: int, c: int)
    requires
        lawful::<S>(),
        all_nonneg(t),
        0 <= l < LANES,
        0 <= c,
        LANES * c <= t.len(),
    ensures
        nonneg(lane_sum(t, l, c)),
        forall|i: int|
            0 <= i < LANES * c && i % 8 == l ==> at_most(#[trigger] t[i], lane_sum(t, l, c)),
        all_zero(t) ==> lane_sum(t, l, c).key() == S::zero_spec().key(),
    decreases c,
{
    if c > 0 {
        lemma_lane_sum(t, l, c - 1);
        let last = LANES * (c - 1) + l;
        assert(nonneg(t[last]));
        assert(t[last].key() == S::zero_spec().key() ==> lane_sum(t, l, c).key() == lane_sum(
            t,
            l,
            c - 1,
        ).key()) by {
            reveal(orderly);
        }
    }
}

proof fn lemma_rest_sum<S: Scalar>(sum: S, t: Seq<S>, from: int, n: int)
    requires
        lawful::<S>(),
        nonneg(sum),
        all_nonneg(t),
        0 <= from <= n <= t.len(),
    ensures
        nonneg(rest_sum(sum, t, from, n)),
        at_most(sum, rest_sum(sum, t, from, n)),
        forall|i: int| from <= i < n ==> at_most(#[trigger] t[i], rest_sum(sum, t, from, n)),
        all_zero(t) && sum.key() == S::zero_spec().key() ==> rest_sum(sum, t, from, n).key()
            == S::zero_spec().key(),
    decreases n - from,
{
    if from < n {
        lemma_rest_sum(sum, t, from, n - 1);
        assert(nonneg(t[n - 1]));
        assert(t[n - 1].key() == S::zero_spec().key() ==> rest_sum(sum, t, from, n).key()
            == rest_sum(sum, t, from, n - 1).key()) by {
            reveal(orderly);
        }
    }
}

/// What the axes contribute to the distance to a box, against their sum.
proof fn lemma_box_sum<S: Scalar>(m: Metric<S>, q: Seq<S>, lo: Seq<S>, hi: Seq<S>)
    requires
        lawful::<S>(),
        m.valid(),
        adds(m),
        all_finite_spec(q),
        box_ok(lo, hi, q.len()),
    ensures
        forall|d: int|
            0 <= d < q.len() ==> nonneg(#[trigger] box_terms(m, q, lo, hi)[d]) && at_most(
                box_terms(m, q, lo, hi)[d],
                lane_box_dist_spec(m, q, lo, hi),
            ),
        all_zero(box_terms(m, q, lo, hi)) ==> lane_box_dist_spec(m, q, lo, hi).key()
            == S::zero_spec().key(),
{
    let t = box_terms(m, q, lo, hi);
    let c = steps(q.len());
    let total = lane_box_dist_spec(m, q, lo, hi);
    assert forall|d: int| 0 <= d < t.len() implies nonneg(#[trigger] t[d]) by {
        lemma_box_term_nonneg(m, q[d], lo[d], hi[d]);
    }
    let lanes = Seq::new(8, |l: int| lane_sum(t, l, c));
    assert forall|l: int| 0 <= l < 8 implies nonneg(#[trigger] lanes[l]) && (all_zero(t)
        ==> lanes[l].key() == S::zero_spec().key()) by {
        lemma_lane_sum(t, l, c);
    }
    lemma_half_sum(lanes);
    lemma_rest_sum(lanes_sum(t, c), t, LANES * c, q.len() as int);
    assert forall|d: int| 0 <= d < t.len() implies at_most(#[trigger] t[d], total) by {
        if d < LANES * c {
            let l = d % 8;
            lemma_lane_sum(t, l, c);
            assert(at_most(t[d], lanes[l]));
            assert(at_most(lanes[l], half_sum(lanes)));
        }
    }
}

/// As a query measures it too, a point inside a box is at no distance from it.
pub proof fn a_point_inside_is_at_no_measured_distance<S: Scalar>(
    m: Metric<S>,
    q: Seq<S>,
    lo: Seq<S>,
    hi: Seq<S>,
)
    requires
        lawful::<S>(),
        m.valid(),
        all_finite_spec(q),
        box_ok(lo, hi, q.len()),
        inside(q, lo, hi),
    ensures
        lane_box_dist_spec(m, q, lo, hi).key() == S::zero_spec().key(),
{
    if adds(m) {
        let t = box_terms(m, q, lo, hi);
        assert forall|d: int| 0 <= d < t.len() implies (#[trigger] t[d]).key()
            == S::zero_spec().key() by {
            assert(lo[d].key() <= q[d].key() <= hi[d].key());
            lemma_offset_is_nearest(q[d], lo[d], hi[d], q[d]);
            lemma_reduce_zero(m, axis_offset_spec(q[d], lo[d], hi[d]));
        }
        lemma_box_sum(m, q, lo, hi);
    } else {
        a_point_inside_is_at_no_distance(m, q, lo, hi);
    }
}

/// As a query measures it too, a point at no distance from a box is inside, where
/// what an axis contributes cannot vanish.
pub proof fn a_point_at_no_measured_distance_is_inside<S: Scalar>(
    m: Metric<S>,
    q: Seq<S>,
    lo: Seq<S>,
    hi: Seq<S>,
)
    requires
        lawful::<S>(),
        m.valid(),
        plain_or_exact(m),
        all_finite_spec(q),
        box_ok(lo, hi, q.len()),
        lane_box_dist_spec(m, q, lo, hi).key() == S::zero_spec().key(),
    ensures
        inside(q, lo, hi),
{
    if adds(m) {
        let t = box_terms(m, q, lo, hi);
        lemma_box_sum(m, q, lo, hi);
        assert forall|d: int| 0 <= d < q.len() implies lo[d].key() <= (#[trigger] q[d]).key()
            <= hi[d].key() by {
            assert(nonneg(t[d]));
            assert(lo[d].key() <= hi[d].key());
            lemma_offset_is_nearest(q[d], lo[d], hi[d], clamped(q, lo, hi)[d]);
            lemma_reduce_zero(m, axis_offset_spec(q[d], lo[d], hi[d]));
        }
    } else {
        a_point_at_no_distance_is_inside(m, q, lo, hi);
    }
}

/// Where a query folds every axis after the one before it, it measures a box at the
/// distance of its nearest point, by a metric that keeps the order of plain
/// distances.
pub proof fn a_box_is_measured_at_its_nearest_point<S: Scalar>(
    m: Metric<S>,
    q: Seq<S>,
    lo: Seq<S>,
    hi: Seq<S>,
    grouped: bool,
)
    requires
        lawful::<S>(),
        m.valid(),
        monotone(m),
        serial(m, q.len() as int),
        all_finite_spec(q),
        box_ok(lo, hi, q.len()),
    ensures
        scan_dist(m, q, clamped(q, lo, hi), grouped).key() == lane_box_dist_spec(
            m,
            q,
            lo,
            hi,
        ).key(),
{
    lemma_serial(m, q, clamped(q, lo, hi), lo, hi, grouped);
    a_box_is_as_far_as_its_nearest_point(m, q, lo, hi);
}

proof fn lemma_serial_box<S: Scalar>(m: Metric<S>, q: Seq<S>, lo: Seq<S>, hi: Seq<S>, n: int)
    requires
        adds(m),
        0 <= n <= q.len(),
    ensures
        rest_sum(S::zero_spec(), box_terms(m, q, lo, hi), 0, n) == partial_box_dist(
            m,
            q,
            lo,
            hi,
            n,
        ),
    decreases n,
{
    if n > 0 {
        lemma_serial_box(m, q, lo, hi, n - 1);
    }
}

} // verus!
