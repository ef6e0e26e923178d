//! Reduced distances between points, from a point to a box and between boxes.
//!
//! Here every distance is folded axis by axis. A query, which measures many rows,
//! adds up in another order: see [`crate::lanes`].

use crate::layout::{axis_offset, axis_offset_spec, BBox};
use crate::metric::{lemma_fold_grows, Dist, Metric};
use crate::scalar::{all_finite_spec, at_most, finite, lawful, less, max, max_spec, nonneg, orderly,
    power_grows, root_grows, Scalar};
use vstd::prelude::*;

verus! {

/// The contribution of one axis to the distance between two points.
pub open spec fn axis_term<S: Scalar>(m: Metric<S>, a: S, b: S) -> S {
    match m {
        Metric::L2 => a.minus_spec(b).times_spec(a.minus_spec(b)),
        Metric::LP(p) => a.minus_spec(b).abs_spec().power_spec(p),
        Metric::L1 | Metric::LInf => a.minus_spec(b).abs_spec(),
    }
}

/// `dist` with the axes from `from` up to `n` folded in, in axis order.
pub open spec fn fold_from<S: Scalar>(
    m: Metric<S>,
    dist: S,
    a: Seq<S>,
    b: Seq<S>,
    from: int,
    n: int,
) -> S
    decreases n - from,
{
    if n <= from {
        dist
    } else {
        m.fold_spec(fold_from(m, dist, a, b, from, n - 1), axis_term(m, a[n - 1], b[n - 1]))
    }
}

/// The reduced distance over the first `n` axes, folded in axis order.
pub open spec fn partial_dist<S: Scalar>(m: Metric<S>, a: Seq<S>, b: Seq<S>, n: int) -> S {
    fold_from(m, S::zero_spec(), a, b, 0, n)
}

/// The reduced distance between two points.
pub open spec fn row_dist<S: Scalar>(m: Metric<S>, a: Seq<S>, b: Seq<S>) -> S {
    partial_dist(m, a, b, a.len() as int)
}

/// The contribution of one more axis to the distance to a box.
pub open spec fn box_fold<S: Scalar>(m: Metric<S>, dist: S, offset: S) -> S {
    match m {
        Metric::LP(p) => if less(S::zero_spec(), offset) {
            dist.plus_spec(offset.power_spec(p))
        } else {
            dist
        },
        _ => m.fold_spec(dist, m.reduce_spec(offset)),
    }
}

/// The reduced distance to a box over the first `n` axes.
pub open spec fn partial_box_dist<S: Scalar>(
    m: Metric<S>,
    q: Seq<S>,
    lo: Seq<S>,
    hi: Seq<S>,
    n: int,
) -> S
    decreases n,
{
    if n <= 0 {
        S::zero_spec()
    } else {
        box_fold(
            m,
            partial_box_dist(m, q, lo, hi, n - 1),
            axis_offset_spec(q[n - 1], lo[n - 1], hi[n - 1]),
        )
    }
}

/// The reduced distance from a point to a box, zero inside.
pub open spec fn box_dist_spec<S: Scalar>(
    m: Metric<S>,
    q: Seq<S>,
    lo: Seq<S>,
    hi: Seq<S>,
) -> S {
    partial_box_dist(m, q, lo, hi, q.len() as int)
}

/// The contribution of an axis is never negative.
pub proof fn lemma_axis_term_nonneg<S: Scalar>(m: Metric<S>, a: S, b: S)
    requires
        lawful::<S>(),
        m.valid(),
        finite(a),
        finite(b),
    ensures
        nonneg(axis_term(m, a, b)),
{
    let d = a.minus_spec(b);
    assert(!d.nan());
    assert(nonneg(d.times_spec(d)));
    assert(nonneg(d.abs_spec()));
}

/// Folding axes into a distance never brings it down.
pub proof fn lemma_fold_from_grows<S: Scalar>(
    m: Metric<S>,
    dist: S,
    a: Seq<S>,
    b: Seq<S>,
    from: int,
    n: int,
)
    requires
        lawful::<S>(),
        m.valid(),
        nonneg(dist),
        all_finite_spec(a),
        all_finite_spec(b),
        0 <= from <= n <= a.len(),
        a.len() == b.len(),
    ensures
        nonneg(fold_from(m, dist, a, b, from, n)),
        at_most(dist, fold_from(m, dist, a, b, from, n)),
    decreases n - from,
{
    if from < n {
        lemma_fold_from_grows(m, dist, a, b, from, n - 1);
        lemma_axis_term_nonneg(m, a[n - 1], b[n - 1]);
        lemma_fold_grows(
            m,
            fold_from(m, dist, a, b, from, n - 1),
            axis_term(m, a[n - 1], b[n - 1]),
        );
    }
}

/// A partial distance is never negative and never shrinks.
proof fn lemma_partial_dist_grows<S: Scalar>(
    m: Metric<S>,
    a: Seq<S>,
    b: Seq<S>,
    i: int,
    j: int,
)
    requires
        lawful::<S>(),
        m.valid(),
        all_finite_spec(a),
        all_finite_spec(b),
        0 <= i <= j <= a.len(),
        a.len() == b.len(),
    ensures
        nonneg(partial_dist(m, a, b, i)),
        at_most(partial_dist(m, a, b, i), partial_dist(m, a, b, j)),
    decreases j,
{
    if j > 0 {
        if i < j {
            lemma_partial_dist_grows(m, a, b, i, j - 1);
        } else {
            lemma_partial_dist_grows(m, a, b, i - 1, j - 1);
        }
        lemma_axis_term_nonneg(m, a[j - 1], b[j - 1]);
        lemma_fold_grows(m, partial_dist(m, a, b, j - 1), axis_term(m, a[j - 1], b[j - 1]));
    }
}

/// No axis contributes more than the distance.
pub proof fn lemma_term_below_dist<S: Scalar>(m: Metric<S>, a: Seq<S>, b: Seq<S>, d: int)
    requires
        lawful::<S>(),
        m.valid(),
        all_finite_spec(a),
        all_finite_spec(b),
        a.len() == b.len(),
        0 <= d < a.len(),
    ensures
        nonneg(axis_term(m, a[d], b[d])),
        at_most(axis_term(m, a[d], b[d]), row_dist(m, a, b)),
{
    lemma_axis_term_nonneg(m, a[d], b[d]);
    lemma_partial_dist_grows(m, a, b, d, d);
    lemma_fold_grows(m, partial_dist(m, a, b, d), axis_term(m, a[d], b[d]));
    assert(at_most(axis_term(m, a[d], b[d]), partial_dist(m, a, b, d + 1)));
    lemma_partial_dist_grows(m, a, b, d + 1, a.len() as int);
}

/// A distance between points is never negative.
pub proof fn lemma_row_dist_nonneg<S: Scalar>(m: Metric<S>, a: Seq<S>, b: Seq<S>)
    requires
        lawful::<S>(),
        m.valid(),
        all_finite_spec(a),
        all_finite_spec(b),
        a.len() == b.len(),
    ensures
        nonneg(row_dist(m, a, b)),
{
    lemma_partial_dist_grows(m, a, b, a.len() as int, a.len() as int);
}

/// The contribution of one axis to the distance between two points.
pub fn axis<S: Scalar>(m: Metric<S>, a: S, b: S) -> (r: S)
    ensures
        r == axis_term(m, a, b),
{
    let delta = a.minus(b);
    match m {
        Metric::L2 => delta.times(delta),
        Metric::LP(p) => delta.abs().power(p),
        Metric::L1 | Metric::LInf => delta.abs(),
    }
}

/// Folds the axes from `start` to `end` into a distance.
pub(crate) fn fold_axes<S: Scalar>(
    m: Metric<S>,
    dist: Dist<S>,
    lhs: &[S],
    rhs: &[S],
    start: usize,
    end: usize,
) -> (r: Dist<S>)
    requires
        start <= end <= lhs@.len(),
        lhs@.len() == rhs@.len(),
    ensures
        r.value == fold_from(m, dist.value, lhs@, rhs@, start as int, end as int),
{
    let ghost from = dist.value;
    let mut dist = dist;
    let mut i = start;
    while i < end
        invariant
            start <= i <= end <= lhs@.len(),
            lhs@.len() == rhs@.len(),
            dist.value == fold_from(m, from, lhs@, rhs@, start as int, i as int),
        decreases end - i,
    {
        dist = m.fold(dist, Dist::from_repr(axis(m, lhs[i], rhs[i])));
        i += 1;
    }
    dist
}

/// `dist` with every axis of two points folded in. From zero, that is the reduced
/// distance between the points.
pub fn fold_scalar<S: Scalar>(m: Metric<S>, dist: Dist<S>, lhs: &[S], rhs: &[S]) -> (r: Dist<S>)
    requires
        lhs@.len() == rhs@.len(),
    ensures
        r.value == fold_from(m, dist.value, lhs@, rhs@, 0, lhs@.len() as int),
        dist.value == S::zero_spec() ==> r.value == row_dist(m, lhs@, rhs@),
{
    fold_axes(m, dist, lhs, rhs, 0, lhs.len())
}

/// A distance to a box is never negative.
pub proof fn lemma_box_dist_nonneg<S: Scalar>(
    m: Metric<S>,
    q: Seq<S>,
    lo: Seq<S>,
    hi: Seq<S>,
    n: int,
)
    requires
        lawful::<S>(),
        m.valid(),
        all_finite_spec(q),
        all_finite_spec(lo),
        all_finite_spec(hi),
        0 <= n <= q.len(),
        lo.len() == q.len(),
        hi.len() == q.len(),
    ensures
        nonneg(partial_box_dist(m, q, lo, hi, n)),
    decreases n,
{
    if n > 0 {
        lemma_box_dist_nonneg(m, q, lo, hi, n - 1);
        let off = axis_offset_spec(q[n - 1], lo[n - 1], hi[n - 1]);
        assert(!lo[n - 1].minus_spec(q[n - 1]).nan());
        assert(!q[n - 1].minus_spec(hi[n - 1]).nan());
        assert(nonneg(off));
        assert(nonneg(off.times_spec(off)));
        lemma_fold_grows(m, partial_box_dist(m, q, lo, hi, n - 1), m.reduce_spec(off));
    }
}

/// The reduced distance from a point to a box, zero inside. Comparable with
/// [`fold_scalar`].
pub fn box_dist<S: Scalar>(m: Metric<S>, q: &[S], b: BBox<'_, S>) -> (r: Dist<S>)
    requires
        lawful::<S>(),
        m.valid(),
        b.valid(),
        all_finite_spec(q@),
        q@.len() == b.lo@.len(),
    ensures
        r.value == box_dist_spec(m, q@, b.lo@, b.hi@),
        nonneg(r.value),
{
    let mut dist: Dist<S> = Dist::zero();
    let mut i: usize = 0;
    while i < q.len()
        invariant
            lawful::<S>(),
            m.valid(),
            b.valid(),
            all_finite_spec(q@),
            q@.len() == b.lo@.len(),
            i <= q@.len(),
            dist.value == partial_box_dist(m, q@, b.lo@, b.hi@, i as int),
        decreases q@.len() - i,
    {
        let off = axis_offset(q[i], b.lo[i], b.hi[i]);
        match m {
            Metric::LP(p) => {
                if S::zero().lt(off) {
                    dist = Dist::from_repr(dist.get().plus(off.power(p)));
                }
            },
            _ => {
                dist = m.fold(dist, m.reduce(off));
            },
        }
        i += 1;
    }
    proof {
        lemma_box_dist_nonneg(m, q@, b.lo@, b.hi@, q@.len() as int);
    }
    dist
}

/// Reduced distances keep the order of plain ones. Powers of an exponent that is
/// kept do if [`power_grows`] holds; the other metrics always do.
pub open spec fn monotone<S: Scalar>(m: Metric<S>) -> bool {
    m is LP ==> power_grows::<S>()
}

pub proof fn lemma_reduce_monotone<S: Scalar>(m: Metric<S>, a: S, b: S)
    requires
        lawful::<S>(),
        m.valid(),
        monotone(m),
        nonneg(a),
        at_most(a, b),
    ensures
        nonneg(m.reduce_spec(a)),
        at_most(m.reduce_spec(a), m.reduce_spec(b)),
{
    reveal(orderly);
    assert(nonneg(a.times_spec(a)));
    assert(nonneg(b.times_spec(b)));
}

/// Plain distances keep the order of reduced ones. General roots do if
/// [`root_grows`] holds; the other metrics always do.
pub open spec fn restores_in_order<S: Scalar>(m: Metric<S>) -> bool {
    m is LP ==> root_grows::<S>()
}

pub proof fn lemma_restore_monotone<S: Scalar>(m: Metric<S>, a: S, b: S)
    requires
        lawful::<S>(),
        m.valid(),
        restores_in_order(m),
        nonneg(a),
        at_most(a, b),
    ensures
        nonneg(m.restore_spec(a)),
        at_most(m.restore_spec(a), m.restore_spec(b)),
{
    reveal(orderly);
    assert(nonneg(a.sqrt_spec()));
    assert(nonneg(b.sqrt_spec()));
}

/// The contribution of an axis is the offset along it, reduced.
pub proof fn lemma_axis_term_reduces<S: Scalar>(m: Metric<S>, a: S, b: S)
    requires
        lawful::<S>(),
        m.valid(),
        finite(a),
        finite(b),
    ensures
        nonneg(a.minus_spec(b).abs_spec()),
        axis_term(m, a, b).key() == m.reduce_spec(a.minus_spec(b).abs_spec()).key(),
{
    reveal(orderly);
    let d = a.minus_spec(b);
    assert(!d.nan());
    assert(d.times_spec(d).key() == d.abs_spec().times_spec(d.abs_spec()).key());
}

pub proof fn lemma_fold_monotone<S: Scalar>(m: Metric<S>, a: S, b: S, c: S, d: S)
    requires
        lawful::<S>(),
        nonneg(a),
        nonneg(c),
        at_most(a, b),
        at_most(c, d),
    ensures
        at_most(m.fold_spec(a, c), m.fold_spec(b, d)),
{
    reveal(orderly);
    lemma_fold_grows(m, a, c);
    lemma_fold_grows(m, b, d);
}

/// The offset to an interval is at most the offset to a coordinate in it.
pub proof fn lemma_offset_below<S: Scalar>(q: S, lo: S, hi: S, x: S)
    requires
        lawful::<S>(),
        finite(q),
        finite(lo),
        finite(hi),
        finite(x),
        lo.key() <= x.key() <= hi.key(),
    ensures
        nonneg(axis_offset_spec(q, lo, hi)),
        at_most(axis_offset_spec(q, lo, hi), q.minus_spec(x).abs_spec()),
{
    reveal(orderly);
    assert(lo.minus_spec(q).key() <= x.minus_spec(q).key());
    assert(q.minus_spec(hi).key() <= q.minus_spec(x).key());
    assert(!x.minus_spec(q).nan() && !q.minus_spec(x).nan());
    assert(!lo.minus_spec(q).nan() && !q.minus_spec(hi).nan());
    assert(x.minus_spec(q).key() <= x.minus_spec(q).abs_spec().key());
    assert(q.minus_spec(x).key() <= q.minus_spec(x).abs_spec().key());
    assert(nonneg(q.minus_spec(x).abs_spec()));
}

/// No point of a box is nearer than the box.
pub proof fn lemma_box_below_row<S: Scalar>(
    m: Metric<S>,
    q: Seq<S>,
    lo: Seq<S>,
    hi: Seq<S>,
    row: Seq<S>,
    n: int,
)
    requires
        lawful::<S>(),
        m.valid(),
        monotone(m),
        all_finite_spec(q),
        all_finite_spec(lo),
        all_finite_spec(hi),
        all_finite_spec(row),
        0 <= n <= q.len(),
        lo.len() == q.len(),
        hi.len() == q.len(),
        row.len() == q.len(),
        forall|d: int|
            0 <= d < q.len() ==> lo[d].key() <= (#[trigger] row[d]).key() <= hi[d].key(),
    ensures
        at_most(partial_box_dist(m, q, lo, hi, n), partial_dist(m, q, row, n)),
    decreases n,
{
    if n > 0 {
        let d = n - 1;
        lemma_box_below_row(m, q, lo, hi, row, d);
        lemma_box_dist_nonneg(m, q, lo, hi, d);
        lemma_box_dist_nonneg(m, q, lo, hi, n);
        let off = axis_offset_spec(q[d], lo[d], hi[d]);
        let gap = q[d].minus_spec(row[d]).abs_spec();
        assert(lo[d].key() <= row[d].key() <= hi[d].key());
        lemma_offset_below(q[d], lo[d], hi[d], row[d]);
        lemma_axis_term_reduces(m, q[d], row[d]);
        lemma_axis_term_nonneg(m, q[d], row[d]);
        lemma_reduce_monotone(m, off, gap);
        lemma_partial_dist_grows(m, q, row, d, d);
        lemma_fold_grows(m, partial_dist(m, q, row, d), axis_term(m, q[d], row[d]));
        lemma_fold_monotone(
            m,
            partial_box_dist(m, q, lo, hi, d),
            partial_dist(m, q, row, d),
            m.reduce_spec(off),
            axis_term(m, q[d], row[d]),
        );
    }
}

/// The point lies in the box.
pub open spec fn inside<S: Scalar>(q: Seq<S>, lo: Seq<S>, hi: Seq<S>) -> bool {
    forall|d: int| 0 <= d < q.len() ==> lo[d].key() <= (#[trigger] q[d]).key() <= hi[d].key()
}

/// The point of the box that is nearest to `q`.
pub open spec fn clamped<S: Scalar>(q: Seq<S>, lo: Seq<S>, hi: Seq<S>) -> Seq<S> {
    Seq::new(
        q.len(),
        |d: int|
            if q[d].key() < lo[d].key() {
                lo[d]
            } else if hi[d].key() < q[d].key() {
                hi[d]
            } else {
                q[d]
            },
    )
}

/// A box with finite corners, the lower one nowhere above the upper one.
pub open spec fn box_ok<S: Scalar>(lo: Seq<S>, hi: Seq<S>, ndim: nat) -> bool {
    &&& lo.len() == ndim
    &&& hi.len() == ndim
    &&& all_finite_spec(lo)
    &&& all_finite_spec(hi)
    &&& forall|d: int| 0 <= d < ndim ==> (#[trigger] lo[d]).key() <= hi[d].key()
}

/// The offset to an interval is zero exactly inside, and is that to the nearest
/// coordinate of the interval.
pub proof fn lemma_offset_is_nearest<S: Scalar>(q: S, lo: S, hi: S, c: S)
    requires
        lawful::<S>(),
        finite(q),
        finite(lo),
        finite(hi),
        lo.key() <= hi.key(),
        c == if q.key() < lo.key() {
            lo
        } else if hi.key() < q.key() {
            hi
        } else {
            q
        },
    ensures
        nonneg(axis_offset_spec(q, lo, hi)),
        axis_offset_spec(q, lo, hi).key() == S::zero_spec().key() <==> lo.key() <= q.key()
            <= hi.key(),
        axis_offset_spec(q, lo, hi).key() == q.minus_spec(c).abs_spec().key(),
{
    reveal(orderly);
    let (below, above) = (lo.minus_spec(q), q.minus_spec(hi));
    assert(!below.nan() && !above.nan() && !q.minus_spec(c).nan() && !c.minus_spec(q).nan());
    assert(below.key() <= S::zero_spec().key() <==> lo.key() <= q.key());
    assert(above.key() <= S::zero_spec().key() <==> q.key() <= hi.key());
    assert(S::zero_spec().key() <= below.key() <==> q.key() <= lo.key());
    assert(S::zero_spec().key() <= above.key() <==> hi.key() <= q.key());
    assert(q.minus_spec(c).abs_spec().key() == c.minus_spec(q).abs_spec().key());
    if q.key() < lo.key() {
        assert(nonneg(below));
        assert(below.abs_spec().key() == below.key());
    } else if hi.key() < q.key() {
        assert(nonneg(above));
        assert(above.abs_spec().key() == above.key());
    } else {
        let none = q.minus_spec(q);
        assert(none.key() == S::zero_spec().key());
        assert(nonneg(none));
        assert(none.abs_spec().key() == none.key());
    }
}

/// What an offset of zero contributes is zero, what an offset above contributes is
/// not less than it where contributions are plain offsets, and above zero in
/// arithmetic that does not round.
pub proof fn lemma_reduce_zero<S: Scalar>(m: Metric<S>, off: S)
    requires
        lawful::<S>(),
        m.valid(),
        nonneg(off),
    ensures
        nonneg(m.reduce_spec(off)),
        off.key() == S::zero_spec().key() ==> m.reduce_spec(off).key() == S::zero_spec().key(),
        plain_or_exact(m) && off.key() != S::zero_spec().key() ==> m.reduce_spec(off).key()
            > S::zero_spec().key(),
{
    reveal(orderly);
    assert(nonneg(off.times_spec(off)));
    if S::exact() && off.key() != S::zero_spec().key() {
        let one = S::one_spec();
        assert(at_most(one, off));
        assert(one.times_spec(one).key() == one.key());
        assert(one.times_spec(one).key() <= off.times_spec(off).key());
        if let Metric::LP(p) = m {
            assert(one.power_spec(p).key() == one.key());
            if power_grows::<S>() {
                assert(one.power_spec(p).key() <= off.power_spec(p).key());
            }
        }
    }
}

/// Contributions are the offsets themselves, or the arithmetic does not round and
/// the metric keeps the order of plain distances.
pub open spec fn plain_or_exact<S: Scalar>(m: Metric<S>) -> bool {
    m is L1 || m is LInf || (S::exact() && monotone(m))
}

proof fn lemma_partial_box_zero<S: Scalar>(
    m: Metric<S>,
    q: Seq<S>,
    lo: Seq<S>,
    hi: Seq<S>,
    n: int,
)
    requires
        lawful::<S>(),
        m.valid(),
        all_finite_spec(q),
        box_ok(lo, hi, q.len()),
        0 <= n <= q.len(),
    ensures
        nonneg(partial_box_dist(m, q, lo, hi, n)),
        inside(q, lo, hi) ==> partial_box_dist(m, q, lo, hi, n).key() == S::zero_spec().key(),
        plain_or_exact(m) && partial_box_dist(m, q, lo, hi, n).key() == S::zero_spec().key()
            ==> forall|d: int| 0 <= d < n ==> lo[d].key() <= (#[trigger] q[d]).key() <= hi[d].key(),
    decreases n,
{
    lemma_box_dist_nonneg(m, q, lo, hi, n);
    if n > 0 {
        let d = n - 1;
        let was = partial_box_dist(m, q, lo, hi, d);
        let off = axis_offset_spec(q[d], lo[d], hi[d]);
        let axis = m.reduce_spec(off);
        lemma_partial_box_zero(m, q, lo, hi, d);
        assert(lo[d].key() <= hi[d].key());
        lemma_offset_is_nearest(q[d], lo[d], hi[d], clamped(q, lo, hi)[d]);
        lemma_reduce_zero(m, off);
        lemma_fold_grows(m, was, axis);
        assert(axis.key() == S::zero_spec().key() ==> m.fold_spec(was, axis).key() == was.key())
            by {
            reveal(orderly);
        }
        if inside(q, lo, hi) {
            assert(lo[d].key() <= q[d].key() <= hi[d].key());
        }
    }
}

/// A point inside a box is at no distance from it, in any lawful arithmetic.
pub proof fn a_point_inside_is_at_no_distance<S: Scalar>(
    m: Metric<S>,
    q: Seq<S>,
    lo: Seq<S>,
    hi: Seq<S>,
)
    requires
        lawful::<S>(),
        m.valid(),
        all_finite_spec(q),
        box_ok(lo, hi, q.len()),
        inside(q, lo, hi),
    ensures
        box_dist_spec(m, q, lo, hi).key() == S::zero_spec().key(),
{
    lemma_partial_box_zero(m, q, lo, hi, q.len() as int);
}

/// A point at no distance from a box is inside, where what an axis contributes
/// cannot vanish.
pub proof fn a_point_at_no_distance_is_inside<S: Scalar>(
    m: Metric<S>,
    q: Seq<S>,
    lo: Seq<S>,
    hi: Seq<S>,
)
    requires
        lawful::<S>(),
        m.valid(),
        plain_or_exact(m),
        all_finite_spec(q),
        box_ok(lo, hi, q.len()),
        box_dist_spec(m, q, lo, hi).key() == S::zero_spec().key(),
    ensures
        inside(q, lo, hi),
{
    lemma_partial_box_zero(m, q, lo, hi, q.len() as int);
}

proof fn lemma_partial_clamped<S: Scalar>(
    m: Metric<S>,
    q: Seq<S>,
    lo: Seq<S>,
    hi: Seq<S>,
    n: int,
)
    requires
        lawful::<S>(),
        m.valid(),
        monotone(m),
        all_finite_spec(q),
        box_ok(lo, hi, q.len()),
        0 <= n <= q.len(),
    ensures
        all_finite_spec(clamped(q, lo, hi)),
        nonneg(partial_box_dist(m, q, lo, hi, n)),
        nonneg(partial_dist(m, q, clamped(q, lo, hi), n)),
        partial_dist(m, q, clamped(q, lo, hi), n).key() == partial_box_dist(
            m,
            q,
            lo,
            hi,
            n,
        ).key(),
    decreases n,
{
    let c = clamped(q, lo, hi);
    assert forall|d: int| 0 <= d < c.len() implies finite(#[trigger] c[d]) by {
        assert(finite(q[d]) && finite(lo[d]) && finite(hi[d]));
    }
    lemma_box_dist_nonneg(m, q, lo, hi, n);
    lemma_partial_dist_grows(m, q, c, n, n);
    if n > 0 {
        let d = n - 1;
        let (x, y) = (partial_dist(m, q, c, d), partial_box_dist(m, q, lo, hi, d));
        let off = axis_offset_spec(q[d], lo[d], hi[d]);
        let gap = q[d].minus_spec(c[d]).abs_spec();
        let (axis, term) = (m.reduce_spec(off), axis_term(m, q[d], c[d]));
        lemma_partial_clamped(m, q, lo, hi, d);
        assert(lo[d].key() <= hi[d].key());
        lemma_offset_is_nearest(q[d], lo[d], hi[d], c[d]);
        lemma_axis_term_reduces(m, q[d], c[d]);
        lemma_axis_term_nonneg(m, q[d], c[d]);
        lemma_reduce_monotone(m, off, gap);
        lemma_reduce_monotone(m, gap, off);
        lemma_reduce_zero(m, off);
        lemma_fold_monotone(m, x, y, term, axis);
        lemma_fold_monotone(m, y, x, axis, term);
        assert(axis.key() == S::zero_spec().key() ==> m.fold_spec(y, axis).key() == y.key()) by {
            reveal(orderly);
            lemma_fold_grows(m, y, axis);
        }
    }
}

/// A box is as far as the point of it that is nearest, by a metric that keeps the
/// order of plain distances.
pub proof fn a_box_is_as_far_as_its_nearest_point<S: Scalar>(
    m: Metric<S>,
    q: Seq<S>,
    lo: Seq<S>,
    hi: Seq<S>,
)
    requires
        lawful::<S>(),
        m.valid(),
        monotone(m),
        all_finite_spec(q),
        box_ok(lo, hi, q.len()),
    ensures
        inside(clamped(q, lo, hi), lo, hi),
        row_dist(m, q, clamped(q, lo, hi)).key() == box_dist_spec(m, q, lo, hi).key(),
{
    lemma_partial_clamped(m, q, lo, hi, q.len() as int);
    let c = clamped(q, lo, hi);
    assert forall|d: int| 0 <= d < c.len() implies lo[d].key() <= (#[trigger] c[d]).key()
        <= hi[d].key() by {
        assert(lo[d].key() <= hi[d].key());
    }
}

/// The gap between two intervals, zero where they meet.
pub open spec fn gap_spec<S: Scalar>(alo: S, ahi: S, blo: S, bhi: S) -> S {
    max_spec(max_spec(blo.minus_spec(ahi), alo.minus_spec(bhi)), S::zero_spec())
}

/// The reduced distance between two boxes over the first `n` axes.
pub open spec fn partial_gap_dist<S: Scalar>(
    m: Metric<S>,
    alo: Seq<S>,
    ahi: Seq<S>,
    blo: Seq<S>,
    bhi: Seq<S>,
    n: int,
) -> S
    decreases n,
{
    if n <= 0 {
        S::zero_spec()
    } else {
        m.fold_spec(
            partial_gap_dist(m, alo, ahi, blo, bhi, n - 1),
            m.reduce_spec(gap_spec(alo[n - 1], ahi[n - 1], blo[n - 1], bhi[n - 1])),
        )
    }
}

/// The reduced distance between two boxes, zero where they meet.
pub open spec fn gap_dist_spec<S: Scalar>(
    m: Metric<S>,
    alo: Seq<S>,
    ahi: Seq<S>,
    blo: Seq<S>,
    bhi: Seq<S>,
) -> S {
    partial_gap_dist(m, alo, ahi, blo, bhi, alo.len() as int)
}

/// The reduced distance between two boxes, zero where they meet.
pub fn gap_dist<S: Scalar>(m: Metric<S>, a: BBox<'_, S>, b: BBox<'_, S>) -> (r: Dist<S>)
    requires
        lawful::<S>(),
        m.valid(),
        a.valid(),
        b.valid(),
        a.lo@.len() == b.lo@.len(),
    ensures
        r.value == gap_dist_spec(m, a.lo@, a.hi@, b.lo@, b.hi@),
        nonneg(r.value),
{
    let mut dist: Dist<S> = Dist::zero();
    let mut i: usize = 0;
    while i < a.lo.len()
        invariant
            lawful::<S>(),
            m.valid(),
            a.valid(),
            b.valid(),
            a.lo@.len() == b.lo@.len(),
            i <= a.lo@.len(),
            nonneg(dist.value),
            dist.value == partial_gap_dist(m, a.lo@, a.hi@, b.lo@, b.hi@, i as int),
        decreases a.lo@.len() - i,
    {
        let gap = max(max(b.lo[i].minus(a.hi[i]), a.lo[i].minus(b.hi[i])), S::zero());
        assert(!b.lo@[i as int].minus_spec(a.hi@[i as int]).nan());
        assert(!a.lo@[i as int].minus_spec(b.hi@[i as int]).nan());
        let axis = m.reduce(gap);
        proof {
            lemma_fold_grows(m, dist.value, axis.value);
        }
        dist = m.fold(dist, axis);
        i += 1;
    }
    dist
}

/// The gap between two intervals is at most the offset between coordinates in
/// them.
proof fn lemma_gap_below<S: Scalar>(alo: S, ahi: S, blo: S, bhi: S, a: S, b: S)
    requires
        lawful::<S>(),
        finite(alo),
        finite(ahi),
        finite(blo),
        finite(bhi),
        finite(a),
        finite(b),
        alo.key() <= a.key() <= ahi.key(),
        blo.key() <= b.key() <= bhi.key(),
    ensures
        nonneg(gap_spec(alo, ahi, blo, bhi)),
        at_most(gap_spec(alo, ahi, blo, bhi), a.minus_spec(b).abs_spec()),
{
    reveal(orderly);
    assert(blo.minus_spec(ahi).key() <= b.minus_spec(ahi).key());
    assert(b.minus_spec(ahi).key() <= b.minus_spec(a).key());
    assert(alo.minus_spec(bhi).key() <= a.minus_spec(bhi).key());
    assert(a.minus_spec(bhi).key() <= a.minus_spec(b).key());
    assert(!blo.minus_spec(ahi).nan() && !alo.minus_spec(bhi).nan());
    assert(!a.minus_spec(b).nan() && !b.minus_spec(a).nan());
    assert(a.minus_spec(b).key() <= a.minus_spec(b).abs_spec().key());
    assert(b.minus_spec(a).key() <= b.minus_spec(a).abs_spec().key());
    assert(nonneg(a.minus_spec(b).abs_spec()));
}

/// No two points of two boxes are nearer than the boxes.
pub proof fn lemma_gap_below_rows<S: Scalar>(
    m: Metric<S>,
    alo: Seq<S>,
    ahi: Seq<S>,
    blo: Seq<S>,
    bhi: Seq<S>,
    a: Seq<S>,
    b: Seq<S>,
    n: int,
)
    requires
        lawful::<S>(),
        m.valid(),
        monotone(m),
        all_finite_spec(alo),
        all_finite_spec(ahi),
        all_finite_spec(blo),
        all_finite_spec(bhi),
        all_finite_spec(a),
        all_finite_spec(b),
        0 <= n <= a.len(),
        alo.len() == a.len(),
        ahi.len() == a.len(),
        blo.len() == a.len(),
        bhi.len() == a.len(),
        b.len() == a.len(),
        forall|d: int|
            0 <= d < a.len() ==> alo[d].key() <= (#[trigger] a[d]).key() <= ahi[d].key(),
        forall|d: int|
            0 <= d < b.len() ==> blo[d].key() <= (#[trigger] b[d]).key() <= bhi[d].key(),
    ensures
        nonneg(partial_gap_dist(m, alo, ahi, blo, bhi, n)),
        at_most(partial_gap_dist(m, alo, ahi, blo, bhi, n), partial_dist(m, a, b, n)),
    decreases n,
{
    if n > 0 {
        let d = n - 1;
        lemma_gap_below_rows(m, alo, ahi, blo, bhi, a, b, d);
        let gap = gap_spec(alo[d], ahi[d], blo[d], bhi[d]);
        let off = a[d].minus_spec(b[d]).abs_spec();
        assert(alo[d].key() <= a[d].key() <= ahi[d].key());
        assert(blo[d].key() <= b[d].key() <= bhi[d].key());
        lemma_gap_below(alo[d], ahi[d], blo[d], bhi[d], a[d], b[d]);
        lemma_axis_term_reduces(m, a[d], b[d]);
        lemma_axis_term_nonneg(m, a[d], b[d]);
        lemma_reduce_monotone(m, gap, off);
        lemma_fold_grows(
            m,
            partial_gap_dist(m, alo, ahi, blo, bhi, d),
            m.reduce_spec(gap),
        );
        lemma_fold_monotone(
            m,
            partial_gap_dist(m, alo, ahi, blo, bhi, d),
            partial_dist(m, a, b, d),
            m.reduce_spec(gap),
            axis_term(m, a[d], b[d]),
        );
    }
}

proof fn lemma_partial_symmetric<S: Scalar>(m: Metric<S>, a: Seq<S>, b: Seq<S>, n: int)
    requires
        lawful::<S>(),
        m.valid(),
        monotone(m),
        all_finite_spec(a),
        all_finite_spec(b),
        a.len() == b.len(),
        0 <= n <= a.len(),
    ensures
        at_most(partial_dist(m, a, b, n), partial_dist(m, b, a, n)),
    decreases n,
{
    if n > 0 {
        let (x, y) = (a[n - 1], b[n - 1]);
        let (g, h) = (x.minus_spec(y).abs_spec(), y.minus_spec(x).abs_spec());
        lemma_partial_symmetric(m, a, b, n - 1);
        lemma_partial_dist_grows(m, a, b, n - 1, n - 1);
        lemma_axis_term_nonneg(m, x, y);
        lemma_axis_term_nonneg(m, y, x);
        lemma_axis_term_reduces(m, x, y);
        lemma_axis_term_reduces(m, y, x);
        assert(g.key() == h.key()) by {
            reveal(orderly);
            assert(x.minus_spec(y).abs_spec().key() == y.minus_spec(x).abs_spec().key());
        }
        lemma_reduce_monotone(m, g, h);
        lemma_fold_monotone(
            m,
            partial_dist(m, a, b, n - 1),
            partial_dist(m, b, a, n - 1),
            axis_term(m, x, y),
            axis_term(m, y, x),
        );
    }
}

/// Two points are as far from each other as the other way round, by a metric that
/// keeps the order of plain distances.
pub proof fn distances_are_symmetric<S: Scalar>(m: Metric<S>, a: Seq<S>, b: Seq<S>)
    requires
        lawful::<S>(),
        m.valid(),
        monotone(m),
        all_finite_spec(a),
        all_finite_spec(b),
        a.len() == b.len(),
    ensures
        row_dist(m, a, b).key() == row_dist(m, b, a).key(),
{
    lemma_partial_symmetric(m, a, b, a.len() as int);
    lemma_partial_symmetric(m, b, a, a.len() as int);
}

} // verus!
