//! Promises of metrics and of the distances that they measure.

use crate::distance::{axis, axis_term, box_dist_spec, fold_from, fold_scalar, gap_dist_spec,
    gap_spec, partial_box_dist, partial_gap_dist, row_dist};
use crate::error::KDTreeError;
use crate::exact::{int_is_lawful, lemma_pow_nonneg, lemma_root_rounds_down, Int, TOP};
use crate::lanes::{box_terms, half_sum, lane_box_dist_spec, lane_sum, lanes_sum,
    lemma_scan_dist_nonneg, long_dist, point_dist, rest_sum, scan_dist, steps, steps_dist,
    terms_at};
use crate::layout::{axis_offset, axis_offset_spec};
use crate::metric::{Dist, Metric};
use crate::scalar::{all_finite_spec, finite, fits, lawful, max, min, orderly, Scalar};
use vstd::arithmetic::power::pow;
use vstd::prelude::*;

verus! {

/// Every exponent from one on names a metric of its own, and nothing else does: one,
/// two and infinity those with a kernel, any other the metric that keeps it.
pub proof fn an_exponent_names_a_metric<S: Scalar>(p: S, r: Result<Metric<S>, KDTreeError<S>>)
    requires
        lawful::<S>(),
        call_ensures(Metric::<S>::new, (p,), r),
    ensures
        (r matches Ok(Metric::L1)) <==> !p.nan() && p.key() == S::one_spec().key(),
        (r matches Ok(Metric::LInf)) <==> !p.nan() && p.key() == S::infinity_spec().key(),
        ({
            let two = S::one_spec().plus_spec(S::one_spec());
            &&& (r matches Ok(Metric::L2)) <==> !p.nan() && p.key() == two.key() && p.key()
                != S::one_spec().key() && p.key() != S::infinity_spec().key()
            &&& (r matches Ok(Metric::LP(_))) <==> !p.nan() && S::one_spec().key() < p.key()
                < S::infinity_spec().key() && p.key() != two.key()
        }),
        r matches Ok(Metric::LP(kept)) ==> kept == p,
        r is Err <==> p.nan() || p.key() < S::one_spec().key(),
        r matches Err(e) ==> e == KDTreeError::InvalidMetric(p),
{
    let one = S::one_spec();
    assert(!one.plus_spec(one).nan());
}

/// A distance reduces by the exponent of the metric: to itself by one and infinity, to
/// its square by two, and to its power by any other.
pub proof fn a_distance_reduces_by_the_exponent<S: Scalar>(
    p: S,
    m: Metric<S>,
    distance: S,
    r: Dist<S>,
)
    requires
        lawful::<S>(),
        call_ensures(Metric::<S>::new, (p,), Ok(m)),
        call_ensures(Metric::<S>::reduce, (m, distance), r),
    ensures
        r.value == m.reduce_spec(distance),
        r.value == if p.key() == S::one_spec().key() || p.key() == S::infinity_spec().key() {
            distance
        } else if p.key() == S::one_spec().plus_spec(S::one_spec()).key() {
            distance.times_spec(distance)
        } else {
            distance.power_spec(p)
        },
{
    an_exponent_names_a_metric(p, Ok(m));
}

/// A reduced distance is restored by the exponent of the metric: it is the distance
/// itself by one and infinity, its square root by two, and its root by any other.
pub proof fn a_distance_is_restored_by_the_exponent<S: Scalar>(
    p: S,
    m: Metric<S>,
    dist: Dist<S>,
    r: S,
)
    requires
        lawful::<S>(),
        call_ensures(Metric::<S>::new, (p,), Ok(m)),
        call_ensures(Metric::<S>::restore, (m, dist), r),
    ensures
        r == m.restore_spec(dist.value),
        r == if p.key() == S::one_spec().key() || p.key() == S::infinity_spec().key() {
            dist.value
        } else if p.key() == S::one_spec().plus_spec(S::one_spec()).key() {
            dist.value.sqrt_spec()
        } else {
            dist.value.root_spec(p)
        },
{
    an_exponent_names_a_metric(p, Ok(m));
}

/// A further contribution adds to a distance, and one that is exchanged goes out as
/// the other comes in. By the metric of the greatest axis, either leaves the greater
/// of the distance and the contribution.
pub proof fn contributions_come_in_and_go_out<S: Scalar>(
    m: Metric<S>,
    dist: Dist<S>,
    old_axis: Dist<S>,
    axis: Dist<S>,
    folded: Dist<S>,
    replaced: Dist<S>,
)
    requires
        call_ensures(Metric::<S>::fold, (m, dist, axis), folded),
        call_ensures(Metric::<S>::replace_axis, (m, dist, old_axis, axis), replaced),
    ensures
        !(m is LInf) ==> folded.value == dist.value.plus_spec(axis.value) && replaced.value
            == dist.value.minus_spec(old_axis.value).plus_spec(axis.value),
        m is LInf ==> folded == replaced && folded.value == if !dist.value.nan()
            && !axis.value.nan() && dist.value.key() < axis.value.key() {
            axis.value
        } else {
            dist.value
        },
{
}

/// The greater and the lesser of two values, and the first of two that compare equal.
pub proof fn the_greater_and_the_lesser_are_told_apart<S: Scalar>(a: S, b: S, most: S, least: S)
    requires
        call_ensures(max::<S>, (a, b), most),
        call_ensures(min::<S>, (a, b), least),
        !a.nan(),
        !b.nan(),
    ensures
        most == if a.key() < b.key() {
            b
        } else {
            a
        },
        least == if b.key() < a.key() {
            b
        } else {
            a
        },
{
}

/// The plain distance of an integer is the greatest whole number whose power is at
/// most the reduced one.
pub proof fn integer_roots_round_down(p: Int, m: Metric<Int>, dist: Dist<Int>, r: Int)
    requires
        call_ensures(Metric::<Int>::new, (p,), Ok(m)),
        call_ensures(Metric::<Int>::restore, (m, dist), r),
        0 <= dist.value.raw < TOP,
        p.raw < TOP,
    ensures
        0 <= r.raw,
        pow(r.raw as int, p.raw as nat) <= dist.value.raw < pow(r.raw + 1, p.raw as nat),
{
    let x = dist.value.raw as int;
    int_is_lawful();
    an_exponent_names_a_metric(p, Ok(m));
    assert(Int::one_spec().plus_spec(Int::one_spec()).raw == 2);
    reveal(pow);
    if p.raw == 1 {
        assert(pow(x, 1) == x * pow(x, 0));
        assert(pow(x + 1, 1) == (x + 1) * pow(x + 1, 0));
    } else {
        lemma_root_rounds_down(x, p.raw as nat);
    }
}

/// Where the arithmetic does not round, a reduced distance is the power of the
/// distance that the exponent says, as long as it fits.
pub proof fn exact_distances_reduce_to_powers<S: Scalar>(
    p: S,
    m: Metric<S>,
    distance: S,
    r: Dist<S>,
)
    requires
        lawful::<S>(),
        S::exact(),
        call_ensures(Metric::<S>::new, (p,), Ok(m)),
        call_ensures(Metric::<S>::reduce, (m, distance), r),
        finite(distance),
        distance.key() >= 0,
        p.key() < S::infinity_spec().key(),
        pow(distance.key(), p.key() as nat) < S::infinity_spec().key(),
        2 < S::infinity_spec().key(),
    ensures
        r.value.key() == pow(distance.key(), p.key() as nat),
{
    let (d, one) = (distance.key(), S::one_spec());
    an_exponent_names_a_metric(p, Ok(m));
    assert(finite(one) && fits::<S>(one.key() + one.key()));
    assert(one.plus_spec(one).key() == 2);
    reveal(pow);
    if p.key() == 1 {
        assert(pow(d, 1) == d * pow(d, 0));
    } else if p.key() == 2 {
        assert(pow(d, 2) == d * pow(d, 1) && pow(d, 1) == d * pow(d, 0));
    }
    lemma_pow_nonneg(d, p.key() as nat);
}

/// The reduced distance of points with no axes is zero. One more axis adds to it what
/// the coordinates contribute: their gap, its square or its power; by the metric of
/// the greatest axis the distance becomes the gap if that is greater.
pub proof fn one_more_axis_adds_its_gap<S: Scalar>(m: Metric<S>, a: Seq<S>, b: Seq<S>, x: S, y: S)
    requires
        a.len() == b.len(),
    ensures
        row_dist(m, Seq::<S>::empty(), Seq::<S>::empty()) == S::zero_spec(),
        ({
            let was = row_dist(m, a, b);
            let off = x.minus_spec(y);
            row_dist(m, a.push(x), b.push(y)) == match m {
                Metric::L1 => was.plus_spec(off.abs_spec()),
                Metric::L2 => was.plus_spec(off.times_spec(off)),
                Metric::LInf => if !was.nan() && !off.abs_spec().nan() && was.key()
                    < off.abs_spec().key() {
                    off.abs_spec()
                } else {
                    was
                },
                Metric::LP(p) => was.plus_spec(off.abs_spec().power_spec(p)),
            }
        }),
{
    lemma_fold_prefix(m, S::zero_spec(), a, b, x, y, 0, a.len() as int);
}

proof fn lemma_fold_prefix<S: Scalar>(
    m: Metric<S>,
    dist: S,
    a: Seq<S>,
    b: Seq<S>,
    x: S,
    y: S,
    from: int,
    n: int,
)
    requires
        a.len() == b.len(),
        0 <= from,
        n <= a.len(),
    ensures
        fold_from(m, dist, a.push(x), b.push(y), from, n) == fold_from(m, dist, a, b, from, n),
    decreases n - from,
{
    if from < n {
        lemma_fold_prefix(m, dist, a, b, x, y, from, n - 1);
    }
}

/// A query measures a row at the distance that is folded axis after axis, wherever
/// contributions do not add up, and in rows of fewer than eight axes but four.
pub proof fn narrow_rows_are_measured_axis_by_axis<S: Scalar>(
    m: Metric<S>,
    a: Seq<S>,
    b: Seq<S>,
    grouped: bool,
)
    requires
        m is LInf || m is LP || (a.len() < 8 && a.len() != 4) || (a.len() <= 8 && !grouped),
    ensures
        scan_dist(m, a, b, grouped) == row_dist(m, a, b),
{
}

/// In a full group of a leaf, rows of four axes add up what those two apart contribute,
/// and rows of eight what neighbours contribute.
pub proof fn grouped_rows_are_measured_in_pairs<S: Scalar>(
    m: Metric<S>,
    a: Seq<S>,
    b: Seq<S>,
    t: Seq<S>,
)
    requires
        m is L1 || m is L2,
        a.len() == t.len(),
        forall|i: int|
            0 <= i < t.len() ==> #[trigger] t[i] == {
                let off = a[i].minus_spec(b[i]);
                if m is L1 {
                    off.abs_spec()
                } else {
                    off.times_spec(off)
                }
            },
    ensures
        a.len() == 4 ==> scan_dist(m, a, b, true) == t[0].plus_spec(t[2]).plus_spec(
            t[1].plus_spec(t[3]),
        ),
        a.len() == 8 ==> scan_dist(m, a, b, true) == t[0].plus_spec(t[1]).plus_spec(
            t[2].plus_spec(t[3]),
        ).plus_spec(t[4].plus_spec(t[5]).plus_spec(t[6].plus_spec(t[7]))),
{
}

/// Rows of more than eight axes add up eight at a time what the axes contribute, those
/// four apart first, and the axes that are left one after the other.
pub proof fn wide_rows_are_measured_in_steps<S: Scalar>(
    m: Metric<S>,
    a: Seq<S>,
    b: Seq<S>,
    t: Seq<S>,
    grouped: bool,
)
    requires
        m is L1 || m is L2,
        a.len() > 8,
        a.len() == b.len(),
        a.len() == t.len(),
        forall|i: int|
            0 <= i < t.len() ==> #[trigger] t[i] == {
                let off = a[i].minus_spec(b[i]);
                if m is L1 {
                    off.abs_spec()
                } else {
                    off.times_spec(off)
                }
            },
    ensures
        ({
            let n = t.len() as int;
            let at = n - 8;
            let step = t[at].plus_spec(t[at + 4]).plus_spec(
                t[at + 2].plus_spec(t[at + 6]),
            ).plus_spec(
                t[at + 1].plus_spec(t[at + 5]).plus_spec(t[at + 3].plus_spec(t[at + 7])),
            );
            let first = t[0].plus_spec(t[4]).plus_spec(t[2].plus_spec(t[6])).plus_spec(
                t[1].plus_spec(t[5]).plus_spec(t[3].plus_spec(t[7])),
            );
            scan_dist(m, a, b, grouped) == if n == 9 {
                S::zero_spec().plus_spec(first).plus_spec(t[8])
            } else if n == 16 {
                S::zero_spec().plus_spec(first).plus_spec(step)
            } else if n % 8 == 0 {
                scan_dist(m, a.subrange(0, n - 8), b.subrange(0, n - 8), grouped).plus_spec(step)
            } else {
                scan_dist(m, a.drop_last(), b.drop_last(), grouped).plus_spec(t[n - 1])
            }
        }),
{
    let n = t.len() as int;
    let c = n / 8;
    let at = n - 8;
    assert(steps(a.len()) == c);
    if n == 9 || n == 16 {
        lemma_step(m, a, b, t, 0);
        assert(steps_dist(m, a, b, 0) == S::zero_spec());
        assert(steps_dist(m, a, b, 1) == S::zero_spec().plus_spec(
            half_sum(terms_at(m, a, b, 0, 8)),
        ));
        if n == 9 {
            assert(fold_from(m, steps_dist(m, a, b, 1), a, b, 8, 8) == steps_dist(m, a, b, 1));
            assert(axis_term(m, a[8], b[8]) == t[8]);
        } else {
            lemma_step(m, a, b, t, 8);
            assert(steps_dist(m, a, b, 2) == steps_dist(m, a, b, 1).plus_spec(
                half_sum(terms_at(m, a, b, 8, 8)),
            ));
        }
    } else if n % 8 == 0 {
        let (x, y) = (a.subrange(0, n - 8), b.subrange(0, n - 8));
        lemma_step(m, a, b, t, at);
        lemma_steps_prefix(m, a, b, x, y, c - 1);
        assert(steps(x.len()) == c - 1);
    } else {
        let (x, y) = (a.drop_last(), b.drop_last());
        lemma_steps_prefix(m, a, b, x, y, c);
        assert(steps(x.len()) == c);
        assert(a =~= x.push(a.last()) && b =~= y.push(b.last()));
        lemma_fold_prefix(m, steps_dist(m, a, b, c), x, y, a.last(), b.last(), 8 * c, n - 1);
        assert(axis_term(m, a[n - 1], b[n - 1]) == t[n - 1]);
    }
}

proof fn lemma_step<S: Scalar>(m: Metric<S>, a: Seq<S>, b: Seq<S>, t: Seq<S>, at: int)
    requires
        m is L1 || m is L2,
        0 <= at,
        at + 8 <= t.len(),
        forall|i: int|
            0 <= i < t.len() ==> #[trigger] t[i] == {
                let off = a[i].minus_spec(b[i]);
                if m is L1 {
                    off.abs_spec()
                } else {
                    off.times_spec(off)
                }
            },
    ensures
        half_sum(terms_at(m, a, b, at, 8)) == t[at].plus_spec(t[at + 4]).plus_spec(
            t[at + 2].plus_spec(t[at + 6]),
        ).plus_spec(t[at + 1].plus_spec(t[at + 5]).plus_spec(t[at + 3].plus_spec(t[at + 7]))),
{
    let s = terms_at(m, a, b, at, 8);
    assert forall|i: int| 0 <= i < 8 implies #[trigger] s[i] == t[at + i] by {}
    assert(s[0] == t[at] && s[1] == t[at + 1] && s[2] == t[at + 2] && s[3] == t[at + 3]);
    assert(s[4] == t[at + 4] && s[5] == t[at + 5] && s[6] == t[at + 6] && s[7] == t[at + 7]);
}

proof fn lemma_steps_prefix<S: Scalar>(
    m: Metric<S>,
    a: Seq<S>,
    b: Seq<S>,
    x: Seq<S>,
    y: Seq<S>,
    c: int,
)
    requires
        0 <= c,
        8 * c <= x.len(),
        x.len() == y.len(),
        x.len() <= a.len(),
        a.len() == b.len(),
        x == a.subrange(0, x.len() as int),
        y == b.subrange(0, x.len() as int),
    ensures
        steps_dist(m, a, b, c) == steps_dist(m, x, y, c),
    decreases c,
{
    if c > 0 {
        lemma_steps_prefix(m, a, b, x, y, c - 1);
        assert(terms_at(m, a, b, 8 * (c - 1), 8) =~= terms_at(m, x, y, 8 * (c - 1), 8));
    }
}

/// A coordinate below an interval is off by what it lacks, one above by what it
/// exceeds, and one inside by nothing.
pub proof fn a_coordinate_is_off_by_what_it_lacks<S: Scalar>(q: S, lo: S, hi: S, r: S)
    requires
        lawful::<S>(),
        finite(q),
        finite(lo),
        finite(hi),
        lo.key() <= hi.key(),
        call_ensures(axis_offset::<S>, (q, lo, hi), r),
    ensures
        r == axis_offset_spec(q, lo, hi),
        q.key() < lo.key() ==> r == lo.minus_spec(q),
        hi.key() < q.key() ==> r == q.minus_spec(hi),
        lo.key() <= q.key() <= hi.key() ==> !r.nan() && r.key() == S::zero_spec().key(),
{
    reveal(orderly);
    assert(!lo.minus_spec(q).nan() && !q.minus_spec(hi).nan());
}

/// Two intervals are as far apart as the end of the one from the start of the other,
/// and at no distance where they meet.
pub proof fn intervals_are_apart_by_their_gap<S: Scalar>(alo: S, ahi: S, blo: S, bhi: S)
    requires
        lawful::<S>(),
        finite(alo),
        finite(ahi),
        finite(blo),
        finite(bhi),
        alo.key() <= ahi.key(),
        blo.key() <= bhi.key(),
    ensures
        ({
            let gap = gap_spec(alo, ahi, blo, bhi);
            if ahi.key() < blo.key() {
                gap == blo.minus_spec(ahi)
            } else if bhi.key() < alo.key() {
                gap == alo.minus_spec(bhi)
            } else {
                !gap.nan() && gap.key() == S::zero_spec().key()
            }
        }),
{
    reveal(orderly);
    assert(!blo.minus_spec(ahi).nan() && !alo.minus_spec(bhi).nan());
}

/// One more axis adds to the distance of a point from a box, and to that between two
/// boxes, what the offset or the gap along the axis reduces to; by the metric of the
/// greatest axis the distance becomes that if it is greater.
pub proof fn one_more_axis_adds_to_boxes<S: Scalar>(
    m: Metric<S>,
    q: Seq<S>,
    lo: Seq<S>,
    hi: Seq<S>,
    blo: Seq<S>,
    bhi: Seq<S>,
    x: S,
    l: S,
    h: S,
    bl: S,
    bh: S,
)
    requires
        q.len() == lo.len() == hi.len() == blo.len() == bhi.len(),
    ensures
        ({
            let was = box_dist_spec(m, q, lo, hi);
            let off = axis_offset_spec(x, l, h);
            let part = m.reduce_spec(off);
            box_dist_spec(m, q.push(x), lo.push(l), hi.push(h)) == match m {
                Metric::L1 | Metric::L2 => was.plus_spec(part),
                Metric::LInf => if !was.nan() && !part.nan() && was.key() < part.key() {
                    part
                } else {
                    was
                },
                Metric::LP(_) => if !off.nan() && !S::zero_spec().nan() && S::zero_spec().key()
                    < off.key() {
                    was.plus_spec(part)
                } else {
                    was
                },
            }
        }),
        ({
            let was = gap_dist_spec(m, lo, hi, blo, bhi);
            let part = m.reduce_spec(gap_spec(l, h, bl, bh));
            gap_dist_spec(m, lo.push(l), hi.push(h), blo.push(bl), bhi.push(bh)) == match m {
                Metric::L1 | Metric::L2 | Metric::LP(_) => was.plus_spec(part),
                Metric::LInf => if !was.nan() && !part.nan() && was.key() < part.key() {
                    part
                } else {
                    was
                },
            }
        }),
        box_dist_spec(m, Seq::<S>::empty(), Seq::<S>::empty(), Seq::<S>::empty())
            == S::zero_spec(),
        gap_dist_spec(
            m,
            Seq::<S>::empty(),
            Seq::<S>::empty(),
            Seq::<S>::empty(),
            Seq::<S>::empty(),
        ) == S::zero_spec(),
{
    let n = q.len() as int;
    lemma_box_prefix(m, q, lo, hi, x, l, h, n);
    lemma_gap_prefix(m, lo, hi, blo, bhi, l, h, bl, bh, n);
    assert(q.push(x).len() == n + 1);
}

proof fn lemma_box_prefix<S: Scalar>(
    m: Metric<S>,
    q: Seq<S>,
    lo: Seq<S>,
    hi: Seq<S>,
    x: S,
    l: S,
    h: S,
    n: int,
)
    requires
        q.len() == lo.len() == hi.len(),
        n <= q.len(),
    ensures
        partial_box_dist(m, q.push(x), lo.push(l), hi.push(h), n) == partial_box_dist(
            m,
            q,
            lo,
            hi,
            n,
        ),
    decreases n,
{
    if n > 0 {
        lemma_box_prefix(m, q, lo, hi, x, l, h, n - 1);
    }
}

proof fn lemma_gap_prefix<S: Scalar>(
    m: Metric<S>,
    lo: Seq<S>,
    hi: Seq<S>,
    blo: Seq<S>,
    bhi: Seq<S>,
    l: S,
    h: S,
    bl: S,
    bh: S,
    n: int,
)
    requires
        lo.len() == hi.len() == blo.len() == bhi.len(),
        n <= lo.len(),
    ensures
        partial_gap_dist(m, lo.push(l), hi.push(h), blo.push(bl), bhi.push(bh), n)
            == partial_gap_dist(m, lo, hi, blo, bhi, n),
    decreases n,
{
    if n > 0 {
        lemma_gap_prefix(m, lo, hi, blo, bhi, l, h, bl, bh, n - 1);
    }
}

/// A query measures a box as the sum of what the offsets along its axes reduce to:
/// axes that fill no step of eight one after the other, and full steps lane by lane,
/// lanes four apart first. Where contributions do not add up, it folds axis by axis.
pub proof fn boxes_are_measured_in_lanes<S: Scalar>(
    m: Metric<S>,
    q: Seq<S>,
    lo: Seq<S>,
    hi: Seq<S>,
    t: Seq<S>,
)
    requires
        q.len() == lo.len() == hi.len() == t.len(),
        forall|i: int|
            0 <= i < t.len() ==> #[trigger] t[i] == m.reduce_spec(
                axis_offset_spec(q[i], lo[i], hi[i]),
            ),
    ensures
        m is LInf || m is LP ==> lane_box_dist_spec(m, q, lo, hi) == box_dist_spec(m, q, lo, hi),
        m is L1 || m is L2 ==> {
            let n = q.len() as int;
            let c = n / 8;
            lane_box_dist_spec(m, q, lo, hi) == if n == 0 {
                S::zero_spec()
            } else if n % 8 != 0 {
                lane_box_dist_spec(m, q.drop_last(), lo.drop_last(), hi.drop_last()).plus_spec(
                    t[n - 1],
                )
            } else {
                lane_sum(t, 0, c).plus_spec(lane_sum(t, 4, c)).plus_spec(
                    lane_sum(t, 2, c).plus_spec(lane_sum(t, 6, c)),
                ).plus_spec(
                    lane_sum(t, 1, c).plus_spec(lane_sum(t, 5, c)).plus_spec(
                        lane_sum(t, 3, c).plus_spec(lane_sum(t, 7, c)),
                    ),
                )
            }
        },
{
    let n = q.len() as int;
    let c = n / 8;
    let s = box_terms(m, q, lo, hi);
    assert(s =~= t);
    assert(steps(q.len()) == c);
    if (m is L1 || m is L2) && n > 0 && n % 8 != 0 {
        let (x, l, h) = (q.drop_last(), lo.drop_last(), hi.drop_last());
        let u = box_terms(m, x, l, h);
        assert(u =~= t.drop_last());
        assert(steps(x.len()) == c);
        lemma_lanes_prefix(t, u, c);
        lemma_rest_prefix(lanes_sum(t, c), t, u, 8 * c, n - 1);
    }
}

/// A lane adds up every eighth contribution, from its own on.
pub proof fn a_lane_adds_every_eighth<S: Scalar>(t: Seq<S>, l: int, c: int)
    requires
        c >= 0,
    ensures
        lane_sum(t, l, 0) == S::zero_spec(),
        lane_sum(t, l, c + 1) == lane_sum(t, l, c).plus_spec(t[8 * c + l]),
{
}

proof fn lemma_lanes_prefix<S: Scalar>(t: Seq<S>, u: Seq<S>, c: int)
    requires
        0 <= c,
        8 * c <= u.len() <= t.len(),
        u == t.subrange(0, u.len() as int),
    ensures
        lanes_sum(t, c) == lanes_sum(u, c),
{
    assert forall|l: int| 0 <= l < 8 implies #[trigger] lane_sum(t, l, c) == lane_sum(u, l, c) by {
        lemma_lane_prefix(t, u, l, c);
    }
    assert(Seq::new(8, |l: int| lane_sum(t, l, c)) =~= Seq::new(8, |l: int| lane_sum(u, l, c)));
}

proof fn lemma_lane_prefix<S: Scalar>(t: Seq<S>, u: Seq<S>, l: int, c: int)
    requires
        0 <= l < 8,
        0 <= c,
        8 * c <= u.len() <= t.len(),
        u == t.subrange(0, u.len() as int),
    ensures
        lane_sum(t, l, c) == lane_sum(u, l, c),
    decreases c,
{
    if c > 0 {
        lemma_lane_prefix(t, u, l, c - 1);
    }
}

proof fn lemma_rest_prefix<S: Scalar>(sum: S, t: Seq<S>, u: Seq<S>, from: int, n: int)
    requires
        0 <= from,
        n <= u.len() <= t.len(),
        u == t.subrange(0, u.len() as int),
    ensures
        rest_sum(sum, t, from, n) == rest_sum(sum, u, from, n),
    decreases n - from,
{
    if from < n {
        lemma_rest_prefix(sum, t, u, from, n - 1);
    }
}

/// What one axis contributes is the gap between the coordinates, its square or its
/// power.
pub proof fn an_axis_contributes_its_gap<S: Scalar>(m: Metric<S>, a: S, b: S, r: S)
    requires
        call_ensures(axis::<S>, (m, a, b), r),
    ensures
        ({
            let off = a.minus_spec(b);
            r == match m {
                Metric::L1 | Metric::LInf => off.abs_spec(),
                Metric::L2 => off.times_spec(off),
                Metric::LP(p) => off.abs_spec().power_spec(p),
            }
        }),
{
}

/// A distance that axes are folded into takes them up one after the other.
pub proof fn axes_are_folded_one_after_the_other<S: Scalar>(
    m: Metric<S>,
    dist: Dist<S>,
    lhs: &[S],
    rhs: &[S],
    shorter_lhs: &[S],
    shorter_rhs: &[S],
    r: Dist<S>,
    shorter: Dist<S>,
)
    requires
        lhs@.len() == rhs@.len(),
        lhs@.len() > 0,
        shorter_lhs@ == lhs@.drop_last(),
        shorter_rhs@ == rhs@.drop_last(),
        call_ensures(fold_scalar::<S>, (m, dist, lhs, rhs), r),
        call_ensures(fold_scalar::<S>, (m, dist, shorter_lhs, shorter_rhs), shorter),
    ensures
        ({
            let off = lhs@.last().minus_spec(rhs@.last());
            r.value == match m {
                Metric::L1 => shorter.value.plus_spec(off.abs_spec()),
                Metric::L2 => shorter.value.plus_spec(off.times_spec(off)),
                Metric::LInf => if !shorter.value.nan() && !off.abs_spec().nan()
                    && shorter.value.key() < off.abs_spec().key() {
                    off.abs_spec()
                } else {
                    shorter.value
                },
                Metric::LP(p) => shorter.value.plus_spec(off.abs_spec().power_spec(p)),
            }
        }),
        lhs@.len() == 1 ==> shorter.value == dist.value,
{
    let (a, b) = (lhs@.drop_last(), rhs@.drop_last());
    assert(lhs@ =~= a.push(lhs@.last()) && rhs@ =~= b.push(rhs@.last()));
    lemma_fold_prefix(m, dist.value, a, b, lhs@.last(), rhs@.last(), 0, a.len() as int);
}

/// A row that is measured on its own is measured as in a query, up to eight axes axis
/// by axis, but that eight axes that add up do so as one step. Past the bound, what
/// comes out may be less, as long as it is past the bound.
pub proof fn a_row_is_measured_up_to_the_bound<S: Scalar>(
    m: Metric<S>,
    lhs: &[S],
    rhs: &[S],
    bound: Dist<S>,
    r: Dist<S>,
)
    requires
        lawful::<S>(),
        m.valid(),
        all_finite_spec(lhs@),
        all_finite_spec(rhs@),
        lhs@.len() == rhs@.len(),
        !bound.value.nan(),
        call_ensures(point_dist::<S>, (m, lhs, rhs, bound), r),
    ensures
        ({
            let (a, b) = (lhs@, rhs@);
            let t = |i: int|
                if m is L1 {
                    a[i].minus_spec(b[i]).abs_spec()
                } else {
                    a[i].minus_spec(b[i]).times_spec(a[i].minus_spec(b[i]))
                };
            let near = if a.len() == 8 && (m is L1 || m is L2) {
                S::zero_spec().plus_spec(
                    t(0).plus_spec(t(4)).plus_spec(t(2).plus_spec(t(6))).plus_spec(
                        t(1).plus_spec(t(5)).plus_spec(t(3).plus_spec(t(7))),
                    ),
                )
            } else {
                scan_dist(m, a, b, false)
            };
            &&& !r.value.nan() && r.value.key() <= near.key()
            &&& near.key() <= bound.value.key() ==> r.value == near
            &&& bound.value.key() < near.key() ==> bound.value.key() < r.value.key()
        }),
{
    let (a, b) = (lhs@, rhs@);
    lemma_scan_dist_nonneg(m, a, b, false);
    if m is L1 || m is L2 {
        if a.len() == 8 {
            let s = terms_at(m, a, b, 0, 8);
            assert(steps(a.len()) == 1);
            assert(steps_dist(m, a, b, 0) == S::zero_spec());
            assert(steps_dist(m, a, b, 1) == S::zero_spec().plus_spec(half_sum(s)));
            assert(fold_from(m, steps_dist(m, a, b, 1), a, b, 8, 8) == steps_dist(m, a, b, 1));
        } else if a.len() < 8 {
            assert(steps(a.len()) == 0);
            assert(steps_dist(m, a, b, 0) == S::zero_spec());
            assert(long_dist(m, a, b) == row_dist(m, a, b));
        }
    }
}

} // verus!
