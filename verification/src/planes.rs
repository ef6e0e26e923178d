//! When the bounds of a descent are lower bounds.
//!
//! The distance to a box and that of a row add up in different orders, so a box is
//! no further than the rows in it as long as nothing rounds. The bound to a cell is
//! updated by taking one contribution out and putting another in. For the metric of
//! the greatest axis nothing is ever taken out, so the bound stays below the
//! distances behind it in any arithmetic. For a metric that adds up, it does as long
//! as nothing rounds.

use crate::distance::{axis_term, box_ok, clamped, fold_from, lemma_axis_term_nonneg,
    lemma_axis_term_reduces, lemma_fold_monotone, lemma_offset_below, lemma_offset_is_nearest,
    lemma_reduce_monotone, lemma_row_dist_nonneg, lemma_term_below_dist, monotone, partial_dist};
use crate::exact::lemma_pow_at_least_base;
use crate::lanes::{a_box_is_measured_at_its_nearest_point, adds, box_terms, half_sum,
    lane_box_dist_spec, lane_sum, lanes_sum, lemma_lane_box_nonneg, lemma_scan_dist_nonneg,
    pair_sum, quad_sum, rest_sum, scan_dist, steps, steps_dist, terms_at};
use crate::layout::{attained, axis_offset_spec, hi_of, lemma_block_len, lo_of};
use crate::metric::{lemma_fold_grows, Dist, Metric};
use crate::node::{unpack_split_spec, Node};
use crate::scalar::{all_finite_spec, at_most, finite, keys_decide, lawful, limit, nonneg, orderly,
    Scalar};
use crate::search::{a_sound_search_finds_the_nearest, one_question_has_one_answer,
    serial_boxes_stay_below, Ask};
use crate::tree::{every_row_has_a_position, lemma_box_valid, lemma_children, lemma_row_of_tree,
    node_ok, Tree};
use vstd::arithmetic::power::pow;
use vstd::prelude::*;

verus! {

/// The far side of a split contributes no more to the bound than it does to the
/// distance of a point there.
proof fn lemma_far_axis_below<S: Scalar>(
    ask: Ask<S>,
    tree: &Tree<S>,
    id: int,
    first: int,
    len: int,
    pos: int,
)
    requires
        lawful::<S>(),
        tree.wf(),
        ask.valid(tree),
        monotone(ask.m),
        tree.node_ok(id, first, len),
        first <= pos < first + len,
        tree.nodes@[id] matches Node::Inner { split_dim, split_value, .. } && (pos < first + len
            / 2) != ask.left_near(unpack_split_spec(split_dim).0 as int, split_value),
    ensures
        tree.nodes@[id] matches Node::Inner { split_dim, split_value, .. } && {
            let dim = unpack_split_spec(split_dim).0 as int;
            &&& 0 <= dim < tree.ndim
            &&& finite(split_value)
            &&& nonneg(ask.far_axis(dim, split_value))
            &&& at_most(
                ask.far_axis(dim, split_value),
                axis_term(ask.m, ask.q[dim], tree.rows()[pos][dim]),
            )
        },
{
    reveal(orderly);
    let part = tree.rows().subrange(first, first + len);
    lemma_block_len(tree.data@, tree.n_points as int, tree.ndim as int);
    reveal(node_ok);
    lemma_row_of_tree(tree, pos);
    match tree.nodes@[id] {
        Node::Leaf { .. } => {},
        Node::Inner { split_dim, split_value, .. } => {
            let dim = unpack_split_spec(split_dim).0 as int;
            let q = ask.q[dim];
            let v = split_value;
            let x = tree.rows()[pos][dim];
            let i = choose|i: int| 0 <= i < part.len() && #[trigger] part[i][dim] == v;
            lemma_row_of_tree(tree, first + i);
            assert(part[i] == tree.rows()[first + i]);
            assert(finite(v));
            assert(part[pos - first] == tree.rows()[pos]);
            assert(finite(x));
            let (qv, vq) = (q.minus_spec(v), v.minus_spec(q));
            let (qx, xq) = (q.minus_spec(x), x.minus_spec(q));
            assert(!qv.nan() && !vq.nan() && !qx.nan() && !xq.nan());
            assert(qv.abs_spec().key() == vq.abs_spec().key());
            assert(qx.abs_spec().key() == xq.abs_spec().key());
            if ask.left_near(dim, v) {
                assert(q.key() <= v.key() <= x.key());
                assert(vq.key() <= xq.key());
                assert(nonneg(vq));
            } else {
                assert(x.key() <= v.key() <= q.key());
                assert(qv.key() <= qx.key());
                assert(nonneg(qv));
            }
            assert(nonneg(qv.abs_spec()) && nonneg(qx.abs_spec()));
            assert(at_most(qv.abs_spec(), qx.abs_spec()));
            lemma_reduce_monotone(ask.m, qv.abs_spec(), qx.abs_spec());
            lemma_axis_term_reduces(ask.m, q, x);
            lemma_axis_term_nonneg(ask.m, q, x);
        },
    }
}

/// The bound to the root, over the first axes, stays below the distance of a
/// point over them; so does what each axis contributes.
proof fn lemma_root_below<S: Scalar>(ask: Ask<S>, tree: &Tree<S>, pos: int, n: int)
    requires
        lawful::<S>(),
        tree.wf(),
        ask.valid(tree),
        monotone(ask.m),
        0 <= pos < tree.n_points,
        0 <= n <= tree.ndim,
    ensures
        nonneg(ask.root_fold(tree, n)),
        at_most(ask.root_fold(tree, n), partial_dist(ask.m, ask.q, tree.rows()[pos], n)),
        forall|d: int|
            0 <= d < n ==> nonneg(#[trigger] ask.root_axis(tree, d)) && at_most(
                ask.root_axis(tree, d),
                axis_term(ask.m, ask.q[d], tree.rows()[pos][d]),
            ),
    decreases n,
{
    if n > 0 {
        let w = tree.ndim as int;
        let d = n - 1;
        let (lo, hi) = (lo_of(tree.boxes@[0], w), hi_of(tree.boxes@[0], w));
        let row = tree.rows()[pos];
        lemma_root_below(ask, tree, pos, d);
        lemma_row_of_tree(tree, pos);
        lemma_box_valid(tree, 0, 0, tree.n_points as int);
        assert(lo[d].key() <= tree.rows()[pos][d].key() <= hi[d].key());
        lemma_offset_below(ask.q[d], lo[d], hi[d], row[d]);
        lemma_axis_term_reduces(ask.m, ask.q[d], row[d]);
        lemma_axis_term_nonneg(ask.m, ask.q[d], row[d]);
        lemma_reduce_monotone(
            ask.m,
            axis_offset_spec(ask.q[d], lo[d], hi[d]),
            ask.q[d].minus_spec(row[d]).abs_spec(),
        );
        lemma_fold_grows(ask.m, ask.root_fold(tree, d), ask.root_axis(tree, d));
        lemma_fold_monotone(
            ask.m,
            ask.root_fold(tree, d),
            partial_dist(ask.m, ask.q, row, d),
            ask.root_axis(tree, d),
            axis_term(ask.m, ask.q[d], row[d]),
        );
    }
}

proof fn lemma_greatest_axis<S: Scalar>(
    ask: Ask<S>,
    tree: &Tree<S>,
    id: int,
    first: int,
    len: int,
    axes: Seq<Dist<S>>,
    cell: S,
    pos: int,
)
    requires
        lawful::<S>(),
        tree.wf(),
        ask.valid(tree),
        ask.m is LInf,
        tree.node_ok(id, first, len),
        first <= pos < first + len,
        nonneg(cell),
        at_most(cell, ask.dist(tree, pos)),
    ensures
        ask.planes_below(tree, id, first, len, axes, cell, pos),
    decreases len,
{
    lemma_children(tree, id, first, len);
    if len > tree.leafsize && len > 1 {
        match tree.nodes@[id] {
            Node::Leaf { .. } => {},
            Node::Inner { left, right, split_dim, split_value } => {
                let dim = unpack_split_spec(split_dim).0 as int;
                let mid = len / 2;
                let at_left = pos < first + mid;
                let (child, cfirst, clen) = if at_left {
                    (left as int, first, mid)
                } else {
                    (right as int, first + mid, len - mid)
                };
                assert(tree.node_ok(child, cfirst, clen));
                if at_left == ask.left_near(dim, split_value) {
                    lemma_greatest_axis(ask, tree, child, cfirst, clen, axes, cell, pos);
                } else {
                    let axis = ask.far_axis(dim, split_value);
                    let far = ask.m.replace_axis_spec(cell, axes[dim].value, axis);
                    lemma_block_len(tree.data@, tree.n_points as int, tree.ndim as int);
                    lemma_far_axis_below(ask, tree, id, first, len, pos);
                    lemma_row_of_tree(tree, pos);
                    lemma_term_below_dist(ask.m, ask.q, tree.rows()[pos], dim);
                    lemma_greatest_axis(
                        ask,
                        tree,
                        child,
                        cfirst,
                        clen,
                        axes.update(dim, Dist { value: axis }),
                        far,
                        pos,
                    );
                }
            },
        }
    }
}

/// By the metric of the greatest axis, plane bounds stay below the distances
/// behind them in any lawful arithmetic.
pub proof fn greatest_axis_planes_stay_below<S: Scalar>(ask: Ask<S>, tree: &Tree<S>)
    requires
        lawful::<S>(),
        tree.wf(),
        ask.valid(tree),
        ask.m is LInf,
    ensures
        ask.planes_hold(tree),
{
    let n = tree.n_points as int;
    assert forall|pos: int| 0 <= pos < n implies #[trigger] ask.planes_hold_at(tree, pos) by {
        lemma_row_of_tree(tree, pos);
        lemma_row_dist_nonneg(ask.m, ask.q, tree.rows()[pos]);
        lemma_root_below(ask, tree, pos, tree.ndim as int);
        lemma_greatest_axis(
            ask,
            tree,
            0,
            0,
            n,
            ask.root_axes(tree),
            ask.root_cell(tree),
            pos,
        );
    }
}

/// How far two coordinates are apart, as an integer.
pub open spec fn true_gap<S: Scalar>(a: S, b: S) -> int {
    if a.key() <= b.key() {
        b.key() - a.key()
    } else {
        a.key() - b.key()
    }
}

/// What an axis contributes over the integers.
pub open spec fn true_term<S: Scalar>(m: Metric<S>, a: S, b: S) -> int {
    match m {
        Metric::L2 => true_gap(a, b) * true_gap(a, b),
        Metric::LP(p) => pow(true_gap(a, b), p.key() as nat),
        Metric::L1 | Metric::LInf => true_gap(a, b),
    }
}

/// The reduced distance over the first `n` axes, over the integers.
pub open spec fn true_dist<S: Scalar>(m: Metric<S>, a: Seq<S>, b: Seq<S>, n: int) -> int
    decreases n,
{
    if n <= 0 {
        0
    } else {
        let rest = true_dist(m, a, b, n - 1);
        let term = true_term(m, a[n - 1], b[n - 1]);
        match m {
            Metric::LInf => if rest < term {
                term
            } else {
                rest
            },
            _ => rest + term,
        }
    }
}

proof fn lemma_true_term<S: Scalar>(m: Metric<S>, a: S, b: S)
    requires
        lawful::<S>(),
        S::exact(),
        m.valid(),
        finite(a),
        finite(b),
    ensures
        0 <= true_gap(a, b) <= true_term(m, a, b),
        true_term(m, a, b) < limit::<S>() ==> finite(axis_term(m, a, b)) && axis_term(
            m,
            a,
            b,
        ).key() == true_term(m, a, b),
{
    let g = true_gap(a, b);
    let d = a.minus_spec(b);
    assert(g * g >= g) by (nonlinear_arith)
        requires
            g >= 0,
    ;
    if let Metric::LP(p) = m {
        lemma_pow_at_least_base(g, p.key() as nat);
    }
    if true_term(m, a, b) < limit::<S>() {
        assert(finite(d) && d.key() == a.key() - b.key());
        assert(finite(d.abs_spec()) && d.abs_spec().key() == g);
        assert(d.key() * d.key() == g * g) by (nonlinear_arith)
            requires
                d.key() == g || d.key() == -g,
        ;
    }
}

proof fn lemma_true_dist_grows<S: Scalar>(m: Metric<S>, a: Seq<S>, b: Seq<S>, i: int, j: int)
    requires
        lawful::<S>(),
        S::exact(),
        m.valid(),
        all_finite_spec(a),
        all_finite_spec(b),
        a.len() == b.len(),
        0 <= i <= j <= a.len(),
    ensures
        0 <= true_dist(m, a, b, i) <= true_dist(m, a, b, j),
    decreases j,
{
    if j > 0 {
        lemma_true_term(m, a[j - 1], b[j - 1]);
        if i < j {
            lemma_true_dist_grows(m, a, b, i, j - 1);
        } else {
            lemma_true_dist_grows(m, a, b, i - 1, j - 1);
        }
    }
}

/// Arithmetic that does not round gives the distances of the integers, as long
/// as they fit.
pub proof fn exact_distances_are_true<S: Scalar>(m: Metric<S>, a: Seq<S>, b: Seq<S>, n: int)
    requires
        lawful::<S>(),
        S::exact(),
        m.valid(),
        all_finite_spec(a),
        all_finite_spec(b),
        a.len() == b.len(),
        0 <= n <= a.len(),
        true_dist(m, a, b, n) < limit::<S>(),
    ensures
        finite(partial_dist(m, a, b, n)),
        partial_dist(m, a, b, n).key() == true_dist(m, a, b, n),
        forall|d: int|
            0 <= d < n ==> finite(#[trigger] axis_term(m, a[d], b[d])) && axis_term(
                m,
                a[d],
                b[d],
            ).key() == true_term(m, a[d], b[d]),
    decreases n,
{
    if n > 0 {
        lemma_true_term(m, a[n - 1], b[n - 1]);
        lemma_true_dist_grows(m, a, b, n - 1, n);
        lemma_true_dist_grows(m, a, b, n - 1, n - 1);
        exact_distances_are_true(m, a, b, n - 1);
    }
}

/// Values that add up without rounding: finite, nonnegative and together below the
/// limit.
spec fn sums_fit<S: Scalar>(t: Seq<S>, total: int) -> bool {
    &&& total < limit::<S>()
    &&& forall|i: int| 0 <= i < t.len() ==> finite(#[trigger] t[i]) && t[i].key() >= 0
}

/// Four and eight values that add up without rounding do so in every order.
proof fn lemma_exact_sums<S: Scalar>(t: Seq<S>)
    requires
        lawful::<S>(),
        S::exact(),
        t.len() == 4 ==> sums_fit(t, t[0].key() + t[1].key() + t[2].key() + t[3].key()),
        t.len() == 8 ==> sums_fit(
            t,
            t[0].key() + t[1].key() + t[2].key() + t[3].key() + t[4].key() + t[5].key()
                + t[6].key() + t[7].key(),
        ),
    ensures
        t.len() == 4 ==> finite(quad_sum(t)) && quad_sum(t).key() == t[0].key() + t[1].key()
            + t[2].key() + t[3].key(),
        t.len() == 8 ==> {
            let total = t[0].key() + t[1].key() + t[2].key() + t[3].key() + t[4].key()
                + t[5].key() + t[6].key() + t[7].key();
            &&& finite(half_sum(t)) && half_sum(t).key() == total
            &&& finite(pair_sum(t)) && pair_sum(t).key() == total
        },
{
    if t.len() == 4 || t.len() == 8 {
        assert(finite(t[0]) && finite(t[1]) && finite(t[2]) && finite(t[3]));
    }
    if t.len() == 8 {
        assert(finite(t[4]) && finite(t[5]) && finite(t[6]) && finite(t[7]));
    }
}

/// What a step of axes contributes, added up over the integers.
proof fn lemma_true_step<S: Scalar>(m: Metric<S>, a: Seq<S>, b: Seq<S>, at: int, n: nat)
    requires
        lawful::<S>(),
        S::exact(),
        m.valid(),
        adds(m),
        all_finite_spec(a),
        all_finite_spec(b),
        a.len() == b.len(),
        0 <= at,
        n == 4 || n == 8,
        at + n <= a.len(),
        true_dist(m, a, b, at + n) < limit::<S>(),
    ensures
        ({
            let t = terms_at(m, a, b, at, n);
            let more = true_dist(m, a, b, at + n) - true_dist(m, a, b, at);
            &&& n == 4 ==> finite(quad_sum(t)) && quad_sum(t).key() == more
            &&& n == 8 ==> finite(half_sum(t)) && half_sum(t).key() == more
            &&& n == 8 ==> finite(pair_sum(t)) && pair_sum(t).key() == more
        }),
{
    let t = terms_at(m, a, b, at, n);
    exact_distances_are_true(m, a, b, at + n);
    lemma_true_dist_grows(m, a, b, at, at);
    assert forall|i: int| 0 <= i < n implies finite(#[trigger] t[i]) && t[i].key() >= 0
        && t[i].key() == true_dist(m, a, b, at + i + 1) - true_dist(m, a, b, at + i) by {
        lemma_true_term(m, a[at + i], b[at + i]);
        assert(finite(axis_term(m, a[at + i], b[at + i])));
    }
    assert(t[0].key() >= 0 && t[1].key() >= 0 && t[2].key() >= 0 && t[3].key() >= 0);
    if n == 8 {
        assert(t[4].key() >= 0 && t[5].key() >= 0 && t[6].key() >= 0 && t[7].key() >= 0);
    }
    lemma_exact_sums(t);
}

proof fn lemma_exact_steps<S: Scalar>(m: Metric<S>, a: Seq<S>, b: Seq<S>, c: int)
    requires
        lawful::<S>(),
        S::exact(),
        m.valid(),
        adds(m),
        all_finite_spec(a),
        all_finite_spec(b),
        a.len() == b.len(),
        0 <= c <= steps(a.len()),
        true_dist(m, a, b, 8 * c) < limit::<S>(),
    ensures
        finite(steps_dist(m, a, b, c)),
        steps_dist(m, a, b, c).key() == true_dist(m, a, b, 8 * c),
    decreases c,
{
    if c > 0 {
        let at = 8 * (c - 1);
        lemma_true_dist_grows(m, a, b, at, 8 * c);
        lemma_exact_steps(m, a, b, c - 1);
        lemma_true_step(m, a, b, at, 8);
    }
}

proof fn lemma_exact_fold<S: Scalar>(
    m: Metric<S>,
    dist: S,
    a: Seq<S>,
    b: Seq<S>,
    from: int,
    n: int,
)
    requires
        lawful::<S>(),
        S::exact(),
        m.valid(),
        adds(m),
        all_finite_spec(a),
        all_finite_spec(b),
        a.len() == b.len(),
        0 <= from <= n <= a.len(),
        finite(dist),
        dist.key() == true_dist(m, a, b, from),
        true_dist(m, a, b, n) < limit::<S>(),
    ensures
        finite(fold_from(m, dist, a, b, from, n)),
        fold_from(m, dist, a, b, from, n).key() == true_dist(m, a, b, n),
    decreases n - from,
{
    if from < n {
        lemma_true_term(m, a[n - 1], b[n - 1]);
        lemma_true_dist_grows(m, a, b, n - 1, n);
        lemma_exact_fold(m, dist, a, b, from, n - 1);
    }
}

/// Arithmetic that does not round measures a row at the distance of the integers,
/// wherever the row stands in its leaf, as long as that fits.
pub proof fn exact_scans_are_true<S: Scalar>(m: Metric<S>, a: Seq<S>, b: Seq<S>, grouped: bool)
    requires
        lawful::<S>(),
        S::exact(),
        m.valid(),
        all_finite_spec(a),
        all_finite_spec(b),
        a.len() == b.len(),
        true_dist(m, a, b, a.len() as int) < limit::<S>(),
    ensures
        finite(scan_dist(m, a, b, grouped)),
        scan_dist(m, a, b, grouped).key() == true_dist(m, a, b, a.len() as int),
{
    let n = a.len() as int;
    exact_distances_are_true(m, a, b, n);
    if adds(m) {
        if n == 4 {
            lemma_true_step(m, a, b, 0, 4);
        } else if n == 8 {
            lemma_true_step(m, a, b, 0, 8);
        } else if n > 8 {
            let c = steps(a.len());
            lemma_true_dist_grows(m, a, b, 8 * c, n);
            lemma_exact_steps(m, a, b, c);
            lemma_exact_fold(m, steps_dist(m, a, b, c), a, b, 8 * c, n);
        }
    }
}

/// Where the arithmetic does not round and every distance fits, two trees over the
/// same rows measure them alike.
pub proof fn exact_trees_measure_alike<S: Scalar>(
    ask: Ask<S>,
    data: Seq<S>,
    a: &Tree<S>,
    b: &Tree<S>,
)
    requires
        lawful::<S>(),
        S::exact(),
        a.wf(),
        b.wf(),
        a.ndim == b.ndim,
        a.holds(data),
        b.holds(data),
        ask.valid(a),
        all_fit(ask, a),
    ensures
        ask.measured_alike(a, b),
{
    reveal(keys_decide);
    assert forall|i: int, j: int|
        0 <= i < a.n_points && 0 <= j < b.n_points && #[trigger] a.indices@[i]
            == #[trigger] b.indices@[j] implies ask.dist(a, i) == ask.dist(b, j) by {
        assert(a.rows()[i] == b.rows()[j]);
        lemma_row_of_tree(a, i);
        exact_scans_are_true(ask.m, ask.q, a.rows()[i], a.grouped(i));
        exact_scans_are_true(ask.m, ask.q, a.rows()[i], b.grouped(j));
        assert(finite(ask.dist(a, i)) && finite(ask.dist(b, j)));
    }
}

/// The distance of every point of the tree fits, over the integers.
pub open spec fn all_fit<S: Scalar>(ask: Ask<S>, tree: &Tree<S>) -> bool {
    forall|pos: int|
        0 <= pos < tree.n_points ==> true_dist(
            ask.m,
            ask.q,
            #[trigger] tree.rows()[pos],
            tree.ndim as int,
        ) < limit::<S>()
}

/// What the first `n` axes contribute, added up over the integers.
spec fn key_sum<S: Scalar>(axes: Seq<Dist<S>>, n: int) -> int
    decreases n,
{
    if n <= 0 {
        0
    } else {
        key_sum(axes, n - 1) + axes[n - 1].value.key()
    }
}

proof fn lemma_key_sum_update<S: Scalar>(axes: Seq<Dist<S>>, dim: int, axis: Dist<S>, n: int)
    requires
        0 <= dim < axes.len(),
        n <= axes.len(),
    ensures
        key_sum(axes.update(dim, axis), n) == key_sum(axes, n) + if dim < n {
            axis.value.key() - axes[dim].value.key()
        } else {
            0
        },
    decreases n,
{
    if n > 0 {
        lemma_key_sum_update(axes, dim, axis, n - 1);
    }
}

/// Every axis contributes to a bound no more than to the distance of a point.
spec fn axes_below<S: Scalar>(ask: Ask<S>, axes: Seq<Dist<S>>, row: Seq<S>) -> bool {
    &&& axes.len() == ask.q.len()
    &&& forall|d: int|
        0 <= d < axes.len() ==> {
            &&& finite((#[trigger] axes[d]).value)
            &&& nonneg(axes[d].value)
            &&& axes[d].value.key() <= axis_term(ask.m, ask.q[d], row[d]).key()
        }
}

proof fn lemma_key_sum_below<S: Scalar>(ask: Ask<S>, axes: Seq<Dist<S>>, row: Seq<S>, n: int)
    requires
        lawful::<S>(),
        S::exact(),
        ask.m.valid(),
        !(ask.m is LInf),
        all_finite_spec(ask.q),
        all_finite_spec(row),
        ask.q.len() == row.len(),
        axes_below(ask, axes, row),
        0 <= n <= row.len(),
        true_dist(ask.m, ask.q, row, n) < limit::<S>(),
    ensures
        0 <= key_sum(axes, n) <= true_dist(ask.m, ask.q, row, n),
        forall|d: int| 0 <= d < n ==> (#[trigger] axes[d]).value.key() <= key_sum(axes, n),
    decreases n,
{
    if n > 0 {
        lemma_true_dist_grows(ask.m, ask.q, row, n - 1, n);
        exact_distances_are_true(ask.m, ask.q, row, n);
        lemma_key_sum_below(ask, axes, row, n - 1);
        assert(finite(axes[n - 1].value));
        assert(axis_term(ask.m, ask.q[n - 1], row[n - 1]).key() == true_term(
            ask.m,
            ask.q[n - 1],
            row[n - 1],
        ));
    }
}

proof fn lemma_exact_planes<S: Scalar>(
    ask: Ask<S>,
    tree: &Tree<S>,
    id: int,
    first: int,
    len: int,
    axes: Seq<Dist<S>>,
    cell: S,
    pos: int,
)
    requires
        lawful::<S>(),
        S::exact(),
        tree.wf(),
        ask.valid(tree),
        monotone(ask.m),
        !(ask.m is LInf),
        tree.node_ok(id, first, len),
        first <= pos < first + len,
        true_dist(ask.m, ask.q, tree.rows()[pos], tree.ndim as int) < limit::<S>(),
        axes_below(ask, axes, tree.rows()[pos]),
        finite(cell),
        cell.key() == key_sum(axes, tree.ndim as int),
    ensures
        ask.planes_below(tree, id, first, len, axes, cell, pos),
    decreases len,
{
    lemma_children(tree, id, first, len);
    if len > tree.leafsize && len > 1 {
        match tree.nodes@[id] {
            Node::Leaf { .. } => {},
            Node::Inner { left, right, split_dim, split_value } => {
                let w = tree.ndim as int;
                let dim = unpack_split_spec(split_dim).0 as int;
                let mid = len / 2;
                let at_left = pos < first + mid;
                let (child, cfirst, clen) = if at_left {
                    (left as int, first, mid)
                } else {
                    (right as int, first + mid, len - mid)
                };
                assert(tree.node_ok(child, cfirst, clen));
                if at_left == ask.left_near(dim, split_value) {
                    lemma_exact_planes(ask, tree, child, cfirst, clen, axes, cell, pos);
                } else {
                    let row = tree.rows()[pos];
                    let axis = ask.far_axis(dim, split_value);
                    let was = axes[dim].value;
                    let rest = cell.minus_spec(was);
                    let far = ask.m.replace_axis_spec(cell, was, axis);
                    let axes2 = axes.update(dim, Dist { value: axis });
                    lemma_block_len(tree.data@, tree.n_points as int, w);
                    lemma_far_axis_below(ask, tree, id, first, len, pos);
                    lemma_row_of_tree(tree, pos);
                    exact_distances_are_true(ask.m, ask.q, row, w);
                    exact_scans_are_true(ask.m, ask.q, row, tree.grouped(pos));
                    assert(finite(axis_term(ask.m, ask.q[dim], row[dim])));
                    assert(finite(axis));
                    lemma_key_sum_update(axes, dim, Dist { value: axis }, w);
                    assert(axes_below(ask, axes2, row));
                    lemma_key_sum_below(ask, axes, row, w);
                    lemma_key_sum_below(ask, axes2, row, w);
                    assert(finite(was));
                    assert(finite(rest) && rest.key() == cell.key() - was.key());
                    assert(finite(far) && far.key() == key_sum(axes2, w));
                    lemma_exact_planes(ask, tree, child, cfirst, clen, axes2, far, pos);
                }
            },
        }
    }
}

proof fn lemma_exact_root<S: Scalar>(ask: Ask<S>, tree: &Tree<S>, pos: int, n: int)
    requires
        lawful::<S>(),
        S::exact(),
        tree.wf(),
        ask.valid(tree),
        monotone(ask.m),
        !(ask.m is LInf),
        0 <= pos < tree.n_points,
        true_dist(ask.m, ask.q, tree.rows()[pos], tree.ndim as int) < limit::<S>(),
        axes_below(ask, ask.root_axes(tree), tree.rows()[pos]),
        !ask.inside(tree),
        0 <= n <= tree.ndim,
    ensures
        finite(ask.root_fold(tree, n)),
        ask.root_fold(tree, n).key() == key_sum(ask.root_axes(tree), n),
    decreases n,
{
    if n > 0 {
        let row = tree.rows()[pos];
        lemma_row_of_tree(tree, pos);
        lemma_exact_root(ask, tree, pos, n - 1);
        lemma_true_dist_grows(ask.m, ask.q, row, n, tree.ndim as int);
        lemma_true_dist_grows(ask.m, ask.q, row, n - 1, n);
        lemma_key_sum_below(ask, ask.root_axes(tree), row, n);
        assert(finite(ask.root_axes(tree)[n - 1].value));
    }
}

/// Where the arithmetic does not round and every distance fits, plane bounds stay
/// below the distances behind them by any metric that keeps the order of plain
/// distances.
pub proof fn exact_planes_stay_below<S: Scalar>(ask: Ask<S>, tree: &Tree<S>)
    requires
        lawful::<S>(),
        S::exact(),
        tree.wf(),
        ask.valid(tree),
        monotone(ask.m),
        all_fit(ask, tree),
    ensures
        ask.planes_hold(tree),
{
    if ask.m is LInf {
        greatest_axis_planes_stay_below(ask, tree);
        return;
    }
    let n = tree.n_points as int;
    let w = tree.ndim as int;
    let axes = ask.root_axes(tree);
    let cell = ask.root_cell(tree);
    assert forall|pos: int| 0 <= pos < n implies #[trigger] ask.planes_hold_at(tree, pos) by {
        let row = tree.rows()[pos];
        lemma_row_of_tree(tree, pos);
        exact_distances_are_true(ask.m, ask.q, row, w);
        exact_scans_are_true(ask.m, ask.q, row, tree.grouped(pos));
        lemma_root_below(ask, tree, pos, w);
        assert(axes_below(ask, axes, row)) by {
            assert forall|d: int| 0 <= d < axes.len() implies {
                &&& finite((#[trigger] axes[d]).value)
                &&& nonneg(axes[d].value)
                &&& axes[d].value.key() <= axis_term(ask.m, ask.q[d], row[d]).key()
            } by {
                lemma_axis_term_nonneg(ask.m, ask.q[d], row[d]);
                assert(finite(axis_term(ask.m, ask.q[d], row[d])));
                if !ask.inside(tree) {
                    assert(nonneg(ask.root_axis(tree, d)));
                }
            }
        }
        lemma_row_dist_nonneg(ask.m, ask.q, row);
        if ask.inside(tree) {
            lemma_zero_sum(axes, w);
        } else {
            lemma_exact_root(ask, tree, pos, w);
        }
        lemma_exact_planes(ask, tree, 0, 0, n, axes, cell, pos);
    }
}

proof fn lemma_zero_sum<S: Scalar>(axes: Seq<Dist<S>>, n: int)
    requires
        lawful::<S>(),
        S::exact(),
        n <= axes.len(),
        forall|d: int| 0 <= d < axes.len() ==> (#[trigger] axes[d]) == Dist::<S>::zero_spec(),
    ensures
        key_sum(axes, n) == 0,
    decreases n,
{
    if n > 0 {
        lemma_zero_sum(axes, n - 1);
        assert(axes[n - 1] == Dist::<S>::zero_spec());
    }
}

/// Lane `l` over the first `c` steps, added up over the integers.
spec fn lane_keys<S: Scalar>(t: Seq<S>, l: int, c: int) -> int
    decreases c,
{
    if c <= 0 {
        0
    } else {
        lane_keys(t, l, c - 1) + t[8 * (c - 1) + l].key()
    }
}

/// The values of `axes`.
spec fn values_of<S: Scalar>(axes: Seq<Dist<S>>) -> Seq<S> {
    Seq::new(axes.len(), |d: int| axes[d].value)
}

/// The lanes together are all the values of the steps.
proof fn lemma_lanes_are_all<S: Scalar>(axes: Seq<Dist<S>>, c: int)
    requires
        0 <= c,
        8 * c <= axes.len(),
        forall|d: int| 0 <= d < axes.len() ==> (#[trigger] axes[d]).value.key() >= 0,
    ensures
        ({
            let t = values_of(axes);
            &&& key_sum(axes, 8 * c) == lane_keys(t, 0, c) + lane_keys(t, 1, c) + lane_keys(
                t,
                2,
                c,
            ) + lane_keys(t, 3, c) + lane_keys(t, 4, c) + lane_keys(t, 5, c) + lane_keys(t, 6, c)
                + lane_keys(t, 7, c)
            &&& forall|l: int| 0 <= l < 8 ==> #[trigger] lane_keys(t, l, c) >= 0
        }),
    decreases c,
{
    if c > 0 {
        lemma_lanes_are_all(axes, c - 1);
        let at = 8 * (c - 1);
        assert(key_sum(axes, at + 8) == key_sum(axes, at) + axes[at].value.key()
            + axes[at + 1].value.key() + axes[at + 2].value.key() + axes[at + 3].value.key()
            + axes[at + 4].value.key() + axes[at + 5].value.key() + axes[at + 6].value.key()
            + axes[at + 7].value.key()) by {
            reveal_with_fuel(key_sum, 9);
        }
        assert forall|l: int| 0 <= l < 8 implies #[trigger] lane_keys(values_of(axes), l, c)
            >= 0 by {
            assert(axes[at + l].value.key() >= 0);
            assert(lane_keys(values_of(axes), l, c - 1) >= 0);
        }
    }
}

proof fn lemma_exact_lane<S: Scalar>(t: Seq<S>, l: int, c: int)
    requires
        lawful::<S>(),
        S::exact(),
        0 <= l < 8,
        0 <= c,
        8 * c <= t.len(),
        sums_fit(t, lane_keys(t, l, c)),
    ensures
        finite(lane_sum(t, l, c)),
        lane_sum(t, l, c).key() == lane_keys(t, l, c),
        lane_keys(t, l, c) >= 0,
    decreases c,
{
    if c > 0 {
        assert(finite(t[8 * (c - 1) + l]));
        lemma_exact_lane(t, l, c - 1);
    }
}

proof fn lemma_exact_rest<S: Scalar>(sum: S, axes: Seq<Dist<S>>, from: int, n: int)
    requires
        lawful::<S>(),
        S::exact(),
        0 <= from <= n <= axes.len(),
        finite(sum),
        sum.key() == key_sum(axes, from),
        sum.key() >= 0,
        sums_fit(values_of(axes), key_sum(axes, n)),
    ensures
        finite(rest_sum(sum, values_of(axes), from, n)),
        rest_sum(sum, values_of(axes), from, n).key() == key_sum(axes, n),
        key_sum(axes, n) >= 0,
    decreases n - from,
{
    if from < n {
        assert(finite(values_of(axes)[n - 1]));
        lemma_exact_rest(sum, axes, from, n - 1);
    }
}

/// Where the arithmetic does not round and every distance fits, no box is further
/// than a point in it, by any metric that keeps the order of plain distances.
pub proof fn exact_boxes_stay_below<S: Scalar>(ask: Ask<S>, tree: &Tree<S>)
    requires
        lawful::<S>(),
        S::exact(),
        tree.wf(),
        ask.valid(tree),
        monotone(ask.m),
        all_fit(ask, tree),
    ensures
        ask.boxes_hold(tree),
{
    if !adds(ask.m) {
        serial_boxes_stay_below(ask, tree);
        return;
    }
    let w = tree.ndim as int;
    assert forall|pos: int| 0 <= pos < tree.n_points implies #[trigger] ask.boxes_hold_at(
        tree,
        pos,
    ) by {
        assert forall|id: int, first: int, len: int| #[trigger]
            tree.node_ok(id, first, len) && first <= pos < first + len implies nonneg(
            ask.box_gate(tree, id),
        ) && at_most(ask.box_gate(tree, id), ask.dist(tree, pos)) by {
            lemma_exact_box(ask, tree, id, first, len, pos);
        }
    }
}

proof fn lemma_exact_box<S: Scalar>(
    ask: Ask<S>,
    tree: &Tree<S>,
    id: int,
    first: int,
    len: int,
    pos: int,
)
    requires
        lawful::<S>(),
        S::exact(),
        tree.wf(),
        ask.valid(tree),
        monotone(ask.m),
        adds(ask.m),
        0 <= pos < tree.n_points,
        true_dist(ask.m, ask.q, tree.rows()[pos], tree.ndim as int) < limit::<S>(),
        tree.node_ok(id, first, len),
        first <= pos < first + len,
    ensures
        nonneg(ask.box_gate(tree, id)),
        at_most(ask.box_gate(tree, id), ask.dist(tree, pos)),
{
    let w = tree.ndim as int;
    let (lo, hi) = (lo_of(tree.boxes@[id], w), hi_of(tree.boxes@[id], w));
    let row = tree.rows()[pos];
    let t = box_terms(ask.m, ask.q, lo, hi);
    let axes = Seq::new(tree.ndim as nat, |d: int| Dist { value: t[d] });
    lemma_box_valid(tree, id, first, len);
    lemma_row_of_tree(tree, pos);
    lemma_lane_box_nonneg(ask.m, ask.q, lo, hi);
    lemma_scan_dist_nonneg(ask.m, ask.q, row, tree.grouped(pos));
    exact_scans_are_true(ask.m, ask.q, row, tree.grouped(pos));
    exact_distances_are_true(ask.m, ask.q, row, w);
    assert(axes_below(ask, axes, row)) by {
        assert forall|d: int| 0 <= d < axes.len() implies {
            &&& finite((#[trigger] axes[d]).value)
            &&& nonneg(axes[d].value)
            &&& axes[d].value.key() <= axis_term(ask.m, ask.q[d], row[d]).key()
        } by {
            assert(lo[d].key() <= tree.rows()[pos][d].key() <= hi[d].key());
            lemma_offset_below(ask.q[d], lo[d], hi[d], row[d]);
            lemma_axis_term_reduces(ask.m, ask.q[d], row[d]);
            lemma_axis_term_nonneg(ask.m, ask.q[d], row[d]);
            lemma_reduce_monotone(
                ask.m,
                axis_offset_spec(ask.q[d], lo[d], hi[d]),
                ask.q[d].minus_spec(row[d]).abs_spec(),
            );
            assert(finite(axis_term(ask.m, ask.q[d], row[d])));
        }
    }
    assert(values_of(axes) =~= t);
    lemma_key_sum_below(ask, axes, row, w);
    assert forall|d: int| 0 <= d < t.len() implies finite(#[trigger] t[d]) && t[d].key()
        >= 0 by {
        assert(finite(axes[d].value));
    }
    lemma_exact_box_sum(axes);
}

/// What the axes contribute to the distance to a box adds up over the integers, in
/// the order of a query too.
proof fn lemma_exact_box_sum<S: Scalar>(axes: Seq<Dist<S>>)
    requires
        lawful::<S>(),
        S::exact(),
        sums_fit(values_of(axes), key_sum(axes, axes.len() as int)),
    ensures
        ({
            let (t, c) = (values_of(axes), steps(axes.len()));
            let total = rest_sum(lanes_sum(t, c), t, 8 * c, axes.len() as int);
            finite(total) && total.key() == key_sum(axes, axes.len() as int)
        }),
{
    let w = axes.len() as int;
    let t = values_of(axes);
    let c = steps(axes.len());
    assert forall|d: int| 0 <= d < axes.len() implies (#[trigger] axes[d]).value.key() >= 0 by {
        assert(t[d].key() >= 0);
    }
    lemma_key_sum_grows(axes, 8 * c, w);
    lemma_key_sum_grows(axes, 0, 8 * c);
    if c > 0 {
        lemma_lanes_are_all(axes, c);
        let lanes = Seq::new(8, |l: int| lane_sum(t, l, c));
        assert forall|l: int| 0 <= l < 8 implies finite(#[trigger] lanes[l]) && lanes[l].key()
            == lane_keys(t, l, c) && lanes[l].key() >= 0 by {
            assert(lane_keys(t, 0, c) >= 0 && lane_keys(t, 1, c) >= 0 && lane_keys(t, 2, c) >= 0
                && lane_keys(t, 3, c) >= 0 && lane_keys(t, 4, c) >= 0 && lane_keys(t, 5, c) >= 0
                && lane_keys(t, 6, c) >= 0 && lane_keys(t, 7, c) >= 0);
            assert(lane_keys(t, l, c) <= key_sum(axes, 8 * c));
            lemma_exact_lane(t, l, c);
        }
        assert(lanes[0].key() + lanes[1].key() + lanes[2].key() + lanes[3].key() + lanes[4].key()
            + lanes[5].key() + lanes[6].key() + lanes[7].key() == key_sum(axes, 8 * c));
        lemma_exact_sums(lanes);
    }
    lemma_exact_rest(lanes_sum(t, c), axes, 8 * c, w);
}

proof fn lemma_key_sum_grows<S: Scalar>(axes: Seq<Dist<S>>, i: int, j: int)
    requires
        0 <= i <= j <= axes.len(),
        forall|d: int| 0 <= d < axes.len() ==> (#[trigger] axes[d]).value.key() >= 0,
    ensures
        key_sum(axes, i) <= key_sum(axes, j),
    decreases j - i,
{
    if i < j {
        lemma_key_sum_grows(axes, i, j - 1);
        assert(axes[j - 1].value.key() >= 0);
    }
}

/// Every axis contributes as much to the distance to a box as to that of the nearest
/// point of the box.
proof fn lemma_clamped_sum<S: Scalar>(
    m: Metric<S>,
    q: Seq<S>,
    lo: Seq<S>,
    hi: Seq<S>,
    axes: Seq<Dist<S>>,
    n: int,
)
    requires
        lawful::<S>(),
        S::exact(),
        m.valid(),
        adds(m),
        all_finite_spec(q),
        all_finite_spec(clamped(q, lo, hi)),
        box_ok(lo, hi, q.len()),
        values_of(axes) == box_terms(m, q, lo, hi),
        0 <= n <= q.len(),
        true_dist(m, q, clamped(q, lo, hi), n) < limit::<S>(),
    ensures
        key_sum(axes, n) == true_dist(m, q, clamped(q, lo, hi), n),
        forall|d: int|
            0 <= d < n ==> finite(#[trigger] values_of(axes)[d]) && values_of(axes)[d].key() >= 0,
    decreases n,
{
    if n > 0 {
        let c = clamped(q, lo, hi);
        let d = n - 1;
        let off = axis_offset_spec(q[d], lo[d], hi[d]);
        let gap = q[d].minus_spec(c[d]).abs_spec();
        lemma_true_dist_grows(m, q, c, d, n);
        exact_distances_are_true(m, q, c, n);
        lemma_clamped_sum(m, q, lo, hi, axes, d);
        assert(lo[d].key() <= hi[d].key());
        assert(finite(lo[d]) && finite(hi[d]) && finite(q[d]) && finite(c[d]));
        lemma_offset_is_nearest(q[d], lo[d], hi[d], c[d]);
        lemma_axis_term_reduces(m, q[d], c[d]);
        lemma_axis_term_nonneg(m, q[d], c[d]);
        lemma_reduce_monotone(m, off, gap);
        lemma_reduce_monotone(m, gap, off);
        assert(finite(axis_term(m, q[d], c[d])));
        assert(values_of(axes).len() == axes.len());
        assert(box_terms(m, q, lo, hi).len() == q.len());
        assert(values_of(axes)[d] == m.reduce_spec(off));
        assert(axes[d].value == values_of(axes)[d]);
    }
}

/// Where the arithmetic does not round and the distance fits, a query measures a box
/// at the distance of its nearest point, however many axes there are.
pub proof fn exact_boxes_are_measured_at_their_nearest_point<S: Scalar>(
    m: Metric<S>,
    q: Seq<S>,
    lo: Seq<S>,
    hi: Seq<S>,
    grouped: bool,
)
    requires
        lawful::<S>(),
        S::exact(),
        m.valid(),
        monotone(m),
        all_finite_spec(q),
        box_ok(lo, hi, q.len()),
        true_dist(m, q, clamped(q, lo, hi), q.len() as int) < limit::<S>(),
    ensures
        scan_dist(m, q, clamped(q, lo, hi), grouped).key() == lane_box_dist_spec(
            m,
            q,
            lo,
            hi,
        ).key(),
{
    if adds(m) {
        let c = clamped(q, lo, hi);
        let n = q.len() as int;
        let axes = Seq::new(
            q.len(),
            |d: int| Dist { value: m.reduce_spec(axis_offset_spec(q[d], lo[d], hi[d])) },
        );
        assert(values_of(axes) =~= box_terms(m, q, lo, hi));
        assert forall|d: int| 0 <= d < c.len() implies finite(#[trigger] c[d]) by {
            assert(finite(q[d]) && finite(lo[d]) && finite(hi[d]));
        }
        lemma_clamped_sum(m, q, lo, hi, axes, n);
        lemma_exact_box_sum(axes);
        exact_scans_are_true(m, q, c, grouped);
    } else {
        a_box_is_measured_at_its_nearest_point(m, q, lo, hi, grouped);
    }
}

/// Where the arithmetic does not round and every distance fits, the bounds of a
/// search are sound.
pub proof fn exact_searches_are_sound<S: Scalar>(ask: Ask<S>, tree: &Tree<S>)
    requires
        lawful::<S>(),
        S::exact(),
        tree.wf(),
        ask.valid(tree),
        monotone(ask.m),
        all_fit(ask, tree),
        finite(ask.factor),
        at_most(S::one_spec(), ask.factor),
    ensures
        ask.sound(tree),
{
    exact_boxes_stay_below(ask, tree);
    exact_planes_stay_below(ask, tree);
}

/// Where the arithmetic does not round and every distance fits, a question has one
/// answer, the nearest points, whatever tree over the rows is searched: the leaf
/// size changes nothing.
pub proof fn exact_answers_do_not_depend_on_the_tree<S: Scalar>(
    ask: Ask<S>,
    data: Seq<S>,
    a: &Tree<S>,
    b: &Tree<S>,
)
    requires
        lawful::<S>(),
        S::exact(),
        a.wf(),
        b.wf(),
        a.ndim == b.ndim,
        a.holds(data),
        b.holds(data),
        ask.valid(a),
        monotone(ask.m),
        all_fit(ask, a),
        finite(ask.factor),
        ask.factor.key() == S::one_spec().key(),
    ensures
        ask.nearest(a, ask.search(a)),
        ask.search(a) == ask.search(b),
{
    lemma_block_len(a.data@, a.n_points as int, a.ndim as int);
    lemma_block_len(b.data@, b.n_points as int, b.ndim as int);
    assert forall|pos: int| 0 <= pos < b.n_points implies true_dist(
        ask.m,
        ask.q,
        #[trigger] b.rows()[pos],
        b.ndim as int,
    ) < limit::<S>() by {
        let i = every_row_has_a_position(a, b.indices@[pos] as int);
        assert(a.rows()[i] == b.rows()[pos]);
    }
    exact_searches_are_sound(ask, a);
    exact_searches_are_sound(ask, b);
    exact_trees_measure_alike(ask, data, a, b);
    a_sound_search_finds_the_nearest(ask, a);
    one_question_has_one_answer(ask, data, a, b);
}

/// Along the descents from a node, the contribution of an axis is only ever
/// exchanged for one that is no less.
pub open spec fn exchanges_grow<S: Scalar>(
    ask: Ask<S>,
    tree: &Tree<S>,
    id: int,
    first: int,
    len: int,
    axes: Seq<Dist<S>>,
) -> bool
    decreases len,
{
    if len <= tree.leafsize || len <= 1 {
        true
    } else {
        match tree.nodes@[id] {
            Node::Leaf { .. } => true,
            Node::Inner { left, right, split_dim, split_value } => {
                let dim = unpack_split_spec(split_dim).0 as int;
                let mid = len / 2;
                let axis = Dist { value: ask.far_axis(dim, split_value) };
                let beyond = axes.update(dim, axis);
                let left_near = ask.left_near(dim, split_value);
                &&& at_most(axes[dim].value, axis.value)
                &&& exchanges_grow(
                    ask,
                    tree,
                    left as int,
                    first,
                    mid,
                    if left_near {
                        axes
                    } else {
                        beyond
                    },
                )
                &&& exchanges_grow(
                    ask,
                    tree,
                    right as int,
                    first + mid,
                    len - mid,
                    if left_near {
                        beyond
                    } else {
                        axes
                    },
                )
            },
        }
    }
}

/// Every contribution is at most what the axis contributes to the distance of any
/// point from `first` on.
spec fn axes_bound<S: Scalar>(
    ask: Ask<S>,
    tree: &Tree<S>,
    axes: Seq<Dist<S>>,
    first: int,
    len: int,
) -> bool {
    &&& axes.len() == ask.q.len()
    &&& forall|pos: int, d: int|
        first <= pos < first + len && 0 <= d < axes.len() ==> at_most(
            axes[d].value,
            axis_term(ask.m, ask.q[d], #[trigger] tree.rows()[pos][d]),
        )
}

proof fn lemma_exchanges<S: Scalar>(
    ask: Ask<S>,
    tree: &Tree<S>,
    id: int,
    first: int,
    len: int,
    axes: Seq<Dist<S>>,
)
    requires
        lawful::<S>(),
        tree.wf(),
        ask.valid(tree),
        monotone(ask.m),
        tree.node_ok(id, first, len),
        axes_bound(ask, tree, axes, first, len),
    ensures
        exchanges_grow(ask, tree, id, first, len, axes),
    decreases len,
{
    if len > tree.leafsize && len > 1 {
        lemma_children(tree, id, first, len);
        match tree.nodes@[id] {
            Node::Leaf { .. } => {},
            Node::Inner { left, right, split_dim, split_value } => {
                let dim = unpack_split_spec(split_dim).0 as int;
                let mid = len / 2;
                let part = tree.rows().subrange(first, first + len);
                let axis = Dist { value: ask.far_axis(dim, split_value) };
                let beyond = axes.update(dim, axis);
                let left_near = ask.left_near(dim, split_value);
                let (nfirst, nlen, ffirst, flen) = if left_near {
                    (first, mid, first + mid, len - mid)
                } else {
                    (first + mid, len - mid, first, mid)
                };
                lemma_block_len(tree.data@, tree.n_points as int, tree.ndim as int);
                assert(attained(split_value, part, dim)) by {
                    reveal(node_ok);
                }
                let i = choose|i: int|
                    0 <= i < part.len() && #[trigger] part[i][dim] == split_value;
                assert(tree.rows()[first + i][dim] == split_value);
                lemma_axis_term_reduces(ask.m, ask.q[dim], split_value);
                assert(at_most(axes[dim].value, axis.value)) by {
                    reveal(orderly);
                    let gap = ask.q[dim].minus_spec(split_value).abs_spec();
                    lemma_reduce_monotone(ask.m, gap, gap);
                }
                assert(axes_bound(ask, tree, beyond, ffirst, flen)) by {
                    assert forall|pos: int, d: int|
                        ffirst <= pos < ffirst + flen && 0 <= d < beyond.len() implies at_most(
                        beyond[d].value,
                        axis_term(ask.m, ask.q[d], #[trigger] tree.rows()[pos][d]),
                    ) by {
                        if d == dim {
                            lemma_far_axis_below(ask, tree, id, first, len, pos);
                        }
                    }
                }
                if left_near {
                    lemma_exchanges(ask, tree, left as int, nfirst, nlen, axes);
                    lemma_exchanges(ask, tree, right as int, ffirst, flen, beyond);
                } else {
                    lemma_exchanges(ask, tree, right as int, nfirst, nlen, axes);
                    lemma_exchanges(ask, tree, left as int, ffirst, flen, beyond);
                }
            },
        }
    }
}

/// In every descent from the root, whenever the bound to a cell is updated, the
/// contribution that goes out is at most the one that comes in.
pub proof fn an_axis_is_exchanged_for_no_less<S: Scalar>(ask: Ask<S>, tree: &Tree<S>)
    requires
        lawful::<S>(),
        tree.wf(),
        ask.valid(tree),
        monotone(ask.m),
    ensures
        exchanges_grow(ask, tree, 0, 0, tree.n_points as int, ask.root_axes(tree)),
{
    let n = tree.n_points as int;
    let axes = ask.root_axes(tree);
    assert forall|pos: int, d: int| 0 <= pos < n && 0 <= d < axes.len() implies at_most(
        axes[d].value,
        axis_term(ask.m, ask.q[d], #[trigger] tree.rows()[pos][d]),
    ) by {
        lemma_row_of_tree(tree, pos);
        lemma_root_below(ask, tree, pos, tree.ndim as int);
        lemma_axis_term_nonneg(ask.m, ask.q[d], tree.rows()[pos][d]);
        if !ask.inside(tree) {
            assert(nonneg(ask.root_axis(tree, d)));
        }
    }
    lemma_exchanges(ask, tree, 0, 0, n, axes);
}

} // verus!
