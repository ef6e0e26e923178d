//! Promises of [`Tree::query_radius_one`] and [`Tree::query_radius_many`].

use crate::distance::row_dist;
use crate::error::KDTreeError;
use crate::layout::{is_block, lemma_block_len, lemma_row_at, lemma_rows_finite, rows_of};
use crate::metric::Metric;
use crate::node::Node;
use crate::perm::{lemma_same_items_contains, same_items};
use crate::radius::{ball_of, box_gate, first_refusal, found_points_are_in_the_ball, lemma_reported,
    radius_refusal, reports, zipped, Ball};
use crate::scalar::{all_finite_spec, finite, lawful, less, power_grows, Scalar};
use crate::tree::{every_row_has_a_position, leaf_span, lemma_children, Tree};
use vstd::prelude::*;

verus! {

/// A radius query is refused for a wrong number of coordinates, else for a coordinate
/// that is infinite or a nan, else for a radius that is negative, infinite or a nan,
/// else for an exponent that names no metric, and for nothing else.
pub proof fn a_radius_query_is_refused_for_what_is_wrong_first<S: Scalar>(
    tree: &Tree<S>,
    query: &[S],
    radius: S,
    p: S,
    sort: bool,
    r: Result<(Vec<usize>, Vec<S>), KDTreeError<S>>,
)
    requires
        lawful::<S>(),
        call_ensures(Tree::<S>::query_radius_one, (tree, query, radius, p, sort), r),
    ensures
        ({
            let finite_query = forall|d: int|
                0 <= d < query@.len() ==> !(#[trigger] query@[d]).nan()
                    && S::neg_infinity_spec().key() < query@[d].key() < S::infinity_spec().key();
            let good_radius = !radius.nan() && S::zero_spec().key() <= radius.key()
                < S::infinity_spec().key();
            let good_p = !p.nan() && S::one_spec().key() <= p.key();
            if query@.len() != tree.ndim {
                r == Err::<(Vec<usize>, Vec<S>), KDTreeError<S>>(
                    KDTreeError::DimensionMismatch {
                        expected: tree.ndim,
                        got: query@.len() as usize,
                    },
                )
            } else if !finite_query {
                r == Err::<(Vec<usize>, Vec<S>), KDTreeError<S>>(KDTreeError::NonFiniteData)
            } else if !good_radius {
                r == Err::<(Vec<usize>, Vec<S>), KDTreeError<S>>(
                    KDTreeError::InvalidRadius(radius),
                )
            } else if !good_p {
                r == Err::<(Vec<usize>, Vec<S>), KDTreeError<S>>(KDTreeError::InvalidMetric(p))
            } else {
                r is Ok
            }
        }),
{
    if forall|d: int|
        0 <= d < query@.len() ==> !(#[trigger] query@[d]).nan() && S::neg_infinity_spec().key()
            < query@[d].key() < S::infinity_spec().key() {
        assert forall|d: int| 0 <= d < query@.len() implies finite(#[trigger] query@[d]) by {}
    } else {
        let d = choose|d: int|
            0 <= d < query@.len() && !(!(#[trigger] query@[d]).nan() && S::neg_infinity_spec().key()
                < query@[d].key() < S::infinity_spec().key());
        assert(!finite(query@[d]));
    }
}

/// What is reported of a ball, in terms of the rows of `data`.
proof fn lemma_reports_rows<S: Scalar>(
    tree: &Tree<S>,
    data: Seq<S>,
    q: Seq<S>,
    m: Metric<S>,
    reach: S,
    sort: bool,
    indices: Seq<usize>,
    distances: Seq<S>,
)
    requires
        lawful::<S>(),
        tree.wf(),
        tree.holds(data),
        reports(Ball { m, q, radius: reach }, tree, sort, indices, distances),
    ensures
        indices.len() == distances.len(),
        forall|c: int|
            0 <= c < indices.len() ==> {
                let row = #[trigger] indices[c];
                let near = row_dist(
                    m,
                    q,
                    data.subrange(row * tree.ndim, row * tree.ndim + tree.ndim),
                );
                &&& row * tree.ndim < data.len()
                &&& !near.nan() && near.key() <= reach.key()
                &&& distances[c] == m.restore_spec(near)
            },
        forall|c: int, d: int|
            0 <= c < d < indices.len() ==> #[trigger] indices[c] != #[trigger] indices[d],
        sort ==> forall|c: int, d: int|
            0 <= c < d < indices.len() ==> (#[trigger] distances[c]).key() < (
            #[trigger] distances[d]).key() || (distances[c].key() == distances[d].key()
                && indices[c] < indices[d]),
        (m is LP ==> power_grows::<S>()) && !reach.nan() ==> forall|row: usize|
            row * tree.ndim < data.len() && {
                let near = row_dist(
                    m,
                    q,
                    data.subrange(row * tree.ndim, row * tree.ndim + tree.ndim),
                );
                !near.nan() && near.key() <= reach.key()
            } ==> #[trigger] indices.contains(row),
{
    let ball = Ball { m, q, radius: reach };
    let found = ball.found_in(tree);
    let entries = ball.entries(tree, found);
    let all = zipped(indices, distances);
    let (n, w) = (tree.n_points as int, tree.ndim as int);
    lemma_block_len(tree.data@, n, w);
    if sort {
        lemma_same_items_contains(entries, all);
    }
    assert forall|c: int| 0 <= c < indices.len() implies {
        let row = #[trigger] indices[c];
        let near = row_dist(m, q, data.subrange(row * tree.ndim, row * tree.ndim + tree.ndim));
        &&& row * tree.ndim < data.len()
        &&& !near.nan() && near.key() <= reach.key()
        &&& distances[c] == m.restore_spec(near)
    } by {
        assert(all.contains(all[c]));
        let e = choose|e: int| 0 <= e < entries.len() && entries[e] == all[c];
        let pos = found[e];
        assert(ball.holds(tree, pos));
        let row = indices[c] as int;
        assert(tree.indices@[pos] == row);
        lemma_row_at(data, n, w, row);
        assert(tree.rows()[pos] == rows_of(data, w)[row]);
    }
    assert forall|c: int, d: int| 0 <= c < d < indices.len() implies #[trigger] indices[c]
        != #[trigger] indices[d] by {
        if indices[c] == indices[d] {
            assert(indices[c] * w < n * w);
            let row = indices[c] as int;
            assert(row < n) by (nonlinear_arith)
                requires
                    row * w < n * w,
                    0 < w,
            ;
            let pos = every_row_has_a_position(tree, row);
            lemma_reported(ball, tree, sort, indices, distances, pos);
            assert(all[c] == all[d]);
        }
    }
    if sort {
        assert forall|c: int, d: int| 0 <= c < d < indices.len() implies (
        #[trigger] distances[c]).key() < (#[trigger] distances[d]).key() || (distances[c].key()
            == distances[d].key() && indices[c] < indices[d]) by {
            assert(crate::radius::entry_before(all[c], all[d]));
            assert(indices[c] != indices[d]);
        }
    }
    if (m is LP ==> power_grows::<S>()) && !reach.nan() {
        assert forall|row: usize|
            row * tree.ndim < data.len() && {
                let near = row_dist(
                    m,
                    q,
                    data.subrange(row * tree.ndim, row * tree.ndim + tree.ndim),
                );
                !near.nan() && near.key() <= reach.key()
            } implies #[trigger] indices.contains(row) by {
            assert(row < n) by (nonlinear_arith)
                requires
                    row * w < n * w,
                    0 < w,
            ;
            let pos = every_row_has_a_position(tree, row as int);
            lemma_row_at(data, n, w, row as int);
            assert(tree.rows()[pos] == rows_of(data, w)[row as int]);
            assert(ball.holds(tree, pos));
            assert(found.contains(pos));
            lemma_reported(ball, tree, sort, indices, distances, pos);
        }
    }
}

/// A radius query about a tree over `data` reports rows of it whose reduced distance
/// to the query is at most the reduced radius, each once and beside its plain
/// distance; all such rows, where the powers of a general exponent keep the order of
/// their bases; and, with `sort`, nearest first and those at the same distance in the
/// order of their row numbers.
pub proof fn a_radius_query_reports_the_rows_within_the_radius<S: Scalar>(
    data: Vec<S>,
    ndim: usize,
    leafsize: usize,
    parallel: bool,
    tree: Tree<S>,
    query: &[S],
    radius: S,
    p: S,
    m: Metric<S>,
    sort: bool,
    indices: Vec<usize>,
    distances: Vec<S>,
)
    requires
        lawful::<S>(),
        call_ensures(Tree::<S>::new, (data, ndim, leafsize, parallel), Ok(tree)),
        call_ensures(Metric::<S>::new, (p,), Ok(m)),
        call_ensures(
            Tree::<S>::query_radius_one,
            (&tree, query, radius, p, sort),
            Ok((indices, distances)),
        ),
    ensures
        indices@.len() == distances@.len(),
        forall|c: int|
            0 <= c < indices@.len() ==> {
                let row = #[trigger] indices@[c];
                let near = row_dist(m, query@, data@.subrange(row * ndim, row * ndim + ndim));
                &&& row * ndim < data@.len()
                &&& !near.nan() && near.key() <= m.reduce_spec(radius).key()
                &&& distances@[c] == m.restore_spec(near)
            },
        forall|c: int, d: int|
            0 <= c < d < indices@.len() ==> #[trigger] indices@[c] != #[trigger] indices@[d],
        sort ==> forall|c: int, d: int|
            0 <= c < d < indices@.len() ==> (#[trigger] distances@[c]).key() < (
            #[trigger] distances@[d]).key() || (distances@[c].key() == distances@[d].key()
                && indices@[c] < indices@[d]),
        (m is LP ==> power_grows::<S>()) ==> forall|row: usize|
            row * ndim < data@.len() && {
                let near = row_dist(m, query@, data@.subrange(row * ndim, row * ndim + ndim));
                !near.nan() && near.key() <= m.reduce_spec(radius).key()
            } ==> #[trigger] indices@.contains(row),
{
    assert(ball_of(query@, radius, p) == (Ball { m, q: query@, radius: m.reduce_spec(radius) }));
    lemma_reduced(m, radius);
    lemma_reports_rows(
        &tree,
        data@,
        query@,
        m,
        m.reduce_spec(radius),
        sort,
        indices@,
        distances@,
    );
}

/// Two rearrangements of the same items that are both in strict order are one.
proof fn lemma_sorted_once<T>(a: Seq<T>, b: Seq<T>, lt: spec_fn(T, T) -> bool)
    requires
        same_items(a, b),
        forall|x: T, y: T| #[trigger] lt(x, y) ==> !lt(y, x),
        forall|i: int, j: int| 0 <= i < j < a.len() ==> lt(#[trigger] a[i], #[trigger] a[j]),
        forall|i: int, j: int| 0 <= i < j < b.len() ==> lt(#[trigger] b[i], #[trigger] b[j]),
    ensures
        a == b,
    decreases a.len(),
{
    lemma_same_items_contains(a, b);
    if a.len() == 0 {
        assert(a =~= b);
    } else {
        let (x, y) = (a.last(), b.last());
        assert(a.contains(x) && b.contains(y));
        let e = choose|e: int| 0 <= e < b.len() && b[e] == x;
        let f = choose|f: int| 0 <= f < a.len() && a[f] == y;
        if e < b.len() - 1 && f < a.len() - 1 {
            assert(lt(b[e], b[b.len() - 1]) && lt(a[f], a[a.len() - 1]));
        }
        assert(x == y);
        broadcast use vstd::multiset::group_multiset_axioms;

        assert(a =~= a.drop_last().push(x) && b =~= b.drop_last().push(x));
        vstd::seq_lib::to_multiset_build(a.drop_last(), x);
        vstd::seq_lib::to_multiset_build(b.drop_last(), x);
        assert(a.drop_last().to_multiset() =~= a.to_multiset().remove(x));
        assert(b.drop_last().to_multiset() =~= b.to_multiset().remove(x));
        lemma_sorted_once(a.drop_last(), b.drop_last(), lt);
    }
}

/// A ball is reported in one way.
proof fn lemma_reported_once<S: Scalar>(
    tree: &Tree<S>,
    data: Seq<S>,
    ball: Ball<S>,
    sort: bool,
    x: (Seq<usize>, Seq<S>),
    y: (Seq<usize>, Seq<S>),
)
    requires
        lawful::<S>(),
        tree.wf(),
        tree.holds(data),
        reports(ball, tree, sort, x.0, x.1),
        reports(ball, tree, sort, y.0, y.1),
    ensures
        x.0 == y.0,
        x.1 == y.1,
{
    let (a, b) = (zipped(x.0, x.1), zipped(y.0, y.1));
    if sort {
        let lt = |s: (usize, S), t: (usize, S)|
            s.1.key() < t.1.key() || (s.1.key() == t.1.key() && s.0 < t.0);
        lemma_reports_rows(tree, data, ball.q, ball.m, ball.radius, sort, x.0, x.1);
        lemma_reports_rows(tree, data, ball.q, ball.m, ball.radius, sort, y.0, y.1);
        assert forall|i: int, j: int| 0 <= i < j < a.len() implies lt(
            #[trigger] a[i],
            #[trigger] a[j],
        ) by {
            assert(x.1[i] == a[i].1 && x.1[j] == a[j].1);
        }
        assert forall|i: int, j: int| 0 <= i < j < b.len() implies lt(
            #[trigger] b[i],
            #[trigger] b[j],
        ) by {
            assert(y.1[i] == b[i].1 && y.1[j] == b[j].1);
        }
        lemma_sorted_once(a, b, lt);
    }
    assert(a == b);
    assert(a.len() == x.0.len() && b.len() == y.0.len());
    assert forall|i: int| 0 <= i < a.len() implies #[trigger] x.0[i] == y.0[i] by {
        assert(a[i] == b[i]);
    }
    assert forall|i: int| 0 <= i < a.len() implies #[trigger] x.1[i] == y.1[i] by {
        assert(a[i] == b[i]);
    }
    assert(x.0 =~= y.0);
    assert(x.1 =~= y.1);
}

/// Without `sort`, a radius query reports the points leaf by leaf, the leaves from the
/// last to the first, and those of one leaf in the order of their positions.
pub proof fn unsorted_rows_come_leaf_by_leaf<S: Scalar>(
    data: Vec<S>,
    ndim: usize,
    leafsize: usize,
    parallel: bool,
    tree: Tree<S>,
    query: &[S],
    radius: S,
    p: S,
    indices: Vec<usize>,
    distances: Vec<S>,
    c: int,
    d: int,
    x: int,
    y: int,
)
    requires
        lawful::<S>(),
        call_ensures(Tree::<S>::new, (data, ndim, leafsize, parallel), Ok(tree)),
        call_ensures(
            Tree::<S>::query_radius_one,
            (&tree, query, radius, p, false),
            Ok((indices, distances)),
        ),
        0 <= c < d < indices@.len(),
        0 <= x < tree.n_points,
        0 <= y < tree.n_points,
        tree.indices@[x] == indices@[c],
        tree.indices@[y] == indices@[d],
    ensures
        tree.leaf_at(y).0 < tree.leaf_at(x).0 || (tree.leaf_at(y) == tree.leaf_at(x) && x < y),
{
    let ball = ball_of(query@, radius, p);
    let found = ball.found_in(&tree);
    let all = zipped(indices@, distances@);
    let entries = ball.entries(&tree, found);
    assert(reports(ball, &tree, false, indices@, distances@));
    assert(all == entries);
    assert(all[c].0 == indices@[c] && all[d].0 == indices@[d]);
    assert(entries[c] == ball.entry(&tree, found[c]) && entries[d] == ball.entry(&tree, found[d]));
    assert(0 <= found[c] < tree.n_points && 0 <= found[d] < tree.n_points);
    assert(tree.indices@[found[c]] == tree.indices@[x]);
    assert(tree.indices@[found[d]] == tree.indices@[y]);
    assert(found[c] == x && found[d] == y);
    lemma_found_order(ball, &tree, 0, 0, tree.n_points as int);
}

proof fn lemma_found_order<S: Scalar>(
    ball: Ball<S>,
    tree: &Tree<S>,
    id: int,
    first: int,
    len: int,
)
    requires
        tree.wf(),
        tree.node_ok(id, first, len),
    ensures
        ({
            let found = ball.found(tree, id, first, len);
            let leaf = |pos: int| leaf_span(first, len, tree.leafsize as int, pos);
            forall|c: int, d: int|
                0 <= c < d < found.len() ==> leaf(#[trigger] found[d]).0 < leaf(
                    #[trigger] found[c],
                ).0 || (leaf(found[d]) == leaf(found[c]) && found[c] < found[d])
        }),
    decreases len,
{
    lemma_children(tree, id, first, len);
    found_points_are_in_the_ball(ball, tree, id, first, len);
    let ls = tree.leafsize as int;
    let found = ball.found(tree, id, first, len);
    if less(ball.radius, box_gate(ball.m, ball.q, tree, id)) {
    } else if len <= tree.leafsize || len <= 1 {
        lemma_run_ascends(ball, tree, first, first + len);
    } else {
        match tree.nodes@[id] {
            Node::Leaf { .. } => {},
            Node::Inner { left, right, .. } => {
                let mid = len / 2;
                let r = ball.found(tree, right as int, first + mid, len - mid);
                let l = ball.found(tree, left as int, first, mid);
                lemma_found_order(ball, tree, right as int, first + mid, len - mid);
                lemma_found_order(ball, tree, left as int, first, mid);
                found_points_are_in_the_ball(ball, tree, right as int, first + mid, len - mid);
                found_points_are_in_the_ball(ball, tree, left as int, first, mid);
                assert(found =~= r + l);
                assert forall|c: int, d: int| 0 <= c < d < found.len() implies leaf_span(
                    first,
                    len,
                    ls,
                    #[trigger] found[d],
                ).0 < leaf_span(first, len, ls, #[trigger] found[c]).0 || (leaf_span(
                    first,
                    len,
                    ls,
                    found[d],
                ) == leaf_span(first, len, ls, found[c]) && found[c] < found[d]) by {
                    if d < r.len() {
                        assert(found[c] == r[c] && found[d] == r[d]);
                    } else if c >= r.len() {
                        assert(found[c] == l[c - r.len()] && found[d] == l[d - r.len()]);
                    } else {
                        assert(found[c] == r[c] && found[d] == l[d - r.len()]);
                        lemma_leaf_within(first + mid, len - mid, ls, found[c]);
                        lemma_leaf_within(first, mid, ls, found[d]);
                    }
                }
            },
        }
    }
}

/// The leaf of a point lies in the subtree that the point is in.
proof fn lemma_leaf_within(first: int, len: int, leafsize: int, pos: int)
    requires
        first <= pos < first + len,
    ensures
        first <= leaf_span(first, len, leafsize, pos).0 <= pos,
    decreases len,
{
    if len > leafsize && len > 1 {
        if pos < first + len / 2 {
            lemma_leaf_within(first, len / 2, leafsize, pos);
        } else {
            lemma_leaf_within(first + len / 2, len - len / 2, leafsize, pos);
        }
    }
}

/// The points of a run come in the order of their positions.
proof fn lemma_run_ascends<S: Scalar>(ball: Ball<S>, tree: &Tree<S>, a: int, b: int)
    ensures
        forall|c: int, d: int|
            0 <= c < d < ball.in_run(tree, a, b).len() ==> #[trigger] ball.in_run(tree, a, b)[c]
                < #[trigger] ball.in_run(tree, a, b)[d],
        forall|c: int|
            0 <= c < ball.in_run(tree, a, b).len() ==> a <= #[trigger] ball.in_run(tree, a, b)[c]
                < b,
    decreases b - a,
{
    if a < b {
        lemma_run_ascends(ball, tree, a, b - 1);
        let (rest, run) = (ball.in_run(tree, a, b - 1), ball.in_run(tree, a, b));
        assert forall|c: int| 0 <= c < run.len() implies a <= #[trigger] run[c] < b by {
            if c < rest.len() {
                assert(run[c] == rest[c]);
            }
        }
        assert forall|c: int, d: int| 0 <= c < d < run.len() implies #[trigger] run[c]
            < #[trigger] run[d] by {
            assert(run[c] == rest[c]);
            if d < rest.len() {
                assert(run[d] == rest[d]);
            }
        }
    }
}

/// A radius query about many points reports for question `i` what one about that
/// point alone promises: the rows within the radius, each once and beside its plain
/// distance, all of them where powers keep the order of their bases, and sorted if
/// asked for.
pub proof fn many_radius_queries_report_the_rows_within_the_radius<S: Scalar>(
    data: Vec<S>,
    ndim: usize,
    leafsize: usize,
    built_parallel: bool,
    tree: Tree<S>,
    queries: &[S],
    n_queries: usize,
    radius: S,
    p: S,
    m: Metric<S>,
    sort: bool,
    parallel: bool,
    indices: Vec<Vec<usize>>,
    distances: Vec<Vec<S>>,
    i: int,
)
    requires
        lawful::<S>(),
        call_ensures(Tree::<S>::new, (data, ndim, leafsize, built_parallel), Ok(tree)),
        call_ensures(Metric::<S>::new, (p,), Ok(m)),
        call_ensures(
            Tree::<S>::query_radius_many,
            (&tree, queries, n_queries, radius, p, sort, parallel),
            Ok((indices, distances)),
        ),
        0 <= i < n_queries,
    ensures
        indices@.len() == n_queries,
        distances@.len() == n_queries,
        ({
            let q = queries@.subrange(i * ndim, i * ndim + ndim);
            let (rows, plain) = (indices@[i]@, distances@[i]@);
            let near = |row: int| row_dist(m, q, data@.subrange(row * ndim, row * ndim + ndim));
            &&& rows.len() == plain.len()
            &&& forall|c: int|
                0 <= c < rows.len() ==> {
                    let row = #[trigger] rows[c] as int;
                    &&& row * ndim < data@.len()
                    &&& !near(row).nan() && near(row).key() <= m.reduce_spec(radius).key()
                    &&& plain[c] == m.restore_spec(near(row))
                }
            &&& forall|c: int, d: int|
                0 <= c < d < rows.len() ==> #[trigger] rows[c] != #[trigger] rows[d]
            &&& sort ==> forall|c: int, d: int|
                0 <= c < d < rows.len() ==> (#[trigger] plain[c]).key() < (
                #[trigger] plain[d]).key() || (plain[c].key() == plain[d].key() && rows[c]
                    < rows[d])
            &&& (m is LP ==> power_grows::<S>()) ==> forall|row: usize|
                row * ndim < data@.len() && !near(row as int).nan() && near(row as int).key()
                    <= m.reduce_spec(radius).key() ==> #[trigger] rows.contains(row)
        }),
{
    let w = ndim as int;
    lemma_row_at(queries@, n_queries as int, w, i);
    let q = queries@.subrange(i * w, i * w + w);
    let reach = m.reduce_spec(radius);
    assert(rows_of(queries@, w)[i] == q);
    assert(ball_of(q, radius, p) == (Ball { m, q, radius: reach }));
    assert(reports(ball_of(q, radius, p), &tree, sort, indices@[i]@, distances@[i]@));
    lemma_many_refusal(ndim, queries@, radius, p, n_queries as int, n_queries as int);
    lemma_reduced(m, radius);
    lemma_reports_rows(&tree, data@, q, m, reach, sort, indices@[i]@, distances@[i]@);
}

/// A radius query about many points answers each of them as a query about that point
/// alone, on one thread or on many.
pub proof fn many_radius_queries_answer_as_one_does<S: Scalar>(
    data: Vec<S>,
    ndim: usize,
    leafsize: usize,
    built_parallel: bool,
    tree: Tree<S>,
    queries: &[S],
    n_queries: usize,
    radius: S,
    p: S,
    sort: bool,
    parallel: bool,
    indices: Vec<Vec<usize>>,
    distances: Vec<Vec<S>>,
    i: int,
    query: &[S],
    one: (Vec<usize>, Vec<S>),
)
    requires
        lawful::<S>(),
        call_ensures(Tree::<S>::new, (data, ndim, leafsize, built_parallel), Ok(tree)),
        call_ensures(
            Tree::<S>::query_radius_many,
            (&tree, queries, n_queries, radius, p, sort, parallel),
            Ok((indices, distances)),
        ),
        0 <= i < n_queries,
        query@ == queries@.subrange(i * ndim, i * ndim + ndim),
        call_ensures(Tree::<S>::query_radius_one, (&tree, query, radius, p, sort), Ok(one)),
    ensures
        indices@.len() == n_queries,
        distances@.len() == n_queries,
        indices@[i]@ == one.0@,
        distances@[i]@ == one.1@,
{
    let w = ndim as int;
    lemma_row_at(queries@, n_queries as int, w, i);
    let ball = ball_of(query@, radius, p);
    assert(rows_of(queries@, w)[i] == query@);
    assert(reports(ball, &tree, sort, indices@[i]@, distances@[i]@));
    lemma_reported_once(
        &tree,
        data@,
        ball,
        sort,
        (indices@[i]@, distances@[i]@),
        (one.0@, one.1@),
    );
}

/// A radius query about many points is refused for a number of values that is not
/// that of `n_queries` points; else, if there is a point at all, for what is wrong
/// with the first point, with the radius or with the exponent, in this order; else
/// for any point that is not finite; and for nothing else.
pub proof fn many_radius_queries_are_refused_for_what_is_wrong_first<S: Scalar>(
    tree: &Tree<S>,
    queries: &[S],
    n_queries: usize,
    radius: S,
    p: S,
    sort: bool,
    parallel: bool,
    r: Result<(Vec<Vec<usize>>, Vec<Vec<S>>), KDTreeError<S>>,
)
    requires
        lawful::<S>(),
        tree.wf(),
        call_ensures(
            Tree::<S>::query_radius_many,
            (tree, queries, n_queries, radius, p, sort, parallel),
            r,
        ),
    ensures
        ({
            let first_finite = forall|d: int|
                0 <= d < tree.ndim ==> !(#[trigger] queries@[d]).nan()
                    && S::neg_infinity_spec().key() < queries@[d].key()
                    < S::infinity_spec().key();
            let all_finite = forall|d: int|
                0 <= d < queries@.len() ==> !(#[trigger] queries@[d]).nan()
                    && S::neg_infinity_spec().key() < queries@[d].key()
                    < S::infinity_spec().key();
            let good_radius = !radius.nan() && S::zero_spec().key() <= radius.key()
                < S::infinity_spec().key();
            let good_p = !p.nan() && S::one_spec().key() <= p.key();
            if queries@.len() != n_queries * tree.ndim {
                r matches Err(KDTreeError::InvalidShape(message)) && message@
                    == "queries must be a contiguous row-major matrix"@
            } else if n_queries == 0 {
                r is Ok
            } else if !first_finite {
                r matches Err(KDTreeError::NonFiniteData)
            } else if !good_radius {
                r matches Err(KDTreeError::InvalidRadius(x)) && x == radius
            } else if !good_p {
                r matches Err(KDTreeError::InvalidMetric(x)) && x == p
            } else if !all_finite {
                r matches Err(KDTreeError::NonFiniteData)
            } else {
                r is Ok
            }
        }),
{
    if queries@.len() == n_queries * tree.ndim {
        let (n, w) = (n_queries as int, tree.ndim as int);
        let rows = rows_of(queries@, w);
        lemma_block_len(queries@, n, w);
        lemma_many_refusal(tree.ndim, queries@, radius, p, n, n);
        lemma_rows_finite(queries@, n, w);
        if n > 0 {
            lemma_row_at(queries@, n, w, 0);
            assert(all_finite_spec(rows[0]) <==> forall|d: int|
                0 <= d < w ==> !(#[trigger] queries@[d]).nan() && S::neg_infinity_spec().key()
                    < queries@[d].key() < S::infinity_spec().key()) by {
                assert forall|d: int| 0 <= d < w implies rows[0][d] == #[trigger] queries@[d] by {}
                if all_finite_spec(rows[0]) {
                    assert forall|d: int| 0 <= d < w implies !(#[trigger] queries@[d]).nan()
                        && S::neg_infinity_spec().key() < queries@[d].key()
                        < S::infinity_spec().key() by {
                        assert(finite(rows[0][d]));
                    }
                }
            }
            assert(all_finite_spec(queries@) <==> forall|d: int|
                0 <= d < queries@.len() ==> !(#[trigger] queries@[d]).nan()
                    && S::neg_infinity_spec().key() < queries@[d].key()
                    < S::infinity_spec().key()) by {
                if all_finite_spec(queries@) {
                    assert forall|d: int| 0 <= d < queries@.len() implies !(
                    #[trigger] queries@[d]).nan() && S::neg_infinity_spec().key()
                        < queries@[d].key() < S::infinity_spec().key() by {
                        assert(finite(queries@[d]));
                    }
                }
            }
            assert(all_finite_spec(queries@) <==> forall|i: int|
                0 <= i < n ==> all_finite_spec(#[trigger] rows[i])) by {
                if all_finite_spec(queries@) {
                    assert forall|i: int| 0 <= i < n implies all_finite_spec(
                        #[trigger] rows[i],
                    ) by {
                        lemma_row_at(queries@, n, w, i);
                        assert forall|d: int| 0 <= d < rows[i].len() implies finite(
                            #[trigger] rows[i][d],
                        ) by {}
                    }
                }
                if forall|i: int| 0 <= i < n ==> all_finite_spec(#[trigger] rows[i]) {
                    assert forall|i: int, d: int| 0 <= i < n && 0 <= d < w implies finite(
                        #[trigger] rows[i][d],
                    ) by {
                        lemma_row_at(queries@, n, w, i);
                        assert(all_finite_spec(rows[i]));
                    }
                }
            }
        }
    }
}

proof fn lemma_many_refusal<S: Scalar>(
    ndim: usize,
    queries: Seq<S>,
    radius: S,
    p: S,
    total: int,
    n: int,
)
    requires
        is_block(queries, total, ndim as int),
        0 <= n <= total,
    ensures
        ({
            let rows = rows_of(queries, ndim as int);
            let got = first_refusal(ndim, rows, radius, p, n);
            if n == 0 {
                got is None
            } else if radius_refusal(ndim, rows[0], radius, p) is Some {
                got == radius_refusal(ndim, rows[0], radius, p)
            } else if forall|i: int| 0 <= i < n ==> all_finite_spec(#[trigger] rows[i]) {
                got is None
            } else {
                got == Some(KDTreeError::<S>::NonFiniteData)
            }
        }),
    decreases n,
{
    if n > 0 {
        let rows = rows_of(queries, ndim as int);
        lemma_many_refusal(ndim, queries, radius, p, total, n - 1);
        lemma_row_at(queries, total, ndim as int, 0);
        lemma_row_at(queries, total, ndim as int, n - 1);
    }
}

proof fn lemma_reduced<S: Scalar>(m: Metric<S>, distance: S)
    requires
        lawful::<S>(),
        m.valid(),
        !distance.nan(),
        S::zero_spec().key() <= distance.key(),
    ensures
        !m.reduce_spec(distance).nan(),
{
    assert(crate::scalar::nonneg(distance));
    assert(crate::scalar::nonneg(distance.times_spec(distance)));
}

} // verus!
