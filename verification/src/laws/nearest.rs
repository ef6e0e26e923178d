//! Promises of [`Tree::query`].

use crate::best::{before, bound_key, Hit};
use crate::distance::row_dist;
use crate::error::KDTreeError;
use crate::lanes::{lemma_scan_dist_nonneg, scan_dist};
use crate::laws::measures::an_exponent_names_a_metric;
use crate::layout::{lemma_block_len, lemma_row_at, rows_of};
use crate::metric::{metric_of, Metric};
use crate::planes::{exact_scans_are_true, exact_searches_are_sound, greatest_axis_planes_stay_below,
    true_dist};
use crate::query::{lemma_no_eps, lemma_no_limit, query_refusal, question, reach_of, responds};
use crate::scalar::{all_finite_spec, at_most, finite, lawful, limit, nonneg, orderly, power_grows,
    Scalar};
use crate::search::{lemma_hit_position, lemma_shut_out_is_far, serial_boxes_stay_below, Ask};
use crate::tree::{every_row_has_a_position, lemma_row_of_tree, Tree};
use vstd::prelude::*;

verus! {

/// A query is refused for no neighbours asked for, else for values that are not whole
/// rows or none, else for a value that is infinite or a nan, else for an `eps` that is
/// negative, infinite or a nan, else for a `max_distance` that is negative or a nan,
/// else for an exponent that names no metric, and for nothing else.
pub proof fn a_query_is_refused_for_what_is_wrong_first<S: Scalar>(
    tree: &Tree<S>,
    queries: &[S],
    k: usize,
    p: S,
    max_distance: Option<S>,
    eps: S,
    parallel: bool,
    r: Result<(Vec<S>, Vec<i64>), KDTreeError<S>>,
)
    requires
        lawful::<S>(),
        call_ensures(
            Tree::<S>::query,
            (tree, queries, k, p, max_distance, eps, parallel),
            r,
        ),
    ensures
        ({
            let all_finite = forall|f: int|
                0 <= f < queries@.len() ==> !(#[trigger] queries@[f]).nan()
                    && S::neg_infinity_spec().key() < queries@[f].key()
                    < S::infinity_spec().key();
            if k == 0 {
                r matches Err(KDTreeError::InvalidK)
            } else if queries@.len() == 0 || queries@.len() as int % tree.ndim as int != 0 {
                r matches Err(KDTreeError::InvalidShape(message)) && message@
                    == "queries must be a contiguous row-major matrix"@
            } else if !all_finite {
                r matches Err(KDTreeError::NonFiniteData)
            } else if eps.nan() || eps.key() < S::zero_spec().key() || eps.key()
                >= S::infinity_spec().key() {
                r matches Err(KDTreeError::InvalidEps(x)) && x == eps
            } else if max_distance matches Some(d) && (d.nan() || d.key()
                < S::zero_spec().key()) {
                r matches Err(KDTreeError::InvalidMaxDistance(x)) && x == max_distance->0
            } else if p.nan() || p.key() < S::one_spec().key() {
                r matches Err(KDTreeError::InvalidMetric(x)) && x == p
            } else {
                r is Ok
            }
        }),
{
    if all_finite_spec(queries@) {
        assert forall|f: int| 0 <= f < queries@.len() implies !(#[trigger] queries@[f]).nan()
            && S::neg_infinity_spec().key() < queries@[f].key() < S::infinity_spec().key() by {
            assert(finite(queries@[f]));
        }
    } else {
        let f = choose|f: int| 0 <= f < queries@.len() && !finite(#[trigger] queries@[f]);
        assert(!(!queries@[f].nan() && S::neg_infinity_spec().key() < queries@[f].key()
            < S::infinity_spec().key()));
    }
}

/// What a query leaves in the slots of question `i`: rows of `data` with their plain
/// distances, nearest first and those at the same distance in the order of their row
/// numbers, none of them past `max_distance`, and after the last one infinity and the
/// number of rows. `at` are the positions that the rows have in the tree.
///
/// No row is left out for its distance: one that is missing although it is within
/// `max_distance` comes after the last of `k` rows, or a bound of the descent shut it
/// out at the distance of the last of `k` rows or, of fewer, at `max_distance`.
pub proof fn a_query_fills_its_slots<S: Scalar>(
    data: Vec<S>,
    ndim: usize,
    leafsize: usize,
    built_parallel: bool,
    tree: Tree<S>,
    queries: &[S],
    k: usize,
    p: S,
    m: Metric<S>,
    max_distance: Option<S>,
    eps: S,
    parallel: bool,
    distances: Vec<S>,
    indices: Vec<i64>,
    i: int,
) -> (at: Seq<int>)
    requires
        lawful::<S>(),
        call_ensures(Tree::<S>::new, (data, ndim, leafsize, built_parallel), Ok(tree)),
        call_ensures(Metric::<S>::new, (p,), Ok(m)),
        call_ensures(
            Tree::<S>::query,
            (&tree, queries, k, p, max_distance, eps, parallel),
            Ok((distances, indices)),
        ),
        0 <= i,
        i * ndim < queries@.len(),
    ensures
        distances@.len() * ndim == queries@.len() * k,
        indices@.len() == distances@.len(),
        at.len() <= k,
        i * k + k <= distances@.len(),
        ({
            let q = queries@.subrange(i * ndim, i * ndim + ndim);
            let n = data@.len() as int / ndim as int;
            let row = |pos: int| tree.indices@[pos] as int;
            let near = |pos: int|
                scan_dist(
                    m,
                    q,
                    data@.subrange(row(pos) * ndim, row(pos) * ndim + ndim),
                    tree.grouped(pos),
                );
            let reach = match max_distance {
                Some(r) => m.reduce_spec(r).key(),
                None => S::infinity_spec().key(),
            };
            let ask = Ask {
                m,
                q,
                k: k as nat,
                cutoff: match max_distance {
                    Some(r) => m.reduce_spec(r),
                    None => m.reduce_spec(S::infinity_spec()),
                },
                factor: m.reduce_spec(S::one_spec().plus_spec(eps)),
            };
            let bound = if at.len() == k && near(at.last()).key() <= reach {
                near(at.last()).key()
            } else {
                reach
            };
            &&& forall|j: int|
                0 <= j < at.len() ==> {
                    &&& 0 <= #[trigger] at[j] < n
                    &&& indices@[i * k + j] == row(at[j])
                    &&& distances@[i * k + j] == m.restore_spec(near(at[j]))
                    &&& !near(at[j]).nan()
                    &&& near(at[j]).key() <= reach
                }
            &&& forall|a: int, b: int|
                0 <= a < b < at.len() ==> near(#[trigger] at[a]).key() < near(
                    #[trigger] at[b],
                ).key() || (near(at[a]).key() == near(at[b]).key() && row(at[a]) < row(at[b]))
            &&& forall|j: int| #![trigger indices@[i * k + j]]
                at.len() <= j < k ==> indices@[i * k + j] == n
            &&& forall|j: int| #![trigger distances@[i * k + j]]
                at.len() <= j < k ==> distances@[i * k + j] == S::infinity_spec()
            &&& forall|pos: int|
                0 <= pos < n && near(pos).key() <= reach ==> {
                    ||| #[trigger] at.contains(pos)
                    ||| at.len() == k && (near(at.last()).key() < near(pos).key() || (near(
                        at.last(),
                    ).key() == near(pos).key() && row(at.last()) < row(pos)))
                    ||| ask.shut_out(&tree, pos, bound)
                }
        }),
{
    let (n, w) = (tree.n_points as int, ndim as int);
    let nq = queries@.len() as int / w;
    let q = queries@.subrange(i * w, i * w + w);
    let ask = question(q, k, p, max_distance, eps);
    let hits = ask.search(&tree);
    vstd::arithmetic::div_mod::lemma_fundamental_div_mod(queries@.len() as int, w);
    assert(w * nq == nq * w) by (nonlinear_arith);
    lemma_block_len(queries@, nq, w);
    assert(i < nq) by (nonlinear_arith)
        requires
            i * w < nq * w,
            0 < w,
    ;
    lemma_block_len(tree.data@, n, w);
    lemma_block_len(data@, n, w);
    lemma_row_at(queries@, nq, w, i);
    lemma_row_at(distances@, nq, k as int, i);
    lemma_row_at(indices@, nq, k as int, i);
    assert(distances@.len() * w == queries@.len() * k) by (nonlinear_arith)
        requires
            distances@.len() == nq * k,
            queries@.len() == nq * w,
    ;
    let (ds, is) = (rows_of(distances@, k as int)[i], rows_of(indices@, k as int)[i]);
    assert(responds(&tree, ask, eps, ds, is));
    assert(ask.m == m && m.valid());
    lemma_asked(&tree, queries@, k, p, m, max_distance, eps, i);
    let place = |h: Hit<S>|
        choose|pos: int|
            0 <= pos < n && #[trigger] ask.hit(&tree, pos) == h && h.dist.value.key()
                <= ask.cutoff.key();
    let at = Seq::new(hits.len(), |j: int| place(hits[j]));
    assert forall|j: int| 0 <= j < hits.len() implies 0 <= #[trigger] at[j] < n && ask.hit(
        &tree,
        at[j],
    ) == hits[j] && nonneg(hits[j].dist.value) && hits[j].dist.value.key()
        <= ask.cutoff.key() by {
        assert(ask.made(&tree, hits[j], 0, n));
        let other = lemma_hit_position(ask, &tree, hits[j]);
    }
    assert forall|pos: int| 0 <= pos < n implies #[trigger] tree.rows()[pos] == data@.subrange(
        tree.indices@[pos] * w,
        tree.indices@[pos] * w + w,
    ) by {
        lemma_row_at(data@, n, w, tree.indices@[pos] as int);
    }
    let row = |pos: int| tree.indices@[pos] as int;
    let near = |pos: int|
        scan_dist(
            m,
            q,
            data@.subrange(row(pos) * ndim, row(pos) * ndim + ndim),
            tree.grouped(pos),
        );
    let reach = match max_distance {
        Some(r) => m.reduce_spec(r).key(),
        None => S::infinity_spec().key(),
    };
    assert(reach == ask.cutoff.key());
    assert forall|pos: int| 0 <= pos < n implies #[trigger] near(pos) == ask.dist(&tree, pos) by {
        assert(tree.rows()[pos] == data@.subrange(row(pos) * ndim, row(pos) * ndim + ndim));
    }
    assert forall|j: int| 0 <= j < at.len() implies {
        &&& 0 <= #[trigger] at[j] < n
        &&& indices@[i * k + j] == row(at[j])
        &&& distances@[i * k + j] == m.restore_spec(near(at[j]))
        &&& !near(at[j]).nan()
        &&& near(at[j]).key() <= reach
    } by {
        assert(near(at[j]) == hits[j].dist.value);
        assert(ds[j] == distances@[i * k + j] && is[j] == indices@[i * k + j]);
    }
    assert forall|a: int, b: int| 0 <= a < b < at.len() implies near(#[trigger] at[a]).key() < near(
        #[trigger] at[b],
    ).key() || (near(at[a]).key() == near(at[b]).key() && row(at[a]) < row(at[b])) by {
        assert(near(at[a]) == hits[a].dist.value && near(at[b]) == hits[b].dist.value);
        assert(before(hits[a], hits[b]));
    }
    assert forall|j: int| #![trigger indices@[i * k + j]] at.len() <= j < k implies indices@[i * k
        + j] == n by {
        assert(is[j] == indices@[i * k + j]);
    }
    assert forall|j: int| #![trigger distances@[i * k + j]] at.len() <= j < k implies distances@[i
        * k + j] == S::infinity_spec() by {
        assert(ds[j] == distances@[i * k + j]);
    }
    let bound = if at.len() == k && near(at.last()).key() <= reach {
        near(at.last()).key()
    } else {
        reach
    };
    if hits.len() > 0 {
        assert(near(at.last()) == hits.last().dist.value);
    }
    assert(bound == bound_key(hits, ask.k, ask.cutoff));
    assert forall|pos: int| 0 <= pos < n && near(pos).key() <= reach implies {
        ||| #[trigger] at.contains(pos)
        ||| at.len() == k && (near(at.last()).key() < near(pos).key() || (near(at.last()).key()
            == near(pos).key() && row(at.last()) < row(pos)))
        ||| ask.shut_out(&tree, pos, bound)
    } by {
        assert(near(pos) == ask.dist(&tree, pos));
        assert(ask.done(&tree, hits, pos) || ask.shut_out(&tree, pos, bound));
        if hits.contains(ask.hit(&tree, pos)) {
            let j = choose|j: int| 0 <= j < hits.len() && hits[j] == ask.hit(&tree, pos);
            assert(tree.indices@[at[j]] == tree.indices@[pos]);
            assert(at[j] == pos);
        } else if ask.done(&tree, hits, pos) {
            let last = at.last();
            assert(ask.hit(&tree, last) == hits.last());
            assert(tree.indices@[last] != tree.indices@[pos]);
        }
    }
    at
}

/// Where the bounds of the descent stay below the distances behind them, a row that is
/// missing although it is within `max_distance` comes after the last of `k` rows, or is
/// out of reach once its distance counts by the reduced `1 + eps`. Without an `eps` it
/// comes after the last of `k` rows.
pub proof fn a_sound_query_leaves_no_row_out<S: Scalar>(
    data: Vec<S>,
    ndim: usize,
    leafsize: usize,
    built_parallel: bool,
    tree: Tree<S>,
    queries: &[S],
    k: usize,
    p: S,
    m: Metric<S>,
    max_distance: Option<S>,
    eps: S,
    parallel: bool,
    distances: Vec<S>,
    indices: Vec<i64>,
    i: int,
) -> (at: Seq<int>)
    requires
        lawful::<S>(),
        call_ensures(Tree::<S>::new, (data, ndim, leafsize, built_parallel), Ok(tree)),
        call_ensures(Metric::<S>::new, (p,), Ok(m)),
        call_ensures(
            Tree::<S>::query,
            (&tree, queries, k, p, max_distance, eps, parallel),
            Ok((distances, indices)),
        ),
        0 <= i,
        i * ndim < queries@.len(),
        (Ask {
            m,
            q: queries@.subrange(i * ndim, i * ndim + ndim),
            k: k as nat,
            cutoff: match max_distance {
                Some(r) => m.reduce_spec(r),
                None => m.reduce_spec(S::infinity_spec()),
            },
            factor: m.reduce_spec(S::one_spec().plus_spec(eps)),
        }).sound(&tree),
    ensures
        at.len() <= k,
        i * k + k <= distances@.len(),
        indices@.len() == distances@.len(),
        ({
            let q = queries@.subrange(i * ndim, i * ndim + ndim);
            let n = data@.len() as int / ndim as int;
            let row = |pos: int| tree.indices@[pos] as int;
            let near = |pos: int|
                scan_dist(
                    m,
                    q,
                    data@.subrange(row(pos) * ndim, row(pos) * ndim + ndim),
                    tree.grouped(pos),
                );
            let reach = match max_distance {
                Some(r) => m.reduce_spec(r).key(),
                None => S::infinity_spec().key(),
            };
            let bound = if at.len() == k && near(at.last()).key() <= reach {
                near(at.last()).key()
            } else {
                reach
            };
            &&& forall|j: int|
                0 <= j < at.len() ==> {
                    &&& 0 <= #[trigger] at[j] < n
                    &&& indices@[i * k + j] == row(at[j])
                    &&& distances@[i * k + j] == m.restore_spec(near(at[j]))
                }
            &&& forall|j: int| #![trigger indices@[i * k + j]]
                at.len() <= j < k ==> indices@[i * k + j] == n
            &&& forall|pos: int|
                0 <= pos < n && near(pos).key() <= reach ==> {
                    let far = near(pos).times_spec(m.reduce_spec(S::one_spec().plus_spec(eps)));
                    ||| #[trigger] at.contains(pos)
                    ||| at.len() == k && (near(at.last()).key() < near(pos).key() || (near(
                        at.last(),
                    ).key() == near(pos).key() && row(at.last()) < row(pos)))
                    ||| eps.key() != S::zero_spec().key() && (far.nan() || bound < far.key())
                }
        }),
{
    let at = a_query_fills_its_slots(
        data,
        ndim,
        leafsize,
        built_parallel,
        tree,
        queries,
        k,
        p,
        m,
        max_distance,
        eps,
        parallel,
        distances,
        indices,
        i,
    );
    let (n, w) = (tree.n_points as int, ndim as int);
    let q = queries@.subrange(i * w, i * w + w);
    lemma_block_len(tree.data@, n, w);
    lemma_block_len(data@, n, w);
    lemma_asked(&tree, queries@, k, p, m, max_distance, eps, i);
    let ask = question(q, k, p, max_distance, eps);
    let row = |pos: int| tree.indices@[pos] as int;
    let near = |pos: int|
        scan_dist(
            m,
            q,
            data@.subrange(row(pos) * ndim, row(pos) * ndim + ndim),
            tree.grouped(pos),
        );
    let reach = ask.cutoff.key();
    let bound = if at.len() == k && near(at.last()).key() <= reach {
        near(at.last()).key()
    } else {
        reach
    };
    assert forall|pos: int| 0 <= pos < n && near(pos).key() <= reach implies {
        let far = near(pos).times_spec(m.reduce_spec(S::one_spec().plus_spec(eps)));
        ||| #[trigger] at.contains(pos)
        ||| at.len() == k && (near(at.last()).key() < near(pos).key() || (near(at.last()).key()
            == near(pos).key() && row(at.last()) < row(pos)))
        ||| eps.key() != S::zero_spec().key() && (far.nan() || bound < far.key())
    } by {
        lemma_row_at(data@, n, w, row(pos));
        assert(tree.rows()[pos] == rows_of(data@, w)[row(pos)]);
        assert(near(pos) == ask.dist(&tree, pos));
        if ask.shut_out(&tree, pos, bound) {
            lemma_shut_out_is_far(ask, &tree, pos, bound);
            lemma_row_of_tree(&tree, pos);
            lemma_scan_dist_nonneg(m, q, tree.rows()[pos], tree.grouped(pos));
            if eps.key() == S::zero_spec().key() {
                lemma_no_eps(m, eps);
                assert(near(pos).times_spec(ask.factor).key() == near(pos).key()
                    && !near(pos).times_spec(ask.factor).nan()) by {
                    reveal(orderly);
                }
                assert(bound < near(pos).key());
            }
        }
    }
    at
}

/// The question that is asked about row `i` of the queries.
pub proof fn lemma_asked<S: Scalar>(
    tree: &Tree<S>,
    queries: Seq<S>,
    k: usize,
    p: S,
    m: Metric<S>,
    max_distance: Option<S>,
    eps: S,
    i: int,
)
    requires
        lawful::<S>(),
        tree.wf(),
        query_refusal(tree.ndim, queries, k, p, max_distance, eps) is None,
        metric_of(p) == Ok::<Metric<S>, KDTreeError<S>>(m),
        m.valid(),
        0 <= i,
        i * tree.ndim < queries.len(),
    ensures
        ({
            let q = queries.subrange(i * tree.ndim, i * tree.ndim + tree.ndim);
            let ask = question(q, k, p, max_distance, eps);
            &&& ask.valid(tree)
            &&& ask == (Ask {
                m,
                q,
                k: k as nat,
                cutoff: match max_distance {
                    Some(r) => m.reduce_spec(r),
                    None => m.reduce_spec(S::infinity_spec()),
                },
                factor: m.reduce_spec(S::one_spec().plus_spec(eps)),
            })
            &&& max_distance is None ==> ask.cutoff.key() == S::infinity_spec().key()
            &&& nonneg(eps)
        }),
{
    let w = tree.ndim as int;
    let nq = queries.len() as int / w;
    let q = queries.subrange(i * w, i * w + w);
    vstd::arithmetic::div_mod::lemma_fundamental_div_mod(queries.len() as int, w);
    assert(w * nq == nq * w) by (nonlinear_arith);
    assert(i < nq) by (nonlinear_arith)
        requires
            i * w < nq * w,
            0 < w,
    ;
    lemma_row_at(queries, nq, w, i);
    lemma_no_limit(m);
    let reach = reach_of(max_distance);
    assert(nonneg(reach));
    assert(nonneg(reach.times_spec(reach)));
    assert forall|d: int| 0 <= d < q.len() implies finite(#[trigger] q[d]) by {
        assert(finite(queries[i * w + d]));
    }
}

/// By the metric of the greatest axis, in any lawful arithmetic: a row that is missing
/// from the slots of question `i` although it is within `max_distance` comes after the
/// row in the last slot, or, with an `eps`, is out of reach once its distance counts
/// `1 + eps` times.
pub proof fn the_greatest_axis_leaves_no_row_out<S: Scalar>(
    data: Vec<S>,
    ndim: usize,
    leafsize: usize,
    built_parallel: bool,
    tree: Tree<S>,
    queries: &[S],
    k: usize,
    p: S,
    m: Metric<S>,
    max_distance: Option<S>,
    eps: S,
    parallel: bool,
    distances: Vec<S>,
    indices: Vec<i64>,
    i: int,
)
    requires
        lawful::<S>(),
        call_ensures(Tree::<S>::new, (data, ndim, leafsize, built_parallel), Ok(tree)),
        call_ensures(Metric::<S>::new, (p,), Ok(m)),
        call_ensures(
            Tree::<S>::query,
            (&tree, queries, k, p, max_distance, eps, parallel),
            Ok((distances, indices)),
        ),
        0 <= i,
        i * ndim < queries@.len(),
        p.key() == S::infinity_spec().key(),
        S::one_spec().plus_spec(eps).key() < S::infinity_spec().key(),
    ensures
        ({
            let q = queries@.subrange(i * ndim, i * ndim + ndim);
            let n = data@.len() as int / ndim as int;
            let near = |row: int|
                row_dist(Metric::LInf, q, data@.subrange(row * ndim, row * ndim + ndim));
            let reach = match max_distance {
                Some(r) => r.key(),
                None => S::infinity_spec().key(),
            };
            let last = indices@[i * k + k - 1] as int;
            let bound = if last < n && near(last).key() <= reach {
                near(last).key()
            } else {
                reach
            };
            forall|row: int| #![trigger near(row)]
                0 <= row < n && near(row).key() <= reach ==> {
                    let far = near(row).times_spec(S::one_spec().plus_spec(eps));
                    ||| exists|j: int| 0 <= j < k && #[trigger] indices@[i * k + j] == row
                    ||| last < n && (near(last).key() < near(row).key() || (near(last).key()
                        == near(row).key() && last < row))
                    ||| eps.key() != S::zero_spec().key() && (far.nan() || bound < far.key())
                }
        }),
{
    let (n, w) = (tree.n_points as int, ndim as int);
    let q = queries@.subrange(i * w, i * w + w);
    an_exponent_names_a_metric(p, Ok(m));
    lemma_block_len(tree.data@, n, w);
    lemma_block_len(data@, n, w);
    lemma_asked(&tree, queries@, k, p, m, max_distance, eps, i);
    let ask = question(q, k, p, max_distance, eps);
    greatest_axis_planes_stay_below(ask, &tree);
    serial_boxes_stay_below(ask, &tree);
    assert(at_most(S::one_spec(), S::one_spec().plus_spec(eps)));
    let at = a_sound_query_leaves_no_row_out(
        data,
        ndim,
        leafsize,
        built_parallel,
        tree,
        queries,
        k,
        p,
        m,
        max_distance,
        eps,
        parallel,
        distances,
        indices,
        i,
    );
    let near = |row: int|
        row_dist(Metric::LInf, q, data@.subrange(row * ndim, row * ndim + ndim));
    let reach = ask.cutoff.key();
    let last = indices@[i * k + k - 1] as int;
    let bound = if last < n && near(last).key() <= reach {
        near(last).key()
    } else {
        reach
    };
    lemma_last_slot(&tree, at, indices@, k, i);
    assert forall|row: int| #![trigger near(row)] 0 <= row < n && near(row).key() <= reach implies {
        let far = near(row).times_spec(S::one_spec().plus_spec(eps));
        ||| exists|j: int| 0 <= j < k && #[trigger] indices@[i * k + j] == row
        ||| last < n && (near(last).key() < near(row).key() || (near(last).key() == near(row).key()
            && last < row))
        ||| eps.key() != S::zero_spec().key() && (far.nan() || bound < far.key())
    } by {
        let pos = every_row_has_a_position(&tree, row);
        if at.contains(pos) {
            let j = choose|j: int| 0 <= j < at.len() && at[j] == pos;
            assert(indices@[i * k + j] == row);
        }
    }
}

/// The last slot holds a row exactly if every slot does.
proof fn lemma_last_slot<S: Scalar>(
    tree: &Tree<S>,
    at: Seq<int>,
    indices: Seq<i64>,
    k: usize,
    i: int,
)
    requires
        tree.wf(),
        k > 0,
        at.len() <= k,
        forall|j: int|
            0 <= j < at.len() ==> 0 <= #[trigger] at[j] < tree.n_points && indices[i * k + j]
                == tree.indices@[at[j]] as int,
        forall|j: int| #![trigger indices[i * k + j]]
            at.len() <= j < k ==> indices[i * k + j] == tree.n_points,
    ensures
        at.len() == k <==> indices[i * k + k - 1] < tree.n_points,
        at.len() == k ==> indices[i * k + k - 1] == tree.indices@[at.last()] as int,
{
    if at.len() == k {
        assert(0 <= at[k - 1] < tree.n_points);
        assert(indices[i * k + (k - 1)] == tree.indices@[at[k - 1]] as int);
        assert(tree.indices@[at[k - 1]] < tree.n_points);
    } else {
        assert(indices[i * k + (k - 1)] == tree.n_points);
    }
}

/// Where the arithmetic does not round and every distance fits: a slot of question `i`
/// that holds a row holds the plain distance of it; rows stand by their distances over
/// the integers, those at the same distance by their numbers; none of them is past
/// `max_distance`; and, without an `eps`, a row that is missing is past it or comes
/// after the row in the last slot. With an `eps`, it may instead be out of reach once
/// its distance counts by the reduced `1 + eps`.
pub proof fn exact_queries_find_the_nearest_rows<S: Scalar>(
    data: Vec<S>,
    ndim: usize,
    leafsize: usize,
    built_parallel: bool,
    tree: Tree<S>,
    queries: &[S],
    k: usize,
    p: S,
    m: Metric<S>,
    max_distance: Option<S>,
    eps: S,
    parallel: bool,
    distances: Vec<S>,
    indices: Vec<i64>,
    i: int,
)
    requires
        lawful::<S>(),
        call_ensures(Tree::<S>::new, (data, ndim, leafsize, built_parallel), Ok(tree)),
        call_ensures(Metric::<S>::new, (p,), Ok(m)),
        call_ensures(
            Tree::<S>::query,
            (&tree, queries, k, p, max_distance, eps, parallel),
            Ok((distances, indices)),
        ),
        0 <= i,
        i * ndim < queries@.len(),
        S::exact(),
        m is LP ==> power_grows::<S>(),
        forall|row: int| #![trigger data@.subrange(row * ndim, row * ndim + ndim)]
            0 <= row < data@.len() as int / ndim as int ==> true_dist(
                m,
                queries@.subrange(i * ndim, i * ndim + ndim),
                data@.subrange(row * ndim, row * ndim + ndim),
                ndim as int,
            ) < S::infinity_spec().key(),
        finite(m.reduce_spec(S::one_spec().plus_spec(eps))),
        at_most(S::one_spec(), m.reduce_spec(S::one_spec().plus_spec(eps))),
    ensures
        ({
            let q = queries@.subrange(i * ndim, i * ndim + ndim);
            let n = data@.len() as int / ndim as int;
            let near = |row: int|
                true_dist(
                    m,
                    q,
                    data@.subrange(row * ndim, row * ndim + ndim),
                    ndim as int,
                );
            let reach = match max_distance {
                Some(r) => m.reduce_spec(r).key(),
                None => S::infinity_spec().key(),
            };
            let last = indices@[i * k + k - 1] as int;
            let bound = if last < n && near(last) <= reach {
                near(last)
            } else {
                reach
            };
            &&& forall|j: int| #![trigger indices@[i * k + j]]
                0 <= j < k && indices@[i * k + j] < n ==> {
                    let row = indices@[i * k + j] as int;
                    &&& 0 <= row
                    &&& near(row) <= reach
                    &&& exists|value: S|
                        value.key() == near(row) && distances@[i * k + j]
                            == #[trigger] m.restore_spec(value)
                }
            &&& forall|a: int, b: int| #![trigger indices@[i * k + a], indices@[i * k + b]]
                0 <= a < b < k && indices@[i * k + b] < n ==> {
                    let (x, y) = (indices@[i * k + a] as int, indices@[i * k + b] as int);
                    x < n && (near(x) < near(y) || (near(x) == near(y) && x < y))
                }
            &&& forall|row: int| #![trigger near(row)]
                0 <= row < n && near(row) <= reach ==> {
                    ||| exists|j: int| 0 <= j < k && #[trigger] indices@[i * k + j] == row
                    ||| last < n && (near(last) < near(row) || (near(last) == near(row) && last
                        < row))
                    ||| eps.key() != S::zero_spec().key() && exists|value: S|
                        value.key() == near(row) && {
                            let far = #[trigger] value.times_spec(
                                m.reduce_spec(S::one_spec().plus_spec(eps)),
                            );
                            far.nan() || bound < far.key()
                        }
                }
        }),
{
    let (n, w) = (tree.n_points as int, ndim as int);
    let q = queries@.subrange(i * w, i * w + w);
    lemma_block_len(tree.data@, n, w);
    lemma_block_len(data@, n, w);
    lemma_asked(&tree, queries@, k, p, m, max_distance, eps, i);
    let ask = question(q, k, p, max_distance, eps);
    let near = |row: int|
        true_dist(m, q, data@.subrange(row * ndim, row * ndim + ndim), ndim as int);
    let reach = ask.cutoff.key();
    let measured = |pos: int|
        scan_dist(
            m,
            q,
            data@.subrange(
                tree.indices@[pos] as int * ndim,
                tree.indices@[pos] as int * ndim + ndim,
            ),
            tree.grouped(pos),
        );
    assert forall|pos: int| 0 <= pos < n implies true_dist(
        m,
        q,
        #[trigger] tree.rows()[pos],
        w,
    ) < limit::<S>() && measured(pos).key() == near(tree.indices@[pos] as int)
        && !measured(pos).nan() by {
        let row = tree.indices@[pos] as int;
        lemma_row_at(data@, n, w, row);
        lemma_row_of_tree(&tree, pos);
        assert(tree.rows()[pos] == data@.subrange(row * ndim, row * ndim + ndim));
        exact_scans_are_true(m, q, tree.rows()[pos], tree.grouped(pos));
    }
    exact_searches_are_sound(ask, &tree);
    let at = a_query_fills_its_slots(
        data,
        ndim,
        leafsize,
        built_parallel,
        tree,
        queries,
        k,
        p,
        m,
        max_distance,
        eps,
        parallel,
        distances,
        indices,
        i,
    );
    let other = a_sound_query_leaves_no_row_out(
        data,
        ndim,
        leafsize,
        built_parallel,
        tree,
        queries,
        k,
        p,
        m,
        max_distance,
        eps,
        parallel,
        distances,
        indices,
        i,
    );
    lemma_last_slot(&tree, at, indices@, k, i);
    lemma_last_slot(&tree, other, indices@, k, i);
    let last = indices@[i * k + k - 1] as int;
    let bound = if last < n && near(last) <= reach {
        near(last)
    } else {
        reach
    };
    assert forall|pos: int| 0 <= pos < n implies #[trigger] measured(pos).key() == near(
        tree.indices@[pos] as int,
    ) && !measured(pos).nan() by {
        assert(tree.rows()[pos].len() >= 0);
    }
    assert forall|j: int| #![trigger indices@[i * k + j]] 0 <= j < k && indices@[i * k + j]
        < n implies {
        let row = indices@[i * k + j] as int;
        &&& 0 <= row
        &&& near(row) <= reach
        &&& exists|value: S|
            value.key() == near(row) && distances@[i * k + j] == #[trigger] m.restore_spec(value)
    } by {
        assert(0 <= at[j] < n);
        assert(measured(at[j]).key() == near(tree.indices@[at[j]] as int));
    }
    assert forall|a: int, b: int| #![trigger indices@[i * k + a], indices@[i * k + b]] 0 <= a < b
        < k && indices@[i * k + b] < n implies {
        let (x, y) = (indices@[i * k + a] as int, indices@[i * k + b] as int);
        x < n && (near(x) < near(y) || (near(x) == near(y) && x < y))
    } by {
        assert(0 <= at[a] < n && 0 <= at[b] < n);
        assert(measured(at[a]).key() == near(tree.indices@[at[a]] as int));
        assert(measured(at[b]).key() == near(tree.indices@[at[b]] as int));
    }
    assert forall|row: int| #![trigger near(row)] 0 <= row < n && near(row) <= reach implies {
        ||| exists|j: int| 0 <= j < k && #[trigger] indices@[i * k + j] == row
        ||| last < n && (near(last) < near(row) || (near(last) == near(row) && last < row))
        ||| eps.key() != S::zero_spec().key() && exists|value: S|
            value.key() == near(row) && {
                let far = #[trigger] value.times_spec(
                    m.reduce_spec(S::one_spec().plus_spec(eps)),
                );
                far.nan() || bound < far.key()
            }
    } by {
        let pos = every_row_has_a_position(&tree, row);
        assert(measured(pos).key() == near(row));
        if other.len() == k {
            assert(0 <= other[k - 1] < n);
            assert(measured(other.last()).key() == near(last));
        }
        if other.contains(pos) {
            let j = choose|j: int| 0 <= j < other.len() && other[j] == pos;
            assert(indices@[i * k + j] == row);
        } else {
            let value = measured(pos);
            assert(value.times_spec(m.reduce_spec(S::one_spec().plus_spec(eps))).key()
                == value.times_spec(m.reduce_spec(S::one_spec().plus_spec(eps))).key());
        }
    }
}

/// Two calls about the same points leave the same slots, on one thread or on many, and
/// a question that stands among others is answered as it is alone.
pub proof fn a_question_is_answered_as_it_is_alone<S: Scalar>(
    tree: Tree<S>,
    queries: &[S],
    alone: &[S],
    k: usize,
    p: S,
    max_distance: Option<S>,
    eps: S,
    parallel: bool,
    again: bool,
    distances: Vec<S>,
    indices: Vec<i64>,
    one: (Vec<S>, Vec<i64>),
    i: int,
)
    requires
        lawful::<S>(),
        tree.wf(),
        call_ensures(
            Tree::<S>::query,
            (&tree, queries, k, p, max_distance, eps, parallel),
            Ok((distances, indices)),
        ),
        call_ensures(
            Tree::<S>::query,
            (&tree, alone, k, p, max_distance, eps, again),
            Ok(one),
        ),
        0 <= i,
        i * tree.ndim < queries@.len(),
        alone@ == queries@.subrange(i * tree.ndim, i * tree.ndim + tree.ndim),
    ensures
        distances@.subrange(i * k, i * k + k) == one.0@,
        indices@.subrange(i * k, i * k + k) == one.1@,
{
    let w = tree.ndim as int;
    let nq = queries@.len() as int / w;
    vstd::arithmetic::div_mod::lemma_fundamental_div_mod(queries@.len() as int, w);
    assert(w * nq == nq * w) by (nonlinear_arith);
    assert(i < nq) by (nonlinear_arith)
        requires
            i * w < nq * w,
            0 < w,
    ;
    lemma_row_at(queries@, nq, w, i);
    lemma_row_at(alone@, 1, w, 0);
    assert(alone@.subrange(0, w) =~= alone@);
    lemma_block_len(queries@, nq, w);
    lemma_row_at(distances@, nq, k as int, i);
    lemma_row_at(indices@, nq, k as int, i);
    lemma_row_at(one.0@, 1, k as int, 0);
    lemma_row_at(one.1@, 1, k as int, 0);
    assert(one.0@.subrange(0, k as int) =~= one.0@);
    assert(one.1@.subrange(0, k as int) =~= one.1@);
    let ask = question(alone@, k, p, max_distance, eps);
    assert(responds(
        &tree,
        ask,
        eps,
        rows_of(distances@, k as int)[i],
        rows_of(indices@, k as int)[i],
    ));
    assert(responds(&tree, ask, eps, rows_of(one.0@, k as int)[0], rows_of(one.1@, k as int)[0]));
}

} // verus!
