//! Promises of [`Tree::query_pairs`].

use crate::distance::{distances_are_symmetric, lemma_row_dist_nonneg, row_dist};
use crate::error::KDTreeError;
use crate::layout::{lemma_block_len, lemma_row_at};
use crate::metric::Metric;
use crate::pairs::{all_values, lemma_listed, link_of, row_pair, row_pairs, values_of};
use crate::perm::lemma_same_items_contains;
use crate::scalar::{at_most, lawful, power_grows, Scalar};
use crate::tree::{every_row_has_a_position, lemma_row_of_tree, Tree};
use vstd::prelude::*;

verus! {

/// A query for pairs is refused exactly for a radius that is negative, infinite or a
/// nan, or else for an exponent that names no metric.
pub proof fn pairs_are_refused_for_the_radius_or_the_exponent<S: Scalar>(
    tree: &Tree<S>,
    radius: S,
    p: S,
    r: Result<Vec<[usize; 2]>, KDTreeError<S>>,
)
    requires
        lawful::<S>(),
        call_ensures(Tree::<S>::query_pairs, (tree, radius, p), r),
    ensures
        r is Ok <==> !radius.nan() && S::zero_spec().key() <= radius.key()
            < S::infinity_spec().key() && !p.nan() && S::one_spec().key() <= p.key(),
        (r matches Err(KDTreeError::InvalidRadius(x))) <==> radius.nan() || radius.key()
            < S::zero_spec().key() || radius.key() >= S::infinity_spec().key(),
        r matches Err(KDTreeError::InvalidRadius(x)) ==> x == radius,
        r matches Err(e) ==> e == KDTreeError::InvalidRadius(radius) || e
            == KDTreeError::InvalidMetric(p),
{
}

/// The pairs of a tree over `data` are pairs of its row numbers, the smaller one
/// first, in ascending order and none twice.
pub proof fn pairs_are_listed_in_order<S: Scalar>(
    data: Vec<S>,
    ndim: usize,
    leafsize: usize,
    parallel: bool,
    tree: Tree<S>,
    radius: S,
    p: S,
    pairs: Vec<[usize; 2]>,
)
    requires
        lawful::<S>(),
        call_ensures(Tree::<S>::new, (data, ndim, leafsize, parallel), Ok(tree)),
        call_ensures(Tree::<S>::query_pairs, (&tree, radius, p), Ok(pairs)),
    ensures
        forall|c: int|
            0 <= c < pairs@.len() ==> {
                &&& (#[trigger] pairs@[c])@[0] < pairs@[c]@[1]
                &&& pairs@[c]@[1] * ndim < data@.len()
            },
        forall|c: int, d: int|
            0 <= c < d < pairs@.len() ==> (#[trigger] pairs@[c])@[0] < (#[trigger] pairs@[d])@[0]
                || (pairs@[c]@[0] == pairs@[d]@[0] && pairs@[c]@[1] < pairs@[d]@[1]),
{
    let link = link_of(radius, p);
    let links = link.found_in(&tree);
    let rows = row_pairs(&tree, links);
    let (n, w) = (tree.n_points as int, ndim as int);
    let v = all_values(pairs@);
    lemma_same_items_contains(rows, v);
    assert forall|c: int| 0 <= c < pairs@.len() implies {
        &&& (#[trigger] pairs@[c])@[0] < pairs@[c]@[1]
        &&& pairs@[c]@[1] * ndim < data@.len()
    } by {
        assert(v[c] == values_of(pairs@[c]));
        assert(rows.contains(v[c]));
        let b = choose|b: int| 0 <= b < rows.len() && rows[b] == v[c];
        let l = links[b];
        assert(rows[b] == row_pair(&tree, l));
        assert(tree.indices@[l.0] != tree.indices@[l.1]);
        let big = pairs@[c]@[1] as int;
        assert(big * w < n * w) by (nonlinear_arith)
            requires
                big < n,
                0 < w,
        ;
    }
    assert forall|c: int, d: int| 0 <= c < d < pairs@.len() implies (#[trigger] pairs@[c])@[0]
        < (#[trigger] pairs@[d])@[0] || (pairs@[c]@[0] == pairs@[d]@[0] && pairs@[c]@[1]
        < pairs@[d]@[1]) by {
        assert(v[c] == values_of(pairs@[c]) && v[d] == values_of(pairs@[d]));
    }
}

/// Rows `i` and `j` of the points are listed as a pair exactly if their reduced
/// distance is at most the reduced radius. By a general exponent that takes powers
/// that keep the order of their bases.
pub proof fn pairs_are_the_rows_within_the_radius<S: Scalar>(
    data: Vec<S>,
    ndim: usize,
    leafsize: usize,
    parallel: bool,
    tree: Tree<S>,
    radius: S,
    p: S,
    m: Metric<S>,
    pairs: Vec<[usize; 2]>,
    i: usize,
    j: usize,
)
    requires
        lawful::<S>(),
        call_ensures(Tree::<S>::new, (data, ndim, leafsize, parallel), Ok(tree)),
        call_ensures(Metric::<S>::new, (p,), Ok(m)),
        call_ensures(Tree::<S>::query_pairs, (&tree, radius, p), Ok(pairs)),
        m is LP ==> power_grows::<S>(),
        i < j,
        j * ndim < data@.len(),
    ensures
        (exists|c: int|
            0 <= c < pairs@.len() && (#[trigger] pairs@[c])@[0] == i && pairs@[c]@[1] == j) <==> {
            let near = row_dist(
                m,
                data@.subrange(i * ndim, i * ndim + ndim),
                data@.subrange(j * ndim, j * ndim + ndim),
            );
            !near.nan() && near.key() <= m.reduce_spec(radius).key()
        },
{
    let link = link_of(radius, p);
    let (n, w) = (tree.n_points as int, ndim as int);
    lemma_block_len(tree.data@, n, w);
    assert(j < n) by (nonlinear_arith)
        requires
            j * w < n * w,
            0 < w,
    ;
    lemma_row_at(data@, n, w, i as int);
    lemma_row_at(data@, n, w, j as int);
    let a = every_row_has_a_position(&tree, i as int);
    let b = every_row_has_a_position(&tree, j as int);
    let (x, y) = if a < b {
        (a, b)
    } else {
        (b, a)
    };
    let (u, v) = (data@.subrange(i * w, i * w + w), data@.subrange(j * w, j * w + w));
    assert(tree.rows()[a] == u && tree.rows()[b] == v);
    assert(row_pair(&tree, (x, y)) == (i, j));
    lemma_row_of_tree(&tree, a);
    lemma_row_of_tree(&tree, b);
    lemma_row_dist_nonneg(m, u, v);
    lemma_row_dist_nonneg(m, v, u);
    distances_are_symmetric(m, u, v);
    lemma_listed(link, &tree, all_values(pairs@), x, y);
    let listed = all_values(pairs@);
    if listed.contains((i, j)) {
        let c = choose|c: int| 0 <= c < listed.len() && listed[c] == (i, j);
        assert(values_of(pairs@[c]) == (i, j));
        let links = link.found_in(&tree);
        let e = choose|e: int| 0 <= e < links.len() && links[e] == (x, y);
        assert(link.near(&tree, links[e].0, links[e].1));
    }
    if exists|c: int|
        0 <= c < pairs@.len() && (#[trigger] pairs@[c])@[0] == i && pairs@[c]@[1] == j {
        let c = choose|c: int|
            0 <= c < pairs@.len() && (#[trigger] pairs@[c])@[0] == i && pairs@[c]@[1] == j;
        assert(listed[c] == (i, j));
    }
    if at_most(row_dist(m, u, v), m.reduce_spec(radius)) {
        assert(link.near(&tree, x, y));
    }
}

} // verus!
