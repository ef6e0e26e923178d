//! All pairs of points within a radius of each other.

use crate::distance::{distances_are_symmetric, fold_scalar, gap_dist, gap_dist_spec,
    lemma_gap_below_rows, lemma_reduce_monotone, lemma_row_dist_nonneg, monotone, row_dist};
use crate::error::KDTreeError;
use crate::layout::{hi_of, lemma_block_len, lo_of, rows_of};
use crate::metric::{metric_of, Dist, Metric};
use crate::node::Node;
use crate::perm::{lemma_map_same_items, lemma_same_items_contains, lemma_same_items_distinct,
    same_items};
use crate::radius::{ball_of, every_point_in_the_ball_is_found, found_points_are_in_the_ball,
    lemma_reported, reports, Ball};
use crate::scalar::{at_most, finite, is_finite, lawful, less, nonneg, Scalar};
use crate::tree::{every_row_has_a_position, lemma_box_valid, lemma_children, lemma_row_of_tree,
    Tree, ROOT};
use vstd::prelude::*;

verus! {

/// Two points are linked if their reduced distance is at most `radius`.
pub struct Link<S> {
    pub m: Metric<S>,
    pub radius: S,
}

impl<S: Scalar> Link<S> {
    pub open spec fn valid(self) -> bool {
        self.m.valid() && nonneg(self.radius)
    }

    /// The points at the positions `i` and `j` are linked.
    pub open spec fn near(self, tree: &Tree<S>, i: int, j: int) -> bool {
        at_most(row_dist(self.m, tree.rows()[i], tree.rows()[j]), self.radius)
    }

    /// The boxes of two nodes are too far apart for a link between them.
    pub open spec fn apart(self, tree: &Tree<S>, a: int, b: int) -> bool {
        let w = tree.ndim as int;
        less(
            self.radius,
            gap_dist_spec(
                self.m,
                lo_of(tree.boxes@[a], w),
                hi_of(tree.boxes@[a], w),
                lo_of(tree.boxes@[b], w),
                hi_of(tree.boxes@[b], w),
            ),
        )
    }

    /// The links of the point at `i` with those from position `a` up to `b`.
    pub open spec fn of_point(self, tree: &Tree<S>, i: int, a: int, b: int) -> Seq<(int, int)>
        decreases b - a,
    {
        if b <= a {
            Seq::empty()
        } else if self.near(tree, i, b - 1) {
            self.of_point(tree, i, a, b - 1).push((i, b - 1))
        } else {
            self.of_point(tree, i, a, b - 1)
        }
    }

    /// The links of the points from `first` up to `upto` with later ones up to
    /// `end`.
    pub open spec fn in_leaf(self, tree: &Tree<S>, first: int, upto: int, end: int) -> Seq<
        (int, int),
    >
        decreases upto - first,
    {
        if upto <= first {
            Seq::empty()
        } else {
            self.in_leaf(tree, first, upto - 1, end) + self.of_point(tree, upto - 1, upto, end)
        }
    }

    /// The links of the points from `first` up to `upto` with those from `a` up to
    /// `b`.
    pub open spec fn of_leaves(self, tree: &Tree<S>, first: int, upto: int, a: int, b: int) -> Seq<
        (int, int),
    >
        decreases upto - first,
    {
        if upto <= first {
            Seq::empty()
        } else {
            self.of_leaves(tree, first, upto - 1, a, b) + self.of_point(tree, upto - 1, a, b)
        }
    }

    /// The links that a visit of two different nodes finds, each given with its
    /// first position and its number of points.
    pub open spec fn across(
        self,
        tree: &Tree<S>,
        a: int,
        afirst: int,
        alen: int,
        b: int,
        bfirst: int,
        blen: int,
    ) -> Seq<(int, int)>
        decreases alen + blen,
    {
        let aleaf = alen <= tree.leafsize || alen <= 1;
        let bleaf = blen <= tree.leafsize || blen <= 1;
        if alen <= 0 || blen <= 0 || self.apart(tree, a, b) {
            Seq::empty()
        } else if aleaf && bleaf {
            self.of_leaves(tree, afirst, afirst + alen, bfirst, bfirst + blen)
        } else if aleaf || (!bleaf && blen > alen) {
            match tree.nodes@[b] {
                Node::Leaf { .. } => Seq::empty(),
                Node::Inner { left, right, .. } => self.across(
                    tree,
                    a,
                    afirst,
                    alen,
                    left as int,
                    bfirst,
                    blen / 2,
                ) + self.across(
                    tree,
                    a,
                    afirst,
                    alen,
                    right as int,
                    bfirst + blen / 2,
                    blen - blen / 2,
                ),
            }
        } else {
            match tree.nodes@[a] {
                Node::Leaf { .. } => Seq::empty(),
                Node::Inner { left, right, .. } => self.across(
                    tree,
                    left as int,
                    afirst,
                    alen / 2,
                    b,
                    bfirst,
                    blen,
                ) + self.across(
                    tree,
                    right as int,
                    afirst + alen / 2,
                    alen - alen / 2,
                    b,
                    bfirst,
                    blen,
                ),
            }
        }
    }

    /// The links that a visit of one node with itself finds.
    pub open spec fn within(self, tree: &Tree<S>, id: int, first: int, len: int) -> Seq<(int, int)>
        decreases len,
    {
        if self.apart(tree, id, id) {
            Seq::empty()
        } else if len <= tree.leafsize || len <= 1 {
            self.in_leaf(tree, first, first + len, first + len)
        } else {
            match tree.nodes@[id] {
                Node::Leaf { .. } => Seq::empty(),
                Node::Inner { left, right, .. } => {
                    let mid = len / 2;
                    self.within(tree, left as int, first, mid) + self.across(
                        tree,
                        left as int,
                        first,
                        mid,
                        right as int,
                        first + mid,
                        len - mid,
                    ) + self.within(tree, right as int, first + mid, len - mid)
                },
            }
        }
    }

    /// The links that a search finds.
    pub open spec fn found_in(self, tree: &Tree<S>) -> Seq<(int, int)> {
        self.within(tree, 0, 0, tree.n_points as int)
    }

    /// Every link of `links` joins a point from `a.0` up to `a.1` and one from `b.0`
    /// up to `b.1`, and none occurs twice.
    pub open spec fn meets(
        self,
        tree: &Tree<S>,
        links: Seq<(int, int)>,
        a: (int, int),
        b: (int, int),
    ) -> bool {
        &&& links.no_duplicates()
        &&& forall|i: int|
            0 <= i < links.len() ==> {
                &&& a.0 <= (#[trigger] links[i]).0 < a.1
                &&& b.0 <= links[i].1 < b.1
                &&& self.near(tree, links[i].0, links[i].1)
            }
    }

    /// Every link of `links` joins a point from `a.0` up to `a.1` and a later one
    /// from `b.0` up to `b.1`, and none occurs twice.
    pub open spec fn joins(
        self,
        tree: &Tree<S>,
        links: Seq<(int, int)>,
        a: (int, int),
        b: (int, int),
    ) -> bool {
        &&& self.meets(tree, links, a, b)
        &&& forall|i: int| 0 <= i < links.len() ==> (#[trigger] links[i]).0 < links[i].1
    }
}

/// Two runs of links whose points differ make one.
proof fn lemma_meets_concat<S: Scalar>(
    link: Link<S>,
    tree: &Tree<S>,
    x: Seq<(int, int)>,
    y: Seq<(int, int)>,
    xa: (int, int),
    xb: (int, int),
    ya: (int, int),
    yb: (int, int),
    a: (int, int),
    b: (int, int),
)
    requires
        link.meets(tree, x, xa, xb),
        link.meets(tree, y, ya, yb),
        a.0 <= xa.0 && xa.1 <= a.1,
        a.0 <= ya.0 && ya.1 <= a.1,
        b.0 <= xb.0 && xb.1 <= b.1,
        b.0 <= yb.0 && yb.1 <= b.1,
        xa.1 <= ya.0 || ya.1 <= xa.0 || xb.1 <= yb.0 || yb.1 <= xb.0,
    ensures
        link.meets(tree, x + y, a, b),
{
    let z = x + y;
    assert forall|i: int| 0 <= i < z.len() implies {
        &&& a.0 <= (#[trigger] z[i]).0 < a.1
        &&& b.0 <= z[i].1 < b.1
        &&& link.near(tree, z[i].0, z[i].1)
    } by {
        if i < x.len() {
            assert(z[i] == x[i]);
        } else {
            assert(z[i] == y[i - x.len()]);
        }
    }
    assert forall|i: int, j: int| 0 <= i < z.len() && 0 <= j < z.len() && i != j implies z[i]
        != z[j] by {
        if i < x.len() {
            assert(z[i] == x[i]);
        } else {
            assert(z[i] == y[i - x.len()]);
        }
        if j < x.len() {
            assert(z[j] == x[j]);
        } else {
            assert(z[j] == y[j - x.len()]);
        }
    }
}

/// Two runs of links to later points, whose points differ, make one.
proof fn lemma_joins_concat<S: Scalar>(
    link: Link<S>,
    tree: &Tree<S>,
    x: Seq<(int, int)>,
    y: Seq<(int, int)>,
    xa: (int, int),
    xb: (int, int),
    ya: (int, int),
    yb: (int, int),
    a: (int, int),
    b: (int, int),
)
    requires
        link.joins(tree, x, xa, xb),
        link.joins(tree, y, ya, yb),
        a.0 <= xa.0 && xa.1 <= a.1,
        a.0 <= ya.0 && ya.1 <= a.1,
        b.0 <= xb.0 && xb.1 <= b.1,
        b.0 <= yb.0 && yb.1 <= b.1,
        xa.1 <= ya.0 || ya.1 <= xa.0 || xb.1 <= yb.0 || yb.1 <= xb.0,
    ensures
        link.joins(tree, x + y, a, b),
{
    lemma_meets_concat(link, tree, x, y, xa, xb, ya, yb, a, b);
    let z = x + y;
    assert forall|i: int| 0 <= i < z.len() implies (#[trigger] z[i]).0 < z[i].1 by {
        if i < x.len() {
            assert(z[i] == x[i]);
        } else {
            assert(z[i] == y[i - x.len()]);
        }
    }
}

proof fn lemma_contains_concat<T>(x: Seq<T>, y: Seq<T>, v: T)
    ensures
        (x + y).contains(v) <==> x.contains(v) || y.contains(v),
{
    let z = x + y;
    if x.contains(v) {
        let i = choose|i: int| 0 <= i < x.len() && x[i] == v;
        assert(z[i] == v);
    }
    if y.contains(v) {
        let i = choose|i: int| 0 <= i < y.len() && y[i] == v;
        assert(z[x.len() + i] == v);
    }
    if z.contains(v) {
        let i = choose|i: int| 0 <= i < z.len() && z[i] == v;
        if i < x.len() {
            assert(x[i] == v);
        } else {
            assert(y[i - x.len()] == v);
        }
    }
}

proof fn lemma_of_point<S: Scalar>(link: Link<S>, tree: &Tree<S>, i: int, a: int, b: int)
    requires
        a <= b,
    ensures
        link.meets(tree, link.of_point(tree, i, a, b), (i, i + 1), (a, b)),
        forall|j: int|
            a <= j < b && #[trigger] link.near(tree, i, j) ==> link.of_point(
                tree,
                i,
                a,
                b,
            ).contains((i, j)),
    decreases b - a,
{
    if a < b {
        lemma_of_point(link, tree, i, a, b - 1);
        let rest = link.of_point(tree, i, a, b - 1);
        let all = link.of_point(tree, i, a, b);
        assert forall|j: int| a <= j < b && #[trigger] link.near(tree, i, j) implies all.contains(
            (i, j),
        ) by {
            if j < b - 1 {
                let c = choose|c: int| 0 <= c < rest.len() && rest[c] == (i, j);
                assert(all[c] == (i, j));
            } else {
                assert(all[rest.len() as int] == (i, j));
            }
        }
    }
}

proof fn lemma_in_leaf<S: Scalar>(link: Link<S>, tree: &Tree<S>, first: int, upto: int, end: int)
    requires
        first <= upto <= end,
    ensures
        link.joins(tree, link.in_leaf(tree, first, upto, end), (first, upto), (first, end)),
        forall|i: int, j: int|
            first <= i < upto && i < j < end && #[trigger] link.near(tree, i, j) ==> link.in_leaf(
                tree,
                first,
                upto,
                end,
            ).contains((i, j)),
    decreases upto - first,
{
    if first < upto {
        let rest = link.in_leaf(tree, first, upto - 1, end);
        let row = link.of_point(tree, upto - 1, upto, end);
        lemma_in_leaf(link, tree, first, upto - 1, end);
        lemma_of_point(link, tree, upto - 1, upto, end);
        lemma_joins_concat(
            link,
            tree,
            rest,
            row,
            (first, upto - 1),
            (first, end),
            (upto - 1, upto),
            (upto, end),
            (first, upto),
            (first, end),
        );
        assert forall|i: int, j: int|
            first <= i < upto && i < j < end && #[trigger] link.near(tree, i, j) implies (rest
            + row).contains((i, j)) by {
            lemma_contains_concat(rest, row, (i, j));
        }
    }
}

proof fn lemma_of_leaves<S: Scalar>(
    link: Link<S>,
    tree: &Tree<S>,
    first: int,
    upto: int,
    a: int,
    b: int,
)
    requires
        first <= upto,
        a <= b,
    ensures
        link.meets(tree, link.of_leaves(tree, first, upto, a, b), (first, upto), (a, b)),
        forall|i: int, j: int|
            first <= i < upto && a <= j < b && #[trigger] link.near(tree, i, j) ==> link.of_leaves(
                tree,
                first,
                upto,
                a,
                b,
            ).contains((i, j)),
    decreases upto - first,
{
    if first < upto {
        let rest = link.of_leaves(tree, first, upto - 1, a, b);
        let row = link.of_point(tree, upto - 1, a, b);
        lemma_of_leaves(link, tree, first, upto - 1, a, b);
        lemma_of_point(link, tree, upto - 1, a, b);
        lemma_meets_concat(
            link,
            tree,
            rest,
            row,
            (first, upto - 1),
            (a, b),
            (upto - 1, upto),
            (a, b),
            (first, upto),
            (a, b),
        );
        assert forall|i: int, j: int|
            first <= i < upto && a <= j < b && #[trigger] link.near(tree, i, j) implies (rest
            + row).contains((i, j)) by {
            lemma_contains_concat(rest, row, (i, j));
        }
    }
}

/// No two points of two nodes are nearer than their boxes.
proof fn lemma_not_apart<S: Scalar>(
    link: Link<S>,
    tree: &Tree<S>,
    a: int,
    afirst: int,
    alen: int,
    b: int,
    bfirst: int,
    blen: int,
    i: int,
    j: int,
)
    requires
        lawful::<S>(),
        tree.wf(),
        link.valid(),
        monotone(link.m),
        tree.node_ok(a, afirst, alen),
        tree.node_ok(b, bfirst, blen),
        afirst <= i < afirst + alen,
        bfirst <= j < bfirst + blen,
        link.near(tree, i, j),
    ensures
        !link.apart(tree, a, b),
{
    let w = tree.ndim as int;
    lemma_block_len(tree.data@, tree.n_points as int, w);
    lemma_box_valid(tree, a, afirst, alen);
    lemma_box_valid(tree, b, bfirst, blen);
    lemma_row_of_tree(tree, i);
    lemma_row_of_tree(tree, j);
    let (alo, ahi) = (lo_of(tree.boxes@[a], w), hi_of(tree.boxes@[a], w));
    let (blo, bhi) = (lo_of(tree.boxes@[b], w), hi_of(tree.boxes@[b], w));
    let x = tree.rows()[i];
    let y = tree.rows()[j];
    assert forall|d: int| 0 <= d < x.len() implies alo[d].key() <= (#[trigger] x[d]).key()
        <= ahi[d].key() by {
        assert(alo[d].key() <= tree.rows()[i][d].key() <= ahi[d].key());
    }
    assert forall|d: int| 0 <= d < y.len() implies blo[d].key() <= (#[trigger] y[d]).key()
        <= bhi[d].key() by {
        assert(blo[d].key() <= tree.rows()[j][d].key() <= bhi[d].key());
    }
    lemma_gap_below_rows(link.m, alo, ahi, blo, bhi, x, y, w);
}

/// What a visit of two nodes finds are links between them, each once; by a metric
/// that keeps the order of plain distances it finds all of them.
#[verifier::rlimit(50)]
#[verifier::spinoff_prover]
pub proof fn links_across_are_found<S: Scalar>(
    link: Link<S>,
    tree: &Tree<S>,
    a: int,
    afirst: int,
    alen: int,
    b: int,
    bfirst: int,
    blen: int,
)
    requires
        lawful::<S>(),
        tree.wf(),
        link.valid(),
        tree.node_ok(a, afirst, alen),
        tree.node_ok(b, bfirst, blen),
    ensures
        link.meets(
            tree,
            link.across(tree, a, afirst, alen, b, bfirst, blen),
            (afirst, afirst + alen),
            (bfirst, bfirst + blen),
        ),
        monotone(link.m) ==> forall|i: int, j: int|
            afirst <= i < afirst + alen && bfirst <= j < bfirst + blen && #[trigger] link.near(
                tree,
                i,
                j,
            ) ==> link.across(tree, a, afirst, alen, b, bfirst, blen).contains((i, j)),
    decreases alen + blen,
{
    let aleaf = alen <= tree.leafsize || alen <= 1;
    let bleaf = blen <= tree.leafsize || blen <= 1;
    let all = link.across(tree, a, afirst, alen, b, bfirst, blen);
    let (arange, brange) = ((afirst, afirst + alen), (bfirst, bfirst + blen));
    lemma_children(tree, a, afirst, alen);
    lemma_children(tree, b, bfirst, blen);
    if link.apart(tree, a, b) {
        if monotone(link.m) {
            assert forall|i: int, j: int|
                afirst <= i < afirst + alen && bfirst <= j < bfirst + blen && #[trigger] link.near(
                    tree,
                    i,
                    j,
                ) implies all.contains((i, j)) by {
                lemma_not_apart(link, tree, a, afirst, alen, b, bfirst, blen, i, j);
            }
        }
    } else if aleaf && bleaf {
        lemma_of_leaves(link, tree, afirst, afirst + alen, bfirst, bfirst + blen);
    } else if aleaf || (!bleaf && blen > alen) {
        match tree.nodes@[b] {
            Node::Leaf { .. } => {},
            Node::Inner { left, right, .. } => {
                let mid = blen / 2;
                let x = link.across(tree, a, afirst, alen, left as int, bfirst, mid);
                let y = link.across(
                    tree,
                    a,
                    afirst,
                    alen,
                    right as int,
                    bfirst + mid,
                    blen - mid,
                );
                links_across_are_found(link, tree, a, afirst, alen, left as int, bfirst, mid);
                links_across_are_found(
                    link,
                    tree,
                    a,
                    afirst,
                    alen,
                    right as int,
                    bfirst + mid,
                    blen - mid,
                );
                lemma_meets_concat(
                    link,
                    tree,
                    x,
                    y,
                    arange,
                    (bfirst, bfirst + mid),
                    arange,
                    (bfirst + mid, bfirst + blen),
                    arange,
                    brange,
                );
                if monotone(link.m) {
                    assert forall|i: int, j: int|
                        afirst <= i < afirst + alen && bfirst <= j < bfirst + blen
                            && #[trigger] link.near(tree, i, j) implies all.contains((i, j)) by {
                        lemma_contains_concat(x, y, (i, j));
                    }
                }
            },
        }
    } else {
        match tree.nodes@[a] {
            Node::Leaf { .. } => {},
            Node::Inner { left, right, .. } => {
                let mid = alen / 2;
                let x = link.across(tree, left as int, afirst, mid, b, bfirst, blen);
                let y = link.across(
                    tree,
                    right as int,
                    afirst + mid,
                    alen - mid,
                    b,
                    bfirst,
                    blen,
                );
                links_across_are_found(link, tree, left as int, afirst, mid, b, bfirst, blen);
                links_across_are_found(
                    link,
                    tree,
                    right as int,
                    afirst + mid,
                    alen - mid,
                    b,
                    bfirst,
                    blen,
                );
                lemma_meets_concat(
                    link,
                    tree,
                    x,
                    y,
                    (afirst, afirst + mid),
                    brange,
                    (afirst + mid, afirst + alen),
                    brange,
                    arange,
                    brange,
                );
                if monotone(link.m) {
                    assert forall|i: int, j: int|
                        afirst <= i < afirst + alen && bfirst <= j < bfirst + blen
                            && #[trigger] link.near(tree, i, j) implies all.contains((i, j)) by {
                        lemma_contains_concat(x, y, (i, j));
                    }
                }
            },
        }
    }
}

/// What a visit of one node finds are links within it, each once; by a metric that
/// keeps the order of plain distances it finds all of them.
pub proof fn links_within_are_found<S: Scalar>(
    link: Link<S>,
    tree: &Tree<S>,
    id: int,
    first: int,
    len: int,
)
    requires
        lawful::<S>(),
        tree.wf(),
        link.valid(),
        tree.node_ok(id, first, len),
    ensures
        link.joins(
            tree,
            link.within(tree, id, first, len),
            (first, first + len),
            (first, first + len),
        ),
        monotone(link.m) ==> forall|i: int, j: int|
            first <= i < j < first + len && #[trigger] link.near(tree, i, j) ==> link.within(
                tree,
                id,
                first,
                len,
            ).contains((i, j)),
    decreases len,
{
    let all = link.within(tree, id, first, len);
    let range = (first, first + len);
    lemma_children(tree, id, first, len);
    if link.apart(tree, id, id) {
        if monotone(link.m) {
            assert forall|i: int, j: int|
                first <= i < j < first + len && #[trigger] link.near(tree, i, j) implies
                all.contains((i, j)) by {
                lemma_not_apart(link, tree, id, first, len, id, first, len, i, j);
            }
        }
    } else if len <= tree.leafsize || len <= 1 {
        lemma_in_leaf(link, tree, first, first + len, first + len);
    } else {
        match tree.nodes@[id] {
            Node::Leaf { .. } => {},
            Node::Inner { left, right, .. } => {
                let mid = len / 2;
                let (l, r) = (left as int, right as int);
                let x = link.within(tree, l, first, mid);
                let y = link.across(tree, l, first, mid, r, first + mid, len - mid);
                let z = link.within(tree, r, first + mid, len - mid);
                let lrange = (first, first + mid);
                let rrange = (first + mid, first + len);
                links_within_are_found(link, tree, l, first, mid);
                links_across_are_found(link, tree, l, first, mid, r, first + mid, len - mid);
                links_within_are_found(link, tree, r, first + mid, len - mid);
                lemma_joins_concat(
                    link,
                    tree,
                    x,
                    y,
                    lrange,
                    lrange,
                    lrange,
                    rrange,
                    lrange,
                    range,
                );
                lemma_joins_concat(
                    link,
                    tree,
                    x + y,
                    z,
                    lrange,
                    range,
                    rrange,
                    rrange,
                    range,
                    range,
                );
                if monotone(link.m) {
                    assert forall|i: int, j: int|
                        first <= i < j < first + len && #[trigger] link.near(tree, i, j) implies
                        all.contains((i, j)) by {
                        lemma_contains_concat(x, y, (i, j));
                        lemma_contains_concat(x + y, z, (i, j));
                    }
                }
            },
        }
    }
}

/// The two values of a pair.
pub open spec fn values_of(pair: [usize; 2]) -> (usize, usize) {
    (pair@[0], pair@[1])
}

/// The values of pairs.
pub open spec fn all_values(pairs: Seq<[usize; 2]>) -> Seq<(usize, usize)> {
    pairs.map_values(|pair: [usize; 2]| values_of(pair))
}

/// The row numbers of two positions, the smaller one first.
pub open spec fn row_pair<S: Scalar>(tree: &Tree<S>, link: (int, int)) -> (usize, usize) {
    let (a, b) = (tree.indices@[link.0] as usize, tree.indices@[link.1] as usize);
    if a <= b {
        (a, b)
    } else {
        (b, a)
    }
}

/// The row numbers of pairs of positions.
pub open spec fn row_pairs<S: Scalar>(tree: &Tree<S>, links: Seq<(int, int)>) -> Seq<
    (usize, usize),
> {
    links.map_values(|link: (int, int)| row_pair(tree, link))
}

/// By the first value, and by the second where the first is the same.
pub open spec fn pair_before(a: (usize, usize), b: (usize, usize)) -> bool {
    a.0 < b.0 || (a.0 == b.0 && a.1 < b.1)
}

pub open spec fn ascending(pairs: Seq<(usize, usize)>) -> bool {
    forall|i: int, j: int|
        0 <= i < j < pairs.len() ==> #[trigger] pairs[i] == #[trigger] pairs[j] || pair_before(
            pairs[i],
            pairs[j],
        )
}

pub open spec fn strictly_ascending(pairs: Seq<(usize, usize)>) -> bool {
    forall|i: int, j: int|
        0 <= i < j < pairs.len() ==> pair_before(#[trigger] pairs[i], #[trigger] pairs[j])
}

/// Calls `sort_unstable` of slices, which rearranges the slice into ascending
/// order. Arrays are ordered by their first items that differ.
#[verifier::external_body]
fn sort_pairs(pairs: &mut Vec<[usize; 2]>)
    ensures
        same_items(old(pairs)@, final(pairs)@),
        ascending(all_values(final(pairs)@)),
{
    pairs.sort_unstable();
}

/// Why a query for pairs is refused, if it is.
pub open spec fn pairs_refusal<S: Scalar>(radius: S, p: S) -> Option<KDTreeError<S>> {
    if !finite(radius) || less(radius, S::zero_spec()) {
        Some(KDTreeError::InvalidRadius(radius))
    } else {
        match metric_of(p) {
            Ok(_) => None,
            Err(error) => Some(error),
        }
    }
}

/// The links that a query for pairs asks about.
pub open spec fn link_of<S: Scalar>(radius: S, p: S) -> Link<S> {
    let m = metric_of(p)->Ok_0;
    Link { m, radius: m.reduce_spec(radius) }
}

/// `pairs` are the row numbers of the links that a search finds, in ascending
/// order and each once. By a metric that keeps the order of plain distances those
/// are all links of the tree.
pub open spec fn lists_links<S: Scalar>(
    link: Link<S>,
    tree: &Tree<S>,
    pairs: Seq<(usize, usize)>,
) -> bool {
    let n = tree.n_points as int;
    &&& strictly_ascending(pairs)
    &&& same_items(row_pairs(tree, link.found_in(tree)), pairs)
    &&& link.joins(tree, link.found_in(tree), (0, n), (0, n))
    &&& monotone(link.m) ==> forall|i: int, j: int|
        0 <= i < j < n && #[trigger] link.near(tree, i, j) ==> link.found_in(tree).contains((i, j))
}

proof fn lemma_row_pairs_concat<S: Scalar>(
    tree: &Tree<S>,
    a: Seq<(int, int)>,
    b: Seq<(int, int)>,
)
    ensures
        row_pairs(tree, a + b) == row_pairs(tree, a) + row_pairs(tree, b),
{
    assert(row_pairs(tree, a + b) =~= row_pairs(tree, a) + row_pairs(tree, b));
}

impl<S: Scalar> Tree<S> {
    /// The pairs of row numbers of points within `radius` of each other, by the
    /// metric of exponent `p`: the smaller number of a pair first, the pairs in
    /// ascending order.
    pub fn query_pairs(&self, radius: S, p: S) -> (r: Result<Vec<[usize; 2]>, KDTreeError<S>>)
        requires
            lawful::<S>(),
            self.wf(),
        ensures
            match r {
                Ok(pairs) => {
                    &&& pairs_refusal(radius, p) is None
                    &&& lists_links(link_of(radius, p), self, all_values(pairs@))
                },
                Err(error) => pairs_refusal(radius, p) == Some(error),
            },
    {
        if !is_finite(radius) || radius.lt(S::zero()) {
            return Err(KDTreeError::InvalidRadius(radius));
        }
        let metric = match Metric::new(p) {
            Ok(metric) => metric,
            Err(error) => {
                return Err(error);
            },
        };
        let reach = metric.reduce(radius);
        let ghost link = link_of(radius, p);
        let mut pairs: Vec<[usize; 2]> = Vec::new();
        self.collect_pairs(
            ROOT,
            self.n_points,
            ROOT,
            self.n_points,
            true,
            metric,
            reach,
            &mut pairs,
            Ghost(0int),
            Ghost(0int),
        );
        let ghost unsorted = pairs@;
        sort_pairs(&mut pairs);
        proof {
            links_within_are_found(link, self, 0, 0, self.n_points as int);
            assert(all_values(unsorted) =~= row_pairs(self, link.found_in(self)));
            lemma_sorted_links(link, self, unsorted, pairs@);
        }
        Ok(pairs)
    }

    /// Appends the links between two nodes, of `alen` and `blen` points, or, with
    /// `same_branch`, those within one node that is given twice.
    fn collect_pairs(
        &self,
        a: u32,
        alen: usize,
        b: u32,
        blen: usize,
        same_branch: bool,
        metric: Metric<S>,
        reach: Dist<S>,
        output: &mut Vec<[usize; 2]>,
        Ghost(afirst): Ghost<int>,
        Ghost(bfirst): Ghost<int>,
    )
        requires
            lawful::<S>(),
            self.wf(),
            (Link { m: metric, radius: reach.value }).valid(),
            self.node_ok(a as int, afirst, alen as int),
            self.node_ok(b as int, bfirst, blen as int),
            same_branch ==> a == b && afirst == bfirst && alen == blen,
        ensures
            all_values(final(output)@) == all_values(old(output)@) + row_pairs(
                self,
                if same_branch {
                    (Link { m: metric, radius: reach.value }).within(
                        self,
                        a as int,
                        afirst,
                        alen as int,
                    )
                } else {
                    (Link { m: metric, radius: reach.value }).across(
                        self,
                        a as int,
                        afirst,
                        alen as int,
                        b as int,
                        bfirst,
                        blen as int,
                    )
                },
            ),
        decreases alen + blen, 1int,
    {
        let ghost link = Link { m: metric, radius: reach.value };
        let ghost before = all_values(output@);
        proof {
            lemma_block_len(self.data@, self.n_points as int, self.ndim as int);
            lemma_box_valid(self, a as int, afirst, alen as int);
            lemma_box_valid(self, b as int, bfirst, blen as int);
            lemma_children(self, a as int, afirst, alen as int);
            lemma_children(self, b as int, bfirst, blen as int);
        }
        if reach.lt(gap_dist(metric, self.box_of(a), self.box_of(b))) {
            assert(all_values(output@) =~= before + row_pairs(self, Seq::empty()));
            return;
        }
        match (self.node(a), self.node(b)) {
            (Node::Leaf { start: astart, end: aend }, Node::Leaf { start: bstart, end: bend }) => {
                if same_branch {
                    self.pairs_in_leaf(metric, reach, astart as usize, aend as usize, output);
                } else {
                    self.pairs_of_leaves(
                        metric,
                        reach,
                        astart as usize,
                        aend as usize,
                        bstart as usize,
                        bend as usize,
                        output,
                    );
                }
            },
            (Node::Leaf { .. }, Node::Inner { .. }) => {
                self.pairs_down_right(
                    a,
                    alen,
                    b,
                    blen,
                    metric,
                    reach,
                    output,
                    Ghost(afirst),
                    Ghost(bfirst),
                );
            },
            (Node::Inner { .. }, other) => {
                let right_leaf = matches!(other, Node::Leaf { .. });
                if same_branch {
                    self.pairs_down_both(a, alen, metric, reach, output, Ghost(afirst));
                } else if !right_leaf && blen > alen {
                    self.pairs_down_right(
                        a,
                        alen,
                        b,
                        blen,
                        metric,
                        reach,
                        output,
                        Ghost(afirst),
                        Ghost(bfirst),
                    );
                } else {
                    self.pairs_down_left(
                        a,
                        alen,
                        b,
                        blen,
                        metric,
                        reach,
                        output,
                        Ghost(afirst),
                        Ghost(bfirst),
                    );
                }
            },
        }
    }

    /// Appends the links within an inner node: those within each child and those
    /// between the two.
    fn pairs_down_both(
        &self,
        id: u32,
        len: usize,
        metric: Metric<S>,
        reach: Dist<S>,
        output: &mut Vec<[usize; 2]>,
        Ghost(first): Ghost<int>,
    )
        requires
            lawful::<S>(),
            self.wf(),
            (Link { m: metric, radius: reach.value }).valid(),
            self.node_ok(id as int, first, len as int),
            !(Link { m: metric, radius: reach.value }).apart(self, id as int, id as int),
            len > self.leafsize && len > 1,
        ensures
            all_values(final(output)@) == all_values(old(output)@) + row_pairs(
                self,
                (Link { m: metric, radius: reach.value }).within(
                    self,
                    id as int,
                    first,
                    len as int,
                ),
            ),
        decreases len + len, 0int,
    {
        let ghost link = Link { m: metric, radius: reach.value };
        let ghost before = all_values(output@);
        proof {
            lemma_box_valid(self, id as int, first, len as int);
            lemma_children(self, id as int, first, len as int);
        }
        if let Node::Inner { left, right, .. } = self.node(id) {
            let mid = len / 2;
            self.collect_pairs(
                left,
                mid,
                left,
                mid,
                true,
                metric,
                reach,
                output,
                Ghost(first),
                Ghost(first),
            );
            self.collect_pairs(
                left,
                mid,
                right,
                len - mid,
                false,
                metric,
                reach,
                output,
                Ghost(first),
                Ghost(first + mid),
            );
            self.collect_pairs(
                right,
                len - mid,
                right,
                len - mid,
                true,
                metric,
                reach,
                output,
                Ghost(first + mid),
                Ghost(first + mid),
            );
            proof {
                let (l, r) = (left as int, right as int);
                let (m, n) = (mid as int, len as int);
                let x = link.within(self, l, first, m);
                let y = link.across(self, l, first, m, r, first + m, n - m);
                let z = link.within(self, r, first + m, n - m);
                lemma_row_pairs_concat(self, x, y);
                lemma_row_pairs_concat(self, x + y, z);
                assert(before + (row_pairs(self, x) + row_pairs(self, y) + row_pairs(self, z))
                    =~= before + row_pairs(self, x) + row_pairs(self, y) + row_pairs(self, z));
            }
        }
    }

    /// Appends the links between the children of a node and another node.
    fn pairs_down_left(
        &self,
        a: u32,
        alen: usize,
        b: u32,
        blen: usize,
        metric: Metric<S>,
        reach: Dist<S>,
        output: &mut Vec<[usize; 2]>,
        Ghost(afirst): Ghost<int>,
        Ghost(bfirst): Ghost<int>,
    )
        requires
            lawful::<S>(),
            self.wf(),
            (Link { m: metric, radius: reach.value }).valid(),
            self.node_ok(a as int, afirst, alen as int),
            self.node_ok(b as int, bfirst, blen as int),
            !(Link { m: metric, radius: reach.value }).apart(self, a as int, b as int),
            alen > self.leafsize && alen > 1,
            blen <= self.leafsize || blen <= 1 || blen <= alen,
        ensures
            all_values(final(output)@) == all_values(old(output)@) + row_pairs(
                self,
                (Link { m: metric, radius: reach.value }).across(
                    self,
                    a as int,
                    afirst,
                    alen as int,
                    b as int,
                    bfirst,
                    blen as int,
                ),
            ),
        decreases alen + blen, 0int,
    {
        let ghost link = Link { m: metric, radius: reach.value };
        let ghost before = all_values(output@);
        proof {
            lemma_box_valid(self, a as int, afirst, alen as int);
            lemma_children(self, a as int, afirst, alen as int);
        }
        if let Node::Inner { left, right, .. } = self.node(a) {
            let mid = alen / 2;
            self.collect_pairs(
                left,
                mid,
                b,
                blen,
                false,
                metric,
                reach,
                output,
                Ghost(afirst),
                Ghost(bfirst),
            );
            self.collect_pairs(
                right,
                alen - mid,
                b,
                blen,
                false,
                metric,
                reach,
                output,
                Ghost(afirst + mid),
                Ghost(bfirst),
            );
            proof {
                let (m, len) = (mid as int, alen as int);
                let x = link.across(self, left as int, afirst, m, b as int, bfirst, blen as int);
                let y = link.across(
                    self,
                    right as int,
                    afirst + m,
                    len - m,
                    b as int,
                    bfirst,
                    blen as int,
                );
                lemma_row_pairs_concat(self, x, y);
                assert(before + (row_pairs(self, x) + row_pairs(self, y)) =~= before + row_pairs(
                    self,
                    x,
                ) + row_pairs(self, y));
            }
        }
    }

    /// Appends the links between a node and the children of another.
    fn pairs_down_right(
        &self,
        a: u32,
        alen: usize,
        b: u32,
        blen: usize,
        metric: Metric<S>,
        reach: Dist<S>,
        output: &mut Vec<[usize; 2]>,
        Ghost(afirst): Ghost<int>,
        Ghost(bfirst): Ghost<int>,
    )
        requires
            lawful::<S>(),
            self.wf(),
            (Link { m: metric, radius: reach.value }).valid(),
            self.node_ok(a as int, afirst, alen as int),
            self.node_ok(b as int, bfirst, blen as int),
            !(Link { m: metric, radius: reach.value }).apart(self, a as int, b as int),
            blen > self.leafsize && blen > 1,
            alen <= self.leafsize || alen <= 1 || blen > alen,
        ensures
            all_values(final(output)@) == all_values(old(output)@) + row_pairs(
                self,
                (Link { m: metric, radius: reach.value }).across(
                    self,
                    a as int,
                    afirst,
                    alen as int,
                    b as int,
                    bfirst,
                    blen as int,
                ),
            ),
        decreases alen + blen, 0int,
    {
        let ghost link = Link { m: metric, radius: reach.value };
        let ghost before = all_values(output@);
        proof {
            lemma_box_valid(self, b as int, bfirst, blen as int);
            lemma_children(self, b as int, bfirst, blen as int);
        }
        if let Node::Inner { left, right, .. } = self.node(b) {
            let mid = blen / 2;
            self.collect_pairs(
                a,
                alen,
                left,
                mid,
                false,
                metric,
                reach,
                output,
                Ghost(afirst),
                Ghost(bfirst),
            );
            self.collect_pairs(
                a,
                alen,
                right,
                blen - mid,
                false,
                metric,
                reach,
                output,
                Ghost(afirst),
                Ghost(bfirst + mid),
            );
            proof {
                let (m, len) = (mid as int, blen as int);
                let x = link.across(self, a as int, afirst, alen as int, left as int, bfirst, m);
                let y = link.across(
                    self,
                    a as int,
                    afirst,
                    alen as int,
                    right as int,
                    bfirst + m,
                    len - m,
                );
                lemma_row_pairs_concat(self, x, y);
                assert(before + (row_pairs(self, x) + row_pairs(self, y)) =~= before + row_pairs(
                    self,
                    x,
                ) + row_pairs(self, y));
            }
        }
    }

    /// Appends the links of the point at `i` with those from `start` up to `end`.
    fn pairs_of_point(
        &self,
        metric: Metric<S>,
        reach: Dist<S>,
        i: usize,
        start: usize,
        end: usize,
        output: &mut Vec<[usize; 2]>,
    )
        requires
            self.wf(),
            i < self.n_points,
            start <= end <= self.n_points,
        ensures
            all_values(final(output)@) == all_values(old(output)@) + row_pairs(
                self,
                (Link { m: metric, radius: reach.value }).of_point(
                    self,
                    i as int,
                    start as int,
                    end as int,
                ),
            ),
    {
        let ghost link = Link { m: metric, radius: reach.value };
        let ghost before = all_values(output@);
        let mut j = start;
        assert(before + row_pairs(self, link.of_point(self, i as int, start as int, start as int))
            =~= before);
        while j < end
            invariant
                self.wf(),
                i < self.n_points,
                start <= j <= end <= self.n_points,
                link == (Link { m: metric, radius: reach.value }),
                all_values(output@) == before + row_pairs(
                    self,
                    link.of_point(self, i as int, start as int, j as int),
                ),
            decreases end - j,
        {
            proof {
                lemma_row_of_tree(self, i as int);
                lemma_row_of_tree(self, j as int);
                assert(self.rows().subrange(i as int, i + 1)[0] == self.rows()[i as int]);
                assert(self.rows().subrange(j as int, j + 1)[0] == self.rows()[j as int]);
            }
            let lhs = self.block(i, i + 1).row(0);
            let rhs = self.block(j, j + 1).row(0);
            let dist = fold_scalar(metric, Dist::zero(), lhs, rhs);
            if dist.le(reach) {
                let x = self.indices[i] as usize;
                let y = self.indices[j] as usize;
                let ghost was = output@;
                output.push(
                    if x <= y {
                        [x, y]
                    } else {
                        [y, x]
                    },
                );
                assert(all_values(output@) =~= all_values(was).push(
                    row_pair(self, (i as int, j as int)),
                ));
            }
            assert(all_values(output@) =~= before + row_pairs(
                self,
                link.of_point(self, i as int, start as int, j + 1),
            ));
            j += 1;
        }
    }

    /// Appends the links among the points from `start` up to `end`.
    fn pairs_in_leaf(
        &self,
        metric: Metric<S>,
        reach: Dist<S>,
        start: usize,
        end: usize,
        output: &mut Vec<[usize; 2]>,
    )
        requires
            self.wf(),
            start <= end <= self.n_points,
        ensures
            all_values(final(output)@) == all_values(old(output)@) + row_pairs(
                self,
                (Link { m: metric, radius: reach.value }).in_leaf(
                    self,
                    start as int,
                    end as int,
                    end as int,
                ),
            ),
    {
        let ghost link = Link { m: metric, radius: reach.value };
        let ghost before = all_values(output@);
        let mut i = start;
        assert(before + row_pairs(self, link.in_leaf(self, start as int, start as int, end as int))
            =~= before);
        while i < end
            invariant
                self.wf(),
                start <= i <= end <= self.n_points,
                link == (Link { m: metric, radius: reach.value }),
                all_values(output@) == before + row_pairs(
                    self,
                    link.in_leaf(self, start as int, i as int, end as int),
                ),
            decreases end - i,
        {
            self.pairs_of_point(metric, reach, i, i + 1, end, output);
            proof {
                let x = link.in_leaf(self, start as int, i as int, end as int);
                let y = link.of_point(self, i as int, i + 1, end as int);
                lemma_row_pairs_concat(self, x, y);
                assert(before + (row_pairs(self, x) + row_pairs(self, y)) =~= before + row_pairs(
                    self,
                    x,
                ) + row_pairs(self, y));
            }
            i += 1;
        }
    }

    /// Appends the links of the points from `start` up to `end` with those from
    /// `from` up to `upto`.
    fn pairs_of_leaves(
        &self,
        metric: Metric<S>,
        reach: Dist<S>,
        start: usize,
        end: usize,
        from: usize,
        upto: usize,
        output: &mut Vec<[usize; 2]>,
    )
        requires
            self.wf(),
            start <= end <= self.n_points,
            from <= upto <= self.n_points,
        ensures
            all_values(final(output)@) == all_values(old(output)@) + row_pairs(
                self,
                (Link { m: metric, radius: reach.value }).of_leaves(
                    self,
                    start as int,
                    end as int,
                    from as int,
                    upto as int,
                ),
            ),
    {
        let ghost link = Link { m: metric, radius: reach.value };
        let ghost before = all_values(output@);
        let mut i = start;
        assert(before + row_pairs(
            self,
            link.of_leaves(self, start as int, start as int, from as int, upto as int),
        ) =~= before);
        while i < end
            invariant
                self.wf(),
                start <= i <= end <= self.n_points,
                from <= upto <= self.n_points,
                link == (Link { m: metric, radius: reach.value }),
                all_values(output@) == before + row_pairs(
                    self,
                    link.of_leaves(self, start as int, i as int, from as int, upto as int),
                ),
            decreases end - i,
        {
            self.pairs_of_point(metric, reach, i, from, upto, output);
            proof {
                let x = link.of_leaves(self, start as int, i as int, from as int, upto as int);
                let y = link.of_point(self, i as int, from as int, upto as int);
                lemma_row_pairs_concat(self, x, y);
                assert(before + (row_pairs(self, x) + row_pairs(self, y)) =~= before + row_pairs(
                    self,
                    x,
                ) + row_pairs(self, y));
            }
            i += 1;
        }
    }
}

/// Sorting the pairs of distinct links puts them in strictly ascending order.
proof fn lemma_sorted_links<S: Scalar>(
    link: Link<S>,
    tree: &Tree<S>,
    unsorted: Seq<[usize; 2]>,
    sorted: Seq<[usize; 2]>,
)
    requires
        tree.wf(),
        link.joins(
            tree,
            link.found_in(tree),
            (0, tree.n_points as int),
            (0, tree.n_points as int),
        ),
        all_values(unsorted) == row_pairs(tree, link.found_in(tree)),
        same_items(unsorted, sorted),
        ascending(all_values(sorted)),
    ensures
        strictly_ascending(all_values(sorted)),
        same_items(row_pairs(tree, link.found_in(tree)), all_values(sorted)),
{
    let links = link.found_in(tree);
    let rows = row_pairs(tree, links);
    let v = all_values(sorted);
    assert forall|i: int, j: int| 0 <= i < rows.len() && 0 <= j < rows.len() && i != j implies rows[i]
        != rows[j] by {
        let (a, b) = (links[i], links[j]);
        assert(rows[i] == row_pair(tree, a));
        assert(rows[j] == row_pair(tree, b));
        assert(tree.indices@[a.0] != tree.indices@[a.1]);
        assert(tree.indices@[b.0] != tree.indices@[b.1]);
        assert(a != b);
    }
    lemma_map_same_items(unsorted, sorted, |pair: [usize; 2]| values_of(pair));
    lemma_same_items_distinct(rows, v);
    assert forall|i: int, j: int| 0 <= i < j < v.len() implies pair_before(
        #[trigger] v[i],
        #[trigger] v[j],
    ) by {}
}

/// A search for pairs and a search of a ball agree: two points are linked exactly
/// if each lies in the ball of the same radius around the other.
pub proof fn pairs_agree_with_balls<S: Scalar>(link: Link<S>, tree: &Tree<S>, i: int, j: int)
    requires
        lawful::<S>(),
        tree.wf(),
        link.valid(),
        monotone(link.m),
        0 <= i < j < tree.n_points,
    ensures
        link.found_in(tree).contains((i, j)) <==> (Ball {
            m: link.m,
            q: tree.rows()[i],
            radius: link.radius,
        }).found_in(tree).contains(j),
        link.found_in(tree).contains((i, j)) <==> (Ball {
            m: link.m,
            q: tree.rows()[j],
            radius: link.radius,
        }).found_in(tree).contains(i),
{
    let n = tree.n_points as int;
    let here = Ball { m: link.m, q: tree.rows()[i], radius: link.radius };
    let there = Ball { m: link.m, q: tree.rows()[j], radius: link.radius };
    lemma_row_of_tree(tree, i);
    lemma_row_of_tree(tree, j);
    lemma_row_dist_nonneg(link.m, tree.rows()[i], tree.rows()[j]);
    lemma_row_dist_nonneg(link.m, tree.rows()[j], tree.rows()[i]);
    distances_are_symmetric(link.m, tree.rows()[i], tree.rows()[j]);
    links_within_are_found(link, tree, 0, 0, n);
    found_points_are_in_the_ball(here, tree, 0, 0, n);
    found_points_are_in_the_ball(there, tree, 0, 0, n);
    if link.near(tree, i, j) {
        every_point_in_the_ball_is_found(here, tree, 0, 0, n, j);
        every_point_in_the_ball_is_found(there, tree, 0, 0, n, i);
    }
}

/// What is linked does not depend on the tree: a pair of rows that one tree over
/// the points finds, at the positions `i`, every other tree over them finds too, at
/// the positions `j` that the rows have there, in either order.
pub proof fn rows_are_linked_the_same_in_every_tree<S: Scalar>(
    link: Link<S>,
    data: Seq<S>,
    a: &Tree<S>,
    b: &Tree<S>,
    i: (int, int),
    j: (int, int),
)
    requires
        lawful::<S>(),
        a.wf(),
        b.wf(),
        a.ndim == b.ndim,
        a.holds(data),
        b.holds(data),
        link.valid(),
        monotone(link.m),
        0 <= i.0 < i.1 < a.n_points,
        0 <= j.0 < j.1 < b.n_points,
        row_pair(a, i) == row_pair(b, j),
    ensures
        link.found_in(a).contains(i) <==> link.found_in(b).contains(j),
{
    let (n, m) = (a.n_points as int, b.n_points as int);
    lemma_row_of_tree(a, i.0);
    lemma_row_of_tree(a, i.1);
    lemma_row_of_tree(b, j.0);
    lemma_row_of_tree(b, j.1);
    lemma_row_dist_nonneg(link.m, a.rows()[i.0], a.rows()[i.1]);
    lemma_row_dist_nonneg(link.m, b.rows()[j.0], b.rows()[j.1]);
    distances_are_symmetric(link.m, a.rows()[i.0], a.rows()[i.1]);
    links_within_are_found(link, a, 0, 0, n);
    links_within_are_found(link, b, 0, 0, m);
    if link.found_in(a).contains(i) {
        let c = choose|c: int| 0 <= c < link.found_in(a).len() && link.found_in(a)[c] == i;
        assert(link.near(a, link.found_in(a)[c].0, link.found_in(a)[c].1));
    }
    if link.found_in(b).contains(j) {
        let c = choose|c: int| 0 <= c < link.found_in(b).len() && link.found_in(b)[c] == j;
        assert(link.near(b, link.found_in(b)[c].0, link.found_in(b)[c].1));
    }
    assert(link.near(a, i.0, i.1) <==> link.near(b, j.0, j.1));
}

/// Two runs that repeat nothing and hold the same items are rearrangements of each
/// other.
proof fn lemma_distinct_same_items<T>(x: Seq<T>, y: Seq<T>)
    requires
        x.no_duplicates(),
        y.no_duplicates(),
        forall|v: T| x.contains(v) <==> y.contains(v),
    ensures
        same_items(x, y),
{
    x.lemma_multiset_has_no_duplicates();
    y.lemma_multiset_has_no_duplicates();
    assert forall|v: T| x.to_multiset().count(v) == y.to_multiset().count(v) by {
        vstd::seq_lib::to_multiset_contains(x, v);
        vstd::seq_lib::to_multiset_contains(y, v);
        assert(x.contains(v) <==> y.contains(v));
    }
    assert(x.to_multiset() =~= y.to_multiset());
}

/// Links between points of two disjoint ranges are different pairs of rows.
proof fn lemma_row_pairs_distinct<S: Scalar>(
    link: Link<S>,
    tree: &Tree<S>,
    links: Seq<(int, int)>,
    a: (int, int),
    b: (int, int),
)
    requires
        tree.wf(),
        link.meets(tree, links, a, b),
        0 <= a.0 && a.1 <= tree.n_points,
        0 <= b.0 && b.1 <= tree.n_points,
        a.1 <= b.0 || b.1 <= a.0,
    ensures
        row_pairs(tree, links).no_duplicates(),
{
    let rows = row_pairs(tree, links);
    assert forall|i: int, j: int|
        0 <= i < rows.len() && 0 <= j < rows.len() && i != j implies rows[i] != rows[j] by {
        let (x, y) = (links[i], links[j]);
        assert(rows[i] == row_pair(tree, x) && rows[j] == row_pair(tree, y));
        assert(tree.indices@[x.0] != tree.indices@[x.1]);
        assert(tree.indices@[y.0] != tree.indices@[y.1]);
        assert(tree.indices@[x.0] != tree.indices@[y.1]);
        assert(tree.indices@[x.1] != tree.indices@[y.0]);
        assert(x != y);
    }
}

/// A visit of two disjoint nodes finds the same pairs of rows, each once, whichever
/// of the nodes is given first, by a metric that keeps the order of plain distances.
pub proof fn exchanged_nodes_have_the_same_links<S: Scalar>(
    link: Link<S>,
    tree: &Tree<S>,
    a: int,
    afirst: int,
    alen: int,
    b: int,
    bfirst: int,
    blen: int,
)
    requires
        lawful::<S>(),
        tree.wf(),
        link.valid(),
        monotone(link.m),
        tree.node_ok(a, afirst, alen),
        tree.node_ok(b, bfirst, blen),
        afirst + alen <= bfirst || bfirst + blen <= afirst,
    ensures
        row_pairs(tree, link.across(tree, a, afirst, alen, b, bfirst, blen)).no_duplicates(),
        same_items(
            row_pairs(tree, link.across(tree, a, afirst, alen, b, bfirst, blen)),
            row_pairs(tree, link.across(tree, b, bfirst, blen, a, afirst, alen)),
        ),
{
    let x = link.across(tree, a, afirst, alen, b, bfirst, blen);
    let y = link.across(tree, b, bfirst, blen, a, afirst, alen);
    let (ar, br) = ((afirst, afirst + alen), (bfirst, bfirst + blen));
    lemma_children(tree, a, afirst, alen);
    lemma_children(tree, b, bfirst, blen);
    links_across_are_found(link, tree, a, afirst, alen, b, bfirst, blen);
    links_across_are_found(link, tree, b, bfirst, blen, a, afirst, alen);
    lemma_row_pairs_distinct(link, tree, x, ar, br);
    lemma_row_pairs_distinct(link, tree, y, br, ar);
    lemma_exchanged(link, tree, x, y, ar, br);
    lemma_exchanged(link, tree, y, x, br, ar);
    lemma_distinct_same_items(row_pairs(tree, x), row_pairs(tree, y));
}

/// The pairs of rows of links are among those of the exchanged links.
proof fn lemma_exchanged<S: Scalar>(
    link: Link<S>,
    tree: &Tree<S>,
    x: Seq<(int, int)>,
    y: Seq<(int, int)>,
    a: (int, int),
    b: (int, int),
)
    requires
        lawful::<S>(),
        tree.wf(),
        link.valid(),
        monotone(link.m),
        link.meets(tree, x, a, b),
        0 <= a.0 && a.1 <= tree.n_points,
        0 <= b.0 && b.1 <= tree.n_points,
        forall|i: int, j: int|
            b.0 <= i < b.1 && a.0 <= j < a.1 && #[trigger] link.near(tree, i, j) ==> y.contains(
                (i, j),
            ),
    ensures
        forall|v: (usize, usize)|
            row_pairs(tree, x).contains(v) ==> #[trigger] row_pairs(tree, y).contains(v),
{
    assert forall|v: (usize, usize)| row_pairs(tree, x).contains(v) implies #[trigger] row_pairs(
        tree,
        y,
    ).contains(v) by {
        let c = choose|c: int| 0 <= c < row_pairs(tree, x).len() && row_pairs(tree, x)[c] == v;
        let (i, j) = x[c];
        lemma_near_both_ways(link, tree, i, j);
        let d = choose|d: int| 0 <= d < y.len() && y[d] == (j, i);
        assert(row_pairs(tree, y)[d] == v);
    }
}

/// Two points are linked both ways.
proof fn lemma_near_both_ways<S: Scalar>(link: Link<S>, tree: &Tree<S>, i: int, j: int)
    requires
        lawful::<S>(),
        tree.wf(),
        link.valid(),
        monotone(link.m),
        0 <= i < tree.n_points,
        0 <= j < tree.n_points,
    ensures
        link.near(tree, i, j) <==> link.near(tree, j, i),
{
    lemma_row_of_tree(tree, i);
    lemma_row_of_tree(tree, j);
    lemma_row_dist_nonneg(link.m, tree.rows()[i], tree.rows()[j]);
    lemma_row_dist_nonneg(link.m, tree.rows()[j], tree.rows()[i]);
    distances_are_symmetric(link.m, tree.rows()[i], tree.rows()[j]);
}

/// A pair of rows is listed exactly if their positions are linked.
pub proof fn lemma_listed<S: Scalar>(
    link: Link<S>,
    tree: &Tree<S>,
    pairs: Seq<(usize, usize)>,
    i: int,
    j: int,
)
    requires
        tree.wf(),
        lists_links(link, tree, pairs),
        0 <= i < j < tree.n_points,
    ensures
        pairs.contains(row_pair(tree, (i, j))) <==> link.found_in(tree).contains((i, j)),
{
    let links = link.found_in(tree);
    let rows = row_pairs(tree, links);
    let v = row_pair(tree, (i, j));
    lemma_same_items_contains(rows, pairs);
    if links.contains((i, j)) {
        let c = choose|c: int| 0 <= c < links.len() && links[c] == (i, j);
        assert(rows[c] == v);
    }
    if rows.contains(v) {
        let c = choose|c: int| 0 <= c < rows.len() && rows[c] == v;
        let l = links[c];
        assert(rows[c] == row_pair(tree, l));
        assert(tree.indices@[i] != tree.indices@[j]);
        assert(tree.indices@[l.0] != tree.indices@[l.1]);
        assert(l == (i, j));
    }
}

/// The pairs that a query lists and the rows that a radius query reports agree, row
/// number by row number: rows `r` and `s` are listed as a pair exactly if the rows
/// within the radius of row `r` are reported with `s` among them.
pub proof fn listed_pairs_agree_with_reported_rows<S: Scalar>(
    tree: &Tree<S>,
    data: Seq<S>,
    radius: S,
    p: S,
    pairs: Seq<(usize, usize)>,
    r: usize,
    s: usize,
    sort: bool,
    indices: Seq<usize>,
    distances: Seq<S>,
)
    requires
        lawful::<S>(),
        tree.wf(),
        tree.holds(data),
        pairs_refusal(radius, p) is None,
        monotone(link_of(radius, p).m),
        r < tree.n_points,
        s < tree.n_points,
        r != s,
        lists_links(link_of(radius, p), tree, pairs),
        reports(
            ball_of(rows_of(data, tree.ndim as int)[r as int], radius, p),
            tree,
            sort,
            indices,
            distances,
        ),
    ensures
        pairs.contains(
            if r < s {
                (r, s)
            } else {
                (s, r)
            },
        ) <==> indices.contains(s),
{
    let link = link_of(radius, p);
    let i = every_row_has_a_position(tree, r as int);
    let j = every_row_has_a_position(tree, s as int);
    let ball = ball_of(rows_of(data, tree.ndim as int)[r as int], radius, p);
    assert(tree.rows()[i] == rows_of(data, tree.ndim as int)[r as int]);
    let (a, b) = if i < j {
        (i, j)
    } else {
        (j, i)
    };
    assert(row_pair(tree, (a, b)) == if r < s {
        (r, s)
    } else {
        (s, r)
    });
    lemma_listed(link, tree, pairs, a, b);
    pairs_agree_with_balls(link, tree, a, b);
    lemma_reported(ball, tree, sort, indices, distances, j);
}

/// A larger radius loses no pair.
pub proof fn a_larger_radius_loses_no_pair<S: Scalar>(
    tree: &Tree<S>,
    radius: S,
    larger: S,
    p: S,
    x: Seq<(usize, usize)>,
    y: Seq<(usize, usize)>,
)
    requires
        lawful::<S>(),
        tree.wf(),
        pairs_refusal(radius, p) is None,
        pairs_refusal(larger, p) is None,
        at_most(radius, larger),
        monotone(link_of(radius, p).m),
        lists_links(link_of(radius, p), tree, x),
        lists_links(link_of(larger, p), tree, y),
    ensures
        forall|pair: (usize, usize)| x.contains(pair) ==> #[trigger] y.contains(pair),
{
    let (small, large) = (link_of(radius, p), link_of(larger, p));
    let (links, more) = (small.found_in(tree), large.found_in(tree));
    lemma_reduce_monotone(small.m, radius, larger);
    lemma_same_items_contains(row_pairs(tree, links), x);
    lemma_same_items_contains(row_pairs(tree, more), y);
    assert forall|pair: (usize, usize)| x.contains(pair) implies #[trigger] y.contains(pair) by {
        assert(row_pairs(tree, links).contains(pair));
        let c = choose|c: int|
            0 <= c < row_pairs(tree, links).len() && row_pairs(tree, links)[c] == pair;
        let (i, j) = links[c];
        assert(small.near(tree, i, j));
        assert(large.near(tree, i, j));
        assert(more.contains((i, j)));
        let d = choose|d: int| 0 <= d < more.len() && more[d] == (i, j);
        assert(row_pairs(tree, more)[d] == pair);
    }
}

} // verus!
