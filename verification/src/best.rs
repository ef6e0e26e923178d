//! The best candidates of one query so far.

use crate::metric::{Dist, Metric};
use crate::perm::{lemma_same_items_contains, lemma_same_items_distinct, same_items};
use crate::scalar::{lawful, nonneg, Scalar};
use vstd::prelude::*;

verus! {

/// A candidate: the reduced distance of a row and its original number.
#[derive(Clone, Copy)]
pub struct Hit<S> {
    pub dist: Dist<S>,
    pub index: u32,
}

/// Nearer first; of two at the same distance, the smaller row number.
pub open spec fn before<S: Scalar>(a: Hit<S>, b: Hit<S>) -> bool {
    a.dist.value.key() < b.dist.value.key() || (a.dist.value.key() == b.dist.value.key() && a.index
        < b.index)
}

/// `hits` with `h` put behind every hit that comes before it.
pub open spec fn insert_sorted<S: Scalar>(hits: Seq<Hit<S>>, h: Hit<S>) -> Seq<Hit<S>>
    decreases hits.len(),
{
    if hits.len() == 0 || before(hits.last(), h) {
        hits.push(h)
    } else {
        insert_sorted(hits.drop_last(), h).push(hits.last())
    }
}

/// The best `k` of `hits` and `h`.
pub open spec fn place<S: Scalar>(hits: Seq<Hit<S>>, k: nat, h: Hit<S>) -> Seq<Hit<S>> {
    if hits.len() < k {
        insert_sorted(hits, h)
    } else if before(h, hits.last()) {
        insert_sorted(hits.drop_last(), h)
    } else {
        hits
    }
}

/// The distance that a candidate may not exceed, as a key: that of the worst of
/// `k` hits, at most `cutoff`.
pub open spec fn bound_key<S: Scalar>(hits: Seq<Hit<S>>, k: nat, cutoff: S) -> int {
    if hits.len() < k || cutoff.key() < hits.last().dist.value.key() {
        cutoff.key()
    } else {
        hits.last().dist.value.key()
    }
}

/// The plain distances of `k` slots: those of the hits, then infinity.
pub open spec fn distances_of<S: Scalar>(hits: Seq<Hit<S>>, k: nat, m: Metric<S>) -> Seq<S> {
    Seq::new(
        k,
        |j: int|
            if j < hits.len() {
                m.restore_spec(hits[j].dist.value)
            } else {
                S::infinity_spec()
            },
    )
}

/// The row numbers of `k` slots: those of the hits, then the number of points.
pub open spec fn indices_of<S: Scalar>(hits: Seq<Hit<S>>, k: nat, n_points: int) -> Seq<i64> {
    Seq::new(
        k,
        |j: int|
            if j < hits.len() {
                hits[j].index as i64
            } else {
                n_points as i64
            },
    )
}

/// Keeps the best candidates. One type keeps the one that the common `k == 1`
/// needs in two values, another keeps any number.
pub trait Best<S: Scalar>: Sized {
    spec fn hits(&self) -> Seq<Hit<S>>;

    spec fn cap(&self) -> nat;

    spec fn valid(&self) -> bool;

    /// The numbers of candidates that the type can keep.
    spec fn keeps(k: usize) -> bool;

    fn new(k: usize) -> (r: Self)
        requires
            Self::keeps(k),
            lawful::<S>(),
        ensures
            r.valid(),
            r.cap() == k,
            r.hits().len() == 0,
    ;

    fn reset(&mut self)
        requires
            old(self).valid(),
            lawful::<S>(),
        ensures
            final(self).valid(),
            final(self).cap() == old(self).cap(),
            final(self).hits().len() == 0,
    ;

    /// The distance of the worst kept candidate once all places are taken, at
    /// most `cutoff`.
    fn bound(&self, cutoff: Dist<S>) -> (r: Dist<S>)
        requires
            self.valid(),
            lawful::<S>(),
            !cutoff.value.nan(),
        ensures
            !r.value.nan(),
            r.value.key() == bound_key(self.hits(), self.cap(), cutoff.value),
    ;

    /// Takes the candidate up if it is among the best.
    fn consider(&mut self, dist: Dist<S>, index: u32)
        requires
            old(self).valid(),
            lawful::<S>(),
            nonneg(dist.value),
            index < u32::MAX,
        ensures
            final(self).valid(),
            final(self).cap() == old(self).cap(),
            final(self).hits() == place(old(self).hits(), old(self).cap(), (Hit { dist, index })),
    ;

    /// Writes out the kept candidates, nearest first, and fills up with infinity
    /// and the number of points.
    fn write_results(&self, out_d: &mut [S], out_i: &mut [i64], n_points: usize, m: Metric<S>)
        requires
            self.valid(),
            lawful::<S>(),
            m.valid(),
            self.cap() == old(out_d)@.len(),
            self.cap() == old(out_i)@.len(),
            n_points <= u32::MAX,
        ensures
            final(out_d)@ == distances_of(self.hits(), self.cap(), m),
            final(out_i)@ == indices_of(self.hits(), self.cap(), n_points as int),
    ;
}

/// The one best candidate.
pub struct Best1<S> {
    dist: Dist<S>,
    index: u32,
}

impl<S: Scalar> Best<S> for Best1<S> {
    closed spec fn hits(&self) -> Seq<Hit<S>> {
        if self.index == u32::MAX {
            Seq::empty()
        } else {
            seq![Hit { dist: self.dist, index: self.index }]
        }
    }

    open spec fn cap(&self) -> nat {
        1
    }

    closed spec fn valid(&self) -> bool {
        &&& nonneg(self.dist.value)
        &&& self.index == u32::MAX ==> self.dist == Dist::<S>::infinity_spec()
    }

    open spec fn keeps(k: usize) -> bool {
        k == 1
    }

    fn new(k: usize) -> (r: Self) {
        Best1 { dist: Dist::infinity(), index: u32::MAX }
    }

    fn reset(&mut self) {
        self.dist = Dist::infinity();
        self.index = u32::MAX;
    }

    fn bound(&self, cutoff: Dist<S>) -> (r: Dist<S>) {
        self.dist.min(cutoff)
    }

    fn consider(&mut self, dist: Dist<S>, index: u32) {
        let ghost old_hits = self.hits();
        let ghost h = Hit { dist, index };
        proof {
            reveal_with_fuel(insert_sorted, 2);
        }
        if dist.lt(self.dist) || (dist.same(self.dist) && index < self.index) {
            self.dist = dist;
            self.index = index;
            assert(self.hits() =~= place(old_hits, 1, h)) by {
                if old_hits.len() == 1 {
                    assert(before(h, old_hits.last()));
                    assert(old_hits.drop_last() =~= Seq::empty());
                }
            }
        }
        assert(self.hits() =~= place(old_hits, 1, h));
    }

    fn write_results(&self, out_d: &mut [S], out_i: &mut [i64], n_points: usize, m: Metric<S>) {
        if self.index != u32::MAX {
            out_d[0] = m.restore(self.dist);
            out_i[0] = self.index as i64;
        } else {
            out_d[0] = S::infinity();
            out_i[0] = n_points as i64;
        }
        assert(out_d@ =~= distances_of(self.hits(), self.cap(), m));
        assert(out_i@ =~= indices_of(self.hits(), self.cap(), n_points as int));
    }
}

/// The `k` best candidates, nearest first.
pub struct BestK<S> {
    k: usize,
    dists: Vec<Dist<S>>,
    ids: Vec<u32>,
}

/// The candidates that two parallel sequences hold.
spec fn zip_hits<S>(dists: Seq<Dist<S>>, ids: Seq<u32>) -> Seq<Hit<S>> {
    Seq::new(dists.len(), |i: int| Hit { dist: dists[i], index: ids[i] })
}

/// Insertion behind the first `pos` hits, all of which come before `h` while the
/// next does not, is insertion in order.
proof fn lemma_insert_at<S: Scalar>(hits: Seq<Hit<S>>, h: Hit<S>, pos: int)
    requires
        0 <= pos <= hits.len(),
        pos > 0 ==> before(hits[pos - 1], h),
        forall|i: int| pos <= i < hits.len() ==> !before(#[trigger] hits[i], h),
    ensures
        insert_sorted(hits, h) == hits.insert(pos, h),
    decreases hits.len(),
{
    if pos == hits.len() {
        assert(hits.push(h) =~= hits.insert(pos, h));
    } else {
        lemma_insert_at(hits.drop_last(), h, pos);
        assert(hits.drop_last().insert(pos, h).push(hits.last()) =~= hits.insert(pos, h));
    }
}

impl<S: Scalar> Best<S> for BestK<S> {
    closed spec fn hits(&self) -> Seq<Hit<S>> {
        zip_hits(self.dists@, self.ids@)
    }

    closed spec fn cap(&self) -> nat {
        self.k as nat
    }

    closed spec fn valid(&self) -> bool {
        &&& self.k > 0
        &&& self.dists@.len() == self.ids@.len()
        &&& self.dists@.len() <= self.k
        &&& forall|i: int| 0 <= i < self.dists@.len() ==> nonneg((#[trigger] self.dists@[i]).value)
    }

    open spec fn keeps(k: usize) -> bool {
        k > 0
    }

    fn new(k: usize) -> (r: Self) {
        BestK { k, dists: Vec::with_capacity(k), ids: Vec::with_capacity(k) }
    }

    fn reset(&mut self) {
        self.dists.clear();
        self.ids.clear();
    }

    fn bound(&self, cutoff: Dist<S>) -> (r: Dist<S>) {
        if self.dists.len() < self.k {
            cutoff
        } else {
            self.dists[self.k - 1].min(cutoff)
        }
    }

    fn consider(&mut self, dist: Dist<S>, index: u32) {
        let ghost old_hits = self.hits();
        let ghost h = Hit { dist, index };
        if self.dists.len() == self.k {
            let worst_dist = self.dists[self.k - 1];
            if worst_dist.lt(dist) || (dist.same(worst_dist) && self.ids[self.k - 1] <= index) {
                assert(!before(h, old_hits.last()));
                return;
            }
            assert(before(h, old_hits.last()));
            self.dists.pop();
            self.ids.pop();
        }
        let ghost kept = zip_hits(self.dists@, self.ids@);
        assert(kept =~= if old_hits.len() == self.k {
            old_hits.drop_last()
        } else {
            old_hits
        });
        let mut pos: usize = self.dists.len();
        while pos > 0
            invariant
                pos <= self.dists@.len(),
                self.dists@.len() == self.ids@.len(),
                self.dists@.len() < self.k,
                kept == zip_hits(self.dists@, self.ids@),
                h == (Hit { dist, index }),
                nonneg(dist.value),
                forall|i: int|
                    0 <= i < self.dists@.len() ==> nonneg((#[trigger] self.dists@[i]).value),
                forall|i: int| pos <= i < kept.len() ==> !before(#[trigger] kept[i], h),
            ensures
                pos <= self.dists@.len(),
                pos > 0 ==> before(kept[pos - 1], h),
                forall|i: int| pos <= i < kept.len() ==> !before(#[trigger] kept[i], h),
            decreases pos,
        {
            let prev_dist = self.dists[pos - 1];
            if prev_dist.lt(dist) || (prev_dist.same(dist) && self.ids[pos - 1] < index) {
                break;
            }
            assert(!before(kept[pos - 1], h));
            pos -= 1;
        }
        proof {
            lemma_insert_at(kept, h, pos as int);
        }
        let ghost (was_dists, was_ids) = (self.dists@, self.ids@);
        self.dists.insert(pos, dist);
        self.ids.insert(pos, index);
        proof {
            assert(zip_hits(self.dists@, self.ids@) =~= kept.insert(pos as int, h));
            assert forall|i: int| 0 <= i < self.dists@.len() implies nonneg(
                (#[trigger] self.dists@[i]).value,
            ) by {
                if i < pos {
                    assert(self.dists@[i] == was_dists[i]);
                } else if i > pos {
                    assert(self.dists@[i] == was_dists[i - 1]);
                }
            }
        }
    }

    fn write_results(&self, out_d: &mut [S], out_i: &mut [i64], n_points: usize, m: Metric<S>) {
        let n = out_d.len();
        let mut j: usize = 0;
        while j < n
            invariant
                lawful::<S>(),
                m.valid(),
                self.valid(),
                n_points <= u32::MAX,
                j <= n,
                n == self.cap(),
                out_d@.len() == n,
                out_i@.len() == n,
                forall|i: int|
                    0 <= i < j ==> #[trigger] out_d@[i] == distances_of(
                        self.hits(),
                        self.cap(),
                        m,
                    )[i],
                forall|i: int|
                    0 <= i < j ==> #[trigger] out_i@[i] == indices_of(
                        self.hits(),
                        self.cap(),
                        n_points as int,
                    )[i],
            decreases n - j,
        {
            if j < self.dists.len() {
                out_d[j] = m.restore(self.dists[j]);
                out_i[j] = self.ids[j] as i64;
            } else {
                out_d[j] = S::infinity();
                out_i[j] = n_points as i64;
            }
            j += 1;
        }
        assert(out_d@ =~= distances_of(self.hits(), self.cap(), m));
        assert(out_i@ =~= indices_of(self.hits(), self.cap(), n_points as int));
    }
}

/// Nearest first, no two at one place of the order.
pub open spec fn ranked<S: Scalar>(hits: Seq<Hit<S>>) -> bool {
    forall|i: int, j: int| 0 <= i < j < hits.len() ==> before(#[trigger] hits[i], #[trigger] hits[j])
}

/// `h` is kept, or `k` candidates are and `h` comes before none of them.
pub open spec fn settled<S: Scalar>(hits: Seq<Hit<S>>, k: nat, h: Hit<S>) -> bool {
    hits.contains(h) || (hits.len() >= k && !before(h, hits.last()))
}

/// No kept candidate has the row number of `h`.
pub open spec fn unseen<S: Scalar>(hits: Seq<Hit<S>>, h: Hit<S>) -> bool {
    forall|i: int| 0 <= i < hits.len() ==> (#[trigger] hits[i]).index != h.index
}

/// What insertion in order keeps and adds.
proof fn lemma_insert_sorted<S: Scalar>(hits: Seq<Hit<S>>, h: Hit<S>)
    requires
        ranked(hits),
        unseen(hits, h),
    ensures
        ranked(insert_sorted(hits, h)),
        insert_sorted(hits, h).len() == hits.len() + 1,
        insert_sorted(hits, h).contains(h),
        forall|i: int|
            0 <= i < hits.len() ==> insert_sorted(hits, h).contains(#[trigger] hits[i]),
        forall|i: int|
            0 <= i <= hits.len() ==> (#[trigger] insert_sorted(hits, h)[i]) == h || hits.contains(
                insert_sorted(hits, h)[i],
            ),
    decreases hits.len(),
{
    let r = insert_sorted(hits, h);
    if hits.len() == 0 || before(hits.last(), h) {
        assert forall|i: int, j: int| 0 <= i < j < r.len() implies before(
            #[trigger] r[i],
            #[trigger] r[j],
        ) by {
            if j == hits.len() && i < hits.len() - 1 {
                assert(before(hits[i], hits[hits.len() - 1]));
            }
        }
        assert(r[hits.len() as int] == h);
        assert forall|i: int| 0 <= i < hits.len() implies r.contains(#[trigger] hits[i]) by {
            assert(r[i] == hits[i]);
        }
        assert forall|i: int| 0 <= i <= hits.len() implies (#[trigger] r[i]) == h
            || hits.contains(r[i]) by {
            if i < hits.len() {
                assert(r[i] == hits[i]);
            }
        }
    } else {
        let rest = hits.drop_last();
        let inner = insert_sorted(rest, h);
        let last = hits.last();
        assert(last.index != h.index);
        lemma_insert_sorted(rest, h);
        assert forall|i: int, j: int| 0 <= i < j < r.len() implies before(
            #[trigger] r[i],
            #[trigger] r[j],
        ) by {
            assert(r[i] == inner[i]);
            if j == hits.len() {
                if inner[i] != h {
                    let c = choose|c: int| 0 <= c < rest.len() && rest[c] == inner[i];
                    assert(before(hits[c], hits[hits.len() - 1]));
                }
            } else {
                assert(r[j] == inner[j]);
            }
        }
        let at = choose|c: int| 0 <= c < inner.len() && inner[c] == h;
        assert(r[at] == h);
        assert forall|i: int| 0 <= i < hits.len() implies r.contains(#[trigger] hits[i]) by {
            if i < rest.len() {
                assert(rest[i] == hits[i]);
                let c = choose|c: int| 0 <= c < inner.len() && inner[c] == rest[i];
                assert(r[c] == hits[i]);
            } else {
                assert(r[hits.len() as int] == last);
            }
        }
        assert forall|i: int| 0 <= i <= hits.len() implies (#[trigger] r[i]) == h
            || hits.contains(r[i]) by {
            if i < hits.len() {
                assert(r[i] == inner[i]);
                if inner[i] != h {
                    let c = choose|c: int| 0 <= c < rest.len() && rest[c] == inner[i];
                    assert(hits[c] == r[i]);
                }
            } else {
                assert(r[i] == hits[hits.len() - 1]);
            }
        }
    }
}

/// Taking a candidate up keeps the order, settles the candidate, leaves settled
/// what was, and never loosens the bound.
pub proof fn lemma_place<S: Scalar>(hits: Seq<Hit<S>>, k: nat, h: Hit<S>, cutoff: S)
    requires
        ranked(hits),
        hits.len() <= k,
        k > 0,
        unseen(hits, h),
    ensures
        ranked(place(hits, k, h)),
        place(hits, k, h).len() <= k,
        place(hits, k, h).len() == if hits.len() < k {
            hits.len() + 1
        } else {
            hits.len()
        },
        settled(place(hits, k, h), k, h),
        forall|i: int|
            0 <= i < place(hits, k, h).len() ==> (#[trigger] place(hits, k, h)[i]) == h
                || hits.contains(place(hits, k, h)[i]),
        forall|g: Hit<S>| settled(hits, k, g) ==> #[trigger] settled(place(hits, k, h), k, g),
        bound_key(place(hits, k, h), k, cutoff) <= bound_key(hits, k, cutoff),
{
    let r = place(hits, k, h);
    if hits.len() < k {
        lemma_insert_sorted(hits, h);
        assert forall|g: Hit<S>| settled(hits, k, g) implies #[trigger] settled(r, k, g) by {
            let c = choose|c: int| 0 <= c < hits.len() && hits[c] == g;
            assert(r.contains(hits[c]));
        }
    } else if before(h, hits.last()) {
        let rest = hits.drop_last();
        let last = hits.last();
        lemma_insert_sorted(rest, h);
        assert(r.last() == r[r.len() - 1]);
        assert(before(r.last(), last)) by {
            if r.last() != h {
                let c = choose|c: int| 0 <= c < rest.len() && rest[c] == r.last();
                assert(before(hits[c], hits[hits.len() - 1]));
            }
        }
        assert forall|g: Hit<S>| settled(hits, k, g) implies #[trigger] settled(r, k, g) by {
            if hits.contains(g) {
                let c = choose|c: int| 0 <= c < hits.len() && hits[c] == g;
                if c < rest.len() {
                    assert(r.contains(rest[c]));
                }
            }
        }
        assert forall|i: int| 0 <= i < r.len() implies (#[trigger] r[i]) == h || hits.contains(
            r[i],
        ) by {
            if r[i] != h {
                let c = choose|c: int| 0 <= c < rest.len() && rest[c] == r[i];
                assert(hits[c] == r[i]);
            }
        }
    }
}

/// No two candidates have one row number.
pub open spec fn rows_differ<S>(offers: Seq<Hit<S>>) -> bool {
    forall|i: int, j: int|
        0 <= i < j < offers.len() ==> (#[trigger] offers[i]).index != (#[trigger] offers[j]).index
}

/// What is kept after candidates came up, one after the other.
pub open spec fn kept_of<S: Scalar>(offers: Seq<Hit<S>>, k: nat) -> Seq<Hit<S>>
    decreases offers.len(),
{
    if offers.len() == 0 {
        Seq::empty()
    } else {
        place(kept_of(offers.drop_last(), k), k, offers.last())
    }
}

/// `hits` are the best `k` of `offers`, nearest first: all of them if there are no
/// more than `k`, and otherwise `k` of them that none of the others comes before.
pub open spec fn best_of<S: Scalar>(offers: Seq<Hit<S>>, k: nat, hits: Seq<Hit<S>>) -> bool {
    &&& ranked(hits)
    &&& hits.len() <= k
    &&& forall|i: int| 0 <= i < hits.len() ==> offers.contains(#[trigger] hits[i])
    &&& forall|i: int| 0 <= i < offers.len() ==> settled(hits, k, #[trigger] offers[i])
}

/// However many candidates come up, the best of them are kept.
pub proof fn the_best_of_many_are_kept<S: Scalar>(offers: Seq<Hit<S>>, k: nat)
    requires
        k > 0,
        rows_differ(offers),
    ensures
        best_of(offers, k, kept_of(offers, k)),
        kept_of(offers, k).len() == if offers.len() < k {
            offers.len()
        } else {
            k
        },
    decreases offers.len(),
{
    if offers.len() > 0 {
        let (rest, h) = (offers.drop_last(), offers.last());
        let (was, now) = (kept_of(rest, k), kept_of(offers, k));
        the_best_of_many_are_kept(rest, k);
        assert(unseen(was, h)) by {
            assert forall|i: int| 0 <= i < was.len() implies (#[trigger] was[i]).index
                != h.index by {
                let c = choose|c: int| 0 <= c < rest.len() && rest[c] == was[i];
                assert(offers[c].index != offers[offers.len() - 1].index);
            }
        }
        lemma_place(was, k, h, h.dist.value);
        assert forall|i: int| 0 <= i < now.len() implies offers.contains(#[trigger] now[i]) by {
            if now[i] == h {
                assert(offers[offers.len() - 1] == now[i]);
            } else {
                let c = choose|c: int| 0 <= c < was.len() && was[c] == now[i];
                assert(rest.contains(was[c]));
                let d = choose|d: int| 0 <= d < rest.len() && rest[d] == was[c];
                assert(offers[d] == now[i]);
            }
        }
        assert forall|i: int| 0 <= i < offers.len() implies settled(
            now,
            k,
            #[trigger] offers[i],
        ) by {
            if i < rest.len() {
                assert(settled(was, k, rest[i]));
            }
        }
    }
}

/// Up to one place, two lists of the best candidates agree.
proof fn lemma_best_agree<S: Scalar>(
    a: Seq<Hit<S>>,
    b: Seq<Hit<S>>,
    k: nat,
    x: Seq<Hit<S>>,
    y: Seq<Hit<S>>,
    n: int,
)
    requires
        rows_differ(a),
        forall|h: Hit<S>| #[trigger] a.contains(h) <==> b.contains(h),
        best_of(a, k, x),
        best_of(b, k, y),
        0 <= n <= x.len(),
        n <= y.len(),
    ensures
        forall|i: int| 0 <= i < n ==> #[trigger] x[i] == y[i],
    decreases n,
{
    if n > 0 {
        let i = n - 1;
        lemma_best_agree(a, b, k, x, y, i);
        assert(a.contains(x[i]) && b.contains(x[i]));
        assert(b.contains(y[i]) && a.contains(y[i]));
        let p = choose|p: int| 0 <= p < b.len() && b[p] == x[i];
        let q = choose|q: int| 0 <= q < a.len() && a[q] == y[i];
        assert(settled(y, k, b[p]) && settled(x, k, a[q]));
        assert(!before(x[i], y[i])) by {
            if y.contains(x[i]) {
                let c = choose|c: int| 0 <= c < y.len() && y[c] == x[i];
                if c < i {
                    assert(before(x[c], x[i]));
                } else if c > i {
                    assert(before(y[i], y[c]));
                }
            } else if i < y.len() - 1 {
                assert(before(y[i], y[y.len() - 1]));
            }
        }
        assert(!before(y[i], x[i])) by {
            if x.contains(y[i]) {
                let c = choose|c: int| 0 <= c < x.len() && x[c] == y[i];
                if c < i {
                    assert(before(y[c], y[i]));
                } else if c > i {
                    assert(before(x[i], x[c]));
                }
            } else if i < x.len() - 1 {
                assert(before(x[i], x[x.len() - 1]));
            }
        }
        let r = choose|r: int| 0 <= r < a.len() && a[r] == x[i];
        assert(a[r].index == a[q].index);
        if r < q {
            assert(a[r].index != a[q].index);
        } else if q < r {
            assert(a[q].index != a[r].index);
        }
    }
}

proof fn lemma_rows_differ_rearranged<S>(a: Seq<Hit<S>>, b: Seq<Hit<S>>)
    requires
        rows_differ(a),
        same_items(a, b),
    ensures
        rows_differ(b),
{
    lemma_same_items_contains(a, b);
    assert(a.no_duplicates()) by {
        assert forall|i: int, j: int| 0 <= i < a.len() && 0 <= j < a.len() && i != j implies a[i]
            != a[j] by {
            if i < j {
                assert(a[i].index != a[j].index);
            } else {
                assert(a[j].index != a[i].index);
            }
        }
    }
    lemma_same_items_distinct(a, b);
    assert forall|i: int, j: int| 0 <= i < j < b.len() implies (#[trigger] b[i]).index != (
    #[trigger] b[j]).index by {
        assert(b.contains(b[i]) && b.contains(b[j]));
        assert(a.contains(b[i]) && a.contains(b[j]));
        let p = choose|p: int| 0 <= p < a.len() && a[p] == b[i];
        let q = choose|q: int| 0 <= q < a.len() && a[q] == b[j];
        if p < q {
            assert(a[p].index != a[q].index);
        } else if q < p {
            assert(a[q].index != a[p].index);
        }
    }
}

/// What is kept does not depend on the order in which candidates come up.
pub proof fn the_order_of_candidates_does_not_matter<S: Scalar>(
    a: Seq<Hit<S>>,
    b: Seq<Hit<S>>,
    k: nat,
)
    requires
        k > 0,
        rows_differ(a),
        same_items(a, b),
    ensures
        kept_of(a, k) == kept_of(b, k),
{
    lemma_rows_differ_rearranged(a, b);
    lemma_same_items_contains(a, b);
    the_best_of_many_are_kept(a, k);
    the_best_of_many_are_kept(b, k);
    let (x, y) = (kept_of(a, k), kept_of(b, k));
    lemma_best_agree(a, b, k, x, y, x.len() as int);
    assert(x =~= y);
}

/// The place of a candidate of one list in another one that holds every candidate
/// up to it: not before its own place.
pub proof fn lemma_no_earlier<S: Scalar>(x: Seq<Hit<S>>, y: Seq<Hit<S>>, j: int) -> (c: int)
    requires
        ranked(x),
        ranked(y),
        0 <= j < y.len(),
        forall|i: int| 0 <= i <= j ==> x.contains(#[trigger] y[i]),
    ensures
        j <= c < x.len(),
        x[c] == y[j],
    decreases j,
{
    let c = choose|c: int| 0 <= c < x.len() && x[c] == y[j];
    assert(x.contains(y[j]));
    if j > 0 {
        let d = lemma_no_earlier(x, y, j - 1);
        assert(before(y[j - 1], y[j]));
        if c < d {
            assert(before(x[c], x[d]));
        }
    }
    c
}

} // verus!
