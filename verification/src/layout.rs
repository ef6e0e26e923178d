//! Blocks of points and their bounding boxes.
//!
//! Points lie in flat row-major arrays. [`rows_of`] is the mathematical view of
//! such an array: the sequence of its rows. Boxes lie in flat arrays too, one
//! row `[lo | hi]` of twice the width per box.

use crate::scalar::{at_most, finite, lawful, less, max, max_spec, nonneg, Scalar};
use vstd::prelude::*;

verus! {

/// The rows of a flat array.
pub open spec fn rows_of<T>(flat: Seq<T>, ndim: int) -> Seq<Seq<T>> {
    Seq::new((flat.len() as int / ndim) as nat, |i: int| flat.subrange(i * ndim, i * ndim + ndim))
}

/// `flat` is `n` rows of `ndim` values.
pub open spec fn is_block<T>(flat: Seq<T>, n: int, ndim: int) -> bool {
    0 < ndim && 0 <= n && flat.len() == n * ndim
}

/// `flat` holds whole rows.
pub open spec fn whole_rows<T>(flat: Seq<T>, ndim: int) -> bool {
    is_block(flat, rows_of(flat, ndim).len() as int, ndim)
}

pub proof fn lemma_row_in_block(i: int, n: int, ndim: int)
    requires
        0 <= i < n,
        0 < ndim,
    ensures
        0 <= i * ndim,
        i * ndim + ndim <= n * ndim,
        i * ndim + ndim == (i + 1) * ndim,
{
    assert(0 <= i * ndim && i * ndim + ndim == (i + 1) * ndim && (i + 1) * ndim <= n * ndim)
        by (nonlinear_arith)
        requires
            0 <= i < n,
            0 < ndim,
    ;
}

pub proof fn lemma_block_len<T>(flat: Seq<T>, n: int, ndim: int)
    requires
        is_block(flat, n, ndim),
    ensures
        rows_of(flat, ndim).len() == n,
{
    assert((n * ndim) / ndim == n) by (nonlinear_arith)
        requires
            0 < ndim,
    ;
}

/// The coordinates of a row.
pub proof fn lemma_row_at<T>(flat: Seq<T>, n: int, ndim: int, i: int)
    requires
        is_block(flat, n, ndim),
        0 <= i < n,
    ensures
        rows_of(flat, ndim).len() == n,
        0 <= i * ndim,
        i * ndim + ndim <= flat.len(),
        rows_of(flat, ndim)[i] == flat.subrange(i * ndim, i * ndim + ndim),
        rows_of(flat, ndim)[i].len() == ndim,
        forall|d: int| 0 <= d < ndim ==> #[trigger] rows_of(flat, ndim)[i][d] == flat[i * ndim + d],
{
    lemma_block_len(flat, n, ndim);
    lemma_row_in_block(i, n, ndim);
}

/// A run of rows is the rows of a run.
pub proof fn lemma_rows_subrange<T>(flat: Seq<T>, n: int, ndim: int, a: int, b: int)
    requires
        is_block(flat, n, ndim),
        0 <= a <= b <= n,
    ensures
        0 <= a * ndim <= b * ndim <= flat.len(),
        is_block(flat.subrange(a * ndim, b * ndim), b - a, ndim),
        rows_of(flat.subrange(a * ndim, b * ndim), ndim) == rows_of(flat, ndim).subrange(a, b),
{
    assert(0 <= a * ndim <= b * ndim <= n * ndim && b * ndim - a * ndim == (b - a) * ndim)
        by (nonlinear_arith)
        requires
            0 <= a <= b <= n,
            0 < ndim,
    ;
    let part = flat.subrange(a * ndim, b * ndim);
    lemma_block_len(flat, n, ndim);
    lemma_block_len(part, b - a, ndim);
    assert forall|i: int| 0 <= i < b - a implies rows_of(part, ndim)[i] == rows_of(
        flat,
        ndim,
    ).subrange(a, b)[i] by {
        lemma_row_in_block(i, b - a, ndim);
        lemma_row_in_block(a + i, n, ndim);
        assert((a + i) * ndim == a * ndim + i * ndim) by (nonlinear_arith);
        assert(part.subrange(i * ndim, i * ndim + ndim) =~= flat.subrange(
            (a + i) * ndim,
            (a + i) * ndim + ndim,
        ));
    }
    assert(rows_of(part, ndim) =~= rows_of(flat, ndim).subrange(a, b));
}

/// A row and a column name one place of a flat array.
pub proof fn lemma_place(flat_len: int, n: int, ndim: int, f: int) -> (r: (int, int))
    requires
        0 < ndim,
        flat_len == n * ndim,
        0 <= f < flat_len,
    ensures
        0 <= r.0 < n,
        0 <= r.1 < ndim,
        f == r.0 * ndim + r.1,
        r.1 == f % ndim,
{
    let i = f / ndim;
    let d = f % ndim;
    assert(f == i * ndim + d && 0 <= d < ndim && 0 <= i && i < n) by (nonlinear_arith)
        requires
            0 < ndim,
            0 <= f < n * ndim,
            i == f / ndim,
            d == f % ndim,
    ;
    (i, d)
}

/// All values of a block are finite exactly if all coordinates of its rows are.
pub proof fn lemma_rows_finite<S: Scalar>(flat: Seq<S>, n: int, ndim: int)
    requires
        is_block(flat, n, ndim),
    ensures
        crate::scalar::all_finite_spec(flat) <==> rows_finite(rows_of(flat, ndim), ndim),
{
    lemma_block_len(flat, n, ndim);
    if crate::scalar::all_finite_spec(flat) {
        assert forall|i: int, d: int| 0 <= i < n && 0 <= d < ndim implies finite(
            #[trigger] rows_of(flat, ndim)[i][d],
        ) by {
            lemma_row_at(flat, n, ndim, i);
        }
    }
    if rows_finite(rows_of(flat, ndim), ndim) {
        assert forall|f: int| 0 <= f < flat.len() implies finite(#[trigger] flat[f]) by {
            let (i, d) = lemma_place(flat.len() as int, n, ndim, f);
            lemma_row_at(flat, n, ndim, i);
            assert(finite(rows_of(flat, ndim)[i][d]));
        }
    }
}

/// Every coordinate of every row is finite.
pub open spec fn rows_finite<S: Scalar>(rows: Seq<Seq<S>>, ndim: int) -> bool {
    forall|i: int, d: int|
        0 <= i < rows.len() && 0 <= d < ndim ==> finite(#[trigger] rows[i][d])
}

/// How many values a row holds, known to the compiler or not.
pub trait Width: Copy + Send + Sync {
    spec fn ndim_spec(self) -> usize;

    fn ndim(self) -> (r: usize)
        ensures
            r == self.ndim_spec(),
    ;
}

#[derive(Clone, Copy)]
pub struct Dyn(pub usize);

#[derive(Clone, Copy)]
pub struct Fixed<const N: usize>;

impl Width for Dyn {
    open spec fn ndim_spec(self) -> usize {
        self.0
    }

    fn ndim(self) -> (r: usize) {
        self.0
    }
}

impl<const N: usize> Width for Fixed<N> {
    open spec fn ndim_spec(self) -> usize {
        N
    }

    fn ndim(self) -> (r: usize) {
        N
    }
}

/// A block of rows.
#[derive(Clone, Copy)]
pub struct Rows<'a, S, W> {
    pub flat: &'a [S],
    pub width: W,
}

impl<'a, S: Scalar, W: Width> Rows<'a, S, W> {
    /// The block holds whole rows.
    pub open spec fn valid(self) -> bool {
        whole_rows(self.flat@, self.width.ndim_spec() as int)
    }

    pub open spec fn view(self) -> Seq<Seq<S>> {
        rows_of(self.flat@, self.width.ndim_spec() as int)
    }

    pub fn new(flat: &'a [S], width: W) -> (r: Self)
        ensures
            r == (Rows { flat, width }),
    {
        Rows { flat, width }
    }

    pub fn ndim(self) -> (r: usize)
        ensures
            r == self.width.ndim_spec(),
    {
        self.width.ndim()
    }

    /// The number of rows.
    pub fn len(self) -> (r: usize)
        requires
            self.valid(),
        ensures
            r == self@.len(),
            is_block(self.flat@, r as int, self.width.ndim_spec() as int),
    {
        self.flat.len() / self.width.ndim()
    }

    /// The rows from `start` to `end`.
    pub fn slice(self, start: usize, end: usize) -> (r: Self)
        requires
            self.valid(),
            start <= end <= self@.len(),
        ensures
            r.valid(),
            r.width == self.width,
            r@ == self@.subrange(start as int, end as int),
    {
        let d = self.width.ndim();
        proof {
            let n = self@.len() as int;
            lemma_block_len(self.flat@, n, d as int);
            lemma_rows_subrange(self.flat@, n, d as int, start as int, end as int);
            assert(self.flat@.len() == self.flat.len());
        }
        let flat = vstd::slice::slice_subrange(self.flat, start * d, end * d);
        proof {
            lemma_block_len(flat@, end - start, d as int);
        }
        Rows { flat, width: self.width }
    }

    /// One row.
    pub fn row(self, i: usize) -> (r: &'a [S])
        requires
            self.valid(),
            i < self@.len(),
        ensures
            r@ == self@[i as int],
            r@.len() == self.width.ndim_spec(),
    {
        let d = self.width.ndim();
        proof {
            let n = self@.len() as int;
            lemma_block_len(self.flat@, n, d as int);
            lemma_row_at(self.flat@, n, d as int, i as int);
            assert(self.flat@.len() == self.flat.len());
            lemma_row_in_block(i as int, n, d as int);
        }
        let start = i * d;
        vstd::slice::slice_subrange(self.flat, start, start + d)
    }
}

/// Row `index` of a flat array.
pub fn point<S>(data: &[S], ndim: usize, index: usize) -> (r: &[S])
    requires
        index * ndim + ndim <= data@.len(),
    ensures
        r@ == data@.subrange(index * ndim, index * ndim + ndim),
{
    proof {
        assert(data@.len() == data.len());
        assert(0 <= index * ndim) by (nonlinear_arith)
            requires
                0 <= index,
                0 <= ndim,
        ;
    }
    let start = index * ndim;
    vstd::slice::slice_subrange(data, start, start + ndim)
}

/// A flat array with two of its rows exchanged.
pub open spec fn swapped<T>(rows: Seq<T>, a: int, b: int) -> Seq<T> {
    rows.update(a, rows[b]).update(b, rows[a])
}

/// Exchanges rows `a` and `b` of a flat array.
pub fn swap_rows<S: Copy>(flat: &mut [S], ndim: usize, a: usize, b: usize)
    requires
        whole_rows(old(flat)@, ndim as int),
        a < rows_of(old(flat)@, ndim as int).len(),
        b < rows_of(old(flat)@, ndim as int).len(),
    ensures
        whole_rows(final(flat)@, ndim as int),
        final(flat)@.len() == old(flat)@.len(),
        rows_of(final(flat)@, ndim as int) == swapped(
            rows_of(old(flat)@, ndim as int),
            a as int,
            b as int,
        ),
{
    let ghost before = flat@;
    let ghost n = rows_of(flat@, ndim as int).len() as int;
    proof {
        lemma_row_at(before, n, ndim as int, a as int);
        lemma_row_at(before, n, ndim as int, b as int);
    }
    if a == b {
        assert(rows_of(before, ndim as int) =~= swapped(
            rows_of(before, ndim as int),
            a as int,
            b as int,
        ));
        return;
    }
    assert(flat@.len() == flat.len());
    let pa = a * ndim;
    let pb = b * ndim;
    proof {
        if a < b {
            lemma_row_in_block(a as int, b as int, ndim as int);
        } else {
            lemma_row_in_block(b as int, a as int, ndim as int);
        }
    }
    let mut d: usize = 0;
    while d < ndim
        invariant
            d <= ndim,
            pa == a * ndim,
            pb == b * ndim,
            flat@.len() == before.len(),
            0 <= pa,
            flat@.len() == flat.len(),
            pa + ndim <= before.len(),
            pb + ndim <= before.len(),
            pa + ndim <= pb || pb + ndim <= pa,
            forall|f: int|
                0 <= f < before.len() ==> #[trigger] flat@[f] == (if pa <= f < pa + d {
                    before[f - pa + pb]
                } else if pb <= f < pb + d {
                    before[f - pb + pa]
                } else {
                    before[f]
                }),
        decreases ndim - d,
    {
        let x = flat[pa + d];
        let y = flat[pb + d];
        flat[pa + d] = y;
        flat[pb + d] = x;
        d += 1;
    }
    proof {
        let after = flat@;
        let w = ndim as int;
        lemma_block_len(before, n, w);
        lemma_block_len(after, n, w);
        let want = swapped(rows_of(before, w), a as int, b as int);
        assert forall|i: int| 0 <= i < n implies rows_of(after, w)[i] == want[i] by {
            lemma_row_at(before, n, w, i);
            lemma_row_at(after, n, w, i);
            if i < a {
                lemma_row_in_block(i, a as int, w);
            } else if i > a {
                lemma_row_in_block(a as int, i, w);
            }
            if i < b {
                lemma_row_in_block(i, b as int, w);
            } else if i > b {
                lemma_row_in_block(b as int, i, w);
            }
            assert(rows_of(after, w)[i] =~= want[i]);
        }
        assert(rows_of(after, w) =~= want);
    }
}

/// Writes `row` over row `i` of a flat array.
pub fn set_row<S: Copy>(flat: &mut [S], ndim: usize, i: usize, row: &[S])
    requires
        whole_rows(old(flat)@, ndim as int),
        i < rows_of(old(flat)@, ndim as int).len(),
        row@.len() == ndim,
    ensures
        final(flat)@.len() == old(flat)@.len(),
        rows_of(final(flat)@, ndim as int) == rows_of(old(flat)@, ndim as int).update(
            i as int,
            row@,
        ),
{
    let ghost before = flat@;
    let ghost w = ndim as int;
    let ghost n = rows_of(flat@, w).len() as int;
    proof {
        lemma_row_at(before, n, w, i as int);
        assert(flat@.len() == flat.len());
    }
    let base = i * ndim;
    let mut d: usize = 0;
    while d < ndim
        invariant
            d <= ndim,
            ndim == row@.len(),
            flat@.len() == before.len(),
            flat@.len() == flat.len(),
            base + ndim <= before.len(),
            forall|f: int|
                0 <= f < before.len() ==> #[trigger] flat@[f] == (if base <= f < base + d {
                    row@[f - base]
                } else {
                    before[f]
                }),
        decreases ndim - d,
    {
        flat[base + d] = row[d];
        d += 1;
    }
    proof {
        let after = flat@;
        let want = rows_of(before, w).update(i as int, row@);
        lemma_block_len(after, n, w);
        assert forall|j: int| 0 <= j < n implies rows_of(after, w)[j] == want[j] by {
            lemma_row_at(before, n, w, j);
            lemma_row_at(after, n, w, j);
            if j < i {
                lemma_row_in_block(j, i as int, w);
            } else if j > i {
                lemma_row_in_block(i as int, j, w);
            }
            assert(rows_of(after, w)[j] =~= want[j]);
        }
        assert(rows_of(after, w) =~= want);
    }
}

/// A block that differs from another in one row only has the other rows of it.
pub proof fn lemma_one_row_differs<T>(before: Seq<T>, after: Seq<T>, n: int, ndim: int, i: int)
    requires
        is_block(before, n, ndim),
        after.len() == before.len(),
        0 <= i < n,
        forall|f: int|
            0 <= f < before.len() && !(i * ndim <= f < i * ndim + ndim) ==> #[trigger] after[f]
                == before[f],
    ensures
        rows_of(after, ndim) == rows_of(before, ndim).update(
            i,
            after.subrange(i * ndim, i * ndim + ndim),
        ),
{
    let want = rows_of(before, ndim).update(i, after.subrange(i * ndim, i * ndim + ndim));
    lemma_block_len(before, n, ndim);
    lemma_block_len(after, n, ndim);
    assert forall|j: int| 0 <= j < n implies rows_of(after, ndim)[j] == want[j] by {
        lemma_row_at(before, n, ndim, j);
        lemma_row_at(after, n, ndim, j);
        if j < i {
            lemma_row_in_block(j, i, ndim);
        } else if j > i {
            lemma_row_in_block(i, j, ndim);
        }
        assert(rows_of(after, ndim)[j] =~= want[j]);
    }
    assert(rows_of(after, ndim) =~= want);
}

/// A block is determined by its rows.
pub proof fn lemma_rows_determine<T>(a: Seq<T>, b: Seq<T>, n: int, ndim: int)
    requires
        is_block(a, n, ndim),
        is_block(b, n, ndim),
        rows_of(a, ndim) == rows_of(b, ndim),
    ensures
        a == b,
{
    assert forall|f: int| 0 <= f < a.len() implies a[f] == b[f] by {
        let (i, d) = lemma_place(a.len() as int, n, ndim, f);
        lemma_row_at(a, n, ndim, i);
        lemma_row_at(b, n, ndim, i);
        assert(rows_of(a, ndim)[i][d] == a[i * ndim + d]);
        assert(rows_of(b, ndim)[i][d] == b[i * ndim + d]);
    }
    assert(a =~= b);
}

/// The offset from a coordinate to the interval `[lo, hi]`, zero inside.
pub open spec fn axis_offset_spec<S: Scalar>(q: S, lo: S, hi: S) -> S {
    max_spec(max_spec(lo.minus_spec(q), q.minus_spec(hi)), S::zero_spec())
}

pub fn axis_offset<S: Scalar>(q: S, lo: S, hi: S) -> (r: S)
    requires
        lawful::<S>(),
        finite(q),
        finite(lo),
        finite(hi),
    ensures
        r == axis_offset_spec(q, lo, hi),
        nonneg(r),
{
    max(max(lo.minus(q), q.minus(hi)), S::zero())
}

/// The lower corner of a box given as one row `[lo | hi]`.
pub open spec fn lo_of<S>(b: Seq<S>, ndim: int) -> Seq<S> {
    b.subrange(0, ndim)
}

/// The upper corner of a box given as one row `[lo | hi]`.
pub open spec fn hi_of<S>(b: Seq<S>, ndim: int) -> Seq<S> {
    b.subrange(ndim, 2 * ndim)
}

/// `lo` and `hi` are the least and the greatest coordinate of `rows` along
/// every axis, and each is the coordinate of a row.
pub open spec fn tight<S: Scalar>(lo: Seq<S>, hi: Seq<S>, rows: Seq<Seq<S>>, ndim: int) -> bool {
    &&& lo.len() == ndim
    &&& hi.len() == ndim
    &&& forall|d: int, i: int|
        0 <= d < ndim && 0 <= i < rows.len() ==> lo[d].key() <= (#[trigger] rows[i][d]).key()
            <= hi[d].key()
    &&& forall|d: int| 0 <= d < ndim ==> attained(#[trigger] lo[d], rows, d)
    &&& forall|d: int| 0 <= d < ndim ==> attained(#[trigger] hi[d], rows, d)
}

/// Some row has coordinate `v` along axis `d`.
pub open spec fn attained<S>(v: S, rows: Seq<Seq<S>>, d: int) -> bool {
    exists|i: int| 0 <= i < rows.len() && #[trigger] rows[i][d] == v
}

/// A tight box of finite rows is finite.
pub proof fn lemma_tight_finite<S: Scalar>(lo: Seq<S>, hi: Seq<S>, rows: Seq<Seq<S>>, ndim: int)
    requires
        tight(lo, hi, rows, ndim),
        rows_finite(rows, ndim),
    ensures
        crate::scalar::all_finite_spec(lo),
        crate::scalar::all_finite_spec(hi),
{
    assert forall|d: int| 0 <= d < lo.len() implies finite(#[trigger] lo[d]) by {
        assert(attained(lo[d], rows, d));
    }
    assert forall|d: int| 0 <= d < hi.len() implies finite(#[trigger] hi[d]) by {
        assert(attained(hi[d], rows, d));
    }
}

/// A bounding box.
#[derive(Clone, Copy)]
pub struct BBox<'a, S> {
    pub lo: &'a [S],
    pub hi: &'a [S],
}

impl<'a, S: Scalar> BBox<'a, S> {
    pub open spec fn valid(self) -> bool {
        &&& self.lo@.len() == self.hi@.len()
        &&& crate::scalar::all_finite_spec(self.lo@)
        &&& crate::scalar::all_finite_spec(self.hi@)
    }

    pub fn ndim(self) -> (r: usize)
        ensures
            r == self.lo@.len(),
    {
        self.lo.len()
    }

    pub open spec fn extent_spec(self, dim: int) -> S {
        self.hi@[dim].minus_spec(self.lo@[dim])
    }

    pub fn extent(self, dim: usize) -> (r: S)
        requires
            dim < self.lo@.len(),
            dim < self.hi@.len(),
        ensures
            r == self.extent_spec(dim as int),
    {
        self.hi[dim].minus(self.lo[dim])
    }

    /// The first axis along which the box is widest.
    pub fn widest_axis(self) -> (r: usize)
        requires
            lawful::<S>(),
            self.valid(),
            self.lo@.len() > 0,
        ensures
            r < self.lo@.len(),
            forall|d: int|
                0 <= d < self.lo@.len() ==> at_most(
                    #[trigger] self.extent_spec(d),
                    self.extent_spec(r as int),
                ),
            forall|d: int|
                0 <= d < r ==> less(#[trigger] self.extent_spec(d), self.extent_spec(r as int)),
    {
        let mut best_dim: usize = 0;
        let mut best_span = self.extent(0);
        let mut dim: usize = 1;
        while dim < self.ndim()
            invariant
                lawful::<S>(),
                self.valid(),
                1 <= dim <= self.lo@.len(),
                best_dim < dim,
                best_span == self.extent_spec(best_dim as int),
                forall|d: int|
                    0 <= d < dim ==> at_most(#[trigger] self.extent_spec(d), best_span),
                forall|d: int| 0 <= d < best_dim ==> less(#[trigger] self.extent_spec(d), best_span),
            decreases self.lo@.len() - dim,
        {
            let span = self.extent(dim);
            assert(!self.extent_spec(dim as int).nan());
            if best_span.lt(span) {
                best_span = span;
                best_dim = dim;
            }
            dim += 1;
        }
        best_dim
    }
}

/// One box per node, `[lo | hi]` each, in node order.
pub struct Boxes<S> {
    pub values: Vec<S>,
    pub ndim: usize,
}

impl<S: Scalar> Boxes<S> {
    /// The boxes, one row each.
    pub open spec fn view(&self) -> Seq<Seq<S>> {
        rows_of(self.values@, 2 * self.ndim)
    }

    /// Room for the boxes of `n_nodes` nodes.
    pub fn zeroed(n_nodes: usize, ndim: usize) -> (r: Self)
        requires
            2 * ndim * n_nodes <= usize::MAX,
            0 < ndim,
            0 < n_nodes,
        ensures
            r.ndim == ndim,
            is_block(r.values@, n_nodes as int, 2 * ndim as int),
            forall|f: int| 0 <= f < r.values@.len() ==> r.values@[f] == S::zero_spec(),
    {
        proof {
            assert(2 * ndim <= 2 * ndim * n_nodes && 2 * ndim * n_nodes == n_nodes * (2 * ndim))
                by (nonlinear_arith)
                requires
                    0 < ndim,
                    0 < n_nodes,
            ;
        }
        Boxes { values: crate::scalar::filled(2 * ndim * n_nodes, S::zero()), ndim }
    }

    /// The box of node `id`.
    pub fn of(&self, id: u32) -> (r: BBox<'_, S>)
        requires
            self.ndim > 0,
            whole_rows(self.values@, 2 * self.ndim),
            id < self@.len(),
        ensures
            r.lo@ == lo_of(self@[id as int], self.ndim as int),
            r.hi@ == hi_of(self@[id as int], self.ndim as int),
            r.lo@.len() == self.ndim,
            r.hi@.len() == self.ndim,
    {
        proof {
            let n = self@.len() as int;
            lemma_row_at(self.values@, n, 2 * self.ndim, id as int);
            lemma_row_in_block(id as int, n, 2 * self.ndim);
            assert(2 * self.ndim * id == id * (2 * self.ndim)) by (nonlinear_arith);
            assert(self.values@.len() == self.values.len());
        }
        let base = 2 * self.ndim * id as usize;
        let both = vstd::slice::slice_subrange(self.values.as_slice(), base, base + 2 * self.ndim);
        let (lo, hi) = both.split_at(self.ndim);
        BBox { lo, hi }
    }
}

} // verus!
