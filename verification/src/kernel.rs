//! Bulk loops over coordinates: bounding boxes and checks for finite values.

use crate::layout::{attained, is_block, lemma_block_len, lemma_place, lemma_row_at, rows_of, tight,
    whole_rows, Rows, Width};
use crate::scalar::{all_finite_spec, finite, is_finite, lawful, max, max_spec, min, min_spec,
    Scalar};
use vstd::arithmetic::div_mod::{lemma_fundamental_div_mod, lemma_mod_multiples_vanish,
    lemma_small_mod};
use vstd::prelude::*;

verus! {

/// The greatest common divisor, zero for two zeros.
pub open spec fn is_gcd(a: int, b: int, r: int) -> bool {
    if a == 0 && b == 0 {
        r == 0
    } else {
        r > 0 && a % r == 0 && b % r == 0 && forall|c: int|
            c > 0 && #[trigger] (a % c) == 0 && b % c == 0 ==> c <= r
    }
}

proof fn lemma_common_divisor(a: int, b: int, c: int)
    requires
        b > 0,
        c > 0,
    ensures
        (a % c == 0 && b % c == 0) <==> (b % c == 0 && (a % b) % c == 0),
{
    if b % c == 0 {
        let q = a / b;
        let t = a % b;
        lemma_fundamental_div_mod(a, b);
        lemma_fundamental_div_mod(b, c);
        let k = b / c;
        assert(b * q == c * (k * q)) by (nonlinear_arith)
            requires
                b == c * k,
        ;
        lemma_mod_multiples_vanish(k * q, t, c);
        assert(a == c * (k * q) + t);
    }
}

/// The greatest common divisor of `a` and `b`.
pub fn gcd(a: usize, b: usize) -> (r: usize)
    ensures
        is_gcd(a as int, b as int, r as int),
{
    let (mut x, mut y) = (a, b);
    while y != 0
        invariant
            x == 0 && y == 0 <==> a == 0 && b == 0,
            forall|c: int|
                c > 0 ==> ((x as int % c == 0 && y as int % c == 0) <==> (#[trigger] (a as int % c)
                    == 0 && b as int % c == 0)),
        decreases y,
    {
        proof {
            assert forall|c: int| c > 0 implies ((y as int % c == 0 && (x as int % y as int) % c
                == 0) <==> (#[trigger] (a as int % c) == 0 && b as int % c == 0)) by {
                let ac = a as int % c;
                assert((x as int % c == 0 && y as int % c == 0) <==> (ac == 0 && b as int % c == 0));
                lemma_common_divisor(x as int, y as int, c);
            }
        }
        let t = x % y;
        x = y;
        y = t;
    }
    proof {
        if x > 0 {
            assert(x as int % x as int == 0);
            assert(0 as int % x as int == 0);
            assert(a as int % x as int == 0);
            assert forall|c: int| c > 0 && #[trigger] (a as int % c) == 0 && b as int % c
                == 0 implies c <= x by {
                assert(x as int % c == 0);
                if c > x {
                    assert(x as int % c == x) by (nonlinear_arith)
                        requires
                            0 < x < c,
                    ;
                }
            }
        }
    }
    x
}

/// Whether no value is a nan or an infinity.
pub fn all_finite<S: Scalar>(values: &[S]) -> (r: bool)
    ensures
        r == all_finite_spec(values@),
{
    let mut i: usize = 0;
    while i < values.len()
        invariant
            i <= values@.len(),
            forall|j: int| 0 <= j < i ==> finite(#[trigger] values@[j]),
        decreases values@.len() - i,
    {
        if !is_finite(values[i]) {
            return false;
        }
        i += 1;
    }
    true
}

/// The number of values that one step of a bulk loop takes.
pub const LANES: usize = 8;

/// Covers every row width whose pattern repeats after at most this many steps:
/// all of `1..=8` and common wider even widths.
pub const MAX_PHASES: usize = 8;

/// What a corner of a box starts from: the upper one below every value, the lower
/// one above.
pub open spec fn start_of<S: Scalar>(high: bool) -> S {
    if high {
        S::neg_infinity_spec()
    } else {
        S::infinity_spec()
    }
}

/// The value that is further out, the first of two that compare equal.
pub open spec fn outer<S: Scalar>(high: bool, a: S, b: S) -> S {
    if high {
        max_spec(a, b)
    } else {
        min_spec(a, b)
    }
}

/// The greatest common divisor of `ndim` and [`LANES`].
pub open spec fn common_of(ndim: int) -> int {
    if ndim % 8 == 0 {
        8
    } else if ndim % 4 == 0 {
        4
    } else if ndim % 2 == 0 {
        2
    } else {
        1
    }
}

/// The number of steps after which the columns of a flat block repeat.
pub open spec fn phases_of(ndim: int) -> int {
    ndim / common_of(ndim)
}

/// The outermost of the first `done` values by slots: value `f` counts toward slot
/// `f % period`.
pub open spec fn slots<S: Scalar>(high: bool, data: Seq<S>, period: int, done: int) -> Seq<S>
    decreases done,
{
    if done <= 0 {
        Seq::new(64, |i: int| start_of(high))
    } else {
        let was = slots(high, data, period, done - 1);
        let slot = (done - 1) % period;
        was.update(slot, outer(high, data[done - 1], was[slot]))
    }
}

/// The outermost of the first `n` slots by columns.
pub open spec fn merged<S: Scalar>(high: bool, acc: Seq<S>, ndim: int, n: int) -> Seq<S>
    decreases n,
{
    if n <= 0 {
        Seq::new(ndim as nat, |i: int| start_of(high))
    } else {
        let was = merged(high, acc, ndim, n - 1);
        let dim = (n - 1) % ndim;
        was.update(dim, outer(high, was[dim], acc[n - 1]))
    }
}

/// A corner with the values from `from` up to `n` counted in.
pub open spec fn swept<S: Scalar>(
    high: bool,
    corner: Seq<S>,
    data: Seq<S>,
    ndim: int,
    from: int,
    n: int,
) -> Seq<S>
    decreases n - from,
{
    if n <= from {
        corner
    } else {
        let was = swept(high, corner, data, ndim, from, n - 1);
        let dim = (n - 1) % ndim;
        was.update(dim, outer(high, was[dim], data[n - 1]))
    }
}

/// A corner of the box of a flat block, value for value.
#[verifier::opaque]
pub open spec fn corner_of<S: Scalar>(high: bool, data: Seq<S>, ndim: int) -> Seq<S> {
    let n = data.len() as int;
    let (at, slots_used) = (n / 8 * 8, phases_of(ndim) * 8);
    if phases_of(ndim) <= MAX_PHASES {
        let lanes = merged(high, slots(high, data, slots_used, at), ndim, slots_used);
        swept(high, lanes, data, ndim, at, n)
    } else {
        swept(high, Seq::new(ndim as nat, |i: int| start_of(high)), data, ndim, 0, n)
    }
}

proof fn lemma_common(ndim: int, r: int)
    requires
        ndim > 0,
        is_gcd(ndim, 8, r),
    ensures
        r == common_of(ndim),
{
    assert(1 <= r <= 8) by {
        if r > 8 {
            lemma_small_mod(8, r as nat);
        }
    }
    assert(8int % 3 != 0 && 8int % 5 != 0 && 8int % 6 != 0 && 8int % 7 != 0);
    assert(r == 1 || r == 2 || r == 4 || r == 8);
    let c = common_of(ndim);
    assert(ndim % c == 0 && 8int % c == 0);
    assert(c <= r);
}

/// `v` is the infinity that an empty column starts from, or a value of column
/// `d` among the first `done` values.
spec fn bound_from<S: Scalar>(v: S, start: S, data: Seq<S>, done: int, ndim: int, d: int) -> bool {
    v == start || exists|f: int| 0 <= f < done && f % ndim == d && #[trigger] data[f] == v
}

/// `acc` holds a lower bound of the first `done` values: value `f` counts toward
/// slot `f % period`, a slot toward column `slot % ndim`.
spec fn lows<S: Scalar>(acc: Seq<S>, data: Seq<S>, done: int, period: int, ndim: int) -> bool {
    &&& forall|f: int| 0 <= f < done ==> acc[f % period].key() <= (#[trigger] data[f]).key()
    &&& forall|s: int|
        0 <= s < period ==> bound_from(
            #[trigger] acc[s],
            S::infinity_spec(),
            data,
            done,
            ndim,
            s % ndim,
        )
}

/// The upper bounds, as [`lows`] has the lower ones.
spec fn highs<S: Scalar>(acc: Seq<S>, data: Seq<S>, done: int, period: int, ndim: int) -> bool {
    &&& forall|f: int| 0 <= f < done ==> (#[trigger] data[f]).key() <= acc[f % period].key()
    &&& forall|s: int|
        0 <= s < period ==> bound_from(
            #[trigger] acc[s],
            S::neg_infinity_spec(),
            data,
            done,
            ndim,
            s % ndim,
        )
}

/// One more value keeps the lower bounds.
proof fn lemma_lows_step<S: Scalar>(
    acc: Seq<S>,
    data: Seq<S>,
    done: int,
    period: int,
    ndim: int,
    v: S,
)
    requires
        lawful::<S>(),
        all_finite_spec(data),
        0 < ndim,
        0 < period,
        period % ndim == 0,
        acc.len() >= period,
        0 <= done < data.len(),
        lows(acc, data, done, period, ndim),
        v == acc[done % period] || v == data[done],
        v.key() <= acc[done % period].key(),
        v.key() <= data[done].key(),
    ensures
        lows(acc.update(done % period, v), data, done + 1, period, ndim),
{
    let s0 = done % period;
    let next = acc.update(s0, v);
    lemma_slot_column(done, period, ndim);
    assert forall|f: int| 0 <= f < done + 1 implies next[f % period].key() <= (
    #[trigger] data[f]).key() by {
        if f < done {
            assert(acc[f % period].key() <= data[f].key());
        }
    }
    assert forall|s: int| 0 <= s < period implies bound_from(
        #[trigger] next[s],
        S::infinity_spec(),
        data,
        done + 1,
        ndim,
        s % ndim,
    ) by {
        assert(bound_from(acc[s], S::infinity_spec(), data, done, ndim, s % ndim));
        if s == s0 && v == data[done] {
            assert(done % ndim == s % ndim);
        } else {
            assert(next[s] == acc[s]);
        }
    }
}

/// One more value keeps the upper bounds.
proof fn lemma_highs_step<S: Scalar>(
    acc: Seq<S>,
    data: Seq<S>,
    done: int,
    period: int,
    ndim: int,
    v: S,
)
    requires
        lawful::<S>(),
        all_finite_spec(data),
        0 < ndim,
        0 < period,
        period % ndim == 0,
        acc.len() >= period,
        0 <= done < data.len(),
        highs(acc, data, done, period, ndim),
        v == acc[done % period] || v == data[done],
        v.key() >= acc[done % period].key(),
        v.key() >= data[done].key(),
    ensures
        highs(acc.update(done % period, v), data, done + 1, period, ndim),
{
    let s0 = done % period;
    let next = acc.update(s0, v);
    lemma_slot_column(done, period, ndim);
    assert forall|f: int| 0 <= f < done + 1 implies next[f % period].key() >= (
    #[trigger] data[f]).key() by {
        if f < done {
            assert(acc[f % period].key() >= data[f].key());
        }
    }
    assert forall|s: int| 0 <= s < period implies bound_from(
        #[trigger] next[s],
        S::neg_infinity_spec(),
        data,
        done + 1,
        ndim,
        s % ndim,
    ) by {
        assert(bound_from(acc[s], S::neg_infinity_spec(), data, done, ndim, s % ndim));
        if s == s0 && v == data[done] {
            assert(done % ndim == s % ndim);
        } else {
            assert(next[s] == acc[s]);
        }
    }
}

/// The slot of a value lies in the column of the value.
proof fn lemma_slot_column(f: int, period: int, ndim: int)
    requires
        0 <= f,
        0 < ndim,
        0 < period,
        period % ndim == 0,
    ensures
        (f % period) % ndim == f % ndim,
        0 <= f % period < period,
{
    lemma_fundamental_div_mod(f, period);
    lemma_fundamental_div_mod(period, ndim);
    let k = period / ndim;
    let q = f / period;
    assert(period * q == ndim * (k * q)) by (nonlinear_arith)
        requires
            period == ndim * k,
    ;
    lemma_mod_multiples_vanish(k * q, f % period, ndim);
}

/// Counts steps of `LANES` values through the slots.
///
/// Value `f` of the block lies in column `f % ndim`, a pattern that repeats
/// every `phases` steps, so that many accumulators of `LANES` lanes keep the
/// columns apart. Returns whether no value was a nan or an infinity, `true` if
/// that was not asked.
fn lane_bounds<S: Scalar, const CHECK_FINITE: bool>(
    data: &[S],
    ndim: usize,
    phases: usize,
    acc_lo: &mut [S; 64],
    acc_hi: &mut [S; 64],
) -> (r: bool)
    requires
        lawful::<S>(),
        0 < ndim,
        0 < phases <= MAX_PHASES,
        (phases * LANES) % ndim as int == 0,
        old(acc_lo)@ == Seq::new(64, |i: int| S::infinity_spec()),
        old(acc_hi)@ == Seq::new(64, |i: int| S::neg_infinity_spec()),
    ensures
        r == (CHECK_FINITE ==> all_finite_spec(
            data@.subrange(0, (data@.len() / 8) as int * 8),
        )),
        final(acc_lo)@ == slots(false, data@, phases * 8, (data@.len() / 8) as int * 8),
        final(acc_hi)@ == slots(true, data@, phases * 8, (data@.len() / 8) as int * 8),
        all_finite_spec(data@) ==> lows(
            final(acc_lo)@,
            data@,
            (data@.len() / 8) as int * 8,
            phases * 8,
            ndim as int,
        ) && highs(
            final(acc_hi)@,
            data@,
            (data@.len() / 8) as int * 8,
            phases * 8,
            ndim as int,
        ),
{
    let n_steps = data.len() / LANES;
    let ghost period = phases * 8;
    let mut good = true;
    let mut phase: usize = 0;
    let mut i: usize = 0;
    while i < n_steps
        invariant
            lawful::<S>(),
            0 < ndim,
            0 < phases <= MAX_PHASES,
            period == phases * 8,
            period % ndim as int == 0,
            acc_lo@.len() == 64,
            acc_hi@.len() == 64,
            n_steps == data@.len() / 8,
            i <= n_steps,
            phase == i as int % phases as int,
            good == (CHECK_FINITE ==> all_finite_spec(data@.subrange(0, i * 8))),
            acc_lo@ == slots(false, data@, period, i * 8),
            acc_hi@ == slots(true, data@, period, i * 8),
            all_finite_spec(data@) ==> lows(acc_lo@, data@, i * 8, period, ndim as int),
            all_finite_spec(data@) ==> highs(acc_hi@, data@, i * 8, period, ndim as int),
        decreases n_steps - i,
    {
        let mut j: usize = 0;
        while j < LANES
            invariant
                lawful::<S>(),
                0 < ndim,
                0 < phases <= MAX_PHASES,
                period == phases * 8,
                period % ndim as int == 0,
                acc_lo@.len() == 64,
                acc_hi@.len() == 64,
                n_steps == data@.len() / 8,
                i < n_steps,
                j <= 8,
                phase == i as int % phases as int,
                good == (CHECK_FINITE ==> all_finite_spec(data@.subrange(0, i * 8 + j))),
                acc_lo@ == slots(false, data@, period, i * 8 + j),
                acc_hi@ == slots(true, data@, period, i * 8 + j),
                all_finite_spec(data@) ==> lows(acc_lo@, data@, i * 8 + j, period, ndim as int),
                all_finite_spec(data@) ==> highs(acc_hi@, data@, i * 8 + j, period, ndim as int),
            decreases 8 - j,
        {
            let slot = phase * LANES + j;
            let ghost f = i * 8 + j;
            proof {
                assert(f % period == slot) by {
                    lemma_fundamental_div_mod(i as int, phases as int);
                    let q = i as int / phases as int;
                    assert(f == period * q + slot) by (nonlinear_arith)
                        requires
                            f == i * 8 + j,
                            i == phases * q + phase,
                            slot == phase * 8 + j,
                            period == phases * 8,
                    ;
                    lemma_mod_multiples_vanish(q, slot as int, period);
                    lemma_small_mod(slot as nat, period as nat);
                }
            }
            assert(data@.len() == data.len());
            assert(i * 8 + 8 <= n_steps * 8 <= data@.len());
            let v = data[i * LANES + j];
            let low = min(v, acc_lo[slot]);
            let high = max(v, acc_hi[slot]);
            proof {
                if all_finite_spec(data@) {
                    assert(bound_from(
                        acc_lo@[slot as int],
                        S::infinity_spec(),
                        data@,
                        f,
                        ndim as int,
                        slot as int % ndim as int,
                    ));
                    assert(bound_from(
                        acc_hi@[slot as int],
                        S::neg_infinity_spec(),
                        data@,
                        f,
                        ndim as int,
                        slot as int % ndim as int,
                    ));
                    assert(finite(data@[f]));
                    lemma_lows_step(acc_lo@, data@, f, period, ndim as int, low);
                    lemma_highs_step(acc_hi@, data@, f, period, ndim as int, high);
                }
                let before = data@.subrange(0, f);
                let after = data@.subrange(0, f + 1);
                assert(after[f] == data@[f]);
                assert(forall|g: int| 0 <= g < f ==> before[g] == after[g]);
                assert(all_finite_spec(after) <==> all_finite_spec(before) && finite(data@[f])) by {
                    if all_finite_spec(after) {
                        assert forall|g: int| 0 <= g < before.len() implies finite(
                            #[trigger] before[g],
                        ) by {
                            assert(finite(after[g]));
                        }
                    }
                }
            }
            acc_lo[slot] = low;
            acc_hi[slot] = high;
            if CHECK_FINITE && !is_finite(v) {
                good = false;
            }
            j += 1;
        }
        proof {
            if phase + 1 < phases {
                assert((i + 1) as int % phases as int == phase + 1) by {
                    lemma_fundamental_div_mod(i as int, phases as int);
                    let q = i as int / phases as int;
                    lemma_mod_multiples_vanish(q, phase + 1, phases as int);
                    lemma_small_mod((phase + 1) as nat, phases as nat);
                }
            } else {
                assert((i + 1) as int % phases as int == 0) by {
                    lemma_fundamental_div_mod(i as int, phases as int);
                    let q = i as int / phases as int;
                    assert(phases * q + phases == phases * (q + 1)) by (nonlinear_arith);
                    lemma_mod_multiples_vanish(q + 1, 0, phases as int);
                }
            }
        }
        i += 1;
        phase += 1;
        if phase == phases {
            phase = 0;
        }
    }
    good
}

/// `lo` bounds its columns from below as the first `s` slots do.
spec fn merged_low<S: Scalar>(
    lo: Seq<S>,
    acc: Seq<S>,
    s: int,
    data: Seq<S>,
    done: int,
    w: int,
) -> bool {
    &&& forall|t: int| 0 <= t < s ==> lo[t % w].key() <= (#[trigger] acc[t]).key()
    &&& forall|d: int|
        0 <= d < w ==> bound_from(#[trigger] lo[d], S::infinity_spec(), data, done, w, d)
}

/// The upper bounds, as [`merged_low`] has the lower ones.
spec fn merged_high<S: Scalar>(
    hi: Seq<S>,
    acc: Seq<S>,
    s: int,
    data: Seq<S>,
    done: int,
    w: int,
) -> bool {
    &&& forall|t: int| 0 <= t < s ==> hi[t % w].key() >= (#[trigger] acc[t]).key()
    &&& forall|d: int|
        0 <= d < w ==> bound_from(#[trigger] hi[d], S::neg_infinity_spec(), data, done, w, d)
}

proof fn lemma_merge_low<S: Scalar>(
    lo: Seq<S>,
    acc: Seq<S>,
    s: int,
    data: Seq<S>,
    done: int,
    w: int,
    v: S,
)
    requires
        0 <= s < acc.len(),
        w > 0,
        lo.len() == w,
        merged_low(lo, acc, s, data, done, w),
        v == lo[s % w] || v == acc[s],
        v.key() <= lo[s % w].key(),
        v.key() <= acc[s].key(),
        bound_from(acc[s], S::infinity_spec(), data, done, w, s % w),
    ensures
        merged_low(lo.update(s % w, v), acc, s + 1, data, done, w),
{
    let next = lo.update(s % w, v);
    assert forall|t: int| 0 <= t < s + 1 implies next[t % w].key() <= (
    #[trigger] acc[t]).key() by {
        if t < s {
            assert(lo[t % w].key() <= acc[t].key());
        }
    }
    assert forall|d: int| 0 <= d < w implies bound_from(
        #[trigger] next[d],
        S::infinity_spec(),
        data,
        done,
        w,
        d,
    ) by {
        assert(bound_from(lo[d], S::infinity_spec(), data, done, w, d));
    }
}

proof fn lemma_merge_high<S: Scalar>(
    hi: Seq<S>,
    acc: Seq<S>,
    s: int,
    data: Seq<S>,
    done: int,
    w: int,
    v: S,
)
    requires
        0 <= s < acc.len(),
        w > 0,
        hi.len() == w,
        merged_high(hi, acc, s, data, done, w),
        v == hi[s % w] || v == acc[s],
        v.key() >= hi[s % w].key(),
        v.key() >= acc[s].key(),
        bound_from(acc[s], S::neg_infinity_spec(), data, done, w, s % w),
    ensures
        merged_high(hi.update(s % w, v), acc, s + 1, data, done, w),
{
    let next = hi.update(s % w, v);
    assert forall|t: int| 0 <= t < s + 1 implies next[t % w].key() >= (
    #[trigger] acc[t]).key() by {
        if t < s {
            assert(hi[t % w].key() >= acc[t].key());
        }
    }
    assert forall|d: int| 0 <= d < w implies bound_from(
        #[trigger] next[d],
        S::neg_infinity_spec(),
        data,
        done,
        w,
        d,
    ) by {
        assert(bound_from(hi[d], S::neg_infinity_spec(), data, done, w, d));
    }
}

/// Folds the slots of [`lane_bounds`] into their columns.
fn merge_slots<S: Scalar>(
    acc_lo: &[S; 64],
    acc_hi: &[S; 64],
    n_slots: usize,
    lo: &mut [S],
    hi: &mut [S],
    Ghost(data): Ghost<Seq<S>>,
    Ghost(done): Ghost<int>,
)
    requires
        lawful::<S>(),
        n_slots <= 64,
        n_slots > 0,
        old(lo)@.len() > 0,
        old(hi)@.len() == old(lo)@.len(),
        n_slots as int % old(lo)@.len() as int == 0,
        old(lo)@ == Seq::new(old(lo)@.len(), |i: int| S::infinity_spec()),
        old(hi)@ == Seq::new(old(lo)@.len(), |i: int| S::neg_infinity_spec()),
        0 <= done <= data.len(),
        all_finite_spec(data) ==> lows(
            acc_lo@,
            data,
            done,
            n_slots as int,
            old(lo)@.len() as int,
        ) && highs(acc_hi@, data, done, n_slots as int, old(lo)@.len() as int),
    ensures
        final(lo)@.len() == old(lo)@.len(),
        final(hi)@.len() == old(hi)@.len(),
        final(lo)@ == merged(false, acc_lo@, old(lo)@.len() as int, n_slots as int),
        final(hi)@ == merged(true, acc_hi@, old(lo)@.len() as int, n_slots as int),
        all_finite_spec(data) ==> lows(
            final(lo)@,
            data,
            done,
            old(lo)@.len() as int,
            old(lo)@.len() as int,
        ) && highs(final(hi)@, data, done, old(lo)@.len() as int, old(lo)@.len() as int),
{
    let ndim = lo.len();
    let ghost w = ndim as int;
    let mut s: usize = 0;
    while s < n_slots
        invariant
            lawful::<S>(),
            s <= n_slots <= 64,
            w == ndim,
            w > 0,
            lo@.len() == w,
            hi@.len() == w,
            n_slots as int % w == 0,
            0 <= done <= data.len(),
            lo@ == merged(false, acc_lo@, w, s as int),
            hi@ == merged(true, acc_hi@, w, s as int),
            all_finite_spec(data) ==> lows(acc_lo@, data, done, n_slots as int, w),
            all_finite_spec(data) ==> highs(acc_hi@, data, done, n_slots as int, w),
            all_finite_spec(data) ==> merged_low(lo@, acc_lo@, s as int, data, done, w),
            all_finite_spec(data) ==> merged_high(hi@, acc_hi@, s as int, data, done, w),
        decreases n_slots - s,
    {
        let dim = s % ndim;
        let low = min(lo[dim], acc_lo[s]);
        let high = max(hi[dim], acc_hi[s]);
        proof {
            if all_finite_spec(data) {
                assert(bound_from(lo@[dim as int], S::infinity_spec(), data, done, w, dim as int));
                assert(bound_from(
                    hi@[dim as int],
                    S::neg_infinity_spec(),
                    data,
                    done,
                    w,
                    dim as int,
                ));
                assert(bound_from(
                    acc_lo@[s as int],
                    S::infinity_spec(),
                    data,
                    done,
                    w,
                    s as int % w,
                ));
                assert(bound_from(
                    acc_hi@[s as int],
                    S::neg_infinity_spec(),
                    data,
                    done,
                    w,
                    s as int % w,
                ));
                lemma_merge_low(lo@, acc_lo@, s as int, data, done, w, low);
                lemma_merge_high(hi@, acc_hi@, s as int, data, done, w, high);
            }
        }
        lo[dim] = low;
        hi[dim] = high;
        s += 1;
    }
    proof {
        if all_finite_spec(data) {
            assert forall|f: int| 0 <= f < done implies lo@[f % w].key() <= (
            #[trigger] data[f]).key() && data[f].key() <= hi@[f % w].key() by {
                lemma_slot_column(f, n_slots as int, w);
                let t = f % (n_slots as int);
                assert(acc_lo@[t].key() <= data[f].key());
                assert(acc_hi@[t].key() >= data[f].key());
                assert(lo@[t % w].key() <= acc_lo@[t].key());
            }
            assert forall|d: int| 0 <= d < w implies bound_from(
                #[trigger] lo@[d],
                S::infinity_spec(),
                data,
                done,
                w,
                d % w,
            ) by {
                lemma_small_mod(d as nat, w as nat);
            }
            assert forall|d: int| 0 <= d < w implies bound_from(
                #[trigger] hi@[d],
                S::neg_infinity_spec(),
                data,
                done,
                w,
                d % w,
            ) by {
                lemma_small_mod(d as nat, w as nat);
            }
        }
    }
}

/// Bounds that cover a whole block of finite rows are tight.
proof fn lemma_bounds_tight<S: Scalar>(lo: Seq<S>, hi: Seq<S>, data: Seq<S>, n: int, ndim: int)
    requires
        lawful::<S>(),
        all_finite_spec(data),
        is_block(data, n, ndim),
        n > 0,
        lo.len() == ndim,
        hi.len() == ndim,
        lows(lo, data, data.len() as int, ndim, ndim),
        highs(hi, data, data.len() as int, ndim, ndim),
    ensures
        tight(lo, hi, rows_of(data, ndim), ndim),
{
    let rows = rows_of(data, ndim);
    lemma_block_len(data, n, ndim);
    assert forall|d: int, i: int| 0 <= d < ndim && 0 <= i < rows.len() implies lo[d].key() <= (
    #[trigger] rows[i][d]).key() <= hi[d].key() by {
        lemma_row_at(data, n, ndim, i);
        let f = i * ndim + d;
        assert(f % ndim == d) by {
            lemma_mod_multiples_vanish(i, d, ndim);
            lemma_small_mod(d as nat, ndim as nat);
            assert(ndim * i == i * ndim) by (nonlinear_arith);
        }
        assert(rows[i][d] == data[f]);
        assert(lo[f % ndim].key() <= data[f].key());
        assert(data[f].key() <= hi[f % ndim].key());
    }
    assert forall|d: int| 0 <= d < ndim implies attained(#[trigger] lo[d], rows, d) by {
        lemma_small_mod(d as nat, ndim as nat);
        lemma_row_at(data, n, ndim, 0);
        assert(rows[0][d] == data[0 * ndim + d]);
        assert(finite(data[d]));
        assert(lo[d].key() <= rows[0][d].key() <= hi[d].key());
        assert(bound_from(lo[d], S::infinity_spec(), data, data.len() as int, ndim, d % ndim));
        let f = choose|f: int| 0 <= f < data.len() && f % ndim == d && #[trigger] data[f] == lo[d];
        let (i, e) = lemma_place(data.len() as int, n, ndim, f);
        lemma_row_at(data, n, ndim, i);
        assert(rows[i][d] == lo[d]);
    }
    assert forall|d: int| 0 <= d < ndim implies attained(#[trigger] hi[d], rows, d) by {
        lemma_small_mod(d as nat, ndim as nat);
        lemma_row_at(data, n, ndim, 0);
        assert(rows[0][d] == data[0 * ndim + d]);
        assert(finite(data[d]));
        assert(lo[d].key() <= rows[0][d].key() <= hi[d].key());
        assert(bound_from(hi[d], S::neg_infinity_spec(), data, data.len() as int, ndim, d % ndim));
        let g = choose|g: int| 0 <= g < data.len() && g % ndim == d && #[trigger] data[g] == hi[d];
        let (j, e2) = lemma_place(data.len() as int, n, ndim, g);
        lemma_row_at(data, n, ndim, j);
        assert(rows[j][d] == hi[d]);
    }
}

/// Bounds that cover no values are the infinities that they start from.
proof fn lemma_bounds_nothing<S: Scalar>(lo: Seq<S>, hi: Seq<S>, data: Seq<S>, ndim: int)
    requires
        data.len() == 0,
        0 < ndim,
        lo.len() == ndim,
        hi.len() == ndim,
        lows(lo, data, 0, ndim, ndim),
        highs(hi, data, 0, ndim, ndim),
    ensures
        lo == Seq::new(ndim as nat, |d: int| S::infinity_spec()),
        hi == Seq::new(ndim as nat, |d: int| S::neg_infinity_spec()),
{
    assert forall|d: int| 0 <= d < ndim implies lo[d] == S::infinity_spec() && hi[d]
        == S::neg_infinity_spec() by {
        assert(bound_from(lo[d], S::infinity_spec(), data, 0, ndim, d % ndim));
        assert(bound_from(hi[d], S::neg_infinity_spec(), data, 0, ndim, d % ndim));
    }
    assert(lo =~= Seq::new(ndim as nat, |d: int| S::infinity_spec()));
    assert(hi =~= Seq::new(ndim as nat, |d: int| S::neg_infinity_spec()));
}

fn fill<S: Copy>(values: &mut [S], value: S)
    ensures
        final(values)@ == Seq::new(old(values)@.len(), |i: int| value),
{
    let n = values.len();
    let mut i: usize = 0;
    while i < n
        invariant
            i <= n,
            n == values@.len(),
            forall|j: int| 0 <= j < i ==> #[trigger] values@[j] == value,
        decreases n - i,
    {
        values[i] = value;
        i += 1;
    }
    assert(values@ =~= Seq::new(n as nat, |i: int| value));
}

/// The slots of as many steps as it takes for the columns to repeat are whole rows.
proof fn lemma_phases(ndim: int)
    requires
        ndim > 0,
    ensures
        phases_of(ndim) > 0,
        (phases_of(ndim) * 8) % ndim == 0,
{
    let c = common_of(ndim);
    let phases = phases_of(ndim);
    lemma_fundamental_div_mod(ndim, c);
    lemma_fundamental_div_mod(8, c);
    let k = 8int / c;
    assert(phases > 0) by (nonlinear_arith)
        requires
            ndim == c * phases,
            ndim > 0,
            c > 0,
    ;
    assert(phases * 8 == ndim * k) by (nonlinear_arith)
        requires
            ndim == c * phases,
            8 == c * k,
    ;
    lemma_mod_multiples_vanish(k, 0, ndim);
}

/// The corners that nothing is counted into yet.
proof fn lemma_nothing_counted<S: Scalar>(lo: Seq<S>, hi: Seq<S>, data: Seq<S>, ndim: int)
    requires
        ndim > 0,
        lo == Seq::new(ndim as nat, |i: int| S::infinity_spec()),
        hi == Seq::new(ndim as nat, |i: int| S::neg_infinity_spec()),
    ensures
        lows(lo, data, 0, ndim, ndim),
        highs(hi, data, 0, ndim, ndim),
{
    assert forall|d: int| 0 <= d < ndim implies bound_from(
        #[trigger] lo[d],
        S::infinity_spec(),
        data,
        0,
        ndim,
        d % ndim,
    ) by {}
    assert forall|d: int| 0 <= d < ndim implies bound_from(
        #[trigger] hi[d],
        S::neg_infinity_spec(),
        data,
        0,
        ndim,
        d % ndim,
    ) by {}
}

/// All values are finite if the first ones and the others are.
proof fn lemma_finite_apart<S: Scalar>(data: Seq<S>, at: int)
    requires
        0 <= at <= data.len(),
    ensures
        all_finite_spec(data) <==> all_finite_spec(data.subrange(0, at)) && all_finite_spec(
            data.subrange(at, data.len() as int),
        ),
{
    let (a, b) = (data.subrange(0, at), data.subrange(at, data.len() as int));
    if all_finite_spec(data) {
        assert forall|g: int| 0 <= g < a.len() implies finite(#[trigger] a[g]) by {
            assert(finite(data[g]));
        }
        assert forall|g: int| 0 <= g < b.len() implies finite(#[trigger] b[g]) by {
            assert(finite(data[at + g]));
        }
    }
    if all_finite_spec(a) && all_finite_spec(b) {
        assert forall|g: int| 0 <= g < data.len() implies finite(#[trigger] data[g]) by {
            if g < at {
                assert(finite(a[g]));
            } else {
                assert(finite(b[g - at]));
            }
        }
    }
}

/// Counts the values from `from` on into the corners, one after the other. Returns
/// whether no value was a nan or an infinity, `true` if that was not asked.
fn sweep<S: Scalar, const CHECK_FINITE: bool>(
    data: &[S],
    from: usize,
    lo: &mut [S],
    hi: &mut [S],
) -> (r: bool)
    requires
        lawful::<S>(),
        from <= data@.len(),
        0 < old(lo)@.len(),
        old(hi)@.len() == old(lo)@.len(),
        all_finite_spec(data@) ==> lows(
            old(lo)@,
            data@,
            from as int,
            old(lo)@.len() as int,
            old(lo)@.len() as int,
        ) && highs(
            old(hi)@,
            data@,
            from as int,
            old(lo)@.len() as int,
            old(lo)@.len() as int,
        ),
    ensures
        final(lo)@.len() == old(lo)@.len(),
        final(hi)@.len() == old(hi)@.len(),
        r == (CHECK_FINITE ==> all_finite_spec(
            data@.subrange(from as int, data@.len() as int),
        )),
        ({
            let (w, n) = (old(lo)@.len() as int, data@.len() as int);
            &&& r ==> final(lo)@ == swept(false, old(lo)@, data@, w, from as int, n)
            &&& r ==> final(hi)@ == swept(true, old(hi)@, data@, w, from as int, n)
            &&& r && all_finite_spec(data@) ==> lows(final(lo)@, data@, n, w, w) && highs(
                final(hi)@,
                data@,
                n,
                w,
                w,
            )
        }),
{
    let ndim = lo.len();
    let ghost w = ndim as int;
    let mut at = from;
    let ghost start = from as int;
    let mut dim: usize = at % ndim;
    let ghost (lo0, hi0) = (lo@, hi@);
    while at < data.len()
        invariant
            start == from,
            start <= at,
            lo@ == swept(false, lo0, data@, w, start, at as int),
            hi@ == swept(true, hi0, data@, w, start, at as int),
            lawful::<S>(),
            w == ndim,
            w > 0,
            old(lo)@.len() == w,
            old(hi)@.len() == w,
            at <= data@.len(),
            dim == at as int % w,
            lo@.len() == w,
            hi@.len() == w,
            CHECK_FINITE ==> all_finite_spec(data@.subrange(start, at as int)),
            all_finite_spec(data@) ==> lows(lo@, data@, at as int, w, w),
            all_finite_spec(data@) ==> highs(hi@, data@, at as int, w, w),
        decreases data@.len() - at,
    {
        let v = data[at];
        let low = min(lo[dim], v);
        let high = max(hi[dim], v);
        proof {
            if all_finite_spec(data@) {
                assert(bound_from(
                    lo@[dim as int],
                    S::infinity_spec(),
                    data@,
                    at as int,
                    w,
                    dim as int % w,
                ));
                assert(bound_from(
                    hi@[dim as int],
                    S::neg_infinity_spec(),
                    data@,
                    at as int,
                    w,
                    dim as int % w,
                ));
                assert(finite(data@[at as int]));
                lemma_lows_step(lo@, data@, at as int, w, w, low);
                lemma_highs_step(hi@, data@, at as int, w, w, high);
            }
        }
        lo[dim] = low;
        hi[dim] = high;
        if CHECK_FINITE && !is_finite(v) {
            proof {
                let rest = data@.subrange(start, data@.len() as int);
                assert(rest[at - start] == data@[at as int]);
            }
            return false;
        }
        proof {
            let before = data@.subrange(start, at as int);
            let after = data@.subrange(start, at + 1);
            assert forall|g: int| 0 <= g < after.len() && CHECK_FINITE implies finite(
                #[trigger] after[g],
            ) by {
                if g < before.len() {
                    assert(finite(before[g]));
                }
            }
            lemma_fundamental_div_mod(at as int, w);
            let q = at as int / w;
            if dim + 1 < w {
                lemma_mod_multiples_vanish(q, dim + 1, w);
                lemma_small_mod((dim + 1) as nat, w as nat);
            } else {
                assert(w * q + w == w * (q + 1)) by (nonlinear_arith);
                lemma_mod_multiples_vanish(q + 1, 0, w);
            }
        }
        at += 1;
        dim += 1;
        if dim == ndim {
            dim = 0;
        }
    }
    true
}

/// A corner with room for more values than a row has: the row in front, the rest as
/// it was.
pub open spec fn written<S>(before: Seq<S>, after: Seq<S>, row: Seq<S>) -> bool {
    &&& after.len() == before.len()
    &&& row.len() <= after.len()
    &&& after.subrange(0, row.len() as int) == row
    &&& forall|i: int| row.len() <= i < after.len() ==> #[trigger] after[i] == before[i]
}

/// A box of finite rows is tight, and one of no rows holds nothing.
pub open spec fn bounds<S: Scalar>(lo: Seq<S>, hi: Seq<S>, rows: Seq<Seq<S>>, ndim: int) -> bool {
    if rows.len() > 0 {
        tight(lo, hi, rows, ndim)
    } else {
        &&& lo == Seq::new(ndim as nat, |d: int| S::infinity_spec())
        &&& hi == Seq::new(ndim as nat, |d: int| S::neg_infinity_spec())
    }
}

/// Bounds that cover a whole block of finite rows are its box.
proof fn lemma_bounds<S: Scalar>(lo: Seq<S>, hi: Seq<S>, data: Seq<S>, ndim: int)
    requires
        lawful::<S>(),
        all_finite_spec(data),
        whole_rows(data, ndim),
        lo.len() == ndim,
        hi.len() == ndim,
        lows(lo, data, data.len() as int, ndim, ndim),
        highs(hi, data, data.len() as int, ndim, ndim),
    ensures
        bounds(lo, hi, rows_of(data, ndim), ndim),
{
    let n = rows_of(data, ndim).len() as int;
    if n > 0 {
        lemma_bounds_tight(lo, hi, data, n, ndim);
    } else {
        assert(0 * ndim == 0);
        lemma_bounds_nothing(lo, hi, data, ndim);
    }
}

impl<'a, S: Scalar, W: Width> Rows<'a, S, W> {
    /// Writes the tight box of the rows in front of `lo` and `hi`; that of no rows
    /// is plus and minus infinity.
    pub fn bbox_into(self, lo: &mut [S], hi: &mut [S])
        requires
            lawful::<S>(),
            self.valid(),
            old(lo)@.len() >= self.width.ndim_spec(),
            old(hi)@.len() >= self.width.ndim_spec(),
        ensures
            ({
                let w = self.width.ndim_spec() as int;
                let (low, high) = (corner_of(false, self.flat@, w), corner_of(true, self.flat@, w));
                &&& written(old(lo)@, final(lo)@, low)
                &&& written(old(hi)@, final(hi)@, high)
                &&& all_finite_spec(self.flat@) ==> bounds(low, high, self@, w)
            }),
    {
        self.bbox_kernel::<false>(lo, hi);
    }

    /// [`Rows::bbox_into`] that also tells whether all coordinates are finite. The
    /// box counts only if they are, and is the same then.
    pub fn bbox_checked_into(self, lo: &mut [S], hi: &mut [S]) -> (r: bool)
        requires
            lawful::<S>(),
            self.valid(),
            old(lo)@.len() >= self.width.ndim_spec(),
            old(hi)@.len() >= self.width.ndim_spec(),
        ensures
            ({
                let w = self.width.ndim_spec() as int;
                let (low, high) = (corner_of(false, self.flat@, w), corner_of(true, self.flat@, w));
                &&& r == all_finite_spec(self.flat@)
                &&& final(lo)@.len() == old(lo)@.len()
                &&& final(hi)@.len() == old(hi)@.len()
                &&& r ==> written(old(lo)@, final(lo)@, low)
                &&& r ==> written(old(hi)@, final(hi)@, high)
                &&& r ==> bounds(low, high, self@, w)
                &&& forall|i: int| w <= i < old(lo)@.len() ==> #[trigger] final(lo)@[i]
                    == old(lo)@[i]
                &&& forall|i: int| w <= i < old(hi)@.len() ==> #[trigger] final(hi)@[i]
                    == old(hi)@[i]
            }),
    {
        self.bbox_kernel::<true>(lo, hi)
    }

    fn bbox_kernel<const CHECK_FINITE: bool>(self, lo: &mut [S], hi: &mut [S]) -> (r: bool)
        requires
            lawful::<S>(),
            self.valid(),
            old(lo)@.len() >= self.width.ndim_spec(),
            old(hi)@.len() >= self.width.ndim_spec(),
        ensures
            ({
                let w = self.width.ndim_spec() as int;
                let (low, high) = (corner_of(false, self.flat@, w), corner_of(true, self.flat@, w));
                &&& r == (CHECK_FINITE ==> all_finite_spec(self.flat@))
                &&& final(lo)@.len() == old(lo)@.len()
                &&& final(hi)@.len() == old(hi)@.len()
                &&& r ==> written(old(lo)@, final(lo)@, low)
                &&& r ==> written(old(hi)@, final(hi)@, high)
                &&& all_finite_spec(self.flat@) ==> bounds(low, high, self@, w)
                &&& forall|i: int| w <= i < old(lo)@.len() ==> #[trigger] final(lo)@[i]
                    == old(lo)@[i]
                &&& forall|i: int| w <= i < old(hi)@.len() ==> #[trigger] final(hi)@[i]
                    == old(hi)@[i]
            }),
    {
        let ndim = self.ndim();
        let (front_lo, _) = lo.split_at_mut(ndim);
        let (front_hi, _) = hi.split_at_mut(ndim);
        let good = self.bound_block::<CHECK_FINITE>(front_lo, front_hi);
        proof {
            let w = ndim as int;
            if good {
                assert(lo@.subrange(0, w) =~= corner_of(false, self.flat@, w));
                assert(hi@.subrange(0, w) =~= corner_of(true, self.flat@, w));
            }
        }
        good
    }

    /// Rows shorter than a step would leave most lanes idle, so the block streams
    /// as steps of `LANES` values whatever the row width. A width whose pattern
    /// takes too many steps to repeat falls back to a sweep value by value.
    fn bound_block<const CHECK_FINITE: bool>(self, lo: &mut [S], hi: &mut [S]) -> (r: bool)
        requires
            lawful::<S>(),
            self.valid(),
            old(lo)@.len() == self.width.ndim_spec(),
            old(hi)@.len() == self.width.ndim_spec(),
        ensures
            ({
                let w = self.width.ndim_spec() as int;
                let (low, high) = (corner_of(false, self.flat@, w), corner_of(true, self.flat@, w));
                &&& final(lo)@.len() == old(lo)@.len()
                &&& final(hi)@.len() == old(hi)@.len()
                &&& r == (CHECK_FINITE ==> all_finite_spec(self.flat@))
                &&& r ==> final(lo)@ == low && final(hi)@ == high
                &&& all_finite_spec(self.flat@) ==> bounds(low, high, self@, w)
            }),
    {
        let ndim = self.ndim();
        let data = self.flat;
        let ghost w = ndim as int;
        fill(lo, S::infinity());
        fill(hi, S::neg_infinity());
        let common = gcd(ndim, LANES);
        let phases = ndim / common;
        let mut good = true;
        let mut at: usize = 0;
        proof {
            assert(8 == LANES);
            lemma_common(w, common as int);
            lemma_phases(w);
            lemma_nothing_counted(lo@, hi@, data@, w);
            assert(data@.subrange(0, 0) =~= Seq::empty());
        }
        if phases <= MAX_PHASES {
            let mut acc_lo = [S::infinity(); 64];
            let mut acc_hi = [S::neg_infinity(); 64];
            assert(acc_lo@ =~= Seq::new(64, |i: int| S::infinity_spec()));
            assert(acc_hi@ =~= Seq::new(64, |i: int| S::neg_infinity_spec()));
            good = lane_bounds::<S, CHECK_FINITE>(data, ndim, phases, &mut acc_lo, &mut acc_hi);
            at = (data.len() / LANES) * LANES;
            merge_slots(
                &acc_lo,
                &acc_hi,
                phases * LANES,
                lo,
                hi,
                Ghost(data@),
                Ghost(at as int),
            );
        }
        let rest = sweep::<S, CHECK_FINITE>(data, at, lo, hi);
        proof {
            assert(lo@ == corner_of(false, data@, w) && hi@ == corner_of(true, data@, w) || !rest)
                by {
                reveal(corner_of);
            }
            lemma_finite_apart(data@, at as int);
            if all_finite_spec(data@) {
                lemma_bounds(lo@, hi@, data@, w);
            }
        }
        good && rest
    }
}

} // verus!
