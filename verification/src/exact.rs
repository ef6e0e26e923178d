//! Exact integer scalars.
//!
//! [`Int`] is a 64-bit integer with two infinities and a nan. It computes
//! exactly and saturates to an infinity where the true result does not fit, so
//! a tree over it answers every query exactly as long as the distances fit.

use crate::distance::lemma_restore_monotone;
use crate::metric::Metric;
use crate::scalar::{at_most, finite, keys_decide, lawful, lawful_exact, limit, nonneg, orderly,
    power_grows, root_grows, Scalar};
use crate::text::{decimal, decimal_spec};
use vstd::arithmetic::power::{lemma_pow_distributes, pow};
use vstd::prelude::*;
use vstd::string::StringExecFns;

verus! {

/// The greatest raw value, which stands for infinity.
pub const TOP: i64 = 9223372036854775807;

/// An integer strictly between `-TOP` and `TOP`, an infinity at either bound,
/// or, at the one raw value below `-TOP`, a nan.
#[derive(Clone, Copy, Debug, PartialEq, Eq)]
pub struct Int {
    pub raw: i64,
}

/// The nearest [`Int`] to `v`, an infinity where `v` does not fit.
pub open spec fn clamp_spec(v: int) -> Int {
    if v >= TOP {
        Int { raw: TOP }
    } else if v <= -TOP {
        Int { raw: (-TOP) as i64 }
    } else {
        Int { raw: v as i64 }
    }
}

pub open spec fn nan_int() -> Int {
    Int { raw: i64::MIN }
}

pub open spec fn infinite(x: Int) -> bool {
    x.raw == TOP || x.raw == -TOP
}

/// The largest number up to `c` whose `p`-th power is at most `x`.
pub open spec fn floor_root_upto(x: int, p: nat, c: int) -> int
    decreases c,
{
    if c <= 0 || pow(c, p) <= x {
        c
    } else {
        floor_root_upto(x, p, c - 1)
    }
}

pub open spec fn floor_root(x: int, p: nat) -> int {
    floor_root_upto(x, p, x)
}

pub open spec fn root_of(x: Int, p: nat) -> Int {
    if x.raw < 0 || p < 1 {
        nan_int()
    } else if x.raw == TOP {
        x
    } else {
        clamp_spec(floor_root(x.raw as int, p))
    }
}

pub open spec fn int_text(x: Int) -> Seq<char> {
    if x.raw == i64::MIN {
        "NaN"@
    } else if x.raw == TOP {
        "inf"@
    } else if x.raw == -TOP {
        "-inf"@
    } else if x.raw < 0 {
        "-"@ + decimal_spec((-x.raw) as nat)
    } else {
        decimal_spec(x.raw as nat)
    }
}

fn clamp(v: i128) -> (r: Int)
    ensures
        r == clamp_spec(v as int),
{
    if v >= TOP as i128 {
        Int { raw: TOP }
    } else if v <= -(TOP as i128) {
        Int { raw: -TOP }
    } else {
        Int { raw: v as i64 }
    }
}

pub proof fn lemma_pow_nonneg(b: int, e: nat)
    requires
        b >= 0,
    ensures
        pow(b, e) >= 0,
    decreases e,
{
    reveal(pow);
    if e > 0 {
        lemma_pow_nonneg(b, (e - 1) as nat);
        assert(b * pow(b, (e - 1) as nat) >= 0) by (nonlinear_arith)
            requires
                b >= 0,
                pow(b, (e - 1) as nat) >= 0,
        ;
    }
}

proof fn lemma_pow_zero_one(e: nat)
    requires
        e >= 1,
    ensures
        pow(0, e) == 0,
        pow(1, e) == 1,
    decreases e,
{
    reveal(pow);
    if e > 1 {
        lemma_pow_zero_one((e - 1) as nat);
    } else {
        assert(pow(0, 0) == 1);
        assert(pow(1, 0) == 1);
    }
}

/// A power never shrinks as its base grows.
proof fn lemma_pow_monotone(a: int, b: int, e: nat)
    requires
        0 <= a <= b,
    ensures
        0 <= pow(a, e) <= pow(b, e),
    decreases e,
{
    reveal(pow);
    lemma_pow_nonneg(a, e);
    if e > 0 {
        let f = (e - 1) as nat;
        lemma_pow_monotone(a, b, f);
        assert(a * pow(a, f) <= b * pow(b, f)) by (nonlinear_arith)
            requires
                0 <= a <= b,
                0 <= pow(a, f) <= pow(b, f),
        ;
    }
}

/// A positive power of a number from zero on is at least the number.
pub proof fn lemma_pow_at_least_base(b: int, e: nat)
    requires
        b >= 0,
        e >= 1,
    ensures
        pow(b, e) >= b,
{
    reveal(pow);
    if b == 0 {
        lemma_pow_zero_one(e);
    } else {
        lemma_pow_monotone(1, b, (e - 1) as nat);
        if e > 1 {
            lemma_pow_zero_one((e - 1) as nat);
        }
        assert(b * pow(b, (e - 1) as nat) >= b) by (nonlinear_arith)
            requires
                b >= 1,
                pow(b, (e - 1) as nat) >= 1,
        ;
    }
}

/// A power of a base above one is at least as large as an earlier one.
proof fn lemma_pow_exponent_monotone(b: int, e: nat, f: nat)
    requires
        b >= 1,
        e <= f,
    ensures
        1 <= pow(b, e) <= pow(b, f),
    decreases f,
{
    reveal(pow);
    if e < f {
        lemma_pow_exponent_monotone(b, e, (f - 1) as nat);
        assert(b * pow(b, (f - 1) as nat) >= pow(b, (f - 1) as nat)) by (nonlinear_arith)
            requires
                b >= 1,
                pow(b, (f - 1) as nat) >= 1,
        ;
    } else if f > 0 {
        lemma_pow_exponent_monotone(b, (e - 1) as nat, (f - 1) as nat);
        assert(b * pow(b, (f - 1) as nat) >= 1) by (nonlinear_arith)
            requires
                b >= 1,
                pow(b, (f - 1) as nat) >= 1,
        ;
    }
}

/// `x` to the power of `p`, or `TOP` where that is less.
fn capped_power(x: i64, p: i64) -> (r: i64)
    requires
        x >= 0,
        p >= 1,
    ensures
        r == (if pow(x as int, p as nat) >= TOP {
            TOP as int
        } else {
            pow(x as int, p as nat)
        }),
{
    if x <= 1 {
        proof {
            lemma_pow_zero_one(p as nat);
        }
        return x;
    }
    assert(pow(x as int, 0) == 1) by {
        reveal(pow);
    }
    let mut acc: i64 = 1;
    let mut done: i64 = 0;
    while done < p
        invariant
            x >= 2,
            0 <= done <= p,
            1 <= acc < TOP,
            acc == pow(x as int, done as nat),
        decreases p - done,
    {
        proof {
            reveal(pow);
            assert(acc * x <= TOP * TOP) by (nonlinear_arith)
                requires
                    1 <= acc < TOP,
                    2 <= x <= TOP,
            ;
            assert(acc * x >= 2) by (nonlinear_arith)
                requires
                    1 <= acc,
                    2 <= x,
            ;
            assert(x * acc == acc * x) by (nonlinear_arith);
        }
        let next: i128 = acc as i128 * x as i128;
        done += 1;
        assert(next == pow(x as int, done as nat));
        if next >= TOP as i128 {
            proof {
                lemma_pow_exponent_monotone(x as int, done as nat, p as nat);
            }
            return TOP;
        }
        acc = next as i64;
    }
    acc
}

proof fn lemma_floor_root(x: int, p: nat, c: int, r: int)
    requires
        0 <= r <= c,
        p >= 1,
        x >= 0,
        pow(r, p) <= x,
        r == c || pow(r + 1, p) > x,
    ensures
        floor_root_upto(x, p, c) == r,
    decreases c,
{
    if r < c {
        lemma_pow_monotone(r + 1, c, p);
        lemma_floor_root(x, p, c - 1, r);
    } else {
        lemma_pow_zero_one(p);
    }
}

proof fn lemma_floor_root_bounds(x: int, p: nat, c: int)
    requires
        c >= 0,
    ensures
        0 <= floor_root_upto(x, p, c) <= c,
    decreases c,
{
    if c > 0 && pow(c, p) > x {
        lemma_floor_root_bounds(x, p, c - 1);
    }
}

/// The root is at least every number whose power fits.
proof fn lemma_floor_root_reaches(x: int, p: nat, c: int, r: int)
    requires
        0 <= r <= c,
        pow(r, p) <= x,
    ensures
        r <= floor_root_upto(x, p, c),
    decreases c,
{
    if c > 0 && pow(c, p) > x {
        lemma_floor_root_reaches(x, p, c - 1, r);
    }
}

/// The power of the root fits.
proof fn lemma_floor_root_fits(x: int, p: nat, c: int)
    requires
        0 <= c,
        0 <= x,
        p >= 1,
    ensures
        pow(floor_root_upto(x, p, c), p) <= x,
    decreases c,
{
    lemma_pow_zero_one(p);
    if c > 0 && pow(c, p) > x {
        lemma_floor_root_fits(x, p, c - 1);
    }
}

/// A root is the greatest whole number whose power is at most its radicand.
pub proof fn lemma_root_rounds_down(x: int, p: nat)
    requires
        0 <= x,
        p >= 1,
    ensures
        0 <= floor_root(x, p) <= x,
        pow(floor_root(x, p), p) <= x < pow(floor_root(x, p) + 1, p),
{
    let r = floor_root(x, p);
    lemma_floor_root_bounds(x, p, x);
    lemma_floor_root_fits(x, p, x);
    if pow(r + 1, p) <= x {
        lemma_pow_at_least_base(r + 1, p);
        lemma_floor_root_reaches(x, p, x, r + 1);
    }
}

/// A root never shrinks as its radicand grows.
proof fn lemma_root_monotone(a: Int, b: Int, p: nat)
    requires
        nonneg(a),
        at_most(a, b),
        p >= 1,
    ensures
        root_of(a, p).raw <= root_of(b, p).raw,
{
    let (x, y) = (a.raw as int, b.raw as int);
    lemma_floor_root_bounds(x, p, x);
    lemma_floor_root_bounds(y, p, y);
    lemma_floor_root_fits(x, p, x);
    lemma_floor_root_reaches(y, p, y, floor_root(x, p));
}

fn root(x: Int, p: i64) -> (r: Int)
    requires
        p >= 1,
    ensures
        r == root_of(x, p as nat),
{
    if x.raw < 0 {
        return Int { raw: i64::MIN };
    }
    if x.raw == TOP {
        return x;
    }
    let v = x.raw;
    let mut lo: i64 = 0;
    let mut hi: i64 = v;
    proof {
        lemma_pow_zero_one(p as nat);
        lemma_pow_at_least_base(v as int + 1, p as nat);
    }
    while lo < hi
        invariant
            p >= 1,
            0 <= lo <= hi <= v < TOP,
            pow(lo as int, p as nat) <= v,
            pow(hi as int + 1, p as nat) > v,
        decreases hi - lo,
    {
        let half: i64 = (hi - lo) / 2;
        let mid: i64 = hi - half;
        let raised = capped_power(mid, p);
        if raised <= v {
            lo = mid;
        } else {
            hi = mid - 1;
        }
    }
    proof {
        lemma_floor_root(v as int, p as nat, v as int, lo as int);
    }
    Int { raw: lo }
}

impl Int {
    /// The scalar of `value`; the extreme values are the infinities and the nan.
    pub fn new(value: i64) -> (r: Int)
        ensures
            r.raw == value,
    {
        Int { raw: value }
    }
}

impl Scalar for Int {
    open spec fn nan(self) -> bool {
        self.raw == i64::MIN
    }

    open spec fn key(self) -> int {
        self.raw as int
    }

    open spec fn rank(self) -> int {
        self.raw as int
    }

    open spec fn exact() -> bool {
        true
    }

    open spec fn zero_spec() -> Self {
        Int { raw: 0 }
    }

    open spec fn one_spec() -> Self {
        Int { raw: 1 }
    }

    open spec fn infinity_spec() -> Self {
        Int { raw: TOP }
    }

    open spec fn neg_infinity_spec() -> Self {
        Int { raw: (-TOP) as i64 }
    }

    open spec fn plus_spec(self, other: Self) -> Self {
        if self.nan() || other.nan() {
            nan_int()
        } else if infinite(self) && infinite(other) {
            if self.raw == other.raw {
                self
            } else {
                nan_int()
            }
        } else if infinite(self) {
            self
        } else if infinite(other) {
            other
        } else {
            clamp_spec(self.raw + other.raw)
        }
    }

    open spec fn minus_spec(self, other: Self) -> Self {
        if other.nan() {
            nan_int()
        } else {
            self.plus_spec(Int { raw: (-other.raw) as i64 })
        }
    }

    open spec fn times_spec(self, other: Self) -> Self {
        if self.nan() || other.nan() {
            nan_int()
        } else if (infinite(self) && other.raw == 0) || (infinite(other) && self.raw == 0) {
            nan_int()
        } else {
            clamp_spec(self.raw * other.raw)
        }
    }

    open spec fn abs_spec(self) -> Self {
        if self.nan() || self.raw >= 0 {
            self
        } else {
            Int { raw: (-self.raw) as i64 }
        }
    }

    open spec fn power_spec(self, exponent: Self) -> Self {
        if self.raw < 0 || exponent.raw < 1 {
            nan_int()
        } else {
            clamp_spec(pow(self.raw as int, exponent.raw as nat))
        }
    }

    open spec fn sqrt_spec(self) -> Self {
        root_of(self, 2)
    }

    open spec fn root_spec(self, degree: Self) -> Self {
        if degree.raw < 1 {
            nan_int()
        } else {
            root_of(self, degree.raw as nat)
        }
    }

    open spec fn ratio_reaches_spec(self, whole: Self, num: u32, den: u32) -> bool {
        !self.nan() && !whole.nan() && self.raw * den >= whole.raw * num
    }

    open spec fn text_spec(self) -> Seq<char> {
        int_text(self)
    }

    fn zero() -> (r: Self) {
        Int { raw: 0 }
    }

    fn one() -> (r: Self) {
        Int { raw: 1 }
    }

    fn infinity() -> (r: Self) {
        Int { raw: TOP }
    }

    fn neg_infinity() -> (r: Self) {
        Int { raw: -TOP }
    }

    fn lt(self, other: Self) -> (r: bool) {
        self.raw != i64::MIN && other.raw != i64::MIN && self.raw < other.raw
    }

    fn le(self, other: Self) -> (r: bool) {
        self.raw != i64::MIN && other.raw != i64::MIN && self.raw <= other.raw
    }

    fn precedes(self, other: Self) -> (r: bool) {
        self.raw < other.raw
    }

    fn plus(self, other: Self) -> (r: Self) {
        let nan = Int { raw: i64::MIN };
        let here = self.raw == TOP || self.raw == -TOP;
        let there = other.raw == TOP || other.raw == -TOP;
        if self.raw == i64::MIN || other.raw == i64::MIN {
            nan
        } else if here && there {
            if self.raw == other.raw {
                self
            } else {
                nan
            }
        } else if here {
            self
        } else if there {
            other
        } else {
            clamp(self.raw as i128 + other.raw as i128)
        }
    }

    fn minus(self, other: Self) -> (r: Self) {
        if other.raw == i64::MIN {
            other
        } else {
            self.plus(Int { raw: -other.raw })
        }
    }

    fn times(self, other: Self) -> (r: Self) {
        let here = self.raw == TOP || self.raw == -TOP;
        let there = other.raw == TOP || other.raw == -TOP;
        if self.raw == i64::MIN || other.raw == i64::MIN {
            Int { raw: i64::MIN }
        } else if (here && other.raw == 0) || (there && self.raw == 0) {
            Int { raw: i64::MIN }
        } else {
            let (a, b) = (self.raw, other.raw);
            assert(-(TOP * TOP) <= a * b <= TOP * TOP) by (nonlinear_arith)
                requires
                    -TOP <= a <= TOP,
                    -TOP <= b <= TOP,
            ;
            clamp(a as i128 * b as i128)
        }
    }

    fn abs(self) -> (r: Self) {
        if self.raw == i64::MIN || self.raw >= 0 {
            self
        } else {
            Int { raw: -self.raw }
        }
    }

    fn power(self, exponent: Self) -> (r: Self) {
        if self.raw < 0 || exponent.raw < 1 {
            Int { raw: i64::MIN }
        } else {
            proof {
                lemma_pow_nonneg(self.raw as int, exponent.raw as nat);
            }
            Int { raw: capped_power(self.raw, exponent.raw) }
        }
    }

    fn sqrt(self) -> (r: Self) {
        proof {
            if 0 <= self.raw < TOP {
                lemma_floor_root_bounds(self.raw as int, 2, self.raw as int);
            }
        }
        root(self, 2)
    }

    fn root(self, degree: Self) -> (r: Self) {
        if degree.raw < 1 {
            Int { raw: i64::MIN }
        } else {
            root(self, degree.raw)
        }
    }

    fn ratio_reaches(self, whole: Self, num: u32, den: u32) -> (r: bool) {
        let (a, b) = (self.raw, whole.raw);
        assert(-0x8000_0000_0000_0000 * 0xffff_ffff <= a * den <= 0x8000_0000_0000_0000
            * 0xffff_ffff) by (nonlinear_arith)
            requires
                -0x8000_0000_0000_0000 <= a <= 0x8000_0000_0000_0000,
                0 <= den <= 0xffff_ffff,
        ;
        assert(-0x8000_0000_0000_0000 * 0xffff_ffff <= b * num <= 0x8000_0000_0000_0000
            * 0xffff_ffff) by (nonlinear_arith)
            requires
                -0x8000_0000_0000_0000 <= b <= 0x8000_0000_0000_0000,
                0 <= num <= 0xffff_ffff,
        ;
        a != i64::MIN && b != i64::MIN && a as i128 * den as i128 >= b as i128 * num as i128
    }

    fn text(self) -> (r: String) {
        if self.raw == i64::MIN {
            String::new().concat("NaN")
        } else if self.raw == TOP {
            String::new().concat("inf")
        } else if self.raw == -TOP {
            String::new().concat("-inf")
        } else if self.raw < 0 {
            let size = decimal((-self.raw) as u64);
            let r = String::new().concat("-").concat(size.as_str());
            assert(r@ =~= int_text(self));
            r
        } else {
            decimal(self.raw as u64)
        }
    }
}

/// The operations of [`Int`] respect its order.
proof fn int_is_orderly()
    ensures
        orderly::<Int>(),
{
    reveal(orderly);
    assert forall|a: Int, b: Int|
        #![trigger a.sqrt_spec(), b.sqrt_spec()]
        nonneg(a) && at_most(a, b) implies a.sqrt_spec().key() <= b.sqrt_spec().key() by {
        lemma_root_monotone(a, b, 2);
    }
    assert forall|x: Int|
        #![trigger x.times_spec(x), x.abs_spec()]
        !x.nan() implies x.times_spec(x).key() == x.abs_spec().times_spec(x.abs_spec()).key() by {
        assert((-x.raw) * (-x.raw) == x.raw * x.raw) by (nonlinear_arith);
    }
    assert forall|a: Int, b: Int|
        #![trigger a.times_spec(a), b.times_spec(b)]
        nonneg(a) && at_most(a, b) implies a.times_spec(a).key() <= b.times_spec(b).key() by {
        assert(a.raw * a.raw <= b.raw * b.raw) by (nonlinear_arith)
            requires
                0 <= a.raw <= b.raw,
        ;
    }
    assert forall|a: Int, b: Int, f: Int|
        #![trigger a.times_spec(f), b.times_spec(f)]
        nonneg(a) && at_most(a, b) && finite(f) && at_most(Int::one_spec(), f) implies at_most(
        a.times_spec(f),
        b.times_spec(f),
    ) by {
        assert(0 <= a.raw * f.raw <= b.raw * f.raw) by (nonlinear_arith)
            requires
                0 <= a.raw <= b.raw,
                1 <= f.raw,
        ;
    }
    assert(TOP * TOP >= TOP) by (nonlinear_arith);
    assert forall|p: Int| at_most(Int::one_spec(), p) && finite(p) implies (
    #[trigger] Int::infinity_spec().power_spec(p)).key() == Int::infinity_spec().key() by {
        lemma_pow_at_least_base(TOP as int, p.raw as nat);
    }
    assert forall|a: Int, f: Int|
        nonneg(a) && finite(f) && at_most(Int::one_spec(), f) implies at_most(
        a,
        #[trigger] a.times_spec(f),
    ) by {
        assert(a.raw <= a.raw * f.raw) by (nonlinear_arith)
            requires
                0 <= a.raw,
                1 <= f.raw,
        ;
    }
    assert forall|x: Int, p: Int|
        nonneg(x) && x.key() == Int::zero_spec().key() && at_most(Int::one_spec(), p) && finite(
            p,
        ) implies (#[trigger] x.power_spec(p)).key() == x.key() by {
        lemma_pow_zero_one(p.raw as nat);
    }
    assert forall|x: Int, p: Int|
        !x.nan() && x.key() == Int::one_spec().key() && at_most(Int::one_spec(), p) && finite(
            p,
        ) implies (#[trigger] x.power_spec(p)).key() == x.key() by {
        lemma_pow_zero_one(p.raw as nat);
    }
}

/// Powers of [`Int`] never shrink as the base grows.
pub proof fn int_power_grows()
    ensures
        power_grows::<Int>(),
{
    assert forall|a: Int, b: Int, p: Int|
        #![trigger a.power_spec(p), b.power_spec(p)]
        nonneg(a) && at_most(a, b) && at_most(Int::one_spec(), p) && finite(
            p,
        ) implies a.power_spec(p).key() <= b.power_spec(p).key() by {
        lemma_pow_monotone(a.raw as int, b.raw as int, p.raw as nat);
    }
}

/// The roots of [`Int`] keep the order of their radicands.
pub proof fn int_root_grows()
    ensures
        root_grows::<Int>(),
{
    assert forall|a: Int, b: Int, p: Int|
        #![trigger a.root_spec(p), b.root_spec(p)]
        nonneg(a) && at_most(a, b) && at_most(Int::one_spec(), p) && finite(
            p,
        ) implies a.root_spec(p).key() <= b.root_spec(p).key() by {
        lemma_root_monotone(a, b, p.raw as nat);
    }
}

/// [`Int`] meets every law of scalars, the exact ones included.
pub proof fn int_is_lawful()
    ensures
        lawful::<Int>(),
{
    assert forall|x: Int| !x.nan() implies nonneg(#[trigger] x.times_spec(x)) by {
        assert(x.raw * x.raw >= 0) by (nonlinear_arith);
    }
    assert forall|x: Int, p: Int|
        nonneg(x) && p.raw >= 1 implies nonneg(
        #[trigger] x.power_spec(p),
    ) by {
        lemma_pow_nonneg(x.raw as int, p.raw as nat);
    }
    assert forall|x: Int, p: nat|
        nonneg(x) && p >= 1 implies nonneg(
        #[trigger] root_of(x, p),
    ) by {
        lemma_floor_root_bounds(x.raw as int, p, x.raw as int);
    }
    int_is_orderly();
    assert(limit::<Int>() == TOP);
    assert(keys_decide::<Int>()) by {
        reveal(keys_decide);
    }
    assert(lawful_exact::<Int>());
}

/// A greater base has a greater power.
proof fn lemma_pow_strict(a: int, p: nat)
    requires
        a >= 0,
        p >= 1,
    ensures
        pow(a, p) < pow(a + 1, p),
    decreases p,
{
    reveal(pow);
    let q = (p - 1) as nat;
    lemma_pow_monotone(a, a + 1, q);
    lemma_pow_exponent_monotone(a + 1, 0, q);
    assert(a * pow(a, q) < (a + 1) * pow(a + 1, q)) by (nonlinear_arith)
        requires
            a >= 0,
            0 <= pow(a, q) <= pow(a + 1, q),
            pow(a + 1, q) >= 1,
    ;
}

/// The plain distance of a reduced integer distance is the distance again, as long
/// as the reduced one fits.
pub proof fn restoring_undoes_reducing(m: Metric<Int>, distance: Int)
    requires
        m.valid(),
        nonneg(distance),
        finite(m.reduce_spec(distance)),
    ensures
        m.restore_spec(m.reduce_spec(distance)) == distance,
{
    let d = distance.raw as int;
    match m {
        Metric::L1 | Metric::LInf => {},
        Metric::L2 => {
            reveal(pow);
            assert(pow(d, 2) == d * d) by {
                assert(pow(d, 0) == 1);
                assert(pow(d, 1) == d);
            }
            assert(d * d >= 0) by (nonlinear_arith);
            lemma_pow_at_least_base(d, 2);
            lemma_pow_strict(d, 2);
            lemma_floor_root(d * d, 2, d * d, d);
        },
        Metric::LP(p) => {
            let e = p.raw as nat;
            lemma_pow_nonneg(d, e);
            lemma_pow_at_least_base(d, e);
            lemma_pow_strict(d, e);
            lemma_floor_root(pow(d, e), e, pow(d, e), d);
        },
    }
}

/// A bound by a factor carries over to plain integer distances: where a reduced
/// distance is at most the reduced factor times that of `d`, the plain one is at most
/// the factor times `d`, as long as that fits once it is reduced.
pub proof fn the_factor_carries_over_to_plain_distances(
    m: Metric<Int>,
    x: Int,
    d: Int,
    factor: Int,
)
    requires
        m.valid(),
        nonneg(x),
        nonneg(d),
        at_most(Int::one_spec(), factor),
        finite(m.reduce_spec(d.times_spec(factor))),
        x.key() <= m.reduce_spec(d).times_spec(m.reduce_spec(factor)).key(),
    ensures
        m.restore_spec(m.reduce_spec(d)) == d,
        m.restore_spec(x).key() <= d.times_spec(factor).key(),
{
    int_is_lawful();
    int_root_grows();
    let far = d.times_spec(factor);
    let (a, b) = (d.raw as int, factor.raw as int);
    assert(0 <= a <= a * b && (a >= 1 ==> b <= a * b)) by (nonlinear_arith)
        requires
            0 <= a,
            1 <= b,
    ;
    match m {
        Metric::L1 | Metric::LInf => {},
        Metric::L2 => {
            let f = far.raw as int;
            assert(f <= f * f) by (nonlinear_arith)
                requires
                    0 <= f,
            ;
            assert(f == a * b);
            assert(0 <= a * a <= f * f) by (nonlinear_arith)
                requires
                    0 <= a <= f,
            ;
            if a >= 1 {
                assert(0 <= b * b <= f * f) by (nonlinear_arith)
                    requires
                        0 <= b <= f,
                ;
            }
            assert((a * b) * (a * b) == (a * a) * (b * b)) by (nonlinear_arith);
            assert(m.reduce_spec(far).raw == f * f && m.reduce_spec(d).raw == a * a);
            assert(x.key() <= m.reduce_spec(far).key());
        },
        Metric::LP(p) => {
            let e = p.raw as nat;
            lemma_pow_at_least_base(far.raw as int, e);
            assert(far.raw == a * b);
            lemma_pow_monotone(a, a * b, e);
            if a >= 1 {
                lemma_pow_monotone(b, a * b, e);
            } else {
                lemma_pow_zero_one(e);
            }
            lemma_pow_distributes(a, b, e);
            assert(x.key() <= m.reduce_spec(far).key());
        },
    }
    restoring_undoes_reducing(m, far);
    restoring_undoes_reducing(m, d);
    assert(at_most(x, m.reduce_spec(far)));
    lemma_restore_monotone(m, x, m.reduce_spec(far));
}

} // verus!
