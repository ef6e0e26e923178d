//! The numbers that a tree is built over.
//!
//! Every algorithm of this crate is written against [`Scalar`], so that one
//! body of code serves machine floats and exact integers alike. The trait
//! carries a model beside each operation; [`lawful`] collects what the
//! algorithms take for granted about that model. The laws are weak enough for
//! rounding arithmetic: they say that results keep their sign and that greater
//! operands give no lesser results ([`orderly`]), never what a rounded result is.
//! Arithmetic that does not round says so through [`Scalar::exact`].

use vstd::arithmetic::power::pow;
use vstd::prelude::*;

verus! {

/// A number with an order, a few constants and the arithmetic of distances.
///
/// The `*_spec` functions, [`Scalar::key`] and [`Scalar::rank`] are the model in
/// which contracts speak. A type that leaves part of the model out has the same
/// arbitrary value there for everything, so [`lawful`] does not hold of it: nothing
/// is proved of such a type.
pub trait Scalar: Copy + Send + Sync {
    /// The value compares with nothing, itself included.
    open spec fn nan(self) -> bool {
        arbitrary()
    }

    /// The place of the value in the order. Two values compare as their keys
    /// do; distinct values may share one.
    open spec fn key(self) -> int {
        arbitrary()
    }

    /// The place of the value in a total order that agrees with the order of keys
    /// and tells distinct values apart, such as the two zeros of a float.
    open spec fn rank(self) -> int {
        arbitrary()
    }

    /// The arithmetic does not round: see [`lawful_exact`].
    open spec fn exact() -> bool {
        arbitrary()
    }

    open spec fn zero_spec() -> Self {
        arbitrary()
    }

    open spec fn one_spec() -> Self {
        arbitrary()
    }

    open spec fn infinity_spec() -> Self {
        arbitrary()
    }

    open spec fn neg_infinity_spec() -> Self {
        arbitrary()
    }

    open spec fn plus_spec(self, other: Self) -> Self {
        arbitrary()
    }

    open spec fn minus_spec(self, other: Self) -> Self {
        arbitrary()
    }

    open spec fn times_spec(self, other: Self) -> Self {
        arbitrary()
    }

    open spec fn abs_spec(self) -> Self {
        arbitrary()
    }

    open spec fn power_spec(self, exponent: Self) -> Self {
        arbitrary()
    }

    open spec fn sqrt_spec(self) -> Self {
        arbitrary()
    }

    open spec fn root_spec(self, degree: Self) -> Self {
        arbitrary()
    }

    open spec fn ratio_reaches_spec(self, whole: Self, num: u32, den: u32) -> bool {
        arbitrary()
    }

    open spec fn text_spec(self) -> Seq<char> {
        arbitrary()
    }

    fn zero() -> (r: Self)
        ensures
            r == Self::zero_spec(),
    ;

    fn one() -> (r: Self)
        ensures
            r == Self::one_spec(),
    ;

    /// No value is greater.
    fn infinity() -> (r: Self)
        ensures
            r == Self::infinity_spec(),
    ;

    /// No value is less.
    fn neg_infinity() -> (r: Self)
        ensures
            r == Self::neg_infinity_spec(),
    ;

    fn lt(self, other: Self) -> (r: bool)
        ensures
            r == (!self.nan() && !other.nan() && self.key() < other.key()),
    ;

    fn le(self, other: Self) -> (r: bool)
        ensures
            r == (!self.nan() && !other.nan() && self.key() <= other.key()),
    ;

    /// Whether `self` comes before `other` in the total order.
    fn precedes(self, other: Self) -> (r: bool)
        ensures
            r == (self.rank() < other.rank()),
    ;

    fn plus(self, other: Self) -> (r: Self)
        ensures
            r == self.plus_spec(other),
    ;

    fn minus(self, other: Self) -> (r: Self)
        ensures
            r == self.minus_spec(other),
    ;

    fn times(self, other: Self) -> (r: Self)
        ensures
            r == self.times_spec(other),
    ;

    fn abs(self) -> (r: Self)
        ensures
            r == self.abs_spec(),
    ;

    /// `self` raised to `exponent`.
    fn power(self, exponent: Self) -> (r: Self)
        ensures
            r == self.power_spec(exponent),
    ;

    fn sqrt(self) -> (r: Self)
        ensures
            r == self.sqrt_spec(),
    ;

    /// The root of `self` that [`Scalar::power`] with `degree` undoes.
    fn root(self, degree: Self) -> (r: Self)
        ensures
            r == self.root_spec(degree),
    ;

    /// Whether `self / whole` is at least `num / den`.
    fn ratio_reaches(self, whole: Self, num: u32, den: u32) -> (r: bool)
        ensures
            r == self.ratio_reaches_spec(whole, num, den),
    ;

    /// The value in decimal, for messages.
    fn text(self) -> (r: String)
        ensures
            r@ == self.text_spec(),
    ;
}

/// `a < b`, which never holds of a nan.
pub open spec fn less<S: Scalar>(a: S, b: S) -> bool {
    !a.nan() && !b.nan() && a.key() < b.key()
}

/// `a <= b`, which never holds of a nan.
pub open spec fn at_most<S: Scalar>(a: S, b: S) -> bool {
    !a.nan() && !b.nan() && a.key() <= b.key()
}

/// Neither a nan nor an infinity.
pub open spec fn finite<S: Scalar>(x: S) -> bool {
    less(S::neg_infinity_spec(), x) && less(x, S::infinity_spec())
}

/// Zero or above, an infinity included.
pub open spec fn nonneg<S: Scalar>(x: S) -> bool {
    at_most(S::zero_spec(), x)
}

pub open spec fn all_finite_spec<S: Scalar>(values: Seq<S>) -> bool {
    forall|i: int| 0 <= i < values.len() ==> finite(#[trigger] values[i])
}

/// The greater of two values, the first of two that compare equal.
pub open spec fn max_spec<S: Scalar>(a: S, b: S) -> S {
    if less(a, b) {
        b
    } else {
        a
    }
}

/// The lesser of two values, the first of two that compare equal.
pub open spec fn min_spec<S: Scalar>(a: S, b: S) -> S {
    if less(b, a) {
        b
    } else {
        a
    }
}

/// What holds of the constants and operations of every scalar.
pub open spec fn lawful<S: Scalar>() -> bool {
    &&& !S::zero_spec().nan()
    &&& !S::one_spec().nan()
    &&& !S::infinity_spec().nan()
    &&& !S::neg_infinity_spec().nan()
    &&& S::neg_infinity_spec().key() < S::zero_spec().key()
    &&& S::zero_spec().key() < S::one_spec().key()
    &&& S::one_spec().key() < S::infinity_spec().key()
    &&& forall|x: S|
        !x.nan() ==> S::neg_infinity_spec().key() <= #[trigger] x.key()
            <= S::infinity_spec().key()
    &&& forall|a: S, b: S|
        finite(a) && finite(b) ==> !(#[trigger] a.minus_spec(b)).nan()
    &&& forall|x: S| !x.nan() ==> nonneg(#[trigger] x.abs_spec())
    &&& forall|x: S| !x.nan() ==> nonneg(#[trigger] x.times_spec(x))
    &&& forall|a: S, b: S|
        nonneg(a) && nonneg(b) ==> at_most(a, #[trigger] a.plus_spec(b)) && at_most(
            b,
            a.plus_spec(b),
        )
    &&& forall|x: S, p: S|
        nonneg(x) && at_most(S::one_spec(), p) && finite(p) ==> nonneg(
            #[trigger] x.power_spec(p),
        )
    &&& forall|x: S| nonneg(x) ==> nonneg(#[trigger] x.sqrt_spec())
    &&& forall|x: S, p: S|
        nonneg(x) && at_most(S::one_spec(), p) && finite(p) ==> nonneg(#[trigger] x.root_spec(p))
    &&& orderly::<S>()
    &&& S::exact() ==> lawful_exact::<S>()
}

/// The operations respect the order, as rounding arithmetic does too: a greater
/// operand never gives a lesser result. Nothing is said here of powers but those
/// of zero, one and infinity, nor of general roots; see [`power_grows`] and [`root_grows`].
#[verifier::opaque]
pub open spec fn orderly<S: Scalar>() -> bool {
    &&& forall|a: S, b: S|
        #![trigger a.rank(), b.rank()]
        (a.key() < b.key() ==> a.rank() < b.rank()) && (a.rank() == b.rank() ==> a == b)
    &&& forall|a: S, b: S|
        #![trigger a.sqrt_spec(), b.sqrt_spec()]
        nonneg(a) && at_most(a, b) ==> a.sqrt_spec().key() <= b.sqrt_spec().key()
    &&& forall|a: S, b: S, c: S|
        #![trigger a.minus_spec(c), b.minus_spec(c)]
        finite(a) && finite(b) && finite(c) && a.key() <= b.key() ==> a.minus_spec(c).key()
            <= b.minus_spec(c).key()
    &&& forall|a: S, b: S, c: S|
        #![trigger c.minus_spec(a), c.minus_spec(b)]
        finite(a) && finite(b) && finite(c) && a.key() <= b.key() ==> c.minus_spec(b).key()
            <= c.minus_spec(a).key()
    &&& forall|a: S, b: S|
        finite(a) && finite(b) ==> ((#[trigger] a.minus_spec(b)).key() <= S::zero_spec().key()
            <==> a.key() <= b.key()) && (S::zero_spec().key() <= a.minus_spec(b).key() <==> b.key()
            <= a.key())
    &&& forall|x: S| !x.nan() ==> x.key() <= (#[trigger] x.abs_spec()).key()
    &&& forall|x: S| nonneg(x) ==> (#[trigger] x.abs_spec()).key() == x.key()
    &&& forall|a: S, b: S|
        finite(a) && finite(b) ==> (#[trigger] a.minus_spec(b)).abs_spec().key() == b.minus_spec(
            a,
        ).abs_spec().key()
    &&& forall|x: S|
        #![trigger x.times_spec(x), x.abs_spec()]
        !x.nan() ==> x.times_spec(x).key() == x.abs_spec().times_spec(x.abs_spec()).key()
    &&& forall|a: S, b: S|
        #![trigger a.times_spec(a), b.times_spec(b)]
        nonneg(a) && at_most(a, b) ==> a.times_spec(a).key() <= b.times_spec(b).key()
    &&& forall|a: S, b: S, c: S, d: S|
        #![trigger a.plus_spec(c), b.plus_spec(d)]
        nonneg(a) && nonneg(c) && at_most(a, b) && at_most(c, d) ==> a.plus_spec(c).key()
            <= b.plus_spec(d).key()
    &&& forall|a: S, z: S|
        nonneg(a) && nonneg(z) && z.key() == S::zero_spec().key() ==> (#[trigger] a.plus_spec(
            z,
        )).key() == a.key()
    &&& forall|a: S, b: S, f: S|
        #![trigger a.times_spec(f), b.times_spec(f)]
        nonneg(a) && at_most(a, b) && finite(f) && at_most(S::one_spec(), f) ==> at_most(
            a.times_spec(f),
            b.times_spec(f),
        )
    &&& S::infinity_spec().times_spec(S::infinity_spec()).key() == S::infinity_spec().key()
    &&& forall|p: S|
        at_most(S::one_spec(), p) && finite(p) ==> (#[trigger] S::infinity_spec().power_spec(
            p,
        )).key() == S::infinity_spec().key()
    &&& forall|a: S, f: S|
        !a.nan() && finite(f) && at_most(S::one_spec(), f) ==> !(#[trigger] a.times_spec(f)).nan()
    &&& forall|a: S, f: S|
        nonneg(a) && finite(f) && at_most(S::one_spec(), f) ==> at_most(
            a,
            #[trigger] a.times_spec(f),
        )
    &&& forall|x: S|
        nonneg(x) && x.key() == S::zero_spec().key() ==> (#[trigger] x.times_spec(x)).key()
            == x.key()
    &&& forall|x: S, p: S|
        nonneg(x) && x.key() == S::zero_spec().key() && at_most(S::one_spec(), p) && finite(p)
            ==> (#[trigger] x.power_spec(p)).key() == x.key()
    &&& forall|a: S, f: S|
        nonneg(a) && !f.nan() && f.key() == S::one_spec().key() ==> !(#[trigger] a.times_spec(
            f,
        )).nan() && a.times_spec(f).key() == a.key()
    &&& forall|x: S, p: S|
        !x.nan() && x.key() == S::one_spec().key() && at_most(S::one_spec(), p) && finite(p)
            ==> (#[trigger] x.power_spec(p)).key() == x.key()
    &&& forall|a: S, b: S, c: S, d: S, num: u32, den: u32|
        #![trigger a.ratio_reaches_spec(b, num, den), c.ratio_reaches_spec(d, num, den)]
        !a.nan() && !c.nan() && less(S::zero_spec(), b) && less(S::zero_spec(), d) && a.key()
            == c.key() && b.key() == d.key() ==> a.ratio_reaches_spec(b, num, den)
            == c.ratio_reaches_spec(d, num, den)
}

/// A power never shrinks as its base grows. This is not among the laws: the
/// powers of machine floats are only close to the true ones.
pub open spec fn power_grows<S: Scalar>() -> bool {
    forall|a: S, b: S, p: S|
        #![trigger a.power_spec(p), b.power_spec(p)]
        nonneg(a) && at_most(a, b) && at_most(S::one_spec(), p) && finite(p) ==> a.power_spec(
            p,
        ).key() <= b.power_spec(p).key()
}

/// A root never shrinks as its radicand grows. This is not among the laws, as for
/// powers.
pub open spec fn root_grows<S: Scalar>() -> bool {
    forall|a: S, b: S, p: S|
        #![trigger a.root_spec(p), b.root_spec(p)]
        nonneg(a) && at_most(a, b) && at_most(S::one_spec(), p) && finite(p) ==> a.root_spec(
            p,
        ).key() <= b.root_spec(p).key()
}

/// A result below this bound in size is exact where the arithmetic does not
/// round; an infinity stands at the bound itself.
pub open spec fn limit<S: Scalar>() -> int {
    S::infinity_spec().key()
}

/// `v` is the key of a finite value.
pub open spec fn fits<S: Scalar>(v: int) -> bool {
    -limit::<S>() < v < limit::<S>()
}

/// What holds besides where the arithmetic does not round: the key of a value
/// is the integer it stands for, and an operation on finite values gives the
/// integer that the operation has over the integers, as long as that fits.
pub open spec fn lawful_exact<S: Scalar>() -> bool {
    &&& S::zero_spec().key() == 0
    &&& S::one_spec().key() == 1
    &&& S::neg_infinity_spec().key() == -limit::<S>()
    &&& forall|a: S, b: S|
        finite(a) && finite(b) && fits::<S>(a.key() - b.key()) ==> finite(
            #[trigger] a.minus_spec(b),
        ) && a.minus_spec(b).key() == a.key() - b.key()
    &&& forall|a: S, b: S|
        finite(a) && finite(b) && fits::<S>(a.key() + b.key()) ==> finite(
            #[trigger] a.plus_spec(b),
        ) && a.plus_spec(b).key() == a.key() + b.key()
    &&& forall|a: S, b: S|
        finite(a) && finite(b) && fits::<S>(a.key() * b.key()) ==> finite(
            #[trigger] a.times_spec(b),
        ) && a.times_spec(b).key() == a.key() * b.key()
    &&& forall|a: S|
        finite(a) ==> finite(#[trigger] a.abs_spec()) && a.abs_spec().key() == (if a.key() < 0 {
            -a.key()
        } else {
            a.key()
        })
    &&& forall|a: S, p: S|
        finite(a) && finite(p) && a.key() >= 0 && p.key() >= 1 && fits::<S>(
            pow(a.key(), p.key() as nat),
        ) ==> finite(#[trigger] a.power_spec(p)) && a.power_spec(p).key() == pow(
            a.key(),
            p.key() as nat,
        )
    &&& keys_decide::<S>()
}

/// Finite values that compare equal are the same value.
#[verifier::opaque]
pub open spec fn keys_decide<S: Scalar>() -> bool {
    forall|a: S, b: S|
        #![trigger finite(a), finite(b)]
        finite(a) && finite(b) && a.key() == b.key() ==> a == b
}

/// Whether `x` is neither a nan nor an infinity.
pub fn is_finite<S: Scalar>(x: S) -> (r: bool)
    ensures
        r == finite(x),
{
    S::neg_infinity().lt(x) && x.lt(S::infinity())
}

/// Whether the two values compare equal.
pub fn same<S: Scalar>(a: S, b: S) -> (r: bool)
    ensures
        r == (!a.nan() && !b.nan() && a.key() == b.key()),
{
    a.le(b) && b.le(a)
}

pub fn max<S: Scalar>(a: S, b: S) -> (r: S)
    ensures
        r == max_spec(a, b),
{
    if a.lt(b) {
        b
    } else {
        a
    }
}

pub fn min<S: Scalar>(a: S, b: S) -> (r: S)
    ensures
        r == min_spec(a, b),
{
    if b.lt(a) {
        b
    } else {
        a
    }
}

/// A vector of `n` copies of `value`.
pub(crate) fn filled<T: Copy>(n: usize, value: T) -> (r: Vec<T>)
    ensures
        r@ == Seq::new(n as nat, |i: int| value),
{
    let mut out: Vec<T> = Vec::with_capacity(n);
    while out.len() < n
        invariant
            out@.len() <= n,
            forall|i: int| 0 <= i < out@.len() ==> out@[i] == value,
        decreases n - out@.len(),
    {
        out.push(value);
    }
    assert(out@ =~= Seq::new(n as nat, |i: int| value));
    out
}

} // verus!
