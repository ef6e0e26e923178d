//! The algebra of distances.

use crate::error::KDTreeError;
use crate::scalar::{at_most, finite, is_finite, lawful, less, max, max_spec, min, min_spec, nonneg,
    same, Scalar};
use vstd::prelude::*;

verus! {

/// A distance as the core handles it: squared for `L2`, the p-th power for
/// `L^p`, the plain value elsewhere. That image is monotone, so comparisons and
/// sums stay in it and a root is taken once per result rather than once per
/// candidate. Plain distances cross over through [`Metric::reduce`] and
/// [`Metric::restore`]. Only distances of one metric compare meaningfully.
#[derive(Debug, Clone, Copy)]
pub struct Dist<S> {
    pub value: S,
}

impl<S: Scalar> Dist<S> {
    pub open spec fn zero_spec() -> Self {
        Dist { value: S::zero_spec() }
    }

    pub open spec fn infinity_spec() -> Self {
        Dist { value: S::infinity_spec() }
    }

    pub fn zero() -> (r: Self)
        ensures
            r == Self::zero_spec(),
    {
        Dist { value: S::zero() }
    }

    pub fn infinity() -> (r: Self)
        ensures
            r == Self::infinity_spec(),
    {
        Dist { value: S::infinity() }
    }

    /// A distance whose value is in the metric's representation already.
    pub fn from_repr(value: S) -> (r: Self)
        ensures
            r == (Dist { value }),
    {
        Dist { value }
    }

    pub fn get(self) -> (r: S)
        ensures
            r == self.value,
    {
        self.value
    }

    pub open spec fn min_spec(self, other: Self) -> Self {
        Dist { value: min_spec(self.value, other.value) }
    }

    pub fn min(self, other: Self) -> (r: Self)
        ensures
            r == self.min_spec(other),
    {
        Dist { value: min(self.value, other.value) }
    }

    pub fn lt(self, other: Self) -> (r: bool)
        ensures
            r == less(self.value, other.value),
    {
        self.value.lt(other.value)
    }

    pub fn le(self, other: Self) -> (r: bool)
        ensures
            r == at_most(self.value, other.value),
    {
        self.value.le(other.value)
    }

    pub fn same(self, other: Self) -> (r: bool)
        ensures
            r == (!self.value.nan() && !other.value.nan() && self.value.key()
                == other.value.key()),
    {
        same(self.value, other.value)
    }
}

#[derive(Debug, Clone, Copy)]
pub enum Metric<S> {
    L1,
    L2,
    LInf,
    LP(S),
}

/// The metric of exponent `p`, or why there is none.
pub open spec fn metric_of<S: Scalar>(p: S) -> Result<Metric<S>, KDTreeError<S>> {
    if !p.nan() && p.key() == S::infinity_spec().key() {
        Ok(Metric::LInf)
    } else if !finite(p) || less(p, S::one_spec()) {
        Err(KDTreeError::InvalidMetric(p))
    } else if p.key() == S::one_spec().key() {
        Ok(Metric::L1)
    } else if !S::one_spec().plus_spec(S::one_spec()).nan() && p.key() == S::one_spec().plus_spec(
        S::one_spec(),
    ).key() {
        Ok(Metric::L2)
    } else {
        Ok(Metric::LP(p))
    }
}

impl<S: Scalar> Metric<S> {
    /// An exponent that is kept is finite and at least one.
    pub open spec fn valid(self) -> bool {
        self matches Metric::LP(p) ==> finite(p) && at_most(S::one_spec(), p)
    }

    /// The metric of exponent `p`: at least one, or infinity.
    pub fn new(p: S) -> (r: Result<Self, KDTreeError<S>>)
        requires
            lawful::<S>(),
        ensures
            r == metric_of(p),
            r matches Ok(m) ==> m.valid(),
    {
        if same(p, S::infinity()) {
            return Ok(Metric::LInf);
        }
        if !is_finite(p) || p.lt(S::one()) {
            return Err(KDTreeError::InvalidMetric(p));
        }
        if same(p, S::one()) {
            Ok(Metric::L1)
        } else if same(p, S::one().plus(S::one())) {
            Ok(Metric::L2)
        } else {
            Ok(Metric::LP(p))
        }
    }

    pub open spec fn reduce_spec(self, distance: S) -> S {
        match self {
            Metric::L2 => distance.times_spec(distance),
            Metric::LP(p) => distance.power_spec(p),
            Metric::L1 | Metric::LInf => distance,
        }
    }

    /// Takes a whole distance or the offset along one axis, which reduces like a
    /// whole distance.
    pub fn reduce(self, distance: S) -> (r: Dist<S>)
        requires
            lawful::<S>(),
            self.valid(),
            nonneg(distance),
        ensures
            r.value == self.reduce_spec(distance),
            nonneg(r.value),
    {
        Dist {
            value: match self {
                Metric::L2 => distance.times(distance),
                Metric::LP(p) => distance.power(p),
                Metric::L1 | Metric::LInf => distance,
            },
        }
    }

    pub open spec fn restore_spec(self, dist: S) -> S {
        match self {
            Metric::L2 => dist.sqrt_spec(),
            Metric::LP(p) => dist.root_spec(p),
            Metric::L1 | Metric::LInf => dist,
        }
    }

    /// The plain distance of a reduced one.
    pub fn restore(self, dist: Dist<S>) -> (r: S)
        requires
            lawful::<S>(),
            self.valid(),
            nonneg(dist.value),
        ensures
            r == self.restore_spec(dist.value),
            nonneg(r),
    {
        match self {
            Metric::L2 => dist.value.sqrt(),
            Metric::LP(p) => dist.value.root(p),
            Metric::L1 | Metric::LInf => dist.value,
        }
    }

    pub open spec fn fold_spec(self, dist: S, axis: S) -> S {
        match self {
            Metric::LInf => max_spec(dist, axis),
            _ => dist.plus_spec(axis),
        }
    }

    /// The distance with the contribution of one more axis.
    pub fn fold(self, dist: Dist<S>, axis: Dist<S>) -> (r: Dist<S>)
        ensures
            r.value == self.fold_spec(dist.value, axis.value),
    {
        Dist {
            value: match self {
                Metric::LInf => max(dist.value, axis.value),
                _ => dist.value.plus(axis.value),
            },
        }
    }

    pub open spec fn replace_axis_spec(self, dist: S, old_axis: S, new_axis: S) -> S {
        match self {
            Metric::LInf => max_spec(dist, new_axis),
            _ => dist.minus_spec(old_axis).plus_spec(new_axis),
        }
    }

    /// The distance with the contribution of one axis exchanged for one that is
    /// no less.
    pub fn replace_axis(self, dist: Dist<S>, old_axis: Dist<S>, new_axis: Dist<S>) -> (r: Dist<S>)
        ensures
            r.value == self.replace_axis_spec(dist.value, old_axis.value, new_axis.value),
    {
        Dist {
            value: match self {
                Metric::LInf => max(dist.value, new_axis.value),
                _ => dist.value.minus(old_axis.value).plus(new_axis.value),
            },
        }
    }
}

/// Folding nonnegative contributions never brings a distance down.
pub proof fn lemma_fold_grows<S: Scalar>(m: Metric<S>, dist: S, axis: S)
    requires
        lawful::<S>(),
        nonneg(dist),
        nonneg(axis),
    ensures
        nonneg(m.fold_spec(dist, axis)),
        at_most(dist, m.fold_spec(dist, axis)),
        at_most(axis, m.fold_spec(dist, axis)),
{
}

} // verus!
