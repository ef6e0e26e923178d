//! Points as callers hand them in, and what they get back.

use crate::error::KDTreeError;
use crate::scalar::Scalar;
use crate::text::{decimal, decimal_spec, with_value};
use crate::tree::Tree;
use vstd::prelude::*;
use vstd::string::StringExecFns;

verus! {

/// Points out of an array of one or two dimensions.
pub struct Points<S> {
    pub values: Vec<S>,
    pub n_rows: usize,
    pub ndim: usize,
    /// The array was one point rather than rows of points.
    pub single: bool,
}

/// The number of rows and of axes of points with the given shape, and whether
/// they are one point, if the shape is one of points.
pub open spec fn points_shape(shape: Seq<usize>, allow_single: bool) -> Option<
    (usize, usize, bool),
> {
    if shape.len() == 1 && allow_single {
        Some((1, shape[0], true))
    } else if shape.len() == 2 {
        Some((shape[0], shape[1], false))
    } else {
        None
    }
}

impl<S: Scalar> Points<S> {
    /// The points of an array with the given shape and row-major values: rows, or,
    /// with `allow_single`, one point. Any other shape is refused with `what`.
    pub fn new(
        values: Vec<S>,
        shape: &[usize],
        what: &'static str,
        allow_single: bool,
    ) -> (r: Result<Self, KDTreeError<S>>)
        ensures
            match r {
                Ok(points) => points_shape(shape@, allow_single) == Some(
                    (points.n_rows, points.ndim, points.single),
                ) && points.values == values,
                Err(error) => points_shape(shape@, allow_single) is None && error
                    == KDTreeError::<S>::InvalidShape(what),
            },
    {
        match shape.len() {
            1 if allow_single => Ok(Points { values, n_rows: 1, ndim: shape[0], single: true }),
            2 => Ok(Points { values, n_rows: shape[0], ndim: shape[1], single: false }),
            _ => Err(KDTreeError::InvalidShape(what)),
        }
    }

    /// The points, if they have `ndim` axes.
    pub fn require_ndim(self, ndim: usize) -> (r: Result<Self, KDTreeError<S>>)
        ensures
            match r {
                Ok(points) => self.ndim == ndim && points == self,
                Err(error) => self.ndim != ndim && error == (KDTreeError::<
                    S,
                >::DimensionMismatch { expected: ndim, got: self.ndim }),
            },
    {
        if self.ndim != ndim {
            return Err(KDTreeError::DimensionMismatch { expected: ndim, got: self.ndim });
        }
        Ok(self)
    }

    /// The shape of what `k` slots per point fill: rows of slots, or, for one
    /// point, the slots alone.
    pub fn result_shape(&self, k: usize) -> (r: Option<(usize, usize)>)
        ensures
            r == (if self.single {
                None
            } else {
                Some((self.n_rows, k))
            }),
    {
        if self.single {
            None
        } else {
            Some((self.n_rows, k))
        }
    }
}

impl<S: Scalar> Tree<S> {
    pub open spec fn summary_spec(&self) -> Seq<char> {
        "KDTree(n_points="@ + decimal_spec(self.n_points as nat) + ", ndim="@ + decimal_spec(
            self.ndim as nat,
        ) + ", leafsize="@ + decimal_spec(self.leafsize as nat) + ")"@
    }

    /// The size of the tree in words.
    pub fn summary(&self) -> (r: String)
        ensures
            r@ == self.summary_spec(),
    {
        with_value("KDTree(n_points=", decimal(self.n_points as u64).as_str()).concat(
            ", ndim=",
        ).concat(decimal(self.ndim as u64).as_str()).concat(", leafsize=").concat(
            decimal(self.leafsize as u64).as_str(),
        ).concat(")")
    }
}

} // verus!
