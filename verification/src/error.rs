//! Why a build or a query was refused.

use crate::scalar::Scalar;
use crate::text::{decimal, decimal_spec, plain, with_value};
use vstd::prelude::*;
use vstd::string::StringExecFns;

verus! {

#[derive(Debug, Clone, Copy, PartialEq)]
pub enum KDTreeError<S> {
    EmptyData,
    InvalidLeafsize,
    InvalidK,
    InvalidRadius(S),
    InvalidMetric(S),
    InvalidEps(S),
    InvalidMaxDistance(S),
    NonFiniteData,
    InvalidShape(&'static str),
    DimensionMismatch { expected: usize, got: usize },
    /// Row numbers are 32 bits wide.
    TooManyPoints(usize),
    /// Node numbers are 32 bits wide.
    TooManyNodes(usize),
}

/// The message of an error, as [`KDTreeError::message`] returns it.
pub open spec fn message_spec<S: Scalar>(error: KDTreeError<S>) -> Seq<char> {
    match error {
        KDTreeError::EmptyData => "data must contain at least one point"@,
        KDTreeError::InvalidLeafsize => "leafsize must be greater than zero"@,
        KDTreeError::InvalidK => "k must be greater than zero"@,
        KDTreeError::InvalidRadius(radius) => "radius must be finite and non-negative, got "@
            + radius.text_spec(),
        KDTreeError::InvalidMetric(p) => "p must be finite and >= 1, or infinity, got "@
            + p.text_spec(),
        KDTreeError::InvalidEps(eps) => "eps must be finite and non-negative, got "@
            + eps.text_spec(),
        KDTreeError::InvalidMaxDistance(distance) =>
            "max_distance must be finite and non-negative, or infinity, got "@
            + distance.text_spec(),
        KDTreeError::NonFiniteData => "all coordinates must be finite"@,
        KDTreeError::InvalidShape(message) => message@,
        KDTreeError::DimensionMismatch { expected, got } => "dimension mismatch: expected "@
            + decimal_spec(expected as nat) + ", got "@ + decimal_spec(got as nat),
        KDTreeError::TooManyPoints(n) => "too many points for 32-bit row numbers: "@
            + decimal_spec(n as nat),
        KDTreeError::TooManyNodes(n) => "too many nodes for 32-bit node numbers: "@
            + decimal_spec(n as nat),
    }
}

impl<S: Scalar> KDTreeError<S> {
    /// The error in words.
    pub fn message(&self) -> (r: String)
        ensures
            r@ == message_spec(*self),
    {
        match self {
            KDTreeError::EmptyData => plain("data must contain at least one point"),
            KDTreeError::InvalidLeafsize => plain("leafsize must be greater than zero"),
            KDTreeError::InvalidK => plain("k must be greater than zero"),
            KDTreeError::InvalidRadius(radius) => with_value(
                "radius must be finite and non-negative, got ",
                radius.text().as_str(),
            ),
            KDTreeError::InvalidMetric(p) => with_value(
                "p must be finite and >= 1, or infinity, got ",
                p.text().as_str(),
            ),
            KDTreeError::InvalidEps(eps) => with_value(
                "eps must be finite and non-negative, got ",
                eps.text().as_str(),
            ),
            KDTreeError::InvalidMaxDistance(distance) => with_value(
                "max_distance must be finite and non-negative, or infinity, got ",
                distance.text().as_str(),
            ),
            KDTreeError::NonFiniteData => plain("all coordinates must be finite"),
            KDTreeError::InvalidShape(message) => plain(message),
            KDTreeError::DimensionMismatch { expected, got } => {
                let expected = decimal(*expected as u64);
                let got = decimal(*got as u64);
                with_value("dimension mismatch: expected ", expected.as_str()).concat(
                    ", got ",
                ).concat(got.as_str())
            },
            KDTreeError::TooManyPoints(n) => with_value(
                "too many points for 32-bit row numbers: ",
                decimal(*n as u64).as_str(),
            ),
            KDTreeError::TooManyNodes(n) => with_value(
                "too many nodes for 32-bit node numbers: ",
                decimal(*n as u64).as_str(),
            ),
        }
    }
}

} // verus!
