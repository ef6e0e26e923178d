//! Promises of what is read and written around the trees: points, nodes and words.

use crate::error::KDTreeError;
use crate::kernel::{all_finite, gcd};
use crate::node::{unpack_split, Node};
use crate::points::Points;
use crate::scalar::{finite, is_finite, Scalar};
use crate::text::{decimal, decimal_spec};
use crate::tree::Tree;
use vstd::prelude::*;

verus! {

/// The number that decimal digits say.
pub open spec fn number_of(digits: Seq<char>) -> int
    decreases digits.len(),
{
    if digits.len() == 0 {
        0
    } else {
        10 * number_of(digits.drop_last()) + (digits.last() as int - '0' as int)
    }
}

/// A number in decimal is digits that say the number, without a leading zero.
pub proof fn decimals_say_the_number(n: u64, r: String)
    requires
        call_ensures(decimal, (n,), r),
    ensures
        r@ == decimal_spec(n as nat),
        number_of(r@) == n,
        r@.len() > 0,
        forall|i: int| 0 <= i < r@.len() ==> '0' <= #[trigger] r@[i] <= '9',
        r@[0] == '0' ==> r@.len() == 1,
{
    lemma_decimal(n as nat);
}

pub proof fn lemma_decimal(n: nat)
    ensures
        number_of(decimal_spec(n)) == n,
        decimal_spec(n).len() > 0,
        forall|i: int|
            0 <= i < decimal_spec(n).len() ==> '0' <= #[trigger] decimal_spec(n)[i] <= '9',
        decimal_spec(n)[0] == '0' ==> n == 0,
        n == 0 ==> decimal_spec(n).len() == 1,
    decreases n,
{
    let s = decimal_spec(n);
    if n < 10 {
        assert(s.drop_last() =~= Seq::<char>::empty());
        assert(number_of(s.drop_last()) == 0);
    } else {
        lemma_decimal(n / 10);
        assert(s.drop_last() =~= decimal_spec(n / 10));
    }
}

/// Every error has its own words, and those that a value brought about end in it.
pub proof fn errors_say_what_is_wrong<S: Scalar>(error: KDTreeError<S>, r: String)
    requires
        call_ensures(KDTreeError::<S>::message, (&error,), r),
    ensures
        match error {
            KDTreeError::EmptyData => r@ == "data must contain at least one point"@,
            KDTreeError::InvalidLeafsize => r@ == "leafsize must be greater than zero"@,
            KDTreeError::InvalidK => r@ == "k must be greater than zero"@,
            KDTreeError::InvalidRadius(x) => r@ == "radius must be finite and non-negative, got "@
                + x.text_spec(),
            KDTreeError::InvalidMetric(x) => r@ == "p must be finite and >= 1, or infinity, got "@
                + x.text_spec(),
            KDTreeError::InvalidEps(x) => r@ == "eps must be finite and non-negative, got "@
                + x.text_spec(),
            KDTreeError::InvalidMaxDistance(x) => r@
                == "max_distance must be finite and non-negative, or infinity, got "@
                + x.text_spec(),
            KDTreeError::NonFiniteData => r@ == "all coordinates must be finite"@,
            KDTreeError::InvalidShape(message) => r@ == message@,
            KDTreeError::DimensionMismatch { expected, got } => r@
                == "dimension mismatch: expected "@ + decimal_spec(expected as nat) + ", got "@
                + decimal_spec(got as nat),
            KDTreeError::TooManyPoints(n) => r@ == "too many points for 32-bit row numbers: "@
                + decimal_spec(n as nat),
            KDTreeError::TooManyNodes(n) => r@ == "too many nodes for 32-bit node numbers: "@
                + decimal_spec(n as nat),
        },
{
}

/// A tree sums itself up by its points, its axes and its leaf size.
pub proof fn a_tree_says_its_sizes<S: Scalar>(tree: &Tree<S>, r: String)
    requires
        call_ensures(Tree::<S>::summary, (tree,), r),
    ensures
        r@ == "KDTree(n_points="@ + decimal_spec(tree.n_points as nat) + ", ndim="@
            + decimal_spec(tree.ndim as nat) + ", leafsize="@ + decimal_spec(
            tree.leafsize as nat,
        ) + ")"@,
{
}

/// An array of two dimensions is rows of points, one of one dimension is one point
/// where that is allowed, and nothing else is points.
pub proof fn arrays_of_two_dimensions_are_points<S: Scalar>(
    values: Vec<S>,
    shape: &[usize],
    what: &'static str,
    allow_single: bool,
    r: Result<Points<S>, KDTreeError<S>>,
)
    requires
        call_ensures(Points::<S>::new, (values, shape, what, allow_single), r),
    ensures
        if shape@.len() == 2 {
            r matches Ok(points) && points.n_rows == shape@[0] && points.ndim == shape@[1]
                && !points.single && points.values == values
        } else if shape@.len() == 1 && allow_single {
            r matches Ok(points) && points.n_rows == 1 && points.ndim == shape@[0]
                && points.single && points.values == values
        } else {
            r matches Err(KDTreeError::InvalidShape(message)) && message == what
        },
{
}

/// A packed split is the axis below the flag bit, and the flag.
pub proof fn a_split_is_unpacked_as_it_was_packed<S: Scalar>(
    left: u32,
    right: u32,
    axis: usize,
    by_box: bool,
    value: S,
    node: Node<S>,
    packed: u32,
    r: (usize, bool),
)
    requires
        call_ensures(Node::<S>::inner, (left, right, axis, by_box, value), node),
        axis < 0x8000_0000,
        node matches Node::Inner { split_dim, .. } ==> split_dim == packed,
        call_ensures(unpack_split, (packed,), r),
    ensures
        node == (Node::Inner { left, right, split_dim: packed, split_value: value }),
        r == (axis, by_box),
        packed == axis + if by_box {
            0x8000_0000int
        } else {
            0
        },
{
}

/// Every packed split holds its axis in the lower bits and its flag in the top one.
pub proof fn a_split_has_its_flag_on_top(packed: u32, r: (usize, bool))
    requires
        call_ensures(unpack_split, (packed,), r),
    ensures
        r.0 < 0x8000_0000,
        packed == r.0 + if r.1 {
            0x8000_0000int
        } else {
            0
        },
{
}

/// A value is finite exactly if it is no nan and lies between the infinities, and
/// values are all finite exactly if each of them is.
pub proof fn finite_values_lie_between_the_infinities<S: Scalar>(
    x: S,
    r: bool,
    values: &[S],
    all: bool,
)
    requires
        !S::infinity_spec().nan(),
        !S::neg_infinity_spec().nan(),
        call_ensures(is_finite::<S>, (x,), r),
        call_ensures(all_finite::<S>, (values,), all),
    ensures
        r <==> !x.nan() && S::neg_infinity_spec().key() < x.key() < S::infinity_spec().key(),
        all <==> forall|i: int|
            0 <= i < values@.len() ==> !(#[trigger] values@[i]).nan()
                && S::neg_infinity_spec().key() < values@[i].key() < S::infinity_spec().key(),
{
    if all {
        assert forall|i: int| 0 <= i < values@.len() implies !(#[trigger] values@[i]).nan()
            && S::neg_infinity_spec().key() < values@[i].key() < S::infinity_spec().key() by {
            assert(finite(values@[i]));
        }
    } else {
        let i = choose|i: int| 0 <= i < values@.len() && !finite(#[trigger] values@[i]);
        assert(!(!values@[i].nan() && S::neg_infinity_spec().key() < values@[i].key()
            < S::infinity_spec().key()));
    }
}

/// The greatest common divisor divides both numbers, and no greater number does.
pub proof fn no_greater_number_divides_both(a: usize, b: usize, r: usize, c: usize)
    requires
        call_ensures(gcd, (a, b), r),
        a > 0 || b > 0,
        c > 0,
        a as int % c as int == 0,
        b as int % c as int == 0,
    ensures
        0 < r,
        a as int % r as int == 0,
        b as int % r as int == 0,
        c <= r,
{
}

} // verus!
