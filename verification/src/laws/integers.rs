//! Promises of exact integer scalars.

use crate::exact::{Int, TOP};
use crate::laws::words::number_of;
use crate::scalar::Scalar;
use crate::text::decimal_spec;
use vstd::arithmetic::power::pow;
use vstd::prelude::*;

verus! {

/// An operation on finite integers gives the integer that it has over the integers, or
/// the infinity on whose side that lies if it does not fit.
pub proof fn integers_compute_exactly_or_saturate(
    a: Int,
    b: Int,
    sum: Int,
    difference: Int,
    product: Int,
    size: Int,
)
    requires
        -TOP < a.raw < TOP,
        -TOP < b.raw < TOP,
        call_ensures(Int::plus, (a, b), sum),
        call_ensures(Int::minus, (a, b), difference),
        call_ensures(Int::times, (a, b), product),
        call_ensures(Int::abs, (a,), size),
    ensures
        sum.raw == if a.raw + b.raw >= TOP {
            TOP as int
        } else if a.raw + b.raw <= -TOP {
            -TOP
        } else {
            a.raw + b.raw
        },
        difference.raw == if a.raw - b.raw >= TOP {
            TOP as int
        } else if a.raw - b.raw <= -TOP {
            -TOP
        } else {
            a.raw - b.raw
        },
        product.raw == if a.raw * b.raw >= TOP {
            TOP as int
        } else if a.raw * b.raw <= -TOP {
            -TOP
        } else {
            a.raw * b.raw
        },
        size.raw == if a.raw < 0 {
            -a.raw
        } else {
            a.raw as int
        },
{
}

/// Integers compare as they do, and a power is that of the integers or infinity.
pub proof fn integers_compare_and_rise_exactly(a: Int, b: Int, less: bool, up_to: bool, power: Int)
    requires
        -TOP <= a.raw,
        -TOP <= b.raw,
        call_ensures(Int::lt, (a, b), less),
        call_ensures(Int::le, (a, b), up_to),
        call_ensures(Int::power, (a, b), power),
    ensures
        less == (a.raw < b.raw),
        up_to == (a.raw <= b.raw),
        0 <= a.raw && 1 <= b.raw ==> {
            let p = pow(a.raw as int, b.raw as nat);
            power.raw == if p >= TOP {
                TOP as int
            } else {
                p
            }
        },
{
    if 0 <= a.raw && 1 <= b.raw {
        crate::exact::lemma_pow_nonneg(a.raw as int, b.raw as nat);
    }
}

/// An integer in words is its digits, after a sign if it is negative.
pub proof fn integers_say_their_value(a: Int, r: String)
    requires
        call_ensures(Int::text, (a,), r),
        -TOP < a.raw < TOP,
    ensures
        a.raw >= 0 ==> number_of(r@) == a.raw,
        a.raw < 0 ==> r@.len() > 1 && r@[0] == '-' && number_of(r@.subrange(1, r@.len() as int))
            == -a.raw,
{
    if a.raw < 0 {
        reveal_strlit("-");
        let digits = decimal_spec((-a.raw) as nat);
        crate::laws::words::lemma_decimal((-a.raw) as nat);
        assert(r@ == "-"@ + digits);
        assert(r@.subrange(1, r@.len() as int) =~= digits);
    } else {
        crate::laws::words::lemma_decimal(a.raw as nat);
    }
}

} // verus!
