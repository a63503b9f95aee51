//! What levels stand for and how integers are rounded to them.
//!
//! SPDX-License-Identifier: MIT OR Apache-2.0

use crate::level;
use crate::level::OrderedFloatBits;
use vstd::arithmetic::div_mod;
use vstd::arithmetic::power2::pow2;
use vstd::arithmetic::power2;
use vstd::prelude::*;

verus! {

/// A level with the sign bit set is the mirror image of the one without: it is finite, infinite
/// or not a number together with it, and two mirror images compare the other way round. Both
/// zeros are equal.
pub proof fn law_signs_mirror_the_order(a: u64, b: u64)
    requires
        a < 0x8000_0000_0000_0000,
        b < 0x8000_0000_0000_0000,
    ensures
        ({
            let x = OrderedFloatBits { bits: a };
            let y = OrderedFloatBits { bits: b };
            let minus_x = OrderedFloatBits { bits: (a + 0x8000_0000_0000_0000) as u64 };
            let minus_y = OrderedFloatBits { bits: (b + 0x8000_0000_0000_0000) as u64 };
            &&& minus_x.finite() == x.finite()
            &&& minus_x.nan() == x.nan()
            &&& minus_x.lt(minus_y) == y.lt(x)
            &&& minus_x.le(minus_y) == y.le(x)
            &&& minus_x.numeric_eq(minus_y) == x.numeric_eq(y)
            &&& minus_x.lt(y) == (!x.nan() && !y.nan() && (a > 0 || b > 0))
            &&& minus_x.numeric_eq(y) == (a == 0 && b == 0)
        }),
{
}

/// Levels without the sign bit are ordered as their bits, up to infinity; beyond it they are
/// not numbers, and compare with nothing.
pub proof fn law_positive_levels_are_ordered_as_their_bits(a: u64, b: u64)
    requires
        a < 0x8000_0000_0000_0000,
        b < 0x8000_0000_0000_0000,
    ensures
        ({
            let x = OrderedFloatBits { bits: a };
            let y = OrderedFloatBits { bits: b };
            let numbers = a <= 0x7FF0_0000_0000_0000 && b <= 0x7FF0_0000_0000_0000;
            &&& x.finite() <==> a < 0x7FF0_0000_0000_0000
            &&& x.nan() <==> a > 0x7FF0_0000_0000_0000
            &&& x.lt(y) <==> numbers && a < b
            &&& x.le(y) <==> numbers && a <= b
            &&& x.numeric_eq(y) <==> numbers && a == b
        }),
{
}

/// A level that stands for a whole number is whole, and is that number.
pub proof fn law_whole_numbers_are_whole(x: OrderedFloatBits, m: nat)
    requires
        x.represents(m, 0),
    ensures
        x.integral(),
        x.whole() == m,
        x.finite(),
        (OrderedFloatBits { bits: 0 }).le(x),
{
    if m > 0 && x.exponent() < 0 {
        let p = pow2((-x.exponent()) as nat) as int;
        power2::lemma_pow2_pos((-x.exponent()) as nat);
        assert(x.significand() == m * p);
        div_mod::lemma_mod_multiples_basic(m as int, p);
        div_mod::lemma_div_multiples_vanish(m as int, p);
        assert(m * p == p * m) by (nonlinear_arith);
    }
}

proof fn lemma_spacing(m: nat)
    ensures
        level::spacing(m) > 0,
        m < 2 * level::FRACTION_SPAN ==> level::spacing(m) == 1,
        m >= 2 * level::FRACTION_SPAN ==> level::spacing(m) % 2 == 0,
        m / level::spacing(m) < 2 * level::FRACTION_SPAN,
        m >= level::FRACTION_SPAN ==> m / level::spacing(m) >= level::FRACTION_SPAN,
    decreases m,
{
    let span = level::FRACTION_SPAN as nat;
    if m >= 2 * span {
        let half = m / 2;
        lemma_spacing(half);
        let unit = level::spacing(half);
        assert(level::spacing(m) == 2 * unit);
        div_mod::lemma_div_denominator(m as int, 2, unit as int);
        assert(m / (2 * unit) == half / unit);
        assert((2 * unit) % 2 == 0) by (nonlinear_arith);
    } else {
        assert(m / 1 == m);
    }
}

/// Rounding an integer moves it by at most half the distance between neighbouring levels, to a
/// multiple of that distance, and to the even multiple where two are equally near; integers
/// below two to the fifty-third stay as they are.
pub proof fn law_integers_round_to_the_nearest(m: nat)
    ensures
        m < 2 * level::FRACTION_SPAN ==> level::nearest(m) == m,
        exists|k: nat|
            {
                &&& level::nearest(m) == #[trigger] (k * level::spacing(m))
                &&& 2 * (level::nearest(m) - m) <= level::spacing(m)
                &&& 2 * (m - level::nearest(m)) <= level::spacing(m)
                &&& 2 * (level::nearest(m) - m) == level::spacing(m) || 2 * (m - level::nearest(m))
                    == level::spacing(m) ==> k % 2 == 0
            },
{
    lemma_spacing(m);
    let unit = level::spacing(m);
    let quotient = m / unit;
    let rest = m % unit;
    div_mod::lemma_fundamental_div_mod(m as int, unit as int);
    assert(unit * quotient == quotient * unit) by (nonlinear_arith);
    assert(m == quotient * unit + rest);
    assert((quotient + 1) * unit == quotient * unit + unit) by (nonlinear_arith);
    if m < 2 * level::FRACTION_SPAN {
        assert(quotient * 1 == m);
    }
    if 2 * rest < unit || (2 * rest == unit && quotient % 2 == 0) {
        assert(level::nearest(m) == quotient * unit);
    } else {
        assert(level::nearest(m) == (quotient + 1) * unit);
        if 2 * rest == unit {
            assert((quotient + 1) % 2 == 0);
        }
    }
}

} // verus!
