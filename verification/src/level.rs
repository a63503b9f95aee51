//! Floating-point levels as IEEE-754 binary64 bit patterns.
//!
//! Rules on levels (finiteness, order, exact equality) are rules on the bit
//! pattern; arithmetic on levels happens outside this crate.
//!
//! SPDX-License-Identifier: MIT OR Apache-2.0

use vstd::arithmetic::power2::{lemma2_to64, lemma2_to64_rest, lemma_pow2_pos, lemma_pow2_unfold, pow2};
use vstd::prelude::*;

pub mod rounding;

verus! {

/// `2^52`: one past the largest fraction field.
pub const FRACTION_SPAN: u64 = 0x0010_0000_0000_0000;

/// `2^63`: the sign bit.
pub const SIGN_BIT: u64 = 0x8000_0000_0000_0000;

/// Smallest magnitude pattern that is not finite (infinity).
pub const INFINITE_MAGNITUDE: u64 = 0x7ff0_0000_0000_0000;

/// Bit pattern of `1.0`.
pub const ONE_BITS: u64 = 0x3ff0_0000_0000_0000;

/// A binary64 level, compared bit by bit.
#[derive(Clone, Copy, Debug, PartialEq, Eq, PartialOrd, Ord, Hash, Structural)]
pub struct OrderedFloatBits {
    /// IEEE-754 binary64 pattern.
    pub bits: u64,
}

impl OrderedFloatBits {
    /// The pattern without its sign.
    pub open spec fn magnitude(self) -> int {
        if self.bits < SIGN_BIT {
            self.bits as int
        } else {
            self.bits - SIGN_BIT
        }
    }

    /// Position on the number line: the order of finite levels and infinities is
    /// the order of these integers, and both zeros stand at `0`.
    pub open spec fn position(self) -> int {
        if self.bits < SIGN_BIT {
            self.magnitude()
        } else {
            -self.magnitude()
        }
    }

    /// Not a number.
    pub open spec fn nan(self) -> bool {
        self.magnitude() > INFINITE_MAGNITUDE
    }

    /// Neither infinite nor a NaN.
    pub open spec fn finite(self) -> bool {
        self.magnitude() < INFINITE_MAGNITUDE
    }

    /// `self < other` on numbers; false if either is a NaN.
    pub open spec fn lt(self, other: Self) -> bool {
        !self.nan() && !other.nan() && self.position() < other.position()
    }

    /// `self <= other` on numbers; false if either is a NaN.
    pub open spec fn le(self, other: Self) -> bool {
        !self.nan() && !other.nan() && self.position() <= other.position()
    }

    /// `self == other` on numbers: zeros of both signs are one number.
    pub open spec fn numeric_eq(self, other: Self) -> bool {
        !self.nan() && !other.nan() && self.position() == other.position()
    }

    /// Wrap a bit pattern.
    #[must_use]
    pub fn from_bits(bits: u64) -> (level: Self)
        ensures
            level.bits == bits,
    {
        OrderedFloatBits { bits }
    }

    /// The bit pattern.
    #[must_use]
    pub fn to_bits(self) -> (bits: u64)
        ensures
            bits == self.bits,
    {
        self.bits
    }

    /// Positive zero.
    #[must_use]
    pub fn zero() -> (level: Self)
        ensures
            level.bits == 0,
    {
        OrderedFloatBits { bits: 0 }
    }

    /// One.
    #[must_use]
    pub fn one() -> (level: Self)
        ensures
            level.bits == ONE_BITS,
    {
        OrderedFloatBits { bits: ONE_BITS }
    }

    fn magnitude_bits(self) -> (m: u64)
        ensures
            m == self.magnitude(),
    {
        if self.bits < SIGN_BIT {
            self.bits
        } else {
            self.bits - SIGN_BIT
        }
    }

    /// Whether the level is neither infinite nor a NaN.
    #[must_use]
    pub fn is_finite(self) -> (yes: bool)
        ensures
            yes == self.finite(),
    {
        self.magnitude_bits() < INFINITE_MAGNITUDE
    }

    /// Whether the level is a NaN.
    #[must_use]
    pub fn is_nan(self) -> (yes: bool)
        ensures
            yes == self.nan(),
    {
        self.magnitude_bits() > INFINITE_MAGNITUDE
    }

    /// Numeric `self < other`.
    #[must_use]
    pub fn less(self, other: Self) -> (yes: bool)
        ensures
            yes == self.lt(other),
    {
        if self.is_nan() || other.is_nan() {
            return false;
        }
        let a: u64 = self.magnitude_bits();
        let b: u64 = other.magnitude_bits();
        if self.bits < SIGN_BIT {
            other.bits < SIGN_BIT && a < b
        } else if other.bits < SIGN_BIT {
            a > 0 || b > 0
        } else {
            b < a
        }
    }

    /// Numeric `self <= other`.
    #[must_use]
    pub fn at_most(self, other: Self) -> (yes: bool)
        ensures
            yes == self.le(other),
    {
        if self.is_nan() || other.is_nan() {
            return false;
        }
        !other.less(self)
    }

    /// Numeric `self == other`.
    #[must_use]
    pub fn equals(self, other: Self) -> (yes: bool)
        ensures
            yes == self.numeric_eq(other),
    {
        self.at_most(other) && other.at_most(self)
    }
}

impl OrderedFloatBits {
    /// Significand of a normal level, with its leading bit.
    pub open spec fn significand(self) -> int {
        FRACTION_SPAN + self.magnitude() % (FRACTION_SPAN as int)
    }

    /// Power of two that scales the significand of a normal level.
    pub open spec fn exponent(self) -> int {
        self.magnitude() / (FRACTION_SPAN as int) - 1075
    }

    /// Finite and not subnormal.
    pub open spec fn normal(self) -> bool {
        FRACTION_SPAN <= self.magnitude() < INFINITE_MAGNITUDE
    }

    /// The level is `m * 2^scale`, exactly.
    pub open spec fn represents(self, m: nat, scale: int) -> bool {
        if m == 0 {
            self.bits == 0
        } else {
            &&& self.bits < SIGN_BIT
            &&& self.normal()
            &&& if self.exponent() >= scale {
                self.significand() * pow2((self.exponent() - scale) as nat) == m
            } else {
                self.significand() == m * pow2((scale - self.exponent()) as nat)
            }
        }
    }

    /// Finite with no fractional part.
    pub open spec fn integral(self) -> bool {
        self.magnitude() == 0 || (self.normal() && (self.exponent() >= 0 || self.significand()
            % (pow2((-self.exponent()) as nat) as int) == 0))
    }

    /// Absolute value of an integral level.
    pub open spec fn whole(self) -> int {
        if self.magnitude() == 0 {
            0
        } else if self.exponent() >= 0 {
            self.significand() * pow2(self.exponent() as nat)
        } else {
            self.significand() / (pow2((-self.exponent()) as nat) as int)
        }
    }

    /// The level of exponent field `field` and significand `significand`.
    fn assemble(field: u64, significand: u64) -> (level: Self)
        requires
            1 <= field <= 2046,
            FRACTION_SPAN <= significand < 2 * FRACTION_SPAN,
        ensures
            level.bits < SIGN_BIT,
            level.normal(),
            level.significand() == significand,
            level.exponent() == field - 1075,
            level.bits == field * FRACTION_SPAN + (significand - FRACTION_SPAN),
    {
        let fraction: u64 = significand - FRACTION_SPAN;
        proof {
            vstd::arithmetic::div_mod::lemma_fundamental_div_mod_converse(
                field * FRACTION_SPAN + fraction,
                FRACTION_SPAN as int,
                field as int,
                fraction as int,
            );
        }
        OrderedFloatBits { bits: field * FRACTION_SPAN + fraction }
    }

    /// The level `m / 2^53`.
    #[must_use]
    pub fn unit_fraction(m: u64) -> (level: Self)
        requires
            m < 2 * FRACTION_SPAN,
        ensures
            level.represents(m as nat, -53),
            (OrderedFloatBits { bits: 0 }).le(level),
            level.lt(OrderedFloatBits { bits: ONE_BITS }),
    {
        if m == 0 {
            return OrderedFloatBits { bits: 0 };
        }
        let (significand, shift) = normalize(m);
        let level = OrderedFloatBits::assemble(1022 - shift, significand);
        proof {
            lemma2_to64();
            assert(level.significand() == m * pow2(shift as nat));
            let unit = pow2(0);
            assert(unit == 1 ==> m * unit == m && significand * unit == significand)
                by (nonlinear_arith);
        }
        level
    }

    /// The level `m`, for an integer that a level holds exactly.
    #[must_use]
    pub fn from_integer(m: u64) -> (level: Self)
        requires
            m < 2 * FRACTION_SPAN,
        ensures
            level.represents(m as nat, 0),
            level.finite(),
    {
        if m == 0 {
            return OrderedFloatBits { bits: 0 };
        }
        let (significand, shift) = normalize(m);
        let level = OrderedFloatBits::assemble(1075 - shift, significand);
        proof {
            lemma2_to64();
            assert(level.significand() == m * pow2(shift as nat));
            let unit = pow2(0);
            assert(unit == 1 ==> m * unit == m && significand * unit == significand)
                by (nonlinear_arith);
        }
        level
    }

    /// The level nearest to the integer `m`, ties to the even significand.
    fn from_magnitude(m: u64) -> (level: Self)
        requires
            m <= SIGN_BIT,
        ensures
            level.represents(nearest(m as nat), 0),
            level.bits < SIGN_BIT,
            level.finite(),
    {
        proof {
            lemma2_to64();
        }
        if m < 2 * FRACTION_SPAN {
            proof {
                assert(spacing(m as nat) == 1);
                assert(m as nat / 1 == m && m as nat % 1 == 0);
                assert(nearest(m as nat) == m);
            }
            return OrderedFloatBits::from_integer(m);
        }
        let mut quotient: u64 = m;
        let mut unit: u64 = 1;
        let mut shift: u64 = 0;
        while quotient >= 2 * FRACTION_SPAN
            invariant
                quotient as int == m as int / (unit as int),
                unit == pow2(shift as nat),
                spacing(m as nat) == unit * spacing(quotient as nat),
                m <= SIGN_BIT,
                m >= 2 * FRACTION_SPAN,
                quotient >= FRACTION_SPAN,
                1 <= unit,
                shift <= 11,
                quotient * unit <= m,
            decreases quotient,
        {
            proof {
                assert(unit <= 1024) by (nonlinear_arith)
                    requires
                        quotient * unit <= m,
                        m <= 0x8000_0000_0000_0000,
                        quotient >= 0x20_0000_0000_0000,
                        unit >= 1,
                ;
                lemma2_to64();
                lemma_pow2_unfold((shift + 1) as nat);
                if shift == 11 {
                    assert(pow2(11) == 2048);
                }
                vstd::arithmetic::div_mod::lemma_div_denominator(m as int, unit as int, 2);
                assert(unit * (2 * spacing((quotient / 2) as nat)) == (2 * unit) * spacing(
                    (quotient / 2) as nat,
                )) by (nonlinear_arith);
                let half = quotient / 2;
                assert(half * (2 * unit) <= quotient * unit) by (nonlinear_arith)
                    requires
                        2 * half <= quotient,
                ;
            }
            quotient = quotient / 2;
            unit = unit * 2;
            shift = shift + 1;
        }
        let rest: u64 = m % unit;
        proof {
            assert(spacing(quotient as nat) == 1);
            assert(spacing(m as nat) == unit) by (nonlinear_arith)
                requires
                    spacing(m as nat) == unit * spacing(quotient as nat),
                    spacing(quotient as nat) == 1,
            ;
            assert(unit <= 2048) by (nonlinear_arith)
                requires
                    quotient * unit <= m,
                    m <= 0x8000_0000_0000_0000,
                    quotient >= 0x10_0000_0000_0000,
                    unit >= 1,
            ;
        }
        let down = 2 * rest < unit || (2 * rest == unit && quotient % 2 == 0);
        let rounded: u64 = if down {
            quotient
        } else {
            quotient + 1
        };
        let ghost target = nearest(m as nat);
        assert(target == rounded * unit);
        if rounded == 2 * FRACTION_SPAN {
            let level = OrderedFloatBits::assemble(1076 + shift, FRACTION_SPAN);
            proof {
                lemma_pow2_unfold((shift + 1) as nat);
                assert(FRACTION_SPAN * (2 * unit) == rounded * unit) by (nonlinear_arith)
                    requires
                        rounded == 2 * FRACTION_SPAN,
                ;
                assert(rounded * unit > 0) by (nonlinear_arith)
                    requires
                        rounded > 0,
                        unit > 0,
                ;
            }
            level
        } else {
            proof {
                assert(rounded * unit > 0) by (nonlinear_arith)
                    requires
                        rounded > 0,
                        unit > 0,
                ;
            }
            OrderedFloatBits::assemble(1075 + shift, rounded)
        }
    }

    /// The level is the one nearest to the integer `v`.
    pub open spec fn nearest_to(self, v: int) -> bool {
        if v >= 0 {
            self.represents(nearest(v as nat), 0)
        } else {
            &&& self.bits >= SIGN_BIT
            &&& (OrderedFloatBits { bits: (self.bits - SIGN_BIT) as u64 }).represents(
                nearest((-v) as nat),
                0,
            )
        }
    }

    /// The level nearest to an integer, ties to the even significand.
    #[must_use]
    pub fn from_int64(v: i64) -> (level: Self)
        ensures
            level.nearest_to(v as int),
            level.finite(),
    {
        if v >= 0 {
            OrderedFloatBits::from_magnitude(v as u64)
        } else {
            let below: i64 = -(v + 1);
            let positive = OrderedFloatBits::from_magnitude(below as u64 + 1);
            OrderedFloatBits { bits: positive.bits + SIGN_BIT }
        }
    }

    /// Whether the level is a whole number at least zero.
    #[must_use]
    pub fn is_count(self) -> (yes: bool)
        ensures
            yes == ((OrderedFloatBits { bits: 0 }).le(self) && self.integral()),
    {
        if !OrderedFloatBits::zero().at_most(self) {
            return false;
        }
        let magnitude: u64 = self.magnitude_bits();
        if magnitude == 0 {
            return true;
        }
        if magnitude < FRACTION_SPAN || magnitude >= INFINITE_MAGNITUDE {
            return false;
        }
        let field: u64 = magnitude / FRACTION_SPAN;
        let significand: u64 = FRACTION_SPAN + magnitude % FRACTION_SPAN;
        if field >= 1075 {
            return true;
        }
        let unit = power_of_two(1075 - field);
        match unit {
            None => {
                proof {
                    lemma_pow2_large((1075 - field) as nat);
                    vstd::arithmetic::div_mod::lemma_small_mod(
                        significand as nat,
                        pow2((1075 - field) as nat),
                    );
                }
                false
            },
            Some(unit) => significand % unit == 0,
        }
    }

    /// Whether a count is below `bound`.
    #[must_use]
    pub fn is_count_below(self, bound: u32) -> (yes: bool)
        ensures
            yes == ((OrderedFloatBits { bits: 0 }).le(self) && self.integral() && self.whole()
                < bound),
    {
        if !self.is_count() {
            return false;
        }
        let magnitude: u64 = self.magnitude_bits();
        if magnitude == 0 {
            return 0 < bound;
        }
        let field: u64 = magnitude / FRACTION_SPAN;
        let significand: u64 = FRACTION_SPAN + magnitude % FRACTION_SPAN;
        if field >= 1075 {
            proof {
                let scale = (field - 1075) as nat;
                lemma_pow2_pos(scale);
                assert(significand * pow2(scale) >= significand) by (nonlinear_arith)
                    requires
                        pow2(scale) >= 1,
                        significand >= 0,
                ;
            }
            return false;
        }
        match power_of_two(1075 - field) {
            None => {
                proof {
                    lemma_pow2_large((1075 - field) as nat);
                    vstd::arithmetic::div_mod::lemma_small_mod(
                        significand as nat,
                        pow2((1075 - field) as nat),
                    );
                }
                false
            },
            Some(unit) => significand / unit < bound as u64,
        }
    }
}

/// Distance between neighboring levels at the integer `m`.
pub open spec fn spacing(m: nat) -> nat
    decreases m,
{
    if m < 2 * FRACTION_SPAN {
        1
    } else {
        2 * spacing(m / 2)
    }
}

/// The integer nearest to `m` that a level holds, ties to the even multiple.
pub open spec fn nearest(m: nat) -> nat {
    let unit = spacing(m);
    let quotient = m / unit;
    let rest = m % unit;
    if 2 * rest < unit || (2 * rest == unit && quotient % 2 == 0) {
        quotient * unit
    } else {
        (quotient + 1) * unit
    }
}

proof fn lemma_pow2_large(n: nat)
    requires
        n >= 53,
    ensures
        pow2(n) >= 2 * FRACTION_SPAN,
    decreases n,
{
    lemma2_to64_rest();
    if n > 53 {
        lemma_pow2_large((n - 1) as nat);
        lemma_pow2_unfold(n);
    }
}

/// `2^n`, for `n` up to fifty-two.
fn power_of_two(n: u64) -> (power: Option<u64>)
    ensures
        match power {
            Some(p) => n <= 52 && p == pow2(n as nat) && p >= 1,
            None => n >= 53,
        },
{
    if n > 52 {
        return None;
    }
    let mut power: u64 = 1;
    let mut i: u64 = 0;
    proof {
        lemma2_to64();
    }
    while i < n
        invariant
            0 <= i <= n,
            n <= 52,
            power == pow2(i as nat),
            1 <= power <= FRACTION_SPAN,
        decreases n - i,
    {
        proof {
            lemma_pow2_unfold((i + 1) as nat);
            lemma2_to64_rest();
            vstd::arithmetic::power2::lemma_pow2_strictly_increases(i as nat, 52);
        }
        power = power * 2;
        i = i + 1;
        proof {
            if i < 52 {
                vstd::arithmetic::power2::lemma_pow2_strictly_increases(i as nat, 52);
            }
            lemma2_to64_rest();
        }
    }
    Some(power)
}

/// Double a number until its leading bit stands in place.
fn normalize(m: u64) -> (scaled: (u64, u64))
    requires
        0 < m < 2 * FRACTION_SPAN,
    ensures
        FRACTION_SPAN <= scaled.0 < 2 * FRACTION_SPAN,
        scaled.0 == m * pow2(scaled.1 as nat),
        scaled.1 <= 52,
{
    let mut significand: u64 = m;
    let mut shift: u64 = 0;
    proof {
        lemma2_to64();
    }
    while significand < FRACTION_SPAN
        invariant
            0 < significand < 2 * FRACTION_SPAN,
            significand == m * pow2(shift as nat),
            significand >= pow2(shift as nat),
            shift <= 52,
            m > 0,
        decreases 52 - shift,
    {
        proof {
            lemma2_to64();
            lemma2_to64_rest();
            lemma_pow2_unfold((shift + 1) as nat);
            assert(m * (2 * pow2(shift as nat)) == 2 * (m * pow2(shift as nat)))
                by (nonlinear_arith);
            if shift == 52 {
                assert(pow2(52) == FRACTION_SPAN);
            }
        }
        significand = significand * 2;
        shift = shift + 1;
    }
    (significand, shift)
}

/// Whether every level of a sequence is finite.
pub open spec fn all_finite(levels: Seq<OrderedFloatBits>) -> bool {
    forall|i: int| 0 <= i < levels.len() ==> (#[trigger] levels[i]).finite()
}

/// Whether every level is finite.
pub fn every_finite(levels: &Vec<OrderedFloatBits>) -> (yes: bool)
    ensures
        yes == all_finite(levels@),
{
    let mut i: usize = 0;
    while i < levels.len()
        invariant
            0 <= i <= levels.len(),
            forall|k: int| 0 <= k < i ==> (#[trigger] levels@[k]).finite(),
        decreases levels.len() - i,
    {
        if !levels[i].is_finite() {
            return false;
        }
        i = i + 1;
    }
    true
}

/// Copy of a list of levels.
pub fn copied(levels: &Vec<OrderedFloatBits>) -> (copy: Vec<OrderedFloatBits>)
    ensures
        copy@ == levels@,
{
    let mut copy: Vec<OrderedFloatBits> = Vec::new();
    let mut i: usize = 0;
    while i < levels.len()
        invariant
            0 <= i <= levels.len(),
            copy@ == levels@.take(i as int),
        decreases levels.len() - i,
    {
        copy.push(levels[i]);
        i = i + 1;
        assert(copy@ =~= levels@.take(i as int));
    }
    assert(copy@ =~= levels@);
    copy
}

/// Whether each level of a sequence is below every later one.
pub open spec fn strictly_increasing(levels: Seq<OrderedFloatBits>) -> bool {
    forall|i: int, j: int|
        0 <= i < j < levels.len() ==> (#[trigger] levels[i]).lt(#[trigger] levels[j])
}

/// Whether every level is finite and below every later one.
pub fn finite_and_increasing(levels: &Vec<OrderedFloatBits>) -> (yes: bool)
    ensures
        yes == (all_finite(levels@) && strictly_increasing(levels@)),
{
    let mut i: usize = 0;
    while i < levels.len()
        invariant
            0 <= i <= levels.len(),
            forall|k: int| 0 <= k < i ==> (#[trigger] levels@[k]).finite(),
            forall|j: int, k: int|
                0 <= j < k < i ==> (#[trigger] levels@[j]).lt(#[trigger] levels@[k]),
        decreases levels.len() - i,
    {
        if !levels[i].is_finite() {
            return false;
        }
        if i > 0 && !levels[i - 1].less(levels[i]) {
            assert(!levels@[i - 1].lt(levels@[i as int]));
            return false;
        }
        i = i + 1;
    }
    true
}

/// On levels that are not NaN the numeric order is total, and a level is below
/// another exactly if the other is not at most it.
pub proof fn law_numeric_order_is_total(a: OrderedFloatBits, b: OrderedFloatBits)
    requires
        !a.nan(),
        !b.nan(),
    ensures
        a.lt(b) || a.numeric_eq(b) || b.lt(a),
        a.lt(b) <==> !b.le(a),
{
}

} // verus!
