//! Number types that attribution computes with.
//!
//! SPDX-License-Identifier: MIT OR Apache-2.0

use vstd::prelude::*;

verus! {

/// Arithmetic on payoffs.
///
/// The operations are total and depend on their operands alone. No algebraic law is
/// taken for granted: floating-point numbers qualify as well as exact ones. A number
/// type may leave the model of its operations open.
pub trait Amount: Copy + Sized {
    /// Zero.
    open spec fn nil() -> Self {
        arbitrary()
    }

    /// A value above every finite one.
    open spec fn unbounded() -> Self {
        arbitrary()
    }

    /// What has no value, such as the mean of nothing.
    open spec fn undefined() -> Self {
        arbitrary()
    }

    /// The number that stands for a count.
    open spec fn counted(n: nat) -> Self {
        arbitrary()
    }

    /// Sum.
    open spec fn plus(self, other: Self) -> Self {
        arbitrary()
    }

    /// Difference.
    open spec fn minus(self, other: Self) -> Self {
        arbitrary()
    }

    /// Product.
    open spec fn times(self, other: Self) -> Self {
        arbitrary()
    }

    /// Quotient.
    open spec fn over(self, other: Self) -> Self {
        arbitrary()
    }

    /// Square root.
    open spec fn root(self) -> Self {
        arbitrary()
    }

    /// Absolute value.
    open spec fn size(self) -> Self {
        arbitrary()
    }

    /// Strictly less.
    open spec fn below(self, other: Self) -> bool {
        arbitrary()
    }

    /// Strictly before in the order that values are sorted by. It agrees with [`Self::below`]
    /// on values that compare, and gives every other value a place too.
    open spec fn precedes(self, other: Self) -> bool {
        arbitrary()
    }

    /// Numerically equal.
    open spec fn same(self, other: Self) -> bool {
        arbitrary()
    }

    /// Neither infinite nor undefined.
    open spec fn bounded(self) -> bool {
        arbitrary()
    }

    /// Not larger than what rounding leaves of zero.
    open spec fn negligible(self) -> bool {
        arbitrary()
    }

    /// Zero.
    fn zero() -> (r: Self)
        ensures
            r == Self::nil(),
    ;

    /// A value above every finite one.
    fn infinity() -> (r: Self)
        ensures
            r == Self::unbounded(),
    ;

    /// What has no value, such as the mean of nothing.
    fn no_value() -> (r: Self)
        ensures
            r == Self::undefined(),
    ;

    /// The number that stands for a count.
    fn count(n: u64) -> (r: Self)
        ensures
            r == Self::counted(n as nat),
    ;

    /// Sum.
    fn sum(self, other: Self) -> (r: Self)
        ensures
            r == self.plus(other),
    ;

    /// Difference.
    fn difference(self, other: Self) -> (r: Self)
        ensures
            r == self.minus(other),
    ;

    /// Product.
    fn product(self, other: Self) -> (r: Self)
        ensures
            r == self.times(other),
    ;

    /// Quotient.
    fn quotient(self, other: Self) -> (r: Self)
        ensures
            r == self.over(other),
    ;

    /// Square root.
    fn square_root(self) -> (r: Self)
        ensures
            r == self.root(),
    ;

    /// Absolute value.
    fn magnitude(self) -> (r: Self)
        ensures
            r == self.size(),
    ;

    /// Whether strictly less.
    fn is_below(self, other: Self) -> (r: bool)
        ensures
            r == self.below(other),
    ;

    /// Whether strictly before in the order that values are sorted by.
    fn is_preceding(self, other: Self) -> (r: bool)
        ensures
            r == self.precedes(other),
    ;

    /// Whether numerically equal.
    fn is_same(self, other: Self) -> (r: bool)
        ensures
            r == self.same(other),
    ;

    /// Whether neither infinite nor undefined.
    fn is_bounded(self) -> (r: bool)
        ensures
            r == self.bounded(),
    ;

    /// Whether not larger than what rounding leaves of zero.
    fn is_negligible(self) -> (r: bool)
        ensures
            r == self.negligible(),
    ;
}

/// A whole number that stops at the ends of its range.
///
/// The ends stand for what is not finite.
#[derive(Clone, Copy, Debug, PartialEq, Eq, Structural)]
pub struct Whole {
    /// The number.
    pub value: i64,
}

/// The nearest number in range.
pub open spec fn clamped(n: int) -> Whole {
    Whole {
        value: if n > i64::MAX {
            i64::MAX
        } else if n < i64::MIN {
            i64::MIN
        } else {
            n as i64
        },
    }
}

/// Quotient toward zero; division by zero runs to the end of the range.
pub open spec fn truncated(a: int, b: int) -> int {
    let size_a = if a < 0 {
        -a
    } else {
        a
    };
    let size_b = if b < 0 {
        -b
    } else {
        b
    };
    if b == 0 {
        if a > 0 {
            i64::MAX as int
        } else if a < 0 {
            i64::MIN as int
        } else {
            0
        }
    } else if (a < 0) == (b < 0) {
        size_a / size_b
    } else {
        -(size_a / size_b)
    }
}

/// `r` is the largest number whose square is at most `n`.
pub open spec fn is_floor_root(r: int, n: int) -> bool {
    0 <= r && r * r <= n < (r + 1) * (r + 1)
}

/// The largest number whose square is at most `n`; zero for a negative `n`.
pub open spec fn floor_root(n: int) -> int {
    if n <= 0 {
        0
    } else {
        choose|r: int| is_floor_root(r, n)
    }
}

proof fn lemma_floor_root_unique(r: int, s: int, n: int)
    requires
        is_floor_root(r, n),
        is_floor_root(s, n),
    ensures
        r == s,
{
    if r < s {
        assert((r + 1) * (r + 1) <= s * s) by (nonlinear_arith)
            requires
                0 <= r,
                r + 1 <= s,
        ;
    }
    if s < r {
        assert((s + 1) * (s + 1) <= r * r) by (nonlinear_arith)
            requires
                0 <= s,
                s + 1 <= r,
        ;
    }
}

fn clamp(n: i128) -> (r: Whole)
    ensures
        r == clamped(n as int),
{
    if n > i64::MAX as i128 {
        Whole { value: i64::MAX }
    } else if n < i64::MIN as i128 {
        Whole { value: i64::MIN }
    } else {
        Whole { value: n as i64 }
    }
}

impl Amount for Whole {
    open spec fn nil() -> Self {
        Whole { value: 0 }
    }

    open spec fn unbounded() -> Self {
        Whole { value: i64::MAX }
    }

    open spec fn undefined() -> Self {
        Whole { value: i64::MIN }
    }

    open spec fn counted(n: nat) -> Self {
        clamped(n as int)
    }

    open spec fn plus(self, other: Self) -> Self {
        clamped(self.value + other.value)
    }

    open spec fn minus(self, other: Self) -> Self {
        clamped(self.value - other.value)
    }

    open spec fn times(self, other: Self) -> Self {
        clamped(self.value * other.value)
    }

    open spec fn over(self, other: Self) -> Self {
        clamped(truncated(self.value as int, other.value as int))
    }

    open spec fn root(self) -> Self {
        clamped(floor_root(self.value as int))
    }

    open spec fn size(self) -> Self {
        clamped(
            if self.value < 0 {
                -(self.value as int)
            } else {
                self.value as int
            },
        )
    }

    open spec fn below(self, other: Self) -> bool {
        self.value < other.value
    }

    open spec fn precedes(self, other: Self) -> bool {
        self.value < other.value
    }

    open spec fn same(self, other: Self) -> bool {
        self.value == other.value
    }

    open spec fn bounded(self) -> bool {
        i64::MIN < self.value < i64::MAX
    }

    open spec fn negligible(self) -> bool {
        self.value == 0
    }

    fn zero() -> Self {
        Whole { value: 0 }
    }

    fn infinity() -> Self {
        Whole { value: i64::MAX }
    }

    fn no_value() -> Self {
        Whole { value: i64::MIN }
    }

    fn count(n: u64) -> Self {
        clamp(n as i128)
    }

    fn sum(self, other: Self) -> Self {
        clamp(self.value as i128 + other.value as i128)
    }

    fn difference(self, other: Self) -> Self {
        clamp(self.value as i128 - other.value as i128)
    }

    fn product(self, other: Self) -> Self {
        let a: i128 = self.value as i128;
        let b: i128 = other.value as i128;
        assert(-0x4000_0000_0000_0000_0000_0000_0000_0000 <= a * b
            <= 0x4000_0000_0000_0000_0000_0000_0000_0000) by (nonlinear_arith)
            requires
                -0x8000_0000_0000_0000 <= a <= 0x7fff_ffff_ffff_ffff,
                -0x8000_0000_0000_0000 <= b <= 0x7fff_ffff_ffff_ffff,
        ;
        clamp(a * b)
    }

    fn quotient(self, other: Self) -> Self {
        let a: i128 = self.value as i128;
        let b: i128 = other.value as i128;
        if b == 0 {
            if a > 0 {
                return Whole { value: i64::MAX };
            }
            if a < 0 {
                return Whole { value: i64::MIN };
            }
            return Whole { value: 0 };
        }
        let size_a: u128 = if a < 0 {
            (-a) as u128
        } else {
            a as u128
        };
        let size_b: u128 = if b < 0 {
            (-b) as u128
        } else {
            b as u128
        };
        let q: u128 = size_a / size_b;
        proof {
            vstd::arithmetic::div_mod::lemma_div_is_ordered_by_denominator(
                size_a as int,
                1,
                size_b as int,
            );
            assert(size_a as int / 1 == size_a);
        }
        if (a < 0) == (b < 0) {
            clamp(q as i128)
        } else {
            clamp(-(q as i128))
        }
    }

    fn square_root(self) -> Self {
        if self.value <= 0 {
            return Whole { value: 0 };
        }
        let n: u64 = self.value as u64;
        let mut low: u64 = 0;
        let mut high: u64 = 0x1_0000_0000;
        while low + 1 < high
            invariant
                0 <= low < high <= 0x1_0000_0000,
                low * low <= n < high * high,
            decreases high - low,
        {
            let middle: u64 = low + (high - low) / 2;
            assert(0 <= middle * middle < 0x1_0000_0000_0000_0000) by (nonlinear_arith)
                requires
                    0 <= middle < 0x1_0000_0000,
            ;
            if middle * middle <= n {
                low = middle;
            } else {
                high = middle;
            }
        }
        proof {
            assert(high == low + 1);
            assert(is_floor_root(low as int, n as int));
            lemma_floor_root_unique(low as int, floor_root(n as int), n as int);
        }
        Whole { value: low as i64 }
    }

    fn magnitude(self) -> Self {
        if self.value < 0 {
            clamp(-(self.value as i128))
        } else {
            self
        }
    }

    fn is_below(self, other: Self) -> bool {
        self.value < other.value
    }

    fn is_preceding(self, other: Self) -> bool {
        self.value < other.value
    }

    fn is_same(self, other: Self) -> bool {
        self.value == other.value
    }

    fn is_bounded(self) -> bool {
        i64::MIN < self.value && self.value < i64::MAX
    }

    fn is_negligible(self) -> bool {
        self.value == 0
    }
}

} // verus!
