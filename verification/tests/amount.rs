//! Number types that attribution computes with.

use antecedent::attribution::amount::{Amount, Whole};

#[derive(Clone, Copy, Debug, PartialEq)]
struct Real(f64);

impl Amount for Real {
    fn zero() -> Self {
        Real(0.0)
    }
    fn infinity() -> Self {
        Real(f64::INFINITY)
    }
    fn no_value() -> Self {
        Real(f64::NAN)
    }
    fn count(n: u64) -> Self {
        Real(n as f64)
    }
    fn sum(self, other: Self) -> Self {
        Real(self.0 + other.0)
    }
    fn difference(self, other: Self) -> Self {
        Real(self.0 - other.0)
    }
    fn product(self, other: Self) -> Self {
        Real(self.0 * other.0)
    }
    fn quotient(self, other: Self) -> Self {
        Real(self.0 / other.0)
    }
    fn square_root(self) -> Self {
        Real(self.0.sqrt())
    }
    fn magnitude(self) -> Self {
        Real(self.0.abs())
    }
    fn is_below(self, other: Self) -> bool {
        self.0 < other.0
    }
    fn is_preceding(self, other: Self) -> bool {
        self.0.total_cmp(&other.0).is_lt()
    }
    fn is_same(self, other: Self) -> bool {
        self.0 == other.0
    }
    fn is_bounded(self) -> bool {
        self.0.is_finite()
    }
    fn is_negligible(self) -> bool {
        !(self.0.abs() > 1e-15)
    }
}

fn hypotenuse<N: Amount>(a: N, b: N) -> N {
    a.product(a).sum(b.product(b)).square_root()
}

fn whole(value: i64) -> Whole {
    Whole { value }
}

#[test]
fn floating_point_numbers_are_amounts() {
    assert_eq!(hypotenuse(Real(3.0), Real(4.0)), Real(5.0));
    assert_eq!(hypotenuse(whole(3), whole(4)), whole(5));
}

#[test]
fn whole_numbers_stop_at_the_ends_of_their_range() {
    assert_eq!(whole(i64::MAX).sum(whole(1)), whole(i64::MAX));
    assert_eq!(whole(i64::MIN).difference(whole(1)), whole(i64::MIN));
    assert_eq!(whole(i64::MIN).magnitude(), whole(i64::MAX));
    assert_eq!(whole(i64::MAX).product(whole(-2)), whole(i64::MIN));
    assert_eq!(whole(-7).quotient(whole(2)), whole(-3));
    assert_eq!(whole(7).quotient(whole(0)), whole(i64::MAX));
    assert_eq!(whole(-7).quotient(whole(0)), whole(i64::MIN));
    assert_eq!(whole(0).quotient(whole(0)), whole(0));
    assert_eq!(Whole::count(u64::MAX), Whole::infinity());
    assert_eq!(whole(99).square_root(), whole(9));
    assert_eq!(whole(-4).square_root(), Whole::zero());
    assert!(!Whole::infinity().is_bounded());
    assert!(whole(0).is_negligible());
}
