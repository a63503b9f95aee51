//! Efficiency of allocations: shares add up to what there is to share.
//!
//! The laws are about exact arithmetic. A valuation reads the numbers of a computation as
//! real numbers; where it respects the operations, the shares of an allocation sum to the
//! worth of all players less the worth of none. Rounded arithmetic has no such valuation,
//! and its sums are off by the rounding.
//!
//! SPDX-License-Identifier: MIT OR Apache-2.0

use crate::attribution::amount::Amount;
use crate::attribution::coalition;
use crate::attribution::error::AttributionError;
use crate::attribution::orders;
use crate::attribution::payoff;
use crate::attribution::sequential;
use crate::attribution::shapley;
use vstd::arithmetic::div_mod;
use vstd::arithmetic::power2;
use crate::execution::ExecutionContext;
use vstd::prelude::*;

verus! {

/// A valuation that respects zero, sums and differences.
pub open spec fn is_additive<N: Amount>(val: spec_fn(N) -> real) -> bool {
    &&& val(N::nil()) == 0 as real
    &&& forall|a: N, b: N| #[trigger] val(a.plus(b)) == val(a) + val(b)
    &&& forall|a: N, b: N| #[trigger] val(a.minus(b)) == val(a) - val(b)
}

/// A valuation that respects every operation Shapley values are made of.
pub open spec fn is_exact<N: Amount>(val: spec_fn(N) -> real) -> bool {
    &&& is_additive(val)
    &&& forall|a: N, b: N| #[trigger] val(a.times(b)) == val(a) * val(b)
    &&& forall|a: N, b: N|
        val(b) != 0 as real ==> #[trigger] val(a.over(b)) * val(b) == val(a)
    &&& forall|n: nat| #[trigger] val(N::counted(n)) == n as real
}

/// Sum of the first `n` terms.
pub open spec fn sum(f: spec_fn(int) -> real, n: nat) -> real
    decreases n,
{
    if n == 0 {
        0 as real
    } else {
        sum(f, (n - 1) as nat) + f(n - 1)
    }
}

pub proof fn lemma_sum_same(f: spec_fn(int) -> real, h: spec_fn(int) -> real, n: nat)
    requires
        forall|i: int| 0 <= i < n ==> #[trigger] f(i) == h(i),
    ensures
        sum(f, n) == sum(h, n),
    decreases n,
{
    if n > 0 {
        lemma_sum_same(f, h, (n - 1) as nat);
        assert(f(n - 1) == h(n - 1));
    }
}

pub proof fn lemma_sum_of_sums(
    f: spec_fn(int) -> real,
    h: spec_fn(int) -> real,
    both: spec_fn(int) -> real,
    n: nat,
)
    requires
        forall|i: int| 0 <= i < n ==> #[trigger] both(i) == f(i) + h(i),
    ensures
        sum(both, n) == sum(f, n) + sum(h, n),
    decreases n,
{
    if n > 0 {
        lemma_sum_of_sums(f, h, both, (n - 1) as nat);
        assert(both(n - 1) == f(n - 1) + h(n - 1));
    }
}

/// Marginals along a walk telescope.
pub proof fn law_sequential_allocation_is_efficient<N: Amount>(
    val: spec_fn(N) -> real,
    g: spec_fn(u64) -> Result<N, AttributionError>,
    seats: Seq<usize>,
    k: nat,
)
    requires
        is_additive(val),
    ensures
        sum(|j: int| val(orders::marginal(g, seats, j)), k) == val(
            payoff::worth_of(g, orders::along(seats, k)),
        ) - val(payoff::worth_of(g, 0)),
    decreases k,
{
    if k > 0 {
        law_sequential_allocation_is_efficient(val, g, seats, (k - 1) as nat);
    }
}

/// Binary digit `i` of `m`.
pub open spec fn digit(m: int, i: nat) -> bool {
    (m / power2::pow2(i) as int) % 2 == 1
}

/// A number whose digits from `i` on are those of `q` has digit `i` exactly if `q` is odd.
proof fn lemma_digit_of(q: int, r: int, i: nat)
    requires
        0 <= r < power2::pow2(i),
    ensures
        digit(q * power2::pow2(i) + r, i) == (q % 2 == 1),
{
    div_mod::lemma_fundamental_div_mod_converse(
        q * power2::pow2(i) + r,
        power2::pow2(i) as int,
        q,
        r,
    );
}

/// Numbers with the same digits are the same.
proof fn lemma_same_digits(a: int, b: int, n: nat)
    requires
        0 <= a < power2::pow2(n),
        0 <= b < power2::pow2(n),
        forall|i: nat| i < n ==> #[trigger] digit(a, i) == digit(b, i),
    ensures
        a == b,
    decreases n,
{
    power2::lemma2_to64();
    if n > 0 {
        power2::lemma_pow2_unfold(n);
        assert forall|i: nat| i < n - 1 implies #[trigger] digit(a / 2, i) == digit(b / 2, i) by {
            power2::lemma_pow2_unfold(i + 1);
            power2::lemma_pow2_pos(i);
            div_mod::lemma_div_denominator(a, 2, power2::pow2(i) as int);
            div_mod::lemma_div_denominator(b, 2, power2::pow2(i) as int);
            assert(digit(a, i + 1) == digit(b, i + 1));
        }
        lemma_same_digits(a / 2, b / 2, (n - 1) as nat);
        assert(digit(a, 0) == digit(b, 0));
        assert(a / 1 == a && b / 1 == b);
    }
}

/// Every digit of `2^n - 1` below `n` is set.
proof fn lemma_full_digits(n: nat, i: nat)
    requires
        i < n,
    ensures
        digit(power2::pow2(n) - 1, i),
{
    let rest = (n - i) as nat;
    power2::lemma_pow2_adds(i, rest);
    power2::lemma_pow2_pos(i);
    power2::lemma_pow2_unfold(rest);
    let q = power2::pow2(rest) - 1;
    let p = power2::pow2(i) as int;
    assert(power2::pow2(n) - 1 == q * p + (p - 1)) by (nonlinear_arith)
        requires
            power2::pow2(n) == power2::pow2(i) * power2::pow2(rest),
            q == power2::pow2(rest) - 1,
            p == power2::pow2(i),
    ;
    lemma_digit_of(q, p - 1, i);
}

/// Coalitions of the first `n` players that agree on them are one.
pub proof fn lemma_same_members(a: u64, b: u64, n: nat)
    requires
        n <= 64,
        a < power2::pow2(n),
        b < power2::pow2(n),
        forall|i: int|
            0 <= i < n ==> #[trigger] coalition::member(a, i) == coalition::member(b, i),
    ensures
        a == b,
{
    assert forall|i: nat| i < n implies #[trigger] digit(a as int, i) == digit(b as int, i) by {
        coalition::lemma_digit(a, i as int);
        coalition::lemma_digit(b, i as int);
        assert(coalition::member(a, i as int) == coalition::member(b, i as int));
    }
    lemma_same_digits(a as int, b as int, n);
}

/// Membership in the coalition of all of `n` players.
pub proof fn lemma_full_members(full: u64, n: nat, i: int)
    requires
        n <= 64,
        full == power2::pow2(n) - 1,
        0 <= i < n,
    ensures
        coalition::member(full, i),
{
    coalition::lemma_digit(full, i);
    lemma_full_digits(n, i as nat);
}

/// Adding a player adds one to the size.
proof fn lemma_size_with(mask: u64, i: int, n: nat)
    requires
        0 <= i < 64,
        n <= 64,
        !coalition::member(mask, i),
    ensures
        coalition::size(coalition::with_member(mask, i), n) == coalition::size(mask, n) + if i < n {
            1nat
        } else {
            0
        },
    decreases n,
{
    if n > 0 {
        lemma_size_with(mask, i, (n - 1) as nat);
        coalition::lemma_one_player(mask, i, n - 1);
    }
}

/// A coalition without players is the empty one, and a coalition of `n` of `n` players is
/// the full one.
proof fn lemma_extreme_sizes(mask: u64, n: nat)
    requires
        n <= 64,
        mask < power2::pow2(n),
    ensures
        coalition::size(mask, n) == 0 <==> mask == 0,
        coalition::size(mask, n) == n <==> mask == power2::pow2(n) - 1,
        coalition::size(mask, n) <= n,
{
    power2::lemma_pow2_pos(n);
    power2::lemma2_to64();
    if n < 64 {
        power2::lemma_pow2_strictly_increases(n, 64);
    }
    let full = (power2::pow2(n) - 1) as u64;
    assert(full == power2::pow2(n) - 1);
    lemma_size_counts(mask, n);
    lemma_size_counts(0, n);
    lemma_size_counts(full, n);
    assert forall|i: int| 0 <= i < n implies !(#[trigger] coalition::member(0, i)) by {
        coalition::lemma_one_player(0, i, i);
    }
    assert forall|i: int| 0 <= i < n implies #[trigger] coalition::member(full, i) by {
        lemma_full_members(full, n, i);
    }
    if coalition::size(mask, n) == 0 {
        lemma_same_members(mask, 0, n);
    }
    if coalition::size(mask, n) == n {
        lemma_same_members(mask, full, n);
    }
}

proof fn lemma_size_counts(mask: u64, n: nat)
    ensures
        coalition::size(mask, n) <= n,
        coalition::size(mask, n) == 0 <==> forall|i: int|
            0 <= i < n ==> !(#[trigger] coalition::member(mask, i)),
        coalition::size(mask, n) == n <==> forall|i: int|
            0 <= i < n ==> #[trigger] coalition::member(mask, i),
    decreases n,
{
    if n > 0 {
        lemma_size_counts(mask, (n - 1) as nat);
        let last = coalition::member(mask, n - 1);
        if coalition::size(mask, n) == 0 {
            assert forall|i: int| 0 <= i < n implies !(#[trigger] coalition::member(mask, i)) by {
                assert(i == n - 1 || i < n - 1);
            }
        }
        if coalition::size(mask, n) == n {
            assert forall|i: int| 0 <= i < n implies #[trigger] coalition::member(mask, i) by {
                assert(i == n - 1 || i < n - 1);
            }
        }
        if forall|i: int| 0 <= i < n ==> !(#[trigger] coalition::member(mask, i)) {
            assert(!last);
        }
        if forall|i: int| 0 <= i < n ==> #[trigger] coalition::member(mask, i) {
            assert(last);
        }
    }
}

/// Terms `h(m + 2^i)` over the numbers that lack digit `i`.
spec fn lifted(h: spec_fn(int) -> real, i: nat) -> spec_fn(int) -> real {
    |m: int|
        if digit(m, i) {
            0 as real
        } else {
            h(m + power2::pow2(i))
        }
}

/// Terms `h(m)` over the numbers that have digit `i`.
spec fn held(h: spec_fn(int) -> real, i: nat) -> spec_fn(int) -> real {
    |m: int|
        if digit(m, i) {
            h(m)
        } else {
            0 as real
        }
}

proof fn lemma_block(h: spec_fn(int) -> real, i: nat, q: nat, j: nat)
    requires
        j <= power2::pow2(i),
    ensures
        sum(lifted(h, i), (2 * q * power2::pow2(i) + j) as nat) == sum(
            lifted(h, i),
            (2 * q * power2::pow2(i)) as nat,
        ) + sum(|d: int| h(2 * q * power2::pow2(i) + power2::pow2(i) + d), j),
        sum(held(h, i), (2 * q * power2::pow2(i) + j) as nat) == sum(
            held(h, i),
            (2 * q * power2::pow2(i)) as nat,
        ),
        sum(lifted(h, i), (2 * q * power2::pow2(i) + power2::pow2(i) + j) as nat) == sum(
            lifted(h, i),
            (2 * q * power2::pow2(i) + power2::pow2(i)) as nat,
        ),
        sum(held(h, i), (2 * q * power2::pow2(i) + power2::pow2(i) + j) as nat) == sum(
            held(h, i),
            (2 * q * power2::pow2(i) + power2::pow2(i)) as nat,
        ) + sum(|d: int| h(2 * q * power2::pow2(i) + power2::pow2(i) + d), j),
    decreases j,
{
    let p = power2::pow2(i) as int;
    let start = 2 * q * p;
    assert(start >= 0) by (nonlinear_arith)
        requires
            start == 2 * q * p,
            p >= 0,
            q >= 0,
    ;
    if j > 0 {
        lemma_block(h, i, q, (j - 1) as nat);
        lemma_digit_of((2 * q) as int, j - 1, i);
        lemma_digit_of((2 * q + 1) as int, j - 1, i);
        assert((2 * q + 1) * p == start + p) by (nonlinear_arith)
            requires
                start == 2 * q * p,
        ;
        assert(!digit(start + (j - 1), i));
        assert(digit(start + p + (j - 1), i));
        assert(((start + j) - 1) as nat == (start + (j - 1)) as nat);
        assert(((start + p + j) - 1) as nat == (start + p + (j - 1)) as nat);
    }
}

/// Adding a player to every coalition that lacks it gives every coalition that has it.
proof fn lemma_reindex(h: spec_fn(int) -> real, i: nat, q: nat)
    ensures
        sum(lifted(h, i), (2 * q * power2::pow2(i)) as nat) == sum(
            held(h, i),
            (2 * q * power2::pow2(i)) as nat,
        ),
    decreases q,
{
    if q > 0 {
        let before = (q - 1) as nat;
        lemma_reindex(h, i, before);
        lemma_block(h, i, before, power2::pow2(i));
        let p = power2::pow2(i) as int;
        assert(2 * before * p + p + p == 2 * q * p) by (nonlinear_arith)
            requires
                before == q - 1,
        ;
    } else {
        let p = power2::pow2(i);
        assert(2 * q * p == 0) by (nonlinear_arith)
            requires
                q == 0,
        ;
    }
}

/// Arithmetic of real numbers that the proofs below need.
pub proof fn real_distributes(a: real, b: real, c: real)
    by (nonlinear_arith)
    ensures
        a * (b + c) == a * b + a * c,
        a * (b - c) == a * b - a * c,
        (b + c) * a == b * a + c * a,
        (b - c) * a == b * a - c * a,
{
}

pub proof fn real_regroups(a: real, b: real, c: real)
    by (nonlinear_arith)
    ensures
        (a * b) * c == a * (b * c),
        a * b == b * a,
        a * (b * c) == b * (a * c),
{
}

pub proof fn real_orders(a: real, b: real, f: real)
    by (nonlinear_arith)
    requires
        a < b,
        f > 0 as real,
    ensures
        a * f < b * f,
{
}

pub proof fn real_cancels(a: real, b: real, f: real)
    requires
        a * f == b * f,
        f > 0 as real,
    ensures
        a == b,
{
    if a < b {
        real_orders(a, b, f);
    }
    if b < a {
        real_orders(b, a, f);
    }
}

pub proof fn real_units(a: real)
    by (nonlinear_arith)
    ensures
        0 as real * a == 0 as real,
        1 as real * a == a,
        a * (1 as real) == a,
        (-(1 as real)) * a == -a,
{
}

/// Worth of a coalition as a real number.
pub open spec fn worth_at<N: Amount>(
    val: spec_fn(N) -> real,
    g: spec_fn(u64) -> Result<N, AttributionError>,
    m: int,
) -> real {
    val(payoff::worth_of(g, m as u64))
}

/// Weight of a marginal on `s` of `n` players as a real number.
spec fn weight_at<N: Amount>(val: spec_fn(N) -> real, n: nat, s: int) -> real {
    val(shapley::weight::<N>(n, s as nat))
}

/// What coalition `m` gives to a member.
spec fn given<N: Amount>(
    val: spec_fn(N) -> real,
    g: spec_fn(u64) -> Result<N, AttributionError>,
    n: nat,
) -> spec_fn(int) -> real {
    |m: int|
        weight_at(val, n, coalition::size(m as u64, n) - 1) * worth_at(val, g, m)
}

/// What coalition `m` takes from a player outside.
spec fn taken<N: Amount>(
    val: spec_fn(N) -> real,
    g: spec_fn(u64) -> Result<N, AttributionError>,
    n: nat,
    i: nat,
) -> spec_fn(int) -> real {
    |m: int|
        if digit(m, i) {
            0 as real
        } else {
            weight_at(val, n, coalition::size(m as u64, n) as int) * worth_at(val, g, m)
        }
}

proof fn lemma_share_value<N: Amount>(
    val: spec_fn(N) -> real,
    g: spec_fn(u64) -> Result<N, AttributionError>,
    n: nat,
    i: nat,
    rows: nat,
)
    requires
        is_exact(val),
        i < n <= 63,
        rows <= power2::pow2(n),
    ensures
        val(shapley::share(g, n, i as int, rows)) == sum(lifted(given(val, g, n), i), rows) - sum(
            taken(val, g, n, i),
            rows,
        ),
    decreases rows,
{
    if rows > 0 {
        lemma_share_value(val, g, n, i, (rows - 1) as nat);
        power2::lemma2_to64();
        power2::lemma_pow2_strictly_increases(n, 64);
        let m = rows - 1;
        let mask = m as u64;
        coalition::lemma_digit(mask, i as int);
        if !coalition::member(mask, i as int) {
            let joined = coalition::with_member(mask, i as int);
            lemma_size_with(mask, i as int, n);
            let w = weight_at(val, n, coalition::size(mask, n) as int);
            let a = worth_at(val, g, joined as int);
            let b = worth_at(val, g, m);
            real_distributes(w, a, b);
            assert(given(val, g, n)(joined as int) == w * a);
        }
    }
}

/// Sums over a table can be taken by rows or by columns.
proof fn lemma_exchange(f: spec_fn(int, int) -> real, a: nat, b: nat)
    ensures
        sum(|i: int| sum(|m: int| f(i, m), b), a) == sum(|m: int| sum(|i: int| f(i, m), a), b),
    decreases b,
{
    let rows = |i: int| sum(|m: int| f(i, m), b);
    if b == 0 {
        lemma_zeros(rows, a);
    } else {
        let before = (b - 1) as nat;
        lemma_exchange(f, a, before);
        let shorter = |i: int| sum(|m: int| f(i, m), before);
        let last = |i: int| f(i, b - 1);
        assert forall|i: int| 0 <= i < a implies #[trigger] rows(i) == shorter(i) + last(i) by {}
        lemma_sum_of_sums(shorter, last, rows, a);
        let columns = |m: int| sum(|i: int| f(i, m), a);
        assert(columns(b - 1) == sum(|i: int| f(i, b - 1), a));
        lemma_sum_same(last, |i: int| f(i, b - 1), a);
    }
}

pub proof fn lemma_zeros(f: spec_fn(int) -> real, n: nat)
    requires
        forall|i: int| 0 <= i < n ==> #[trigger] f(i) == 0 as real,
    ensures
        sum(f, n) == 0 as real,
    decreases n,
{
    if n > 0 {
        lemma_zeros(f, (n - 1) as nat);
        assert(f(n - 1) == 0 as real);
    }
}

/// Entry of player `i` and coalition `m`.
spec fn entry<N: Amount>(
    val: spec_fn(N) -> real,
    g: spec_fn(u64) -> Result<N, AttributionError>,
    n: nat,
) -> spec_fn(int, int) -> real {
    |i: int, m: int| held(given(val, g, n), i as nat)(m) - taken(val, g, n, i as nat)(m)
}

/// All entries of one coalition.
proof fn lemma_column<N: Amount>(
    val: spec_fn(N) -> real,
    g: spec_fn(u64) -> Result<N, AttributionError>,
    n: nat,
    m: int,
    k: nat,
)
    requires
        k <= n <= 63,
        0 <= m < power2::pow2(n),
    ensures
        sum(|i: int| entry(val, g, n)(i, m), k) == coalition::size(m as u64, k) as real * given(
            val,
            g,
            n,
        )(m) - (k as real - coalition::size(m as u64, k) as real) * (weight_at(
            val,
            n,
            coalition::size(m as u64, n) as int,
        ) * worth_at(val, g, m)),
    decreases k,
{
    power2::lemma2_to64();
    power2::lemma_pow2_strictly_increases(n, 64);
    let a = given(val, g, n)(m);
    let b = weight_at(val, n, coalition::size(m as u64, n) as int) * worth_at(val, g, m);
    let s = coalition::size(m as u64, k) as real;
    if k > 0 {
        lemma_column(val, g, n, m, (k - 1) as nat);
        coalition::lemma_digit(m as u64, k - 1);
        let t = coalition::size(m as u64, (k - 1) as nat) as real;
        let c = (k - 1) as real;
        assert(k as real == c + 1 as real);
        if coalition::member(m as u64, k - 1) {
            assert(s == t + 1 as real);
            real_distributes(a, t, 1 as real);
            real_units(a);
            assert(c + 1 as real - s == c - t);
        } else {
            assert(s == t);
            real_distributes(b, c - t, 1 as real);
            real_units(b);
            assert(c + 1 as real - s == (c - t) + 1 as real);
        }
    } else {
        real_units(a);
        real_units(b);
        assert(k as real - s == 0 as real);
    }
}

proof fn lemma_factorial<N: Amount>(val: spec_fn(N) -> real, k: nat)
    requires
        is_exact(val),
    ensures
        val(shapley::factorial::<N>(k)) > 0 as real,
        k > 0 ==> val(shapley::factorial::<N>(k)) == val(
            shapley::factorial::<N>((k - 1) as nat),
        ) * (k as real),
    decreases k,
{
    if k > 0 {
        lemma_factorial(val, (k - 1) as nat);
        let f = val(shapley::factorial::<N>((k - 1) as nat));
        let c = k as real;
        real_orders(0 as real, f, c);
        real_units(c);
    }
}

/// What a coalition gives and takes cancels, except at the two ends.
proof fn lemma_balance<N: Amount>(val: spec_fn(N) -> real, n: nat, s: nat)
    requires
        is_exact(val),
        s <= n,
        n >= 1,
    ensures
        s == 0 ==> (n as real) * weight_at(val, n, 0) == 1 as real,
        s == n ==> (n as real) * weight_at(val, n, n - 1) == 1 as real,
        0 < s < n ==> (s as real) * weight_at(val, n, s - 1) == (n as real - s as real)
            * weight_at(val, n, s as int),
{
    lemma_factorial(val, n);
    lemma_factorial(val, s);
    lemma_factorial(val, 0);
    let fn_ = val(shapley::factorial::<N>(n));
    let f0 = val(shapley::factorial::<N>(0));
    assert(f0 == 1 as real);
    let c = n as real;
    if s == 0 || s == n {
        let before = val(shapley::factorial::<N>((n - 1) as nat));
        let w0 = weight_at(val, n, 0);
        let w1 = weight_at(val, n, n - 1);
        assert(val(shapley::factorial::<N>(0).times(shapley::factorial::<N>((n - 1) as nat)))
            == f0 * before);
        assert(val(shapley::factorial::<N>((n - 1) as nat).times(shapley::factorial::<N>(0)))
            == before * f0);
        assert(w0 * fn_ == f0 * before);
        assert(w1 * fn_ == before * f0);
        real_units(before);
        real_units(fn_);
        real_regroups(c, w0, fn_);
        real_regroups(c, w1, fn_);
        real_regroups(c, before, fn_);
        real_cancels(c * w0, 1 as real, fn_);
        real_cancels(c * w1, 1 as real, fn_);
    } else {
        lemma_factorial(val, (n - s) as nat);
        let fs = val(shapley::factorial::<N>(s));
        let fs1 = val(shapley::factorial::<N>((s - 1) as nat));
        let fr = val(shapley::factorial::<N>((n - s) as nat));
        let fr1 = val(shapley::factorial::<N>((n - s - 1) as nat));
        let wl = weight_at(val, n, s - 1);
        let wr = weight_at(val, n, s as int);
        let a = s as real;
        let b = (n - s) as real;
        assert(b == c - a);
        assert(n - (s - 1) - 1 == n - s);
        assert(wl * fn_ == fs1 * fr);
        assert(wr * fn_ == fs * fr1);
        real_regroups(a, wl, fn_);
        real_regroups(b, wr, fn_);
        real_regroups(a, fs1, fr);
        real_regroups(b, fs, fr1);
        real_regroups(b, fr1, fr1);
        real_cancels(a * wl, b * wr, fn_);
    }
}

/// Shapley values are efficient: they sum to the worth of all players less the worth of
/// none.
pub proof fn law_exact_shapley_is_efficient<N: Amount>(
    val: spec_fn(N) -> real,
    g: spec_fn(u64) -> Result<N, AttributionError>,
    n: nat,
)
    requires
        is_exact(val),
        1 <= n <= 63,
    ensures
        sum(|i: int| val(shapley::shapley_values(g, n)[i]), n) == worth_at(
            val,
            g,
            power2::pow2(n) - 1,
        ) - worth_at(val, g, 0),
{
    let coalitions = power2::pow2(n);
    let f = entry(val, g, n);
    let shares = |i: int| val(shapley::shapley_values(g, n)[i]);
    let rows = |i: int| sum(|m: int| f(i, m), coalitions);
    assert forall|i: int| 0 <= i < n implies #[trigger] shares(i) == rows(i) by {
        let h = given(val, g, n);
        lemma_share_value(val, g, n, i as nat, coalitions);
        let q = power2::pow2((n - 1 - i) as nat);
        power2::lemma_pow2_adds((n - 1 - i) as nat, i as nat);
        power2::lemma_pow2_unfold(n);
        let p = power2::pow2(i as nat);
        assert(2 * q * p == coalitions) by (nonlinear_arith)
            requires
                coalitions == 2 * (q * p),
        ;
        lemma_reindex(h, i as nat, q);
        let negative = |m: int| -taken(val, g, n, i as nat)(m);
        lemma_negated(taken(val, g, n, i as nat), negative, coalitions);
        lemma_sum_of_sums(held(h, i as nat), negative, |m: int| f(i, m), coalitions);
    }
    lemma_sum_same(shares, rows, n);
    lemma_exchange(f, n, coalitions);
    let columns = |m: int| sum(|i: int| f(i, m), n);
    let ends = |m: int| end_term(val, g, n, m);
    assert forall|m: int| 0 <= m < coalitions implies #[trigger] columns(m) == ends(m) by {
        lemma_column(val, g, n, m, n);
        lemma_end_term(val, g, n, m);
    }
    lemma_sum_same(columns, ends, coalitions);
    lemma_ends(val, g, n, coalitions);
    power2::lemma_pow2_pos(n);
}

proof fn lemma_negated(f: spec_fn(int) -> real, h: spec_fn(int) -> real, n: nat)
    requires
        forall|i: int| 0 <= i < n ==> #[trigger] h(i) == -f(i),
    ensures
        sum(h, n) == -sum(f, n),
    decreases n,
{
    if n > 0 {
        lemma_negated(f, h, (n - 1) as nat);
        assert(h(n - 1) == -f(n - 1));
    }
}

/// What is left of a coalition's entries.
spec fn end_term<N: Amount>(
    val: spec_fn(N) -> real,
    g: spec_fn(u64) -> Result<N, AttributionError>,
    n: nat,
    m: int,
) -> real {
    if m == 0 {
        -worth_at(val, g, 0)
    } else if m == power2::pow2(n) - 1 {
        worth_at(val, g, m)
    } else {
        0 as real
    }
}

proof fn lemma_end_term<N: Amount>(
    val: spec_fn(N) -> real,
    g: spec_fn(u64) -> Result<N, AttributionError>,
    n: nat,
    m: int,
)
    requires
        is_exact(val),
        1 <= n <= 63,
        0 <= m < power2::pow2(n),
    ensures
        coalition::size(m as u64, n) as real * given(val, g, n)(m) - (n as real - coalition::size(
            m as u64,
            n,
        ) as real) * (weight_at(val, n, coalition::size(m as u64, n) as int) * worth_at(val, g, m))
            == end_term(val, g, n, m),
{
    power2::lemma2_to64();
    power2::lemma_pow2_strictly_increases(n, 64);
    power2::lemma_pow2_strictly_increases(0, n);
    lemma_extreme_sizes(m as u64, n);
    let s = coalition::size(m as u64, n);
    lemma_balance(val, n, s);
    let u = worth_at(val, g, m);
    let wl = weight_at(val, n, s - 1);
    let wr = weight_at(val, n, s as int);
    let a = s as real;
    let c = n as real;
    real_regroups(a, wl, u);
    real_regroups(c - a, wr, u);
    real_units(u);
    if s == 0 {
        real_units(wl * u);
        assert(c - a == c);
    } else if s == n {
        real_units(wr * u);
        assert(c - a == 0 as real);
    }
}

proof fn lemma_ends<N: Amount>(
    val: spec_fn(N) -> real,
    g: spec_fn(u64) -> Result<N, AttributionError>,
    n: nat,
    rows: nat,
)
    requires
        1 <= n,
        rows <= power2::pow2(n),
    ensures
        sum(|m: int| end_term(val, g, n, m), rows) == (if rows == 0 {
            0 as real
        } else {
            -worth_at(val, g, 0)
        }) + (if rows == power2::pow2(n) {
            worth_at(val, g, power2::pow2(n) - 1)
        } else {
            0 as real
        }),
    decreases rows,
{
    power2::lemma2_to64();
    power2::lemma_pow2_strictly_increases(0, n);
    if rows > 0 {
        lemma_ends(val, g, n, (rows - 1) as nat);
    }
}

/// Coalitions of players below `n` stay below `2^n`.
proof fn lemma_member_bound(mask: u64, i: int, n: nat)
    requires
        0 <= i < n <= 64,
        mask < power2::pow2(n),
    ensures
        coalition::with_member(mask, i) < power2::pow2(n),
{
    power2::lemma2_to64();
    let joined = coalition::with_member(mask, i);
    if n < 64 {
        let a = i as u64;
        let b = n as u64;
        vstd::bits::lemma_u64_shr_is_div(mask, b);
        vstd::bits::lemma_u64_shr_is_div(joined, b);
        power2::lemma_pow2_pos(n);
        let p = power2::pow2(n) as int;
        div_mod::lemma_basic_div(mask as int, p);
        assert((mask | (1u64 << a)) >> b == 0) by (bit_vector)
            requires
                mask >> b == 0,
                a < b,
                b < 64,
        ;
        div_mod::lemma_fundamental_div_mod(joined as int, p);
        div_mod::lemma_mod_pos_bound(joined as int, p);
        assert(p * 0 == 0);
    }
}

/// A player is among the first of an order exactly if the order names it.
proof fn lemma_along_members(order: Seq<usize>, k: nat, n: nat, i: int)
    requires
        n <= 64,
        k <= order.len(),
        0 <= i < n,
        forall|j: int| 0 <= j < k ==> #[trigger] order[j] < n,
    ensures
        orders::along(order, k) < power2::pow2(n),
        coalition::member(orders::along(order, k), i) <==> exists|j: int|
            0 <= j < k && #[trigger] order[j] == i,
    decreases k,
{
    power2::lemma_pow2_pos(n);
    if k == 0 {
        coalition::lemma_one_player(0, i, i);
    } else {
        lemma_along_members(order, (k - 1) as nat, n, i);
        let before = orders::along(order, (k - 1) as nat);
        lemma_member_bound(before, order[k - 1] as int, n);
        coalition::lemma_one_player(before, order[k - 1] as int, i);
        if coalition::member(before, i) {
            let j = choose|j: int| 0 <= j < k - 1 && #[trigger] order[j] == i;
            assert(0 <= j < k && order[j] == i);
        }
        if exists|j: int| 0 <= j < k && #[trigger] order[j] == i {
            let j = choose|j: int| 0 <= j < k && #[trigger] order[j] == i;
            if j < k - 1 {
                assert(0 <= j < k - 1 && order[j] == i);
            }
        }
    }
}

/// An order that holds each of `n` players once ends at the coalition of all.
pub proof fn law_full_order_reaches_everyone(order: Seq<usize>, n: nat)
    requires
        n <= 64,
        orders::arranges(order, n),
    ensures
        orders::along(order, n) == power2::pow2(n) - 1,
{
    power2::lemma2_to64();
    power2::lemma_pow2_pos(n);
    if n < 64 {
        power2::lemma_pow2_strictly_increases(n, 64);
    }
    let full = (power2::pow2(n) - 1) as u64;
    let reached = orders::along(order, n);
    assert forall|i: int| 0 <= i < n implies #[trigger] coalition::member(reached, i)
        == coalition::member(full, i) by {
        lemma_along_members(order, n, n, i);
        lemma_full_members(full, n, i);
        lemma_onto(order, n, i);
    }
    if n > 0 {
        lemma_along_members(order, n, n, 0);
    }
    lemma_same_members(reached, full, n);
}

/// An arrangement of the numbers below `n` holds every one of them.
proof fn lemma_onto(order: Seq<usize>, n: nat, i: int)
    requires
        orders::arranges(order, n),
        0 <= i < n,
    ensures
        exists|j: int| 0 <= j < n && #[trigger] order[j] == i,
{
    let numbers = order.map_values(|x: usize| x as int);
    assert(numbers.no_duplicates()) by {
        assert forall|a: int, b: int|
            0 <= a < numbers.len() && 0 <= b < numbers.len() && a != b implies numbers[a]
            != numbers[b] by {
            assert(order[a] != order[b]);
        }
    }
    numbers.unique_seq_to_set();
    let all = vstd::set_lib::set_int_range(0, n as int);
    vstd::set_lib::lemma_int_range(0, n as int);
    assert(numbers.to_set().subset_of(all)) by {
        assert forall|x: int| numbers.to_set().contains(x) implies all.contains(x) by {
            let a = choose|a: int| 0 <= a < numbers.len() && numbers[a] == x;
            assert(order[a] < n);
        }
    }
    vstd::set_lib::lemma_subset_equality(numbers.to_set(), all);
    assert(numbers.to_set().contains(i));
    let j = choose|j: int| 0 <= j < numbers.len() && numbers[j] == i;
    assert(order[j] == i);
}

/// Replacing one entry changes a sum by the difference.
proof fn lemma_sum_update<N>(val: spec_fn(N) -> real, s: Seq<N>, p: int, x: N, n: nat)
    requires
        0 <= p < s.len(),
        n <= s.len(),
    ensures
        sum(|i: int| val(s.update(p, x)[i]), n) == sum(|i: int| val(s[i]), n) + if p < n {
            val(x) - val(s[p])
        } else {
            0 as real
        },
    decreases n,
{
    if n > 0 {
        lemma_sum_update(val, s, p, x, (n - 1) as nat);
    }
}

/// Marginals sum to the same, by player or along the order.
proof fn lemma_marginal_sums<N: Amount>(
    val: spec_fn(N) -> real,
    g: spec_fn(u64) -> Result<N, AttributionError>,
    order: Seq<usize>,
    n: nat,
    k: nat,
)
    requires
        is_additive(val),
        orders::arranges(order, n),
        k <= n,
    ensures
        orders::marginals(g, order, k).len() == n,
        forall|j: int|
            k <= j < n ==> orders::marginals(g, order, k)[#[trigger] order[j] as int] == N::nil(),
        sum(|i: int| val(orders::marginals(g, order, k)[i]), n) == sum(
            |j: int| val(orders::marginal(g, order, j)),
            k,
        ),
    decreases k,
{
    if k == 0 {
        lemma_zeros(|i: int| val(orders::marginals(g, order, k)[i]), n);
    } else {
        lemma_marginal_sums(val, g, order, n, (k - 1) as nat);
        let before = orders::marginals(g, order, (k - 1) as nat);
        let p = order[k - 1] as int;
        lemma_sum_update(val, before, p, orders::marginal(g, order, k - 1), n);
        assert(before[order[k - 1] as int] == N::nil());
        assert forall|j: int| k <= j < n implies orders::marginals(g, order, k)[#[trigger] order[
            j
        ] as int] == N::nil() by {
            assert(order[j] != order[k - 1]);
        }
    }
}

pub proof fn lemma_scaled(c: real, f: spec_fn(int) -> real, h: spec_fn(int) -> real, n: nat)
    requires
        forall|i: int| 0 <= i < n ==> #[trigger] h(i) * c == f(i),
    ensures
        sum(h, n) * c == sum(f, n),
    decreases n,
{
    if n > 0 {
        lemma_scaled(c, f, h, (n - 1) as nat);
        assert(h(n - 1) * c == f(n - 1));
        real_distributes(c, sum(h, (n - 1) as nat), h(n - 1));
    } else {
        real_units(c);
    }
}

/// Sampled Shapley values are efficient after every completed order.
pub proof fn law_sampled_shapley_is_efficient<N: Amount>(
    val: spec_fn(N) -> real,
    g: spec_fn(u64) -> Result<N, AttributionError>,
    seed: u64,
    n: nat,
    c: nat,
)
    requires
        is_exact(val),
        1 <= n <= 64,
        c >= 1,
    ensures
        sum(|i: int| val(shapley::running(g, seed, n, i, c).0), n) == worth_at(
            val,
            g,
            power2::pow2(n) - 1,
        ) - worth_at(val, g, 0),
    decreases c,
{
    let order = orders::drawn_order(seed, n, (c - 1) as nat);
    orders::law_drawn_orders_are_permutations(seed, n, (c - 1) as nat);
    law_full_order_reaches_everyone(order, n);
    lemma_marginal_sums(val, g, order, n, n);
    law_sequential_allocation_is_efficient(val, g, order, n);
    let target = worth_at(val, g, power2::pow2(n) - 1) - worth_at(val, g, 0);
    let sample = orders::marginals(g, order, n);
    let xs = |i: int| val(sample[i]);
    let before = |i: int| val(shapley::running(g, seed, n, i, (c - 1) as nat).0);
    let after = |i: int| val(shapley::running(g, seed, n, i, c).0);
    let steps = |i: int|
        val(
            sample[i].minus(shapley::running(g, seed, n, i, (c - 1) as nat).0).over(N::counted(c)),
        );
    let gaps = |i: int| xs(i) - before(i);
    let count = c as real;
    assert(val(N::counted(c)) == count);
    assert forall|i: int| 0 <= i < n implies #[trigger] after(i) == before(i) + steps(i) by {}
    lemma_sum_of_sums(before, steps, after, n);
    assert forall|i: int| 0 <= i < n implies #[trigger] steps(i) * count == gaps(i) by {}
    lemma_scaled(count, gaps, steps, n);
    let negative = |i: int| -before(i);
    lemma_negated(before, negative, n);
    lemma_sum_of_sums(xs, negative, gaps, n);
    assert(sum(xs, n) == target);
    let moved = sum(steps, n);
    if c == 1 {
        lemma_zeros(before, n);
        real_units(moved);
    } else {
        law_sampled_shapley_is_efficient(val, g, seed, n, (c - 1) as nat);
        assert(sum(before, n) == target);
        assert(moved * count == 0 as real);
        real_units(count);
        real_cancels(moved, 0 as real, count);
    }
}

/// What an exact or a sampled estimate reports is efficient.
pub proof fn law_estimates_are_efficient<N: Amount>(
    val: spec_fn(N) -> real,
    estimate: shapley::ShapleyEstimate<N>,
    players: Seq<crate::ids::ComponentId>,
    config: crate::query::attribution::ShapleyConfig,
    g: spec_fn(u64) -> Result<N, AttributionError>,
    ctx: ExecutionContext,
)
    requires
        is_exact(val),
        shapley::refusal(players.len() as usize, config) is None,
        players.len() <= usize::MAX,
        shapley::is_estimate(estimate, players, config, g, ctx),
    ensures
        sum(|i: int| val(estimate.values@[i]), players.len()) == worth_at(
            val,
            g,
            power2::pow2(players.len()) - 1,
        ) - worth_at(val, g, 0),
{
    let n = players.len();
    let reported = |i: int| val(estimate.values@[i]);
    if config.mode is Exact {
        law_exact_shapley_is_efficient(val, g, n);
        lemma_sum_same(reported, |i: int| val(shapley::shapley_values(g, n)[i]), n);
    } else {
        let c = estimate.budget.samples as nat;
        law_sampled_shapley_is_efficient(val, g, config.seed, n, c);
        lemma_sum_same(
            reported,
            |i: int| val(shapley::running(g, config.seed, n, i, c).0),
            n,
        );
    }
}

/// What an allocation along an order that holds each of the players once reports is
/// efficient.
pub proof fn law_full_sequences_are_efficient<N: Amount>(
    val: spec_fn(N) -> real,
    estimate: shapley::ShapleyEstimate<N>,
    order: Seq<crate::ids::ComponentId>,
    at: spec_fn(crate::ids::ComponentId) -> Option<usize>,
    g: spec_fn(u64) -> Result<N, AttributionError>,
    meter: payoff::MeterState<N>,
)
    requires
        is_additive(val),
        order.len() <= 64,
        orders::arranges(sequential::seats(order, at), order.len()),
        sequential::is_sequence_estimate(estimate, order, at, g, meter),
    ensures
        sum(|k: int| val(estimate.values@[k]), order.len()) == worth_at(
            val,
            g,
            power2::pow2(order.len()) - 1,
        ) - worth_at(val, g, 0),
{
    let n = order.len();
    let seated = sequential::seats(order, at);
    law_sequential_allocation_is_efficient(val, g, seated, n);
    law_full_order_reaches_everyone(seated, n);
    lemma_sum_same(
        |k: int| val(estimate.values@[k]),
        |j: int| val(orders::marginal(g, seated, j)),
        n,
    );
}

} // verus!
