//! What shares owe to single players.
//!
//! Like efficiency, the laws are about exact arithmetic: a valuation reads the numbers of a
//! computation as real numbers.
//!
//! SPDX-License-Identifier: MIT OR Apache-2.0

use crate::attribution::allocation;
use crate::attribution::amount::Amount;
use crate::attribution::coalition;
use crate::attribution::efficiency;
use crate::attribution::error::AttributionError;
use crate::attribution::orders;
use crate::attribution::payoff;
use crate::attribution::result::PathContribution;
use crate::attribution::sequential;
use crate::attribution::shapley;
use vstd::arithmetic::power2;
use vstd::prelude::*;

verus! {

/// Player `i` adds `w` to every coalition of `n` players that lacks it.
pub open spec fn always_adds<N: Amount>(
    val: spec_fn(N) -> real,
    g: spec_fn(u64) -> Result<N, AttributionError>,
    i: int,
    w: real,
) -> bool {
    forall|mask: u64|
        !#[trigger] coalition::member(mask, i) ==> val(
            payoff::worth_of(g, coalition::with_member(mask, i)),
        ) - val(payoff::worth_of(g, mask)) == w
}

/// The game in which only player `i` counts.
spec fn dictator<N: Amount>(i: int) -> spec_fn(u64) -> Result<N, AttributionError> {
    |mask: u64|
        Ok(
            if coalition::member(mask, i) {
                N::counted(1)
            } else {
                N::nil()
            },
        )
}

proof fn lemma_proportional<N: Amount>(
    val: spec_fn(N) -> real,
    g: spec_fn(u64) -> Result<N, AttributionError>,
    n: nat,
    i: int,
    w: real,
    rows: nat,
)
    requires
        efficiency::is_exact(val),
        0 <= i < 64,
        always_adds(val, g, i, w),
    ensures
        val(shapley::share(g, n, i, rows)) == w * val(
            shapley::share(dictator::<N>(i), n, i, rows),
        ),
    decreases rows,
{
    let h = dictator::<N>(i);
    if rows == 0 {
        efficiency::real_units(w);
        efficiency::real_regroups(w, 0 as real, 0 as real);
    } else {
        lemma_proportional(val, g, n, i, w, (rows - 1) as nat);
        let mask = (rows - 1) as u64;
        if !coalition::member(mask, i) {
            let joined = coalition::with_member(mask, i);
            coalition::lemma_one_player(mask, i, i);
            let before = val(shapley::share(h, n, i, (rows - 1) as nat));
            let weight = val(shapley::weight::<N>(n, coalition::size(mask, n)));
            assert(payoff::worth_of(h, joined) == N::counted(1));
            assert(payoff::worth_of(h, mask) == N::nil());
            assert(val(N::counted(1)) == 1 as real);
            efficiency::real_units(weight);
            efficiency::real_distributes(w, before, weight);
            efficiency::real_regroups(weight, w, w);
        }
    }
}

proof fn lemma_others_get_nothing<N: Amount>(
    val: spec_fn(N) -> real,
    n: nat,
    i: int,
    j: int,
    rows: nat,
)
    requires
        efficiency::is_exact(val),
        0 <= i < 64,
        0 <= j < 64,
        i != j,
    ensures
        val(shapley::share(dictator::<N>(i), n, j, rows)) == 0 as real,
    decreases rows,
{
    let h = dictator::<N>(i);
    if rows > 0 {
        lemma_others_get_nothing(val, n, i, j, (rows - 1) as nat);
        let mask = (rows - 1) as u64;
        if !coalition::member(mask, j) {
            let joined = coalition::with_member(mask, j);
            coalition::lemma_one_player(mask, j, i);
            assert(payoff::worth_of(h, joined) == payoff::worth_of(h, mask));
            let weight = val(shapley::weight::<N>(n, coalition::size(mask, n)));
            efficiency::real_units(weight);
            efficiency::real_regroups(weight, 0 as real, 0 as real);
        }
    }
}

proof fn lemma_single_term(f: spec_fn(int) -> real, n: nat, i: int)
    requires
        0 <= i < n,
        forall|j: int| 0 <= j < n && j != i ==> #[trigger] f(j) == 0 as real,
    ensures
        efficiency::sum(f, n) == f(i),
    decreases n,
{
    if i == n - 1 {
        efficiency::lemma_zeros(f, (n - 1) as nat);
    } else {
        lemma_single_term(f, (n - 1) as nat, i);
        assert(f(n - 1) == 0 as real);
    }
}

/// A player that adds the same to every coalition has exactly that as its Shapley value. One
/// that adds nothing gets nothing, and additive games are recovered.
pub proof fn law_steady_players_get_what_they_add<N: Amount>(
    val: spec_fn(N) -> real,
    g: spec_fn(u64) -> Result<N, AttributionError>,
    n: nat,
    i: int,
    w: real,
)
    requires
        efficiency::is_exact(val),
        0 <= i < n <= 63,
        always_adds(val, g, i, w),
    ensures
        val(shapley::shapley_values(g, n)[i]) == w,
{
    let h = dictator::<N>(i);
    let rows = power2::pow2(n);
    lemma_proportional(val, g, n, i, w, rows);
    let shares = |j: int| val(shapley::shapley_values(h, n)[j]);
    assert forall|j: int| 0 <= j < n && j != i implies #[trigger] shares(j) == 0 as real by {
        lemma_others_get_nothing(val, n, i, j, rows);
    }
    lemma_single_term(shares, n, i);
    efficiency::law_exact_shapley_is_efficient(val, h, n);
    power2::lemma2_to64();
    power2::lemma_pow2_pos(n);
    power2::lemma_pow2_strictly_increases(n, 64);
    let full = (rows - 1) as u64;
    efficiency::lemma_full_members(full, n, i);
    coalition::lemma_one_player(0, i, i);
    assert(payoff::worth_of(h, full) == N::counted(1));
    assert(payoff::worth_of(h, 0) == N::nil());
    assert(val(N::counted(1)) == 1 as real);
    assert(shares(i) == 1 as real);
    efficiency::real_units(w);
}

proof fn lemma_not_yet(seats: Seq<usize>, k: nat, p: int)
    requires
        0 <= p < 64,
        k <= seats.len(),
        forall|j: int| 0 <= j < k ==> #[trigger] seats[j] != p && seats[j] < 64,
    ensures
        !coalition::member(orders::along(seats, k), p),
    decreases k,
{
    if k == 0 {
        coalition::lemma_one_player(0, p, p);
    } else {
        lemma_not_yet(seats, (k - 1) as nat, p);
        coalition::lemma_one_player(
            orders::along(seats, (k - 1) as nat),
            seats[k - 1] as int,
            p,
        );
    }
}

/// A player that adds the same to every coalition does not interact with the one before it.
pub proof fn law_steady_players_do_not_interact<N: Amount>(
    val: spec_fn(N) -> real,
    g: spec_fn(u64) -> Result<N, AttributionError>,
    seats: Seq<usize>,
    k: int,
    w: real,
)
    requires
        efficiency::is_additive(val),
        0 < k < seats.len(),
        forall|j: int| 0 <= j < seats.len() ==> #[trigger] seats[j] < 64,
        forall|j: int| 0 <= j < k ==> #[trigger] seats[j] != seats[k],
        always_adds(val, g, seats[k] as int, w),
    ensures
        val(sequential::interaction(g, seats, k)) == 0 as real,
{
    let p = seats[k] as int;
    let reached = orders::along(seats, k as nat);
    lemma_not_yet(seats, k as nat, p);
    assert(orders::along(seats, (k + 1) as nat) == coalition::with_member(reached, p));
    let other = sequential::skipped(seats, k);
    coalition::lemma_one_player(reached, seats[k - 1] as int, p);
    assert(!coalition::member(other, p));
}

pub proof fn lemma_total_is_sum<N: Amount>(val: spec_fn(N) -> real, list: Seq<N>)
    requires
        efficiency::is_additive(val),
    ensures
        val(shapley::total(list)) == efficiency::sum(|i: int| val(list[i]), list.len()),
    decreases list.len(),
{
    if list.len() > 0 {
        lemma_total_is_sum(val, list.drop_last());
        efficiency::lemma_sum_same(
            |i: int| val(list.drop_last()[i]),
            |i: int| val(list[i]),
            (list.len() - 1) as nat,
        );
    }
}

/// Shares scaled to a change sum to it.
pub proof fn law_scaled_shares_are_efficient<N: Amount>(
    val: spec_fn(N) -> real,
    raw: Seq<N>,
    total_change: N,
    scale: N,
)
    requires
        efficiency::is_exact(val),
        allocation::efficiency_scale(shapley::total(raw), total_change) == Ok::<
            Option<N>,
            AttributionError,
        >(Some(scale)),
        val(shapley::total(raw)) != 0 as real,
    ensures
        efficiency::sum(|i: int| val(allocation::scaled(raw[i], Some(scale))), raw.len()) == val(
            total_change,
        ),
{
    let all = shapley::total(raw);
    let factor = val(scale);
    lemma_total_is_sum(val, raw);
    let plain = |i: int| val(raw[i]);
    let shares = |i: int| val(allocation::scaled(raw[i], Some(scale)));
    assert forall|i: int| 0 <= i < raw.len() implies #[trigger] plain(i) * factor == shares(
        i,
    ) by {}
    efficiency::lemma_scaled(factor, shares, plain, raw.len());
    assert(val(total_change.over(all)) * val(all) == val(total_change));
    efficiency::real_regroups(factor, val(all), 0 as real);
}

/// What flows along a player's paths sums to the player's share.
pub proof fn law_path_shares_add_up<N: Amount>(
    val: spec_fn(N) -> real,
    share: N,
    paths: Seq<PathContribution<N>>,
)
    requires
        efficiency::is_exact(val),
        paths.len() > 0,
        !shapley::total(allocation::strengths(paths)).negligible() ==> val(
            shapley::total(allocation::strengths(paths)),
        ) != 0 as real,
    ensures
        efficiency::sum(
            |j: int| val(allocation::split(share, paths)[j].contribution),
            paths.len(),
        ) == val(share),
{
    let n = paths.len();
    let strengths = allocation::strengths(paths);
    let strength = shapley::total(strengths);
    let fractions = |j: int| val(allocation::fraction(paths, j));
    let flows = |j: int| val(allocation::split(share, paths)[j].contribution);
    let s = val(share);
    assert forall|j: int| 0 <= j < n implies #[trigger] fractions(j) * s == flows(j) by {
        efficiency::real_regroups(s, fractions(j), 0 as real);
    }
    efficiency::lemma_scaled(s, flows, fractions, n);
    if !strength.negligible() {
        lemma_total_is_sum(val, strengths);
        let parts = |j: int| val(strengths[j]);
        assert forall|j: int| 0 <= j < n implies #[trigger] fractions(j) * val(strength)
            == parts(j) by {}
        efficiency::lemma_scaled(val(strength), parts, fractions, n);
        lemma_quotient_of_itself(efficiency::sum(fractions, n), val(strength));
    } else {
        let ones = |j: int| 1 as real;
        let count = val(N::counted(n));
        assert(count == n as real);
        assert(val(N::counted(1)) == 1 as real);
        assert forall|j: int| 0 <= j < n implies #[trigger] fractions(j) * count == ones(j) by {
            assert(count != 0 as real);
            assert(val(N::counted(1).over(N::counted(n))) * count == 1 as real);
        }
        efficiency::lemma_scaled(count, ones, fractions, n);
        lemma_ones(n);
        lemma_quotient_of_itself(efficiency::sum(fractions, n), count);
    }
    efficiency::real_units(s);
}

proof fn lemma_quotient_of_itself(a: real, b: real)
    requires
        a * b == b,
        b != 0 as real,
    ensures
        a == 1 as real,
{
    efficiency::real_units(b);
    if b > 0 as real {
        efficiency::real_cancels(a, 1 as real, b);
    } else {
        efficiency::real_distributes(a, 0 as real, b);
        efficiency::real_distributes(1 as real, 0 as real, b);
        efficiency::real_units(a);
        efficiency::real_regroups(a, 0 as real, 0 as real);
        assert(a * (0 as real - b) == 0 as real - b);
        efficiency::real_units(0 as real - b);
        efficiency::real_cancels(a, 1 as real, 0 as real - b);
    }
}

proof fn lemma_ones(n: nat)
    ensures
        efficiency::sum(|j: int| 1 as real, n) == n as real,
    decreases n,
{
    if n > 0 {
        lemma_ones((n - 1) as nat);
    }
}

} // verus!
