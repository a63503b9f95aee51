//! What shares, their errors and the walks behind them amount to.
//!
//! Where a law is about numbers, it is about exact arithmetic: a valuation reads the numbers of
//! a computation as real numbers.
//!
//! SPDX-License-Identifier: MIT OR Apache-2.0

use crate::attribution::allocation;
use crate::attribution::amount::Amount;
use crate::attribution::coalition;
use crate::attribution::efficiency;
use crate::attribution::error::AttributionError;
use crate::attribution::moments;
use crate::attribution::orders;
use crate::attribution::payoff;
use crate::attribution::payoff::MeterState;
use crate::attribution::result::PathContribution;
use crate::attribution::sequential;
use crate::attribution::shapley;
use crate::attribution::shapley::ShapleyEstimate;
use crate::attribution::units;
use crate::ids::ComponentId;
use crate::query::attribution::ShapleyConfig;
use vstd::arithmetic::power2;
use vstd::prelude::*;

verus! {

/// Number of orders of `k` things.
pub open spec fn orders_of(k: nat) -> nat
    decreases k,
{
    if k == 0 {
        1
    } else {
        k * orders_of((k - 1) as nat)
    }
}

proof fn lemma_factorial<N: Amount>(val: spec_fn(N) -> real, k: nat)
    requires
        efficiency::is_exact(val),
    ensures
        val(shapley::factorial::<N>(k)) == orders_of(k) as real,
        orders_of(k) > 0,
    decreases k,
{
    if k > 0 {
        lemma_factorial(val, (k - 1) as nat);
        let before = orders_of((k - 1) as nat);
        let f = shapley::factorial::<N>((k - 1) as nat);
        assert(val(f.times(N::counted(k))) == val(f) * val(N::counted(k)));
        assert(val(N::counted(k)) == k as real);
        lemma_real_product(before, k);
        assert(k * before > 0) by (nonlinear_arith)
            requires
                k > 0,
                before > 0,
        ;
        assert(k * before == before * k) by (nonlinear_arith);
    }
}

proof fn lemma_real_product(a: nat, b: nat)
    ensures
        (a * b) as real == (a as real) * (b as real),
    decreases b,
{
    if b == 0 {
        assert(a * b == 0) by (nonlinear_arith)
            requires
                b == 0,
        ;
        efficiency::real_units(a as real);
        efficiency::real_regroups(a as real, 0 as real, 0 as real);
    } else {
        let c = (b - 1) as nat;
        lemma_real_product(a, c);
        assert(a * b == a * c + a) by (nonlinear_arith)
            requires
                b == c + 1,
        ;
        efficiency::real_distributes(a as real, c as real, 1 as real);
        efficiency::real_units(a as real);
        assert(b as real == c as real + 1 as real);
    }
}

/// A coalition of `s` others weighs as much of all orders of `n` players as have exactly these
/// `s` before a given player.
pub proof fn law_weights_count_orders<N: Amount>(val: spec_fn(N) -> real, n: nat, s: nat)
    requires
        efficiency::is_exact(val),
        s < n,
    ensures
        val(shapley::weight::<N>(n, s)) * (orders_of(n) as real) == (orders_of(s) as real) * (
        orders_of((n - s - 1) as nat) as real),
{
    lemma_factorial(val, n);
    lemma_factorial(val, s);
    lemma_factorial(val, (n - s - 1) as nat);
    let top = shapley::factorial::<N>(s).times(shapley::factorial::<N>((n - s - 1) as nat));
    let bottom = shapley::factorial::<N>(n);
    assert(val(top.over(bottom)) * val(bottom) == val(top));
}

/// What a player adds to the coalition with a number, weighted; nothing to one it is in.
pub open spec fn weighted_gain<N: Amount>(
    val: spec_fn(N) -> real,
    g: spec_fn(u64) -> Result<N, AttributionError>,
    n: nat,
    i: int,
    m: int,
) -> real {
    if (m as u64) & (1u64 << (i as u64)) != 0 {
        0 as real
    } else {
        val(shapley::weight::<N>(n, coalition::size(m as u64, n))) * (val(
            g((m as u64) | (1u64 << (i as u64)))->Ok_0,
        ) - val(g(m as u64)->Ok_0))
    }
}

proof fn lemma_share<N: Amount>(
    val: spec_fn(N) -> real,
    g: spec_fn(u64) -> Result<N, AttributionError>,
    n: nat,
    i: int,
    rows: nat,
)
    requires
        efficiency::is_exact(val),
    ensures
        val(shapley::share(g, n, i, rows)) == efficiency::sum(
            |m: int| weighted_gain(val, g, n, i, m),
            rows,
        ),
    decreases rows,
{
    if rows > 0 {
        lemma_share(val, g, n, i, (rows - 1) as nat);
        let mask = (rows - 1) as u64;
        let gain = payoff::worth_of(g, coalition::with_member(mask, i)).minus(
            payoff::worth_of(g, mask),
        );
        let w = shapley::weight::<N>(n, coalition::size(mask, n));
        assert(val(w.times(gain)) == val(w) * val(gain));
        assert(coalition::member(mask, i) == (mask & (1u64 << (i as u64)) != 0));
    }
}

/// A Shapley value is the weighted sum, over all coalitions without the player, of what the
/// player adds to them.
pub proof fn law_shapley_values_weigh_what_players_add<N: Amount>(
    val: spec_fn(N) -> real,
    g: spec_fn(u64) -> Result<N, AttributionError>,
    n: nat,
    i: int,
)
    requires
        efficiency::is_exact(val),
        0 <= i < n,
    ensures
        shapley::shapley_values(g, n).len() == n,
        val(shapley::shapley_values(g, n)[i]) == efficiency::sum(
            |m: int| weighted_gain(val, g, n, i, m),
            power2::pow2(n),
        ),
{
    lemma_share(val, g, n, i, power2::pow2(n));
}

/// Size of a coalition is the number of its members.
pub proof fn law_sizes_count_members(mask: u64, n: nat)
    requires
        n <= 64,
    ensures
        coalition::size(mask, n) == Set::new(
            |i: int| 0 <= i < n && mask & (1u64 << (i as u64)) != 0,
        ).len(),
        Set::new(|i: int| 0 <= i < n && mask & (1u64 << (i as u64)) != 0).finite(),
    decreases n,
{
    let members = Set::new(|i: int| 0 <= i < n && mask & (1u64 << (i as u64)) != 0);
    if n == 0 {
        assert(members =~= Set::empty());
    } else {
        law_sizes_count_members(mask, (n - 1) as nat);
        let before = Set::new(|i: int| 0 <= i < n - 1 && mask & (1u64 << (i as u64)) != 0);
        if coalition::member(mask, n - 1) {
            assert(members =~= before.insert(n - 1));
        } else {
            assert(members =~= before);
        }
    }
}

/// The standard error of a mean of `n` draws, squared and times `n (n - 1)`, is the sum of
/// squared distances from it; one draw leaves the error without bound.
pub proof fn law_errors_of_means<N: Amount>(val: spec_fn(N) -> real, squares: N, n: nat)
    requires
        efficiency::is_exact(val),
        moments::is_ordered(val),
        units::reads_roots(val),
        val(squares) >= 0 as real,
    ensures
        n < 2 ==> shapley::stderr_of_mean(squares, N::counted(n)) == N::unbounded(),
        n >= 2 ==> ({
            let se = val(shapley::stderr_of_mean(squares, N::counted(n)));
            se >= 0 as real && (se * se) * ((n as real) * ((n - 1) as real)) == val(squares)
        }),
{
    let ns = N::counted(n);
    let two = N::counted(2);
    assert(val(ns) == n as real);
    assert(val(two) == 2 as real);
    assert(ns.below(two) == (val(ns) < val(two)));
    if n >= 2 {
        let one = N::counted(1);
        assert(val(one) == 1 as real);
        let degrees = ns.times(ns.minus(one));
        assert(val(ns.minus(one)) == n as real - 1 as real);
        assert(val(degrees) == (n as real) * ((n - 1) as real));
        assert((n as real) * ((n - 1) as real) > 0 as real) by (nonlinear_arith)
            requires
                n as real >= 2 as real,
                (n - 1) as real >= 1 as real,
        ;
        let ratio = squares.over(degrees);
        assert(val(ratio) * val(degrees) == val(squares));
        assert(val(ratio) >= 0 as real) by {
            if val(ratio) < 0 as real {
                efficiency::real_orders(val(ratio), 0 as real, val(degrees));
                efficiency::real_units(val(degrees));
            }
        }
        assert(val(ratio.root()) * val(ratio.root()) == val(ratio));
    }
}

/// A reported interval is centred on the share and reaches the critical value times the
/// standard error to either side; without a standard error there is none.
pub proof fn law_share_intervals_are_centred<N: Amount>(
    val: spec_fn(N) -> real,
    component: ComponentId,
    share: N,
    stderr: N,
    critical: N,
)
    requires
        efficiency::is_exact(val),
    ensures
        ({
            let with = shapley::contribution_of(component, share, Some(stderr), critical);
            let without = shapley::contribution_of(component, share, None, critical);
            &&& with.component == component
            &&& with.contribution == share
            &&& with.stderr == Some(stderr)
            &&& with.ci_low matches Some(low)
            &&& with.ci_high matches Some(high)
            &&& val(share) - val(low) == val(critical) * val(stderr)
            &&& val(high) - val(share) == val(critical) * val(stderr)
            &&& without.component == component
            &&& without.contribution == share
            &&& without.stderr is None
            &&& without.ci_low is None
            &&& without.ci_high is None
        }),
{
    assert(val(critical.times(stderr)) == val(critical) * val(stderr));
}

/// Shares are given to the players of an estimate in their order, each with its own value and
/// its own error.
pub proof fn law_shares_are_the_players_own<N: Amount>(
    shares: Seq<crate::attribution::result::ComponentContribution<N>>,
    estimate: ShapleyEstimate<N>,
    critical: N,
    i: int,
)
    requires
        shapley::is_shared(shares, estimate, critical),
        estimate.players@.len() == estimate.values@.len(),
        0 <= i < shares.len(),
    ensures
        shares.len() == estimate.players@.len(),
        shares[i].component == estimate.players@[i],
        shares[i].contribution == estimate.values@[i],
        estimate.component_mc_stderr is None ==> shares[i].stderr is None,
        estimate.component_mc_stderr matches Some(errors) ==> (i < errors@.len()
            ==> shares[i].stderr == Some(errors@[i])),
{
}

/// Exact values are refused for more players than the limit, unless it is overridden, and no
/// values are estimated for more players than a coalition can hold.
pub proof fn law_sizes_are_limited(n: usize, config: ShapleyConfig)
    ensures
        shapley::size_refusal(n, config) is None <==> {
            &&& n <= 64
            &&& config.mode is Exact ==> n <= 63 && (n <= config.max_exact_components
                || config.allow_exact_override)
        },
        n == 0 ==> shapley::refusal(n, config) is Some,
        shapley::refusal(n, config) is None ==> shapley::size_refusal(n, config) is None
            && config.refusal() is None,
{
}

/// The first coalition without a worth stops a walk with its error, and nothing else does.
pub proof fn law_walks_stop_at_the_first_failure<N>(
    g: spec_fn(u64) -> Result<N, AttributionError>,
    masks: Seq<u64>,
)
    ensures
        payoff::first_failure(g, masks) is None <==> forall|k: int|
            0 <= k < masks.len() ==> g(#[trigger] masks[k]) is Ok,
        payoff::first_failure(g, masks) is Some ==> exists|k: int|
            {
                &&& 0 <= k < masks.len()
                &&& g(#[trigger] masks[k]) == Err::<N, AttributionError>(
                    payoff::first_failure(g, masks)->0,
                )
                &&& forall|j: int| 0 <= j < k ==> g(#[trigger] masks[j]) is Ok
            },
    decreases masks.len(),
{
    if masks.len() > 0 {
        let rest = masks.drop_last();
        law_walks_stop_at_the_first_failure(g, rest);
        let last = masks.len() - 1;
        if payoff::first_failure(g, rest) is Some {
            let k = choose|k: int|
                {
                    &&& 0 <= k < rest.len()
                    &&& g(#[trigger] rest[k]) == Err::<N, AttributionError>(
                        payoff::first_failure(g, rest)->0,
                    )
                    &&& forall|j: int| 0 <= j < k ==> g(#[trigger] rest[j]) is Ok
                };
            assert(masks[k] == rest[k]);
            assert forall|j: int| 0 <= j < k implies g(#[trigger] masks[j]) is Ok by {
                assert(g(rest[j]) is Ok);
            }
            assert(g(masks[k]) is Err);
        } else {
            assert forall|j: int| 0 <= j < last implies g(#[trigger] masks[j]) is Ok by {
                assert(g(rest[j]) is Ok);
            }
            match g(masks[last]) {
                Ok(_) => {
                    assert forall|j: int| 0 <= j < masks.len() implies g(
                        #[trigger] masks[j],
                    ) is Ok by {}
                },
                Err(error) => {
                    assert(g(masks[last]) == Err::<N, AttributionError>(error));
                },
            }
        }
    }
}

proof fn lemma_row_starts(mask: u64, i: nat)
    ensures
        shapley::row_visits(mask, i).len() > 0,
        shapley::row_visits(mask, i)[0] == mask,
    decreases i,
{
    if i > 0 {
        lemma_row_starts(mask, (i - 1) as nat);
    }
}

proof fn lemma_visits_cover(n: nat, rows: nat, m: nat)
    requires
        m < rows,
    ensures
        shapley::exact_visits(n, rows).contains(m as u64),
    decreases rows,
{
    let before = shapley::exact_visits(n, (rows - 1) as nat);
    let row = shapley::row_visits((rows - 1) as u64, n);
    let all = shapley::exact_visits(n, rows);
    if m == rows - 1 {
        lemma_row_starts(m as u64, n);
        assert(all[before.len() as int] == m as u64);
    } else {
        lemma_visits_cover(n, (rows - 1) as nat, m);
        let k = choose|k: int| 0 <= k < before.len() && before[k] == m as u64;
        assert(all[k] == m as u64);
    }
}

/// Exact values ask for the worth of every coalition, so that they exist only where every
/// coalition has one.
pub proof fn law_exact_values_ask_for_every_coalition<N>(
    g: spec_fn(u64) -> Result<N, AttributionError>,
    n: nat,
    mask: u64,
)
    requires
        payoff::first_failure(g, shapley::exact_visits(n, power2::pow2(n))) is None,
        mask < power2::pow2(n),
    ensures
        g(mask) is Ok,
{
    let visits = shapley::exact_visits(n, power2::pow2(n));
    lemma_visits_cover(n, power2::pow2(n), mask as nat);
    law_walks_stop_at_the_first_failure(g, visits);
    let k = choose|k: int| 0 <= k < visits.len() && visits[k] == mask;
    assert(g(visits[k]) is Ok);
}

/// The coalition reached after some steps of an order holds exactly the players of those steps.
pub proof fn law_walks_gather_the_players_passed(order: Seq<usize>, k: nat, i: int)
    requires
        k <= order.len(),
        forall|j: int| 0 <= j < order.len() ==> #[trigger] order[j] < 64,
        0 <= i < 64,
    ensures
        coalition::member(orders::along(order, k), i) <==> exists|j: int|
            0 <= j < k && #[trigger] order[j] == i,
    decreases k,
{
    if k == 0 {
        coalition::lemma_one_player(0, i, i);
    } else {
        law_walks_gather_the_players_passed(order, (k - 1) as nat, i);
        assert(order[k - 1] < 64);
        coalition::lemma_one_player(
            orders::along(order, (k - 1) as nat),
            order[k - 1] as int,
            i,
        );
        if order[k - 1] == i {
            assert(order[k - 1] == i);
        }
    }
}

proof fn lemma_marginals<N: Amount>(
    g: spec_fn(u64) -> Result<N, AttributionError>,
    order: Seq<usize>,
    n: nat,
    k: int,
)
    requires
        orders::arranges(order, order.len()),
        0 <= k < n <= order.len(),
    ensures
        orders::marginals(g, order, n).len() == order.len(),
        orders::marginals(g, order, n)[order[k] as int] == orders::marginal(g, order, k),
    decreases n,
{
    let before = orders::marginals(g, order, (n - 1) as nat);
    lemma_marginals_length(g, order, (n - 1) as nat);
    assert(order[n - 1] < order.len());
    if k < n - 1 {
        lemma_marginals(g, order, (n - 1) as nat, k);
        assert(order[k] != order[n - 1]);
        assert(order[k] < order.len());
    }
}

proof fn lemma_marginals_length<N: Amount>(
    g: spec_fn(u64) -> Result<N, AttributionError>,
    order: Seq<usize>,
    n: nat,
)
    requires
        orders::arranges(order, order.len()),
        n <= order.len(),
    ensures
        orders::marginals(g, order, n).len() == order.len(),
    decreases n,
{
    if n > 0 {
        lemma_marginals_length(g, order, (n - 1) as nat);
        assert(order[n - 1] < order.len());
    }
}

/// Along an order a player is credited with what its arrival adds to those before it.
pub proof fn law_arrivals_are_credited<N: Amount>(
    val: spec_fn(N) -> real,
    g: spec_fn(u64) -> Result<N, AttributionError>,
    order: Seq<usize>,
    k: int,
)
    requires
        efficiency::is_exact(val),
        orders::arranges(order, order.len()),
        0 <= k < order.len(),
    ensures
        val(orders::marginals(g, order, order.len())[order[k] as int]) == val(
            g(orders::along(order, k as nat) | (1u64 << (order[k] as u64)))->Ok_0,
        ) - val(g(orders::along(order, k as nat))->Ok_0),
{
    lemma_marginals(g, order, order.len(), k);
    assert(orders::along(order, (k + 1) as nat) == coalition::with_member(
        orders::along(order, k as nat),
        order[k] as int,
    ));
}

proof fn lemma_skipped(seats: Seq<usize>, k: int)
    requires
        0 < k <= seats.len() <= 64,
        forall|j: int| 0 <= j < seats.len() ==> #[trigger] seats[j] < 64,
        seats.no_duplicates(),
    ensures
        sequential::skipped(seats, k) == orders::along(seats, (k - 1) as nat),
{
    let reached = orders::along(seats, (k - 1) as nat);
    let last = seats[k - 1] as int;
    assert(seats[k - 1] < 64);
    law_walks_gather_the_players_passed(seats, (k - 1) as nat, last);
    assert(!coalition::member(reached, last)) by {
        assert forall|j: int| 0 <= j < k - 1 implies #[trigger] seats[j] != last by {}
    }
    assert(orders::along(seats, k as nat) == coalition::with_member(reached, last));
    let a = last as u64;
    let p = 1u64 << a;
    assert((reached | p) & !p == reached) by (bit_vector)
        requires
            reached & p == 0,
    ;
}

/// The interaction of two neighbours of a sequence is what both together add to those before
/// them beyond what each adds alone.
pub proof fn law_interactions_are_second_differences<N: Amount>(
    val: spec_fn(N) -> real,
    g: spec_fn(u64) -> Result<N, AttributionError>,
    estimate: ShapleyEstimate<N>,
    order: Seq<ComponentId>,
    at: spec_fn(ComponentId) -> Option<usize>,
    meter: MeterState<N>,
    k: int,
)
    requires
        efficiency::is_exact(val),
        sequential::is_sequence_estimate(estimate, order, at, g, meter),
        0 <= k < order.len() - 1,
        order.len() <= 64,
        sequential::seats(order, at).no_duplicates(),
        forall|j: int|
            0 <= j < order.len() ==> #[trigger] sequential::seats(order, at)[j] < 64,
    ensures
        ({
            let seats = sequential::seats(order, at);
            let before = orders::along(seats, k as nat);
            let one = 1u64 << (seats[k] as u64);
            let two = 1u64 << (seats[k + 1] as u64);
            &&& estimate.interactions@.len() == order.len() - 1
            &&& estimate.interactions@[k].a == order[k]
            &&& estimate.interactions@[k].b == order[k + 1]
            &&& val(estimate.interactions@[k].value) == val(g((before | one) | two)->Ok_0) - val(
                g(before | one)->Ok_0,
            ) - val(g(before | two)->Ok_0) + val(g(before)->Ok_0)
        }),
{
    let seats = sequential::seats(order, at);
    lemma_skipped(seats, k + 1);
    let before = orders::along(seats, k as nat);
    assert(orders::along(seats, (k + 1) as nat) == coalition::with_member(
        before,
        seats[k] as int,
    ));
    assert(orders::along(seats, (k + 2) as nat) == coalition::with_member(
        orders::along(seats, (k + 1) as nat),
        seats[k + 1] as int,
    ));
}

/// A sequence credits each component, in the order given, with what it adds to those before it.
pub proof fn law_sequences_credit_arrivals<N: Amount>(
    val: spec_fn(N) -> real,
    g: spec_fn(u64) -> Result<N, AttributionError>,
    estimate: ShapleyEstimate<N>,
    order: Seq<ComponentId>,
    at: spec_fn(ComponentId) -> Option<usize>,
    meter: MeterState<N>,
    k: int,
    seat: usize,
)
    requires
        efficiency::is_exact(val),
        sequential::is_sequence_estimate(estimate, order, at, g, meter),
        0 <= k < order.len(),
        at(order[k]) == Some(seat),
    ensures
        estimate.players@ == order,
        val(estimate.values@[k]) == val(
            g(
                orders::along(sequential::seats(order, at), k as nat) | (1u64 << (seat as u64)),
            )->Ok_0,
        ) - val(g(orders::along(sequential::seats(order, at), k as nat))->Ok_0),
{
    let seats = sequential::seats(order, at);
    assert(seats[k] == seat);
    assert(orders::along(seats, (k + 1) as nat) == coalition::with_member(
        orders::along(seats, k as nat),
        seat as int,
    ));
}

/// Alone, a player is credited with what it adds to nobody.
pub proof fn law_lone_players_are_credited<N: Amount>(
    val: spec_fn(N) -> real,
    g: spec_fn(u64) -> Result<N, AttributionError>,
    n: nat,
    i: int,
)
    requires
        efficiency::is_exact(val),
        0 <= i < n <= 64,
    ensures
        allocation::all_alone(g, n).len() == n,
        val(allocation::all_alone(g, n)[i]) == val(g(1u64 << (i as u64))->Ok_0) - val(g(0)->Ok_0),
{
    let p = 1u64 << (i as u64);
    assert(0u64 | p == p) by (bit_vector);
}

/// Shares are scaled by the change over their sum, and left as they are where both are
/// negligible; shares that cancel out, and numbers without bound, cannot be scaled.
pub proof fn law_shares_are_scaled_to_the_change<N: Amount>(
    val: spec_fn(N) -> real,
    raw: N,
    change: N,
)
    requires
        efficiency::is_exact(val),
        val(raw) != 0 as real || raw.negligible(),
    ensures
        allocation::efficiency_scale(raw, change) is Ok <==> raw.bounded() && change.bounded() && (
        !raw.negligible() || change.negligible()),
        allocation::efficiency_scale(raw, change) matches Ok(Some(scale)) ==> !raw.negligible()
            && val(scale) * val(raw) == val(change),
        allocation::efficiency_scale(raw, change) matches Ok(None) ==> raw.negligible()
            && change.negligible(),
{
    if !raw.negligible() {
        assert(val(change.over(raw)) * val(raw) == val(change));
    }
}

/// A path carries of a player's share the part that its strength is of all strengths, and all
/// paths carry the same where the strengths are negligible.
pub proof fn law_paths_carry_their_part<N: Amount>(
    val: spec_fn(N) -> real,
    share: N,
    paths: Seq<PathContribution<N>>,
    j: int,
)
    requires
        efficiency::is_exact(val),
        0 <= j < paths.len(),
        !shapley::total(allocation::strengths(paths)).negligible() ==> val(
            shapley::total(allocation::strengths(paths)),
        ) != 0 as real,
    ensures
        allocation::split(share, paths).len() == paths.len(),
        allocation::split(share, paths)[j].path == paths[j].path@,
        !shapley::total(allocation::strengths(paths)).negligible() ==> val(
            allocation::split(share, paths)[j].contribution,
        ) * val(shapley::total(allocation::strengths(paths))) == val(share) * val(
            paths[j].contribution,
        ),
        shapley::total(allocation::strengths(paths)).negligible() ==> val(
            allocation::split(share, paths)[j].contribution,
        ) * (paths.len() as real) == val(share),
{
    let strength = shapley::total(allocation::strengths(paths));
    let own = paths[j].contribution;
    let part = allocation::fraction(paths, j);
    let carried = share.times(part);
    assert(val(carried) == val(share) * val(part));
    if !strength.negligible() {
        assert(val(own.over(strength)) * val(strength) == val(own));
        efficiency::real_regroups(val(share), val(part), val(strength));
    } else {
        let one = N::counted(1);
        let count = N::counted(paths.len());
        assert(val(count) == paths.len() as real);
        assert(val(one) == 1 as real);
        assert(val(one.over(count)) * val(count) == val(one));
        efficiency::real_regroups(val(share), val(part), val(count));
        efficiency::real_units(val(share));
    }
}

} // verus!
