//! Exact and sampled Shapley values, and sequential allocation.
//!
//! SPDX-License-Identifier: MIT OR Apache-2.0

use crate::attribution::amount::Amount;
use crate::attribution::coalition;
use crate::attribution::error::AttributionError;
use crate::attribution::orders;
use crate::attribution::payoff;
use crate::attribution::payoff::{CoalitionPayoff, Meter, MeterState};
use crate::attribution::result::{
    CacheStats, ComponentContribution, ComputeBudget, InteractionTerm,
};
use crate::execution::{CausalRng, ExecutionContext};
use crate::ids::ComponentId;
use crate::query::attribution::{ShapleyConfig, ShapleyMode};
use vstd::arithmetic::power2;
use vstd::prelude::*;

verus! {

/// Shapley values, or marginals along an order.
#[derive(Clone, Debug, PartialEq)]
pub struct ShapleyEstimate<N> {
    /// Players.
    pub players: Vec<ComponentId>,
    /// Value of each player.
    pub values: Vec<N>,
    /// Interactions along a sequential order; none otherwise.
    pub interactions: Vec<InteractionTerm<N>>,
    /// Work spent.
    pub budget: ComputeBudget,
    /// Mean Monte Carlo standard error over players, where values were sampled.
    pub monte_carlo_stderr: Option<N>,
    /// Monte Carlo standard error of each player, where values were sampled.
    pub component_mc_stderr: Option<Vec<N>>,
    /// Use of the cache.
    pub cache_stats: CacheStats,
}

/// Standard error reported for player `i`.
pub open spec fn reported<N>(stderrs: Option<Seq<N>>, i: int) -> Option<N> {
    match stderrs {
        Some(list) => if i < list.len() {
            Some(list[i])
        } else {
            None
        },
        None => None,
    }
}

/// Share of one player with an interval of `critical` standard errors to each side.
pub open spec fn contribution_of<N: Amount>(
    component: ComponentId,
    contribution: N,
    stderr: Option<N>,
    critical: N,
) -> ComponentContribution<N> {
    ComponentContribution {
        component,
        contribution,
        stderr,
        ci_low: match stderr {
            Some(se) => Some(contribution.minus(critical.times(se))),
            None => None,
        },
        ci_high: match stderr {
            Some(se) => Some(contribution.plus(critical.times(se))),
            None => None,
        },
    }
}

/// Shares of an estimate: one per player that has a value.
pub open spec fn is_shared<N: Amount>(
    shares: Seq<ComponentContribution<N>>,
    estimate: ShapleyEstimate<N>,
    critical: N,
) -> bool {
    &&& shares.len() == if estimate.players@.len() <= estimate.values@.len() {
        estimate.players@.len()
    } else {
        estimate.values@.len()
    }
    &&& forall|i: int|
        #![trigger shares[i]]
        0 <= i < shares.len() ==> shares[i] == contribution_of(
            estimate.players@[i],
            estimate.values@[i],
            reported(listed(estimate.component_mc_stderr), i),
            critical,
        )
}

/// A list that may be absent, as a sequence.
pub open spec fn listed<N>(list: Option<Vec<N>>) -> Option<Seq<N>> {
    match list {
        Some(list) => Some(list@),
        None => None,
    }
}

impl<N: Amount> ShapleyEstimate<N> {
    /// Degrees of freedom of the intervals: one less than the number of samples.
    #[must_use]
    pub fn degrees_of_freedom(&self) -> (df: u64)
        ensures
            df == if self.budget.samples == 0 {
                0
            } else {
                (self.budget.samples - 1) as u64
            },
    {
        self.budget.samples.saturating_sub(1)
    }

    /// Shares with intervals of `critical` standard errors to each side: the Student-t
    /// quantile at [`Self::degrees_of_freedom`]. Where no standard error is reported there
    /// is no interval.
    #[must_use]
    pub fn contributions(&self, critical: N) -> (shares: Vec<ComponentContribution<N>>)
        ensures
            is_shared(shares@, *self, critical),
    {
        let mut shares: Vec<ComponentContribution<N>> = Vec::new();
        let mut i: usize = 0;
        while i < self.players.len() && i < self.values.len()
            invariant
                0 <= i <= self.players.len(),
                i <= self.values.len(),
                shares@.len() == i,
                forall|k: int|
                    #![trigger shares@[k]]
                    0 <= k < i ==> shares@[k] == contribution_of(
                        self.players@[k],
                        self.values@[k],
                        reported(listed(self.component_mc_stderr), k),
                        critical,
                    ),
            decreases self.players.len() - i,
        {
            let stderr: Option<N> = match &self.component_mc_stderr {
                Some(list) => if i < list.len() {
                    Some(list[i])
                } else {
                    None
                },
                None => None,
            };
            let contribution = self.values[i];
            let (ci_low, ci_high) = match stderr {
                Some(se) => (
                    Some(contribution.difference(critical.product(se))),
                    Some(contribution.sum(critical.product(se))),
                ),
                None => (None, None),
            };
            shares.push(
                ComponentContribution {
                    component: self.players[i],
                    contribution,
                    stderr,
                    ci_low,
                    ci_high,
                },
            );
            i = i + 1;
        }
        shares
    }

    /// [`Self::contributions`] of an estimate that is not needed any more.
    #[must_use]
    pub fn into_contributions(self, critical: N) -> (shares: Vec<ComponentContribution<N>>)
        ensures
            is_shared(shares@, self, critical),
    {
        self.contributions(critical)
    }
}

/// Why a game is refused for its size: more players than bits in a mask, more than can be
/// enumerated, or more than the configuration enumerates.
pub open spec fn size_refusal(n_components: usize, config: ShapleyConfig) -> Option<
    AttributionError,
> {
    if n_components > 64 {
        Some(AttributionError::ExactShapleyRejected { n_components, max: 64 })
    } else if config.mode is Exact && n_components == 64 {
        Some(
            AttributionError::SizeLimit {
                kind: "exact Shapley components",
                requested: n_components,
                max: 63,
            },
        )
    } else if config.mode is Exact && n_components > config.max_exact_components
        && !config.allow_exact_override {
        Some(
            AttributionError::ExactShapleyRejected {
                n_components,
                max: config.max_exact_components,
            },
        )
    } else {
        None
    }
}

/// Enforce size limits: a game of more players than a mask has bits, or an exact one above
/// its limit without override, is rejected.
pub fn check_shapley_size(n_components: usize, config: &ShapleyConfig) -> (r: Result<
    (),
    AttributionError,
>)
    ensures
        r == match size_refusal(n_components, *config) {
            Some(error) => Err(error),
            None => Ok(()),
        },
{
    let exact = matches!(config.mode, ShapleyMode::Exact);
    if n_components > 64 {
        return Err(AttributionError::ExactShapleyRejected { n_components, max: 64 });
    }
    if exact && n_components >= 64 {
        return Err(
            AttributionError::SizeLimit {
                kind: "exact Shapley components",
                requested: n_components,
                max: 63,
            },
        );
    }
    if exact && n_components > config.max_exact_components && !config.allow_exact_override {
        return Err(
            AttributionError::ExactShapleyRejected {
                n_components,
                max: config.max_exact_components,
            },
        );
    }
    Ok(())
}

/// Factorial of `k`.
pub open spec fn factorial<N: Amount>(k: nat) -> N
    decreases k,
{
    if k == 0 {
        N::counted(1)
    } else {
        factorial::<N>((k - 1) as nat).times(N::counted(k))
    }
}

/// Weight of a marginal on a coalition of `s` out of `n` players: `s! (n - s - 1)! / n!`.
pub open spec fn weight<N: Amount>(n: nat, s: nat) -> N {
    factorial::<N>(s).times(factorial::<N>((n - s - 1) as nat)).over(factorial::<N>(n))
}

/// Weights by size of the coalition.
fn factorial_weights<N: Amount>(n: usize) -> (weights: Vec<N>)
    requires
        n <= 64,
    ensures
        weights@ == Seq::new(n as nat, |s: int| weight::<N>(n as nat, s as nat)),
{
    let mut factorials: Vec<N> = Vec::new();
    factorials.push(N::count(1));
    while factorials.len() <= n
        invariant
            1 <= factorials@.len() <= n + 1,
            n <= 64,
            forall|k: int|
                0 <= k < factorials@.len() ==> #[trigger] factorials@[k] == factorial::<N>(
                    k as nat,
                ),
        decreases n + 1 - factorials.len(),
    {
        let k: usize = factorials.len();
        let next = factorials[k - 1].product(N::count(k as u64));
        factorials.push(next);
    }
    let mut weights: Vec<N> = Vec::new();
    while weights.len() < n
        invariant
            weights@.len() <= n,
            n <= 64,
            factorials@.len() == n + 1,
            forall|k: int|
                0 <= k < factorials@.len() ==> #[trigger] factorials@[k] == factorial::<N>(
                    k as nat,
                ),
            weights@ == Seq::new(weights@.len(), |s: int| weight::<N>(n as nat, s as nat)),
        decreases n - weights.len(),
    {
        let s: usize = weights.len();
        let next = factorials[s].product(factorials[n - s - 1]).quotient(factorials[n]);
        weights.push(next);
        assert(weights@ =~= Seq::new(weights@.len(), |s: int| weight::<N>(n as nat, s as nat)));
    }
    weights
}

/// Coalitions evaluated while the first `i` players are added to `mask` one at a time.
pub open spec fn row_visits(mask: u64, i: nat) -> Seq<u64>
    decreases i,
{
    if i == 0 {
        seq![mask]
    } else if coalition::member(mask, i - 1) {
        row_visits(mask, (i - 1) as nat)
    } else {
        row_visits(mask, (i - 1) as nat).push(coalition::with_member(mask, i - 1))
    }
}

/// Coalitions evaluated while the first `rows` coalitions of `n` players are enumerated.
pub open spec fn exact_visits(n: nat, rows: nat) -> Seq<u64>
    decreases rows,
{
    if rows == 0 {
        Seq::empty()
    } else {
        exact_visits(n, (rows - 1) as nat) + row_visits((rows - 1) as u64, n)
    }
}

/// Weighted marginals of player `i` on the first `rows` coalitions of `n` players, summed
/// in order.
pub open spec fn share<N: Amount>(
    g: spec_fn(u64) -> Result<N, AttributionError>,
    n: nat,
    i: int,
    rows: nat,
) -> N
    decreases rows,
{
    if rows == 0 {
        N::nil()
    } else {
        let mask = (rows - 1) as u64;
        let before = share(g, n, i, (rows - 1) as nat);
        if coalition::member(mask, i) {
            before
        } else {
            before.plus(
                weight::<N>(n, coalition::size(mask, n)).times(
                    payoff::worth_of(g, coalition::with_member(mask, i)).minus(
                        payoff::worth_of(g, mask),
                    ),
                ),
            )
        }
    }
}

/// Shapley values of `n` players.
pub open spec fn shapley_values<N: Amount>(
    g: spec_fn(u64) -> Result<N, AttributionError>,
    n: nat,
) -> Seq<N> {
    Seq::new(n, |i: int| share(g, n, i, power2::pow2(n)))
}

proof fn lemma_row_prefix(mask: u64, i: nat, n: nat)
    requires
        i <= n,
    ensures
        row_visits(mask, i).is_prefix_of(row_visits(mask, n)),
    decreases n,
{
    if i < n {
        lemma_row_prefix(mask, i, (n - 1) as nat);
    }
}

proof fn lemma_exact_prefix(n: nat, a: nat, b: nat)
    requires
        a <= b,
    ensures
        exact_visits(n, a).is_prefix_of(exact_visits(n, b)),
    decreases b,
{
    if a < b {
        lemma_exact_prefix(n, a, (b - 1) as nat);
    }
}

/// Evaluations that come first decide which failure is reported.
proof fn lemma_reported<N>(
    g: spec_fn(u64) -> Result<N, AttributionError>,
    done: Seq<u64>,
    all: Seq<u64>,
)
    requires
        done.is_prefix_of(all),
        payoff::first_failure(g, done) is Some,
    ensures
        payoff::first_failure(g, all) == payoff::first_failure(g, done),
{
    assert(all.take(done.len() as int) =~= done);
    payoff::lemma_failure_in_prefix(g, all, done.len() as int);
}

/// Add the marginals of every player on one coalition to their shares.
fn add_row<N: Amount, P: CoalitionPayoff<N>>(
    shares: &mut Vec<N>,
    weights: &Vec<N>,
    mask: u64,
    payoff: &mut P,
    meter: &mut Meter<N>,
) -> (r: Result<(), AttributionError>)
    requires
        old(shares)@.len() == weights@.len(),
        weights@.len() <= 63,
        weights@ == Seq::new(
            weights@.len(),
            |s: int| weight::<N>(weights@.len(), s as nat),
        ),
        mask < power2::pow2(weights@.len()),
        old(payoff).ready(),
        old(meter)@.agrees(payoff::game(*old(payoff))),
        forall|i: int|
            0 <= i < weights@.len() ==> #[trigger] old(shares)@[i] == share(
                payoff::game(*old(payoff)),
                weights@.len(),
                i,
                mask as nat,
            ),
    ensures
        final(payoff).ready(),
        payoff::game(*final(payoff)) == payoff::game(*old(payoff)),
        final(meter)@.agrees(payoff::game(*old(payoff))),
        match r {
            Ok(_) => {
                &&& payoff::first_failure(
                    payoff::game(*old(payoff)),
                    row_visits(mask, weights@.len()),
                ) is None
                &&& final(shares)@.len() == weights@.len()
                &&& forall|i: int|
                    0 <= i < weights@.len() ==> #[trigger] final(shares)@[i] == share(
                        payoff::game(*old(payoff)),
                        weights@.len(),
                        i,
                        (mask + 1) as nat,
                    )
                &&& final(meter)@ == old(meter)@.visited(
                    payoff::game(*old(payoff)),
                    row_visits(mask, weights@.len()),
                )
            },
            Err(error) => payoff::first_failure(
                payoff::game(*old(payoff)),
                row_visits(mask, weights@.len()),
            ) == Some(error),
        },
{
    let ghost g = payoff::game(*payoff);
    let ghost start = meter@;
    let n: usize = weights.len();
    let own = match meter.evaluate(payoff, mask) {
        Ok(value) => value,
        Err(error) => {
            proof {
                assert(row_visits(mask, 0).drop_last() =~= Seq::empty());
                reveal_with_fuel(payoff::first_failure, 2);
                lemma_row_prefix(mask, 0, n as nat);
                lemma_reported(g, row_visits(mask, 0), row_visits(mask, n as nat));
            }
            return Err(error);
        },
    };
    proof {
        assert(row_visits(mask, 0).drop_last() =~= Seq::empty());
        reveal_with_fuel(MeterState::visited, 2);
        reveal_with_fuel(payoff::first_failure, 2);
    }
    let s: usize = coalition::coalition_size(mask, n);
    let mut i: usize = 0;
    while i < n
        invariant
            0 <= i <= n <= 63,
            n == weights@.len(),
            weights@ == Seq::new(n as nat, |s: int| weight::<N>(n as nat, s as nat)),
            mask < power2::pow2(n as nat),
            payoff.ready(),
            g == payoff::game(*payoff),
            g == payoff::game(*old(payoff)),
            meter@.agrees(g),
            own == payoff::worth_of(g, mask),
            s == coalition::size(mask, n as nat),
            shares@.len() == n,
            payoff::first_failure(g, row_visits(mask, i as nat)) is None,
            meter@ == start.visited(g, row_visits(mask, i as nat)),
            forall|k: int|
                0 <= k < n ==> #[trigger] shares@[k] == share(
                    g,
                    n as nat,
                    k,
                    if k < i {
                        (mask + 1) as nat
                    } else {
                        mask as nat
                    },
                ),
        decreases n - i,
    {
        if !coalition::contains(mask, i) {
            let joined: u64 = coalition::join(mask, i);
            let ghost seen = row_visits(mask, i as nat);
            proof {
                assert(row_visits(mask, (i + 1) as nat) == seen.push(joined));
                assert(seen.push(joined).drop_last() =~= seen);
            }
            let value = match meter.evaluate(payoff, joined) {
                Ok(value) => value,
                Err(error) => {
                    proof {
                        lemma_row_prefix(mask, (i + 1) as nat, n as nat);
                        lemma_reported(
                            g,
                            row_visits(mask, (i + 1) as nat),
                            row_visits(mask, n as nat),
                        );
                    }
                    return Err(error);
                },
            };
            proof {
                lemma_size_below(mask, i as int, n as nat);
            }
            let marginal = value.difference(own);
            let updated = shares[i].sum(weights[s].product(marginal));
            shares.set(i, updated);
        }
        i = i + 1;
    }
    Ok(())
}

/// A coalition that lacks a player has fewer than all players.
proof fn lemma_size_below(mask: u64, i: int, n: nat)
    requires
        0 <= i < n,
        !coalition::member(mask, i),
    ensures
        coalition::size(mask, n) < n,
    decreases n,
{
    lemma_size_at_most(mask, (n - 1) as nat);
    if i < n - 1 {
        lemma_size_below(mask, i, (n - 1) as nat);
    }
}

proof fn lemma_size_at_most(mask: u64, n: nat)
    ensures
        coalition::size(mask, n) <= n,
    decreases n,
{
    if n > 0 {
        lemma_size_at_most(mask, (n - 1) as nat);
    }
}

/// Copy of a list of components.
pub fn copied_components(list: &[ComponentId]) -> (copy: Vec<ComponentId>)
    ensures
        copy@ == list@,
{
    let mut copy: Vec<ComponentId> = Vec::new();
    let mut i: usize = 0;
    while i < list.len()
        invariant
            0 <= i <= list.len(),
            copy@ == list@.take(i as int),
        decreases list.len() - i,
    {
        copy.push(list[i]);
        i = i + 1;
        assert(copy@ =~= list@.take(i as int));
    }
    assert(list@.take(list@.len() as int) =~= list@);
    copy
}

fn zeros<N: Amount>(n: usize) -> (list: Vec<N>)
    ensures
        list@ == Seq::new(n as nat, |i: int| N::nil()),
{
    let mut list: Vec<N> = Vec::new();
    while list.len() < n
        invariant
            list@.len() <= n,
            list@ == Seq::new(list@.len(), |i: int| N::nil()),
        decreases n - list.len(),
    {
        list.push(N::zero());
        assert(list@ =~= Seq::new(list@.len(), |i: int| N::nil()));
    }
    list
}

/// Work stops with an error: the context stops it, or an evaluation fails.
pub open spec fn stops_with(
    error: AttributionError,
    ctx: ExecutionContext,
    failure: Option<AttributionError>,
) -> bool {
    ||| ctx.may_stop() && error is Cancelled
    ||| !ctx.must_stop() && failure == Some(error)
}

/// An exact estimate: every player's Shapley value, and the work of evaluating each
/// coalition and its one-player extensions.
pub open spec fn is_exact_estimate<N: Amount>(
    estimate: ShapleyEstimate<N>,
    players: Seq<ComponentId>,
    g: spec_fn(u64) -> Result<N, AttributionError>,
    meter: MeterState<N>,
) -> bool {
    let n = players.len();
    let spent = meter.visited(g, exact_visits(n, power2::pow2(n)));
    &&& estimate.players@ == players
    &&& estimate.values@ == shapley_values(g, n)
    &&& estimate.interactions@.len() == 0
    &&& estimate.budget == ComputeBudget {
        evaluations: spent.evaluations,
        samples: 0,
        exact_coalitions: power2::pow2(n) as u64,
    }
    &&& estimate.monte_carlo_stderr is None
    &&& estimate.component_mc_stderr is None
    &&& estimate.cache_stats == spent.cache.summary()
}

fn exact_shapley<N: Amount, P: CoalitionPayoff<N>>(
    players: &[ComponentId],
    payoff: &mut P,
    ctx: &ExecutionContext,
) -> (r: Result<ShapleyEstimate<N>, AttributionError>)
    requires
        old(payoff).ready(),
        1 <= players@.len() <= 63,
    ensures
        final(payoff).ready(),
        payoff::game(*final(payoff)) == payoff::game(*old(payoff)),
        match r {
            Ok(estimate) => {
                &&& !ctx.must_stop()
                &&& payoff::first_failure(
                    payoff::game(*old(payoff)),
                    exact_visits(players@.len(), power2::pow2(players@.len())),
                ) is None
                &&& is_exact_estimate(
                    estimate,
                    players@,
                    payoff::game(*old(payoff)),
                    MeterState::fresh(ctx.cache_policy),
                )
            },
            Err(error) => stops_with(
                error,
                *ctx,
                payoff::first_failure(
                    payoff::game(*old(payoff)),
                    exact_visits(players@.len(), power2::pow2(players@.len())),
                ),
            ),
        },
{
    let ghost g = payoff::game(*payoff);
    let n: usize = players.len();
    proof {
        power2::lemma2_to64();
        power2::lemma_pow2_pos(n as nat);
        power2::lemma_pow2_strictly_increases(n as nat, 64);
        vstd::bits::lemma_u64_shl_is_mul(1, n as u64);
    }
    let coalitions: u64 = 1u64 << (n as u64);
    let weights: Vec<N> = factorial_weights(n);
    let mut shares: Vec<N> = zeros(n);
    let mut meter: Meter<N> = Meter::new(ctx.cache_policy);
    let ghost start = meter@;
    let mut mask: u64 = 0;
    while mask < coalitions
        invariant
            0 <= mask <= coalitions,
            coalitions == power2::pow2(n as nat),
            n == players@.len(),
            1 <= n <= 63,
            weights@ == Seq::new(n as nat, |s: int| weight::<N>(n as nat, s as nat)),
            shares@.len() == n,
            payoff.ready(),
            g == payoff::game(*payoff),
            g == payoff::game(*old(payoff)),
            meter@.agrees(g),
            meter@ == start.visited(g, exact_visits(n as nat, mask as nat)),
            payoff::first_failure(g, exact_visits(n as nat, mask as nat)) is None,
            forall|i: int|
                0 <= i < n ==> #[trigger] shares@[i] == share(g, n as nat, i, mask as nat),
            mask > 0 ==> !ctx.must_stop(),
        decreases coalitions - mask,
    {
        if ctx.cancellation.is_cancelled() {
            return Err(AttributionError::Cancelled);
        }
        let ghost done = exact_visits(n as nat, mask as nat);
        let ghost row = row_visits(mask, n as nat);
        let ghost before = meter@;
        proof {
            payoff::lemma_failure_of_sum(g, done, row);
            lemma_visited_sum(start, g, done, row);
            assert(exact_visits(n as nat, (mask + 1) as nat) == done + row);
        }
        match add_row(&mut shares, &weights, mask, payoff, &mut meter) {
            Ok(_) => {},
            Err(error) => {
                proof {
                    lemma_exact_prefix(n as nat, (mask + 1) as nat, coalitions as nat);
                    lemma_reported(g, done + row, exact_visits(n as nat, coalitions as nat));
                }
                return Err(error);
            },
        }
        mask = mask + 1;
    }
    assert(shares@ =~= shapley_values(g, n as nat));
    Ok(
        ShapleyEstimate {
            players: copied_components(players),
            values: shares,
            interactions: Vec::new(),
            budget: ComputeBudget {
                evaluations: meter.evaluations,
                samples: 0,
                exact_coalitions: coalitions,
            },
            monte_carlo_stderr: None,
            component_mc_stderr: None,
            cache_stats: meter.cache.stats(),
        },
    )
}

/// One list of evaluations after another.
proof fn lemma_visited_sum<N>(
    meter: MeterState<N>,
    g: spec_fn(u64) -> Result<N, AttributionError>,
    first: Seq<u64>,
    second: Seq<u64>,
)
    ensures
        meter.visited(g, first + second) == meter.visited(g, first).visited(g, second),
    decreases second.len(),
{
    if second.len() == 0 {
        assert(first + second =~= first);
    } else {
        assert((first + second).drop_last() =~= first + second.drop_last());
        lemma_visited_sum(meter, g, first, second.drop_last());
    }
}

/// Coalitions evaluated along the first `c` random orders.
pub open spec fn sampled_visits(seed: u64, n: nat, c: nat) -> Seq<u64>
    decreases c,
{
    if c == 0 {
        Seq::empty()
    } else {
        sampled_visits(seed, n, (c - 1) as nat) + orders::order_visits(
            orders::drawn_order(seed, n, (c - 1) as nat),
            n,
        )
    }
}

/// Mean of player `i`'s marginals along the first `c` random orders, and the sum of their
/// squared deviations from it, updated one order at a time.
pub open spec fn running<N: Amount>(
    g: spec_fn(u64) -> Result<N, AttributionError>,
    seed: u64,
    n: nat,
    i: int,
    c: nat,
) -> (N, N)
    decreases c,
{
    if c == 0 {
        (N::nil(), N::nil())
    } else {
        let (mean, spread) = running(g, seed, n, i, (c - 1) as nat);
        let x = orders::marginals(g, orders::drawn_order(seed, n, (c - 1) as nat), n)[i];
        let delta = x.minus(mean);
        let moved = mean.plus(delta.over(N::counted(c)));
        (moved, spread.plus(delta.times(x.minus(moved))))
    }
}

/// Standard error of a mean of `ns` draws, from the sum of squared deviations: the sample
/// variance divides by one less than the number of draws, and a single draw has none.
pub open spec fn stderr_of_mean<N: Amount>(m2: N, ns: N) -> N {
    if ns.below(N::counted(2)) {
        N::unbounded()
    } else {
        m2.over(ns.times(ns.minus(N::counted(1)))).root()
    }
}

/// Standard error of a mean, from the sum of squared deviations.
#[must_use]
pub fn mc_stderr_of_mean<N: Amount>(m2: N, ns: N) -> (se: N)
    ensures
        se == stderr_of_mean(m2, ns),
{
    if ns.is_below(N::count(2)) {
        return N::infinity();
    }
    m2.quotient(ns.product(ns.difference(N::count(1)))).square_root()
}

/// Sum of a list, from the left.
pub open spec fn total<N: Amount>(list: Seq<N>) -> N
    decreases list.len(),
{
    if list.len() == 0 {
        N::nil()
    } else {
        total(list.drop_last()).plus(list.last())
    }
}

/// Sum of a list, from the left.
#[must_use]
pub fn sum_of<N: Amount>(list: &[N]) -> (sum: N)
    ensures
        sum == total(list@),
{
    let mut sum = N::zero();
    let mut i: usize = 0;
    assert(list@.take(0) =~= Seq::empty());
    while i < list.len()
        invariant
            0 <= i <= list.len(),
            sum == total(list@.take(i as int)),
        decreases list.len() - i,
    {
        sum = sum.sum(list[i]);
        i = i + 1;
        assert(list@.take(i as int).drop_last() =~= list@.take(i - 1));
    }
    assert(list@.take(list@.len() as int) =~= list@);
    sum
}

/// A sampled estimate after some of at most `n_samples` orders: mean marginals, their
/// standard errors, and the work of walking along those orders.
pub open spec fn is_sampled_estimate<N: Amount>(
    estimate: ShapleyEstimate<N>,
    players: Seq<ComponentId>,
    seed: u64,
    n_samples: usize,
    g: spec_fn(u64) -> Result<N, AttributionError>,
    ctx: ExecutionContext,
) -> bool {
    let n = players.len();
    let c = estimate.budget.samples;
    let spent = MeterState::<N>::fresh(ctx.cache_policy).visited(
        g,
        sampled_visits(seed, n, c as nat),
    );
    let errors = Seq::new(
        n,
        |i: int| stderr_of_mean(running(g, seed, n, i, c as nat).1, N::counted(c as nat)),
    );
    &&& !ctx.must_stop()
    &&& 1 <= c <= n_samples
    &&& !ctx.may_stop() ==> c == n_samples
    &&& payoff::first_failure(g, sampled_visits(seed, n, c as nat)) is None
    &&& estimate.players@ == players
    &&& estimate.values@ == Seq::new(n, |i: int| running(g, seed, n, i, c as nat).0)
    &&& estimate.interactions@.len() == 0
    &&& estimate.budget.evaluations == spent.evaluations
    &&& estimate.budget.exact_coalitions == 0
    &&& estimate.monte_carlo_stderr == Some(total(errors).over(N::counted(n)))
    &&& estimate.component_mc_stderr matches Some(list) && list@ == errors
    &&& estimate.cache_stats == spent.cache.summary()
}

proof fn lemma_sampled_prefix(seed: u64, n: nat, a: nat, b: nat)
    requires
        a <= b,
    ensures
        sampled_visits(seed, n, a).is_prefix_of(sampled_visits(seed, n, b)),
    decreases b,
{
    if a < b {
        lemma_sampled_prefix(seed, n, a, (b - 1) as nat);
    }
}

/// Move every player's running mean and spread by one order's marginals.
fn move_means<N: Amount>(
    means: &mut Vec<N>,
    spreads: &mut Vec<N>,
    sample: &Vec<N>,
    completed: u64,
)
    requires
        old(means)@.len() == sample@.len(),
        old(spreads)@.len() == sample@.len(),
    ensures
        final(means)@.len() == sample@.len(),
        final(spreads)@.len() == sample@.len(),
        forall|i: int|
            #![trigger final(means)@[i]]
            #![trigger final(spreads)@[i]]
            0 <= i < sample@.len() ==> {
                let delta = sample@[i].minus(old(means)@[i]);
                let moved = old(means)@[i].plus(delta.over(N::counted(completed as nat)));
                &&& final(means)@[i] == moved
                &&& final(spreads)@[i] == old(spreads)@[i].plus(
                    delta.times(sample@[i].minus(moved)),
                )
            },
{
    let n: usize = sample.len();
    let count = N::count(completed);
    let mut i: usize = 0;
    while i < n
        invariant
            0 <= i <= n,
            n == sample@.len(),
            count == N::counted(completed as nat),
            means@.len() == n,
            spreads@.len() == n,
            old(means)@.len() == n,
            old(spreads)@.len() == n,
            forall|k: int| i <= k < n ==> #[trigger] means@[k] == old(means)@[k],
            forall|k: int| i <= k < n ==> #[trigger] spreads@[k] == old(spreads)@[k],
            forall|k: int|
                #![trigger means@[k]]
                #![trigger spreads@[k]]
                0 <= k < i ==> {
                    let delta = sample@[k].minus(old(means)@[k]);
                    let moved = old(means)@[k].plus(delta.over(N::counted(completed as nat)));
                    &&& means@[k] == moved
                    &&& spreads@[k] == old(spreads)@[k].plus(
                        delta.times(sample@[k].minus(moved)),
                    )
                },
        decreases n - i,
    {
        let x = sample[i];
        let delta = x.difference(means[i]);
        let moved = means[i].sum(delta.quotient(count));
        means.set(i, moved);
        let widened = spreads[i].sum(delta.product(x.difference(moved)));
        spreads.set(i, widened);
        i = i + 1;
    }
}

fn natural(n: usize) -> (order: Vec<usize>)
    ensures
        order@ == orders::natural_order(n as nat),
{
    let mut order: Vec<usize> = Vec::new();
    while order.len() < n
        invariant
            order@.len() <= n,
            order@ == orders::natural_order(order@.len()),
        decreases n - order.len(),
    {
        order.push(order.len());
        assert(order@ =~= orders::natural_order(order@.len()));
    }
    order
}

fn sampled_shapley<N: Amount, P: CoalitionPayoff<N>>(
    players: &[ComponentId],
    seed: u64,
    n_samples: usize,
    payoff: &mut P,
    ctx: &ExecutionContext,
) -> (r: Result<ShapleyEstimate<N>, AttributionError>)
    requires
        old(payoff).ready(),
        1 <= players@.len() <= 64,
        n_samples >= 1,
    ensures
        final(payoff).ready(),
        payoff::game(*final(payoff)) == payoff::game(*old(payoff)),
        match r {
            Ok(estimate) => is_sampled_estimate(
                estimate,
                players@,
                seed,
                n_samples,
                payoff::game(*old(payoff)),
                *ctx,
            ),
            Err(error) => stops_with(
                error,
                *ctx,
                payoff::first_failure(
                    payoff::game(*old(payoff)),
                    sampled_visits(seed, players@.len(), n_samples as nat),
                ),
            ),
        },
{
    let ghost g = payoff::game(*payoff);
    let n: usize = players.len();
    let mut rng = CausalRng::from_seed(seed);
    let mut means: Vec<N> = zeros(n);
    let mut spreads: Vec<N> = zeros(n);
    let mut meter: Meter<N> = Meter::new(ctx.cache_policy);
    let ghost start = meter@;
    let mut completed: u64 = 0;
    let mut stopped = false;
    while completed < n_samples as u64 && !stopped
        invariant
            0 <= completed <= n_samples,
            n == players@.len(),
            1 <= n <= 64,
            payoff.ready(),
            g == payoff::game(*payoff),
            g == payoff::game(*old(payoff)),
            rng.state == orders::stream_state(seed, n as nat, completed as nat),
            means@ == Seq::new(
                n as nat,
                |i: int| running(g, seed, n as nat, i, completed as nat).0,
            ),
            spreads@ == Seq::new(
                n as nat,
                |i: int| running(g, seed, n as nat, i, completed as nat).1,
            ),
            meter@.agrees(g),
            meter@ == start.visited(g, sampled_visits(seed, n as nat, completed as nat)),
            payoff::first_failure(g, sampled_visits(seed, n as nat, completed as nat)) is None,
            n_samples >= 1,
            completed > 0 ==> !ctx.must_stop(),
            stopped ==> ctx.may_stop(),
        decreases
                n_samples - completed,
                if stopped {
                    0int
                } else {
                    1
                },
    {
        if ctx.cancellation.is_cancelled() {
            stopped = true;
        } else {
            let ghost c = completed as nat;
            let ghost done = sampled_visits(seed, n as nat, c);
            let mut order: Vec<usize> = natural(n);
            orders::shuffle(&mut rng, &mut order);
            let ghost walk = orders::order_visits(order@, n as nat);
            proof {
                orders::law_drawn_orders_are_permutations(seed, n as nat, c);
                assert(order@ == orders::drawn_order(seed, n as nat, c));
                payoff::lemma_failure_of_sum(g, done, walk);
                lemma_visited_sum(start, g, done, walk);
                assert(sampled_visits(seed, n as nat, c + 1) == done + walk);
            }
            let sample = match orders::evaluate_order(&order, payoff, &mut meter) {
                Ok(sample) => sample,
                Err(error) => {
                    proof {
                        lemma_sampled_prefix(seed, n as nat, c + 1, n_samples as nat);
                        lemma_reported(
                            g,
                            done + walk,
                            sampled_visits(seed, n as nat, n_samples as nat),
                        );
                    }
                    return Err(error);
                },
            };
            proof {
                assert(sample@ == orders::marginals(g, order@, n as nat));
                orders::lemma_marginal_of_player(g, order@, n as nat, 0);
            }
            completed = completed + 1;
            move_means(&mut means, &mut spreads, &sample, completed);
            assert(means@ =~= Seq::new(
                n as nat,
                |i: int| running(g, seed, n as nat, i, completed as nat).0,
            ));
            assert(spreads@ =~= Seq::new(
                n as nat,
                |i: int| running(g, seed, n as nat, i, completed as nat).1,
            ));
        }
    }
    if completed == 0 {
        return Err(AttributionError::Cancelled);
    }
    let count = N::count(completed);
    let mut errors: Vec<N> = Vec::new();
    while errors.len() < n
        invariant
            errors@.len() <= n,
            n == players@.len(),
            count == N::counted(completed as nat),
            spreads@ == Seq::new(
                n as nat,
                |i: int| running(g, seed, n as nat, i, completed as nat).1,
            ),
            errors@ == Seq::new(
                errors@.len(),
                |i: int|
                    stderr_of_mean(
                        running(g, seed, n as nat, i, completed as nat).1,
                        N::counted(completed as nat),
                    ),
            ),
        decreases n - errors.len(),
    {
        let se = mc_stderr_of_mean(spreads[errors.len()], count);
        errors.push(se);
        assert(errors@ =~= Seq::new(
            errors@.len(),
            |i: int|
                stderr_of_mean(
                    running(g, seed, n as nat, i, completed as nat).1,
                    N::counted(completed as nat),
                ),
        ));
    }
    let mean_error = sum_of(errors.as_slice()).quotient(N::count(n as u64));
    Ok(
        ShapleyEstimate {
            players: copied_components(players),
            values: means,
            interactions: Vec::new(),
            budget: ComputeBudget {
                evaluations: meter.evaluations,
                samples: completed,
                exact_coalitions: 0,
            },
            monte_carlo_stderr: Some(mean_error),
            component_mc_stderr: Some(errors),
            cache_stats: meter.cache.stats(),
        },
    )
}

/// Why an estimate is refused before a payoff is evaluated.
pub open spec fn refusal(n_players: usize, config: ShapleyConfig) -> Option<AttributionError> {
    if config.refusal() is Some {
        Some(AttributionError::Query(config.refusal()->0))
    } else if n_players == 0 {
        Some(AttributionError::Unsupported { message: "Shapley requires ≥1 player" })
    } else {
        size_refusal(n_players, config)
    }
}

/// Coalitions that a configuration evaluates.
pub open spec fn planned_visits(n: nat, config: ShapleyConfig) -> Seq<u64> {
    match config.mode {
        ShapleyMode::Exact => exact_visits(n, power2::pow2(n)),
        ShapleyMode::MonteCarlo { n_samples } => sampled_visits(config.seed, n, n_samples as nat),
        ShapleyMode::Permutation { n_permutations } => sampled_visits(
            config.seed,
            n,
            n_permutations as nat,
        ),
    }
}

/// An estimate under a configuration.
pub open spec fn is_estimate<N: Amount>(
    estimate: ShapleyEstimate<N>,
    players: Seq<ComponentId>,
    config: ShapleyConfig,
    g: spec_fn(u64) -> Result<N, AttributionError>,
    ctx: ExecutionContext,
) -> bool {
    match config.mode {
        ShapleyMode::Exact => {
            &&& payoff::first_failure(g, planned_visits(players.len(), config)) is None
            &&& !ctx.must_stop()
            &&& is_exact_estimate(estimate, players, g, MeterState::fresh(ctx.cache_policy))
        },
        ShapleyMode::MonteCarlo { n_samples } => is_sampled_estimate(
            estimate,
            players,
            config.seed,
            n_samples,
            g,
            ctx,
        ),
        ShapleyMode::Permutation { n_permutations } => is_sampled_estimate(
            estimate,
            players,
            config.seed,
            n_permutations,
            g,
            ctx,
        ),
    }
}

/// Why an estimate is not made.
pub open spec fn is_not_made<N: Amount>(
    error: AttributionError,
    n_players: nat,
    config: ShapleyConfig,
    g: spec_fn(u64) -> Result<N, AttributionError>,
    ctx: ExecutionContext,
) -> bool {
    match refusal(n_players as usize, config) {
        Some(refused) => error == refused,
        None => stops_with(
            error,
            ctx,
            payoff::first_failure(g, planned_visits(n_players, config)),
        ),
    }
}

/// Shapley values of `players` under `payoff`.
///
/// Payoffs are cached by coalition. Sampled modes report standard errors; a cancelled one
/// reports what it completed. An exact one that is cancelled fails.
pub fn estimate_shapley<N: Amount, P: CoalitionPayoff<N>>(
    players: &[ComponentId],
    config: &ShapleyConfig,
    payoff: &mut P,
    ctx: &ExecutionContext,
) -> (r: Result<ShapleyEstimate<N>, AttributionError>)
    requires
        old(payoff).ready(),
    ensures
        final(payoff).ready(),
        payoff::game(*final(payoff)) == payoff::game(*old(payoff)),
        refusal(players@.len() as usize, *config) is Some ==> *final(payoff) == *old(payoff),
        match r {
            Ok(estimate) => {
                &&& refusal(players@.len() as usize, *config) is None
                &&& is_estimate(
                    estimate,
                    players@,
                    *config,
                    payoff::game(*old(payoff)),
                    *ctx,
                )
            },
            Err(error) => is_not_made(
                error,
                players@.len(),
                *config,
                payoff::game(*old(payoff)),
                *ctx,
            ),
        },
{
    match config.validate() {
        Ok(_) => {},
        Err(error) => {
            return Err(AttributionError::Query(error));
        },
    }
    if players.len() == 0 {
        return Err(AttributionError::unsupported("Shapley requires ≥1 player"));
    }
    match check_shapley_size(players.len(), config) {
        Ok(_) => {},
        Err(error) => {
            return Err(error);
        },
    }
    match config.mode {
        ShapleyMode::Exact => exact_shapley(players, payoff, ctx),
        ShapleyMode::MonteCarlo { n_samples } => sampled_shapley(
            players,
            config.seed,
            n_samples,
            payoff,
            ctx,
        ),
        ShapleyMode::Permutation { n_permutations } => sampled_shapley(
            players,
            config.seed,
            n_permutations,
            payoff,
            ctx,
        ),
    }
}

} // verus!
