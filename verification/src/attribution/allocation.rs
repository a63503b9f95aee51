//! Allocation of a change to components, and packing of the result.
//!
//! SPDX-License-Identifier: MIT OR Apache-2.0

use crate::attribution::amount::Amount;
use crate::attribution::change;
use crate::attribution::change::{CANCELLING_SHARES, FINITE_SHARES_REQUIRED, PATHS_REQUIRED};
use crate::attribution::coalition;
use crate::attribution::engine::Engine;
use crate::attribution::error::AttributionError;
use crate::attribution::payoff;
use crate::attribution::payoff::{CoalitionPayoff, MeterState};
use crate::attribution::result::{
    CacheStats, ChangeAttributionResult, ComponentContribution, ComputeBudget, PathContribution,
};
use crate::attribution::sequential;
use crate::attribution::shapley;
use crate::attribution::shapley::ShapleyEstimate;
use crate::execution::ExecutionContext;
use crate::ids;
use crate::ids::{ComponentId, VariableId};
use crate::query::attribution::AllocationMethod;
use vstd::prelude::*;

verus! {

/// A result that reports an estimate.
pub open spec fn is_packed<N: Amount>(
    result: ChangeAttributionResult<N>,
    outcome: VariableId,
    total_change: N,
    estimate: ShapleyEstimate<N>,
    unidentified: Seq<ComponentId>,
    critical: N,
) -> bool {
    &&& result.outcome == outcome
    &&& result.total_change == total_change
    &&& shapley::is_shared(result.contributions@, estimate, critical)
    &&& result.interactions@ == estimate.interactions@
    &&& result.path_breakdown@.len() == 0
    &&& result.unidentified@ == unidentified
    &&& result.budget == estimate.budget
    &&& result.monte_carlo_stderr == estimate.monte_carlo_stderr
    &&& shapley::listed(result.component_mc_stderr) == shapley::listed(
        estimate.component_mc_stderr,
    )
    &&& result.cache_stats == estimate.cache_stats
    &&& result.graph_sensitivity is None
    &&& result.fit_uncertainty is None
}

/// Degrees of freedom behind an estimate.
pub open spec fn freedom<N>(estimate: ShapleyEstimate<N>) -> u64 {
    if estimate.budget.samples == 0 {
        0
    } else {
        (estimate.budget.samples - 1) as u64
    }
}

/// Report an estimate, with intervals at its own degrees of freedom.
pub fn pack_change_result<N: Amount, E: Engine<N>>(
    outcome: VariableId,
    total_change: N,
    estimate: ShapleyEstimate<N>,
    unidentified: Vec<ComponentId>,
    engine: &E,
) -> (result: ChangeAttributionResult<N>)
    ensures
        is_packed(
            result,
            outcome,
            total_change,
            estimate,
            unidentified@,
            engine.quantile(freedom(estimate)),
        ),
{
    let critical = engine.critical_value(estimate.degrees_of_freedom());
    let contributions = estimate.contributions(critical);
    ChangeAttributionResult {
        outcome,
        total_change,
        contributions,
        interactions: estimate.interactions,
        path_breakdown: Vec::new(),
        unidentified,
        budget: estimate.budget,
        monte_carlo_stderr: estimate.monte_carlo_stderr,
        component_mc_stderr: estimate.component_mc_stderr,
        cache_stats: estimate.cache_stats,
        graph_sensitivity: None,
        fit_uncertainty: None,
    }
}

/// Factor that scales raw shares to the total; none where both vanish. Shares that cancel
/// cannot carry a change.
pub open spec fn efficiency_scale<N: Amount>(raw: N, total_change: N) -> Result<
    Option<N>,
    AttributionError,
> {
    if !raw.bounded() || !total_change.bounded() {
        Err(AttributionError::InvalidInput { message: FINITE_SHARES_REQUIRED })
    } else if raw.negligible() {
        if total_change.negligible() {
            Ok(None)
        } else {
            Err(AttributionError::Unsupported { message: CANCELLING_SHARES })
        }
    } else {
        Ok(Some(total_change.over(raw)))
    }
}

/// Factor that scales raw shares to the total.
pub fn path_efficiency_scale<N: Amount>(raw: N, total_change: N) -> (r: Result<
    Option<N>,
    AttributionError,
>)
    ensures
        r == efficiency_scale(raw, total_change),
{
    if !raw.is_bounded() || !total_change.is_bounded() {
        return Err(AttributionError::invalid_input(FINITE_SHARES_REQUIRED));
    }
    if raw.is_negligible() {
        if total_change.is_negligible() {
            return Ok(None);
        }
        return Err(AttributionError::unsupported(CANCELLING_SHARES));
    }
    Ok(Some(total_change.quotient(raw)))
}

/// Coalitions of nobody and of the first `k` single players.
pub open spec fn single_visits(k: nat) -> Seq<u64> {
    seq![0u64] + Seq::new(k, |i: int| coalition::with_member(0, i))
}

/// What player `i` alone adds.
pub open spec fn alone<N: Amount>(
    g: spec_fn(u64) -> Result<N, AttributionError>,
    i: int,
) -> N {
    payoff::worth_of(g, coalition::with_member(0, i)).minus(payoff::worth_of(g, 0))
}

/// What each of `n` players alone adds.
pub open spec fn all_alone<N: Amount>(
    g: spec_fn(u64) -> Result<N, AttributionError>,
    n: nat,
) -> Seq<N> {
    Seq::new(n, |i: int| alone(g, i))
}

/// A raw share scaled to the total.
pub open spec fn scaled<N: Amount>(raw: N, scale: Option<N>) -> N {
    match scale {
        Some(scale) => raw.times(scale),
        None => raw,
    }
}

/// A path and its share.
#[verifier::ext_equal]
pub struct PathShare<N> {
    /// Variables on the path.
    pub path: Seq<VariableId>,
    /// The share.
    pub contribution: N,
}

impl<N> View for PathContribution<N> {
    type V = PathShare<N>;

    open spec fn view(&self) -> PathShare<N> {
        PathShare { path: self.path@, contribution: self.contribution }
    }
}

/// Strengths of paths.
pub open spec fn strengths<N>(paths: Seq<PathContribution<N>>) -> Seq<N> {
    paths.map_values(|p: PathContribution<N>| p.contribution)
}

/// Fraction of a player's share that flows along one of its paths: by strength, or equally
/// where the strengths cancel.
pub open spec fn fraction<N: Amount>(paths: Seq<PathContribution<N>>, j: int) -> N {
    let strength = shapley::total(strengths(paths));
    if !strength.negligible() {
        paths[j].contribution.over(strength)
    } else {
        N::counted(1).over(N::counted(paths.len()))
    }
}

/// A player's share split over its paths.
pub open spec fn split<N: Amount>(share: N, paths: Seq<PathContribution<N>>) -> Seq<PathShare<N>> {
    Seq::new(
        paths.len(),
        |j: int|
            PathShare { path: paths[j].path@, contribution: share.times(fraction(paths, j)) },
    )
}

/// Shares of the first `k` players split over their paths.
pub open spec fn breakdown<N: Amount>(
    raw: Seq<N>,
    scale: Option<N>,
    player_paths: Seq<Vec<PathContribution<N>>>,
    k: nat,
) -> Seq<PathShare<N>>
    decreases k,
{
    if k == 0 {
        Seq::empty()
    } else {
        breakdown(raw, scale, player_paths, (k - 1) as nat) + split(
            scaled(raw[k - 1], scale),
            player_paths[k - 1]@,
        )
    }
}

/// A count that stops at the end of its range.
pub open spec fn capped(n: int) -> u64 {
    if n > u64::MAX {
        u64::MAX
    } else {
        n as u64
    }
}

/// Shares from single-player marginals, scaled to the total and split over paths.
pub open spec fn is_path_result<N: Amount>(
    result: ChangeAttributionResult<N>,
    outcome: VariableId,
    players: Seq<ComponentId>,
    total_change: N,
    unidentified: Seq<ComponentId>,
    g: spec_fn(u64) -> Result<N, AttributionError>,
    player_paths: Seq<Vec<PathContribution<N>>>,
) -> bool {
    let n = players.len();
    let raw = all_alone(g, n);
    &&& efficiency_scale(shapley::total(raw), total_change) matches Ok(scale) && {
        &&& result.contributions@ == Seq::new(
            n,
            |i: int|
                ComponentContribution {
                    component: players[i],
                    contribution: scaled(raw[i], scale),
                    stderr: None,
                    ci_low: None,
                    ci_high: None,
                },
        )
        &&& result.path_breakdown@.map_values(|p: PathContribution<N>| p@) == breakdown(
            raw,
            scale,
            player_paths,
            n,
        )
    }
    &&& result.outcome == outcome
    &&& result.total_change == total_change
    &&& result.interactions@.len() == 0
    &&& result.unidentified@ == unidentified
    &&& result.budget == ComputeBudget {
        evaluations: capped((n + 1 + result.path_breakdown@.len()) as int),
        samples: 0,
        exact_coalitions: 0,
    }
    &&& result.monte_carlo_stderr is None
    &&& result.component_mc_stderr is None
    &&& result.cache_stats == CacheStats {
        hits: 0,
        misses: 0,
        entries: 0,
        bytes: 0,
        saturated: false,
    }
    &&& result.graph_sensitivity is None
    &&& result.fit_uncertainty is None
}

/// The first failure of a path allocation: a payoff that cannot be evaluated, then shares
/// that cannot be scaled.
pub open spec fn path_failure<N: Amount>(
    g: spec_fn(u64) -> Result<N, AttributionError>,
    n: nat,
    total_change: N,
) -> Option<AttributionError> {
    match payoff::first_failure(g, single_visits(n)) {
        Some(error) => Some(error),
        None => match efficiency_scale(shapley::total(all_alone(g, n)), total_change) {
            Err(error) => Some(error),
            Ok(_) => None,
        },
    }
}

/// Evaluate what each player alone adds.
fn evaluate_alone<N: Amount, P: CoalitionPayoff<N>>(n: usize, payoff: &mut P) -> (r: Result<
    Vec<N>,
    AttributionError,
>)
    requires
        old(payoff).ready(),
        n <= 64,
    ensures
        final(payoff).ready(),
        payoff::game(*final(payoff)) == payoff::game(*old(payoff)),
        match r {
            Ok(raw) => {
                &&& payoff::first_failure(payoff::game(*old(payoff)), single_visits(n as nat)) is None
                &&& raw@ == all_alone(payoff::game(*old(payoff)), n as nat)
            },
            Err(error) => payoff::first_failure(
                payoff::game(*old(payoff)),
                single_visits(n as nat),
            ) == Some(error),
        },
{
    let ghost g = payoff::game(*payoff);
    let ghost all = single_visits(n as nat);
    proof {
        assert(all.take(1) =~= seq![0u64]);
        assert(seq![0u64].drop_last() =~= Seq::empty());
        reveal_with_fuel(payoff::first_failure, 2);
    }
    let empty = payoff.value(0);
    proof {
        assert(payoff::game(*payoff) =~= g);
    }
    let base = match empty {
        Ok(value) => value,
        Err(error) => {
            proof {
                payoff::lemma_failure_in_prefix(g, all, 1);
            }
            return Err(error);
        },
    };
    let mut raw: Vec<N> = Vec::new();
    while raw.len() < n
        invariant
            raw@.len() <= n <= 64,
            payoff.ready(),
            g == payoff::game(*payoff),
            g == payoff::game(*old(payoff)),
            all == single_visits(n as nat),
            base == payoff::worth_of(g, 0),
            raw@ == all_alone(g, raw@.len()),
            payoff::first_failure(g, all.take((raw@.len() + 1) as int)) is None,
        decreases n - raw.len(),
    {
        let i: usize = raw.len();
        let mask: u64 = coalition::join(0, i);
        proof {
            assert(all[i + 1] == mask);
            assert(all.take(i + 2).drop_last() =~= all.take(i + 1));
        }
        let evaluated = payoff.value(mask);
        proof {
            assert(payoff::game(*payoff) =~= g);
        }
        let value = match evaluated {
            Ok(value) => value,
            Err(error) => {
                proof {
                    payoff::lemma_failure_in_prefix(g, all, i + 2);
                }
                return Err(error);
            },
        };
        raw.push(value.difference(base));
        assert(raw@ =~= all_alone(g, raw@.len()));
    }
    assert(all.take(n + 1) =~= all);
    Ok(raw)
}

/// Split one player's share over its paths.
fn split_share<N: Amount>(share: N, paths: &Vec<PathContribution<N>>) -> (shares: Vec<
    PathContribution<N>,
>)
    ensures
        shares@.map_values(|p: PathContribution<N>| p@) == split(share, paths@),
        shares@.len() == paths@.len(),
{
    let mut list: Vec<N> = Vec::new();
    while list.len() < paths.len()
        invariant
            list@.len() <= paths@.len(),
            list@ == strengths(paths@).take(list@.len() as int),
        decreases paths.len() - list.len(),
    {
        list.push(paths[list.len()].contribution);
        assert(list@ =~= strengths(paths@).take(list@.len() as int));
    }
    assert(list@ =~= strengths(paths@));
    let strength = shapley::sum_of(list.as_slice());
    let mut shares: Vec<PathContribution<N>> = Vec::new();
    while shares.len() < paths.len()
        invariant
            shares@.len() <= paths@.len(),
            strength == shapley::total(strengths(paths@)),
            shares@.map_values(|p: PathContribution<N>| p@) == split(share, paths@).take(
                shares@.len() as int,
            ),
        decreases paths.len() - shares.len(),
    {
        let j: usize = shares.len();
        let part = if !strength.is_negligible() {
            paths[j].contribution.quotient(strength)
        } else {
            N::count(1).quotient(N::count(paths.len() as u64))
        };
        let ghost before = shares@;
        let own = PathContribution {
            path: ids::copied_ids(&paths[j].path),
            contribution: share.product(part),
        };
        assert(own@ =~= split(share, paths@)[j as int]);
        shares.push(own);
        assert(shares@.map_values(|p: PathContribution<N>| p@) =~= before.map_values(
            |p: PathContribution<N>| p@,
        ).push(own@));
        assert(shares@.map_values(|p: PathContribution<N>| p@) =~= split(share, paths@).take(
            shares@.len() as int,
        ));
    }
    assert(split(share, paths@).take(paths@.len() as int) =~= split(share, paths@));
    shares
}

/// Share a change by single-player marginals.
///
/// A player whose mechanism does not change adds nothing alone and gets nothing, however
/// strong its paths are. Where marginals do not add up to the change they are scaled to it;
/// paths only split a player's own share.
fn path_based_change_allocation<N: Amount, P: CoalitionPayoff<N>>(
    outcome: VariableId,
    players: &[ComponentId],
    payoff: &mut P,
    total_change: N,
    unidentified: Vec<ComponentId>,
    player_paths: &Vec<Vec<PathContribution<N>>>,
) -> (r: Result<ChangeAttributionResult<N>, AttributionError>)
    requires
        old(payoff).ready(),
        players@.len() <= 64,
        player_paths@.len() == players@.len(),
    ensures
        final(payoff).ready(),
        payoff::game(*final(payoff)) == payoff::game(*old(payoff)),
        match r {
            Ok(result) => {
                &&& path_failure(payoff::game(*old(payoff)), players@.len(), total_change) is None
                &&& is_path_result(
                    result,
                    outcome,
                    players@,
                    total_change,
                    unidentified@,
                    payoff::game(*old(payoff)),
                    player_paths@,
                )
            },
            Err(error) => path_failure(payoff::game(*old(payoff)), players@.len(), total_change)
                == Some(error),
        },
{
    let ghost g = payoff::game(*payoff);
    let n: usize = players.len();
    let raw: Vec<N> = match evaluate_alone(n, payoff) {
        Ok(raw) => raw,
        Err(error) => {
            return Err(error);
        },
    };
    let scale: Option<N> = match path_efficiency_scale(
        shapley::sum_of(raw.as_slice()),
        total_change,
    ) {
        Ok(scale) => scale,
        Err(error) => {
            return Err(error);
        },
    };
    let mut contributions: Vec<ComponentContribution<N>> = Vec::new();
    let mut path_breakdown: Vec<PathContribution<N>> = Vec::new();
    let mut evaluations: u64 = n as u64 + 1;
    let mut i: usize = 0;
    proof {
        assert(path_breakdown@.map_values(|p: PathContribution<N>| p@) =~= Seq::empty());
    }
    while i < n
        invariant
            0 <= i <= n <= 64,
            n == players@.len(),
            player_paths@.len() == n,
            raw@ == all_alone(g, n as nat),
            contributions@ == Seq::new(
                i as nat,
                |k: int|
                    ComponentContribution {
                        component: players@[k],
                        contribution: scaled(raw@[k], scale),
                        stderr: None,
                        ci_low: None,
                        ci_high: None,
                    },
            ),
            path_breakdown@.map_values(|p: PathContribution<N>| p@) == breakdown(
                raw@,
                scale,
                player_paths@,
                i as nat,
            ),
            evaluations == capped(n + 1 + path_breakdown@.len()),
        decreases n - i,
    {
        let contribution = match scale {
            Some(scale) => raw[i].product(scale),
            None => raw[i],
        };
        contributions.push(
            ComponentContribution {
                component: players[i],
                contribution,
                stderr: None,
                ci_low: None,
                ci_high: None,
            },
        );
        assert(contributions@ =~= Seq::new(
            (i + 1) as nat,
            |k: int|
                ComponentContribution {
                    component: players@[k],
                    contribution: scaled(raw@[k], scale),
                    stderr: None,
                    ci_low: None,
                    ci_high: None,
                },
        ));
        let mut shares = split_share(contribution, &player_paths[i]);
        evaluations = evaluations.saturating_add(shares.len() as u64);
        let ghost before = path_breakdown@;
        let ghost added = shares@;
        path_breakdown.append(&mut shares);
        proof {
            assert(path_breakdown@ =~= before + added);
            assert(path_breakdown@.map_values(|p: PathContribution<N>| p@) =~= before.map_values(
                |p: PathContribution<N>| p@,
            ) + added.map_values(|p: PathContribution<N>| p@));
        }
        i = i + 1;
    }
    Ok(
        ChangeAttributionResult {
            outcome,
            total_change,
            contributions,
            interactions: Vec::new(),
            path_breakdown,
            unidentified,
            budget: ComputeBudget { evaluations, samples: 0, exact_coalitions: 0 },
            monte_carlo_stderr: None,
            component_mc_stderr: None,
            cache_stats: CacheStats::unused(),
            graph_sensitivity: None,
            fit_uncertainty: None,
        },
    )
}

/// A result of an allocation.
pub open spec fn is_allocation<N: Amount, E: Engine<N>>(
    result: ChangeAttributionResult<N>,
    outcome: VariableId,
    players: Seq<ComponentId>,
    allocation: AllocationMethod,
    g: spec_fn(u64) -> Result<N, AttributionError>,
    total_change: N,
    unidentified: Seq<ComponentId>,
    ctx: ExecutionContext,
    player_paths: Option<Seq<Vec<PathContribution<N>>>>,
    engine: E,
) -> bool {
    match allocation {
        AllocationMethod::Shapley { approximation } => {
            &&& shapley::refusal(players.len() as usize, approximation) is None
            &&& exists|estimate: ShapleyEstimate<N>|
                {
                    &&& shapley::is_estimate(estimate, players, approximation, g, ctx)
                    &&& #[trigger] is_packed(
                        result,
                        outcome,
                        total_change,
                        estimate,
                        unidentified,
                        engine.quantile(freedom(estimate)),
                    )
                }
        },
        AllocationMethod::Sequential { order } => {
            &&& change::order_refusal(order@, players) is None
            &&& exists|estimate: ShapleyEstimate<N>|
                {
                    &&& sequential::is_sequence_estimate(
                        estimate,
                        order@,
                        sequential::seating(players),
                        g,
                        MeterState::fresh(ctx.cache_policy),
                    )
                    &&& #[trigger] is_packed(
                        result,
                        outcome,
                        total_change,
                        estimate,
                        unidentified,
                        engine.quantile(freedom(estimate)),
                    )
                }
        },
        AllocationMethod::PathBased => player_paths matches Some(paths) && is_path_result(
            result,
            outcome,
            players,
            total_change,
            unidentified,
            g,
            paths,
        ),
    }
}

/// The failure of an allocation, apart from cancellation.
pub open spec fn allocation_failure<N: Amount>(
    players: Seq<ComponentId>,
    allocation: AllocationMethod,
    g: spec_fn(u64) -> Result<N, AttributionError>,
    total_change: N,
    has_paths: bool,
) -> Option<AttributionError> {
    match allocation {
        AllocationMethod::Shapley { approximation } => match shapley::refusal(
            players.len() as usize,
            approximation,
        ) {
            Some(error) => Some(error),
            None => payoff::first_failure(
                g,
                shapley::planned_visits(players.len(), approximation),
            ),
        },
        AllocationMethod::Sequential { order } => match change::order_refusal(order@, players) {
            Some(error) => Some(error),
            None => if order@.len() == 0 {
                Some(AttributionError::InvalidInput { message: "sequential order is empty" })
            } else {
                sequential::sequence_failure(g, order@, sequential::seating(players), order@.len())
            },
        },
        AllocationMethod::PathBased => if !has_paths {
            Some(AttributionError::Unsupported { message: PATHS_REQUIRED })
        } else {
            path_failure(g, players.len(), total_change)
        },
    }
}

/// Why a change is not shared among players. Only a Shapley allocation can be cancelled.
pub open spec fn is_not_allocated<N: Amount>(
    error: AttributionError,
    players: Seq<ComponentId>,
    allocation: AllocationMethod,
    g: spec_fn(u64) -> Result<N, AttributionError>,
    total_change: N,
    has_paths: bool,
    ctx: ExecutionContext,
) -> bool {
    match allocation {
        AllocationMethod::Shapley { approximation } => shapley::is_not_made(
            error,
            players.len(),
            approximation,
            g,
            ctx,
        ),
        _ => allocation_failure(players, allocation, g, total_change, has_paths) == Some(error),
    }
}

/// Share a change among players.
///
/// A path allocation needs each player's paths to the outcome. Only a Shapley allocation can
/// be cancelled.
pub fn run_change_allocation<N: Amount, P: CoalitionPayoff<N>, E: Engine<N>>(
    outcome: VariableId,
    players: &[ComponentId],
    allocation: &AllocationMethod,
    payoff: &mut P,
    total_change: N,
    unidentified: Vec<ComponentId>,
    ctx: &ExecutionContext,
    player_paths: Option<&Vec<Vec<PathContribution<N>>>>,
    engine: &E,
) -> (r: Result<ChangeAttributionResult<N>, AttributionError>)
    requires
        old(payoff).ready(),
        allocation is PathBased ==> players@.len() <= 64,
        player_paths matches Some(paths) ==> paths@.len() == players@.len(),
    ensures
        final(payoff).ready(),
        payoff::game(*final(payoff)) == payoff::game(*old(payoff)),
        match r {
            Ok(result) => is_allocation(
                result,
                outcome,
                players@,
                *allocation,
                payoff::game(*old(payoff)),
                total_change,
                unidentified@,
                *ctx,
                match player_paths {
                    Some(paths) => Some(paths@),
                    None => None,
                },
                *engine,
            ),
            Err(error) => is_not_allocated(
                error,
                players@,
                *allocation,
                payoff::game(*old(payoff)),
                total_change,
                player_paths is Some,
                *ctx,
            ),
        },
        !(allocation is Shapley) ==> r is Ok == (allocation_failure(
            players@,
            *allocation,
            payoff::game(*old(payoff)),
            total_change,
            player_paths is Some,
        ) is None),
{
    let ghost g = payoff::game(*payoff);
    match allocation {
        AllocationMethod::Shapley { approximation } => {
            match shapley::estimate_shapley(players, approximation, payoff, ctx) {
                Ok(estimate) => {
                    let ghost made = estimate;
                    let result = pack_change_result(
                        outcome,
                        total_change,
                        estimate,
                        unidentified,
                        engine,
                    );
                    assert(is_packed(
                        result,
                        outcome,
                        total_change,
                        made,
                        unidentified@,
                        engine.quantile(freedom(made)),
                    ));
                    Ok(result)
                },
                Err(error) => Err(error),
            }
        },
        AllocationMethod::Sequential { order } => {
            match change::check_order(order, players) {
                Ok(_) => {},
                Err(error) => {
                    return Err(error);
                },
            }
            assert(sequential::numbering(players) =~= sequential::seating(players@));
            match sequential::sequential_allocate(order.as_slice(), &players, payoff, ctx) {
                Ok(estimate) => {
                    let ghost made = estimate;
                    let result = pack_change_result(
                        outcome,
                        total_change,
                        estimate,
                        unidentified,
                        engine,
                    );
                    assert(is_packed(
                        result,
                        outcome,
                        total_change,
                        made,
                        unidentified@,
                        engine.quantile(freedom(made)),
                    ));
                    Ok(result)
                },
                Err(error) => Err(error),
            }
        },
        AllocationMethod::PathBased => match player_paths {
            Some(paths) => path_based_change_allocation(
                outcome,
                players,
                payoff,
                total_change,
                unidentified,
                paths,
            ),
            None => Err(AttributionError::unsupported(PATHS_REQUIRED)),
        },
    }
}

/// Shares of a result.
pub open spec fn shares_of<N>(result: ChangeAttributionResult<N>) -> Seq<N> {
    result.contributions@.map_values(|c: ComponentContribution<N>| c.contribution)
}

impl<N: Amount> ChangeAttributionResult<N> {
    /// Sum of the shares.
    #[must_use]
    pub fn contribution_sum(&self) -> (sum: N)
        ensures
            sum == shapley::total(shares_of(*self)),
    {
        let mut shares: Vec<N> = Vec::new();
        while shares.len() < self.contributions.len()
            invariant
                shares@.len() <= self.contributions@.len(),
                shares@ == shares_of(*self).take(shares@.len() as int),
            decreases self.contributions.len() - shares.len(),
        {
            shares.push(self.contributions[shares.len()].contribution);
            assert(shares@ =~= shares_of(*self).take(shares@.len() as int));
        }
        assert(shares@ =~= shares_of(*self));
        shapley::sum_of(shares.as_slice())
    }
}

} // verus!
