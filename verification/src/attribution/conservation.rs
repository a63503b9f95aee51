//! Nothing of a change is lost or made up when it is shared.
//!
//! The laws are about exact arithmetic: a valuation reads the numbers of a computation as real
//! numbers.
//!
//! SPDX-License-Identifier: MIT OR Apache-2.0

use crate::attribution::allocation;
use crate::attribution::amount::Amount;
use crate::attribution::anomaly;
use crate::attribution::anomaly::{AnomalyInputs, AnomalyScores};
use crate::attribution::change;
use crate::attribution::change::{ChangeOptions, DifferenceMeasure};
use crate::attribution::distribution;
use crate::attribution::efficiency;
use crate::attribution::engine::Engine;
use crate::attribution::error::AttributionError;
use crate::attribution::fairness;
use crate::attribution::model::{MechanismSlot, ModelView};
use crate::attribution::payoff;
use crate::attribution::payoff::MeterState;
use crate::attribution::result::{ChangeAttributionResult, PathContribution, UnitChangeResult};
use crate::attribution::robust;
use crate::attribution::sequential;
use crate::attribution::shapley;
use crate::attribution::shapley::ShapleyEstimate;
use crate::attribution::structure;
use crate::attribution::structure::StructureChangeOptions;
use crate::attribution::table::NodeTable;
use crate::attribution::unit;
use crate::execution::ExecutionContext;
use crate::ids::{ComponentId, VariableId};
use crate::query::attribution::{AllocationMethod, ChangeAttributionQuery, ShapleyConfig};
use vstd::arithmetic::power2;
use vstd::prelude::*;

verus! {

/// Sum of the shares of a result.
pub open spec fn shared_sum<N>(
    val: spec_fn(N) -> real,
    result: ChangeAttributionResult<N>,
) -> real {
    efficiency::sum(
        |i: int| val(result.contributions@[i].contribution),
        result.contributions@.len(),
    )
}

/// A path allocation has something to scale.
pub open spec fn can_scale<N: Amount>(
    val: spec_fn(N) -> real,
    allocation: AllocationMethod,
    g: spec_fn(u64) -> Result<N, AttributionError>,
    n: nat,
) -> bool {
    allocation is PathBased ==> val(shapley::total(allocation::all_alone(g, n))) != 0 as real
        && !shapley::total(allocation::all_alone(g, n)).negligible()
}

/// Shares of an allocation sum to the change, whichever way it is allocated.
pub proof fn law_allocations_share_the_whole_change<N: Amount, E: Engine<N>>(
    val: spec_fn(N) -> real,
    result: ChangeAttributionResult<N>,
    outcome: VariableId,
    players: Seq<ComponentId>,
    allocation: AllocationMethod,
    g: spec_fn(u64) -> Result<N, AttributionError>,
    total_change: N,
    unidentified: Seq<ComponentId>,
    ctx: ExecutionContext,
    player_paths: Option<Seq<Vec<PathContribution<N>>>>,
    engine: E,
)
    requires
        efficiency::is_exact(val),
        players.len() <= 64,
        val(total_change) == efficiency::worth_at(val, g, power2::pow2(players.len()) - 1)
            - efficiency::worth_at(val, g, 0),
        can_scale(val, allocation, g, players.len()),
        allocation::is_allocation(
            result,
            outcome,
            players,
            allocation,
            g,
            total_change,
            unidentified,
            ctx,
            player_paths,
            engine,
        ),
    ensures
        result.total_change == total_change,
        shared_sum(val, result) == val(total_change),
{
    let n = players.len();
    let shares = |i: int| val(result.contributions@[i].contribution);
    match allocation {
        AllocationMethod::Shapley { approximation } => {
            let estimate = choose|estimate: ShapleyEstimate<N>|
                {
                    &&& shapley::is_estimate(estimate, players, approximation, g, ctx)
                    &&& #[trigger] allocation::is_packed(
                        result,
                        outcome,
                        total_change,
                        estimate,
                        unidentified,
                        engine.quantile(allocation::freedom(estimate)),
                    )
                };
            efficiency::law_estimates_are_efficient(
                val,
                estimate,
                players,
                approximation,
                g,
                ctx,
            );
            assert(estimate.values@.len() == n);
            efficiency::lemma_sum_same(shares, |i: int| val(estimate.values@[i]), n);
        },
        AllocationMethod::Sequential { order } => {
            let at = sequential::seating(players);
            let meter = MeterState::<N>::fresh(ctx.cache_policy);
            let estimate = choose|estimate: ShapleyEstimate<N>|
                {
                    &&& sequential::is_sequence_estimate(estimate, order@, at, g, meter)
                    &&& #[trigger] allocation::is_packed(
                        result,
                        outcome,
                        total_change,
                        estimate,
                        unidentified,
                        engine.quantile(allocation::freedom(estimate)),
                    )
                };
            change::law_accepted_orders_are_permutations(order@, players);
            efficiency::law_full_sequences_are_efficient(val, estimate, order@, at, g, meter);
            efficiency::lemma_sum_same(shares, |i: int| val(estimate.values@[i]), n);
        },
        AllocationMethod::PathBased => {
            let raw = allocation::all_alone(g, n);
            let scale = allocation::efficiency_scale(shapley::total(raw), total_change)->Ok_0->0;
            fairness::law_scaled_shares_are_efficient(val, raw, total_change, scale);
            efficiency::lemma_sum_same(
                shares,
                |i: int| val(allocation::scaled(raw[i], Some(scale))),
                n,
            );
        },
    }
}

/// A change is the worth of everybody less the worth of nobody, whichever way it is measured.
proof fn lemma_change_is_a_difference<N: Amount>(
    val: spec_fn(N) -> real,
    g: spec_fn(u64) -> Result<N, AttributionError>,
    n: nat,
    measure: DifferenceMeasure,
)
    requires
        efficiency::is_additive(val),
        measure is GaussianKl ==> payoff::worth_of(g, 0) == N::nil(),
    ensures
        val(distribution::total_of(g, n, measure)) == efficiency::worth_at(
            val,
            g,
            power2::pow2(n) - 1,
        ) - efficiency::worth_at(val, g, 0),
{
}

/// Shares of a change of mechanisms sum to the change.
pub proof fn law_distribution_changes_are_shared_whole<N: Amount, E: Engine<N>>(
    val: spec_fn(N) -> real,
    result: ChangeAttributionResult<N>,
    model: ModelView,
    baseline: Seq<MechanismSlot<N>>,
    comparison: Seq<MechanismSlot<N>>,
    query: ChangeAttributionQuery,
    options: ChangeOptions,
    engine: E,
    ctx: ExecutionContext,
    player_paths: Option<Seq<Vec<PathContribution<N>>>>,
)
    requires
        efficiency::is_exact(val),
        distribution::is_attribution(
            Ok(result),
            model,
            baseline,
            comparison,
            query,
            options,
            engine,
            ctx,
            player_paths,
        ),
        ({
            let outcome = distribution::dense(model, query.outcome)->0 as int;
            let roster = distribution::roster_of(model, outcome, query.components);
            can_scale(
                val,
                query.allocation,
                distribution::swap_game(
                    engine,
                    model,
                    baseline,
                    comparison,
                    distribution::exchangeable(model, roster),
                    outcome,
                    options,
                    ctx.rng,
                ),
                roster.players.len(),
            )
        }),
    ensures
        shared_sum(val, result) == val(result.total_change),
{
    let outcome = distribution::dense(model, query.outcome)->0 as int;
    let roster = distribution::roster_of(model, outcome, query.components);
    let g = distribution::swap_game(
        engine,
        model,
        baseline,
        comparison,
        distribution::exchangeable(model, roster),
        outcome,
        options,
        ctx.rng,
    );
    let n = roster.players.len();
    lemma_change_is_a_difference(val, g, n, options.measure);
    law_allocations_share_the_whole_change(
        val,
        result,
        query.outcome,
        roster.players,
        query.allocation,
        g,
        distribution::total_of(g, n, options.measure),
        Seq::empty(),
        ctx,
        player_paths,
        engine,
    );
}

/// Shares of a change of parent sets sum to the change.
pub proof fn law_structure_changes_are_shared_whole<N: Amount, E: Engine<N>>(
    val: spec_fn(N) -> real,
    result: ChangeAttributionResult<N>,
    baseline_model: ModelView,
    comparison_model: ModelView,
    baseline: Seq<MechanismSlot<N>>,
    comparison: Seq<MechanismSlot<N>>,
    query: ChangeAttributionQuery,
    options: StructureChangeOptions,
    engine: E,
    ctx: ExecutionContext,
    player_paths: Option<Seq<Vec<PathContribution<N>>>>,
)
    requires
        efficiency::is_exact(val),
        structure::is_structure_attribution(
            Ok(result),
            baseline_model,
            comparison_model,
            baseline,
            comparison,
            query,
            options,
            engine,
            ctx,
            player_paths,
        ),
        ({
            let outcome = distribution::dense(baseline_model, query.outcome)->0 as int;
            let nodes = structure::differing(
                baseline_model,
                comparison_model,
                outcome,
                true,
                baseline_model.nodes(),
            );
            can_scale(
                val,
                query.allocation,
                structure::structure_game(
                    engine,
                    baseline_model,
                    comparison_model,
                    baseline,
                    comparison,
                    structure::seats_of(nodes),
                    outcome,
                    options,
                    ctx.rng,
                ),
                nodes.len(),
            )
        }),
    ensures
        shared_sum(val, result) == val(result.total_change),
{
    let outcome = distribution::dense(baseline_model, query.outcome)->0 as int;
    let all = baseline_model.nodes();
    let nodes = structure::differing(baseline_model, comparison_model, outcome, true, all);
    let g = structure::structure_game(
        engine,
        baseline_model,
        comparison_model,
        baseline,
        comparison,
        structure::seats_of(nodes),
        outcome,
        options,
        ctx.rng,
    );
    lemma_change_is_a_difference(val, g, nodes.len(), options.measure);
    law_allocations_share_the_whole_change(
        val,
        result,
        query.outcome,
        structure::components_of(baseline_model, nodes),
        query.allocation,
        g,
        distribution::total_of(g, nodes.len(), options.measure),
        structure::components_of(
            baseline_model,
            structure::differing(baseline_model, comparison_model, outcome, false, all),
        ),
        ctx,
        player_paths,
        engine,
    );
}

/// Shares of a robust attribution sum to the change.
pub proof fn law_robust_changes_are_shared_whole<N: Amount, E: Engine<N>>(
    val: spec_fn(N) -> real,
    result: ChangeAttributionResult<N>,
    query: ChangeAttributionQuery,
    players: Seq<ComponentId>,
    g: spec_fn(u64) -> Result<N, AttributionError>,
    engine: E,
    ctx: ExecutionContext,
)
    requires
        efficiency::is_exact(val),
        query.allocation is Shapley,
        robust::is_sharing(Ok(result), query, players, g, engine, ctx),
    ensures
        shared_sum(val, result) == val(result.total_change),
{
    let n = players.len();
    lemma_change_is_a_difference(val, g, n, DifferenceMeasure::MeanDiff);
    law_allocations_share_the_whole_change(
        val,
        result,
        query.outcome,
        players,
        query.allocation,
        g,
        distribution::total_of(g, n, DifferenceMeasure::MeanDiff),
        Seq::empty(),
        ctx,
        None,
        engine,
    );
}

/// Attributions of a row stand behind those of all earlier rows.
proof fn lemma_rows_are_laid_out<N: Amount, E: Engine<N>>(
    inputs: AnomalyInputs<N>,
    engine: E,
    target: int,
    rows: Seq<usize>,
    k: nat,
    u: int,
    j: int,
)
    requires
        0 <= u < k,
        0 <= j < anomaly::noise_players(inputs.model, target).len(),
    ensures
        ({
            let n = anomaly::noise_players(inputs.model, target).len();
            let all = inputs.all_shares(engine, target, rows, k);
            &&& all.len() == k * n
            &&& 0 <= u * n + j < all.len()
            &&& all[u * n + j] == inputs.shares(engine, target, rows[u] as int)[j]
        }),
    decreases k,
{
    let n = anomaly::noise_players(inputs.model, target).len();
    let before = inputs.all_shares(engine, target, rows, (k - 1) as nat);
    assert(k * n == (k - 1) * n + n) by (nonlinear_arith);
    if k == 1 {
        assert(before.len() == 0);
        assert(u == 0);
    } else if u < k - 1 {
        lemma_rows_are_laid_out(inputs, engine, target, rows, (k - 1) as nat, u, j);
    } else {
        lemma_rows_are_laid_out(inputs, engine, target, rows, (k - 1) as nat, 0, j);
    }
}

/// Attributions of a row's anomaly score sum to what the noise of its ancestors adds to it:
/// the score with all noise less the score without.
pub proof fn law_noise_shares_sum_to_the_score_gained<N: Amount, E: Engine<N>>(
    val: spec_fn(N) -> real,
    inputs: AnomalyInputs<N>,
    engine: E,
    target: VariableId,
    rows: Seq<usize>,
    scores: AnomalyScores<N>,
    u: int,
)
    requires
        efficiency::is_exact(val),
        0 <= u < rows.len(),
        inputs.is_scored(engine, target, rows, scores),
    ensures
        ({
            let node = distribution::dense(inputs.model, target)->0 as int;
            let n = anomaly::noise_players(inputs.model, node).len();
            let g = inputs.game(engine, node, rows[u] as int);
            efficiency::sum(|j: int| val(scores.noise_contributions@[u * n + j]), n)
                == efficiency::worth_at(val, g, power2::pow2(n) - 1) - efficiency::worth_at(
                val,
                g,
                0,
            )
        }),
{
    let node = distribution::dense(inputs.model, target)->0 as int;
    let n = anomaly::noise_players(inputs.model, node).len();
    let g = inputs.game(engine, node, rows[u] as int);
    assert(inputs.rows_failure(engine, node, rows, rows.len()) is None);
    assert(shapley::refusal(n as usize, anomaly::exact_config()) is None);
    efficiency::law_exact_shapley_is_efficient(val, g, n);
    let shares = |j: int| val(scores.noise_contributions@[u * n + j]);
    let own = |j: int| val(shapley::shapley_values(g, n)[j]);
    assert forall|j: int| 0 <= j < n implies #[trigger] shares(j) == own(j) by {
        lemma_rows_are_laid_out(inputs, engine, node, rows, rows.len(), u, j);
    }
    efficiency::lemma_sum_same(shares, own, n);
}

/// What a unit's outcome gains from nobody to everybody.
pub open spec fn unit_gain<N: Amount, E: Engine<N>>(
    val: spec_fn(N) -> real,
    engine: E,
    model: ModelView,
    slots: Seq<MechanismSlot<N>>,
    values: NodeTable<N>,
    noise: Seq<N>,
    outcome: int,
    row: usize,
) -> real {
    let g = unit::game_of_row(engine, model, slots, values, noise, outcome, row);
    let n = distribution::parents_of(model, outcome).len();
    efficiency::worth_at(val, g, power2::pow2(n) - 1) - efficiency::worth_at(val, g, 0)
}

/// Sums of the players' values over the first `k` units.
proof fn lemma_unit_sums<N: Amount, E: Engine<N>>(
    val: spec_fn(N) -> real,
    estimates: Seq<ShapleyEstimate<N>>,
    engine: E,
    model: ModelView,
    slots: Seq<MechanismSlot<N>>,
    values: NodeTable<N>,
    noise: Seq<N>,
    outcome: int,
    rows: Seq<usize>,
    config: ShapleyConfig,
    ctx: ExecutionContext,
    k: nat,
)
    requires
        efficiency::is_exact(val),
        k <= estimates.len(),
        distribution::parents_of(model, outcome).len() <= usize::MAX,
        unit::estimates_rows(
            estimates,
            engine,
            model,
            slots,
            values,
            noise,
            outcome,
            rows,
            config,
            ctx,
        ),
    ensures
        efficiency::sum(
            |j: int| val(unit::value_sum(estimates, j, k)),
            distribution::parents_of(model, outcome).len(),
        ) == efficiency::sum(
            |u: int| unit_gain(val, engine, model, slots, values, noise, outcome, rows[u]),
            k,
        ),
    decreases k,
{
    let n = distribution::parents_of(model, outcome).len();
    let sums = |j: int| val(unit::value_sum(estimates, j, k));
    if k == 0 {
        efficiency::lemma_zeros(sums, n);
    } else {
        lemma_unit_sums(
            val,
            estimates,
            engine,
            model,
            slots,
            values,
            noise,
            outcome,
            rows,
            config,
            ctx,
            (k - 1) as nat,
        );
        let players = unit::parent_components(model, distribution::parents_of(model, outcome));
        assert(players.len() == n);
        let last = estimates[k - 1];
        efficiency::law_estimates_are_efficient(
            val,
            last,
            players,
            unit::unit_config(config, rows[k - 1]),
            unit::game_of_row(engine, model, slots, values, noise, outcome, rows[k - 1]),
            ctx,
        );
        let before = |j: int| val(unit::value_sum(estimates, j, (k - 1) as nat));
        let own = |j: int| val(last.values@[j]);
        efficiency::lemma_sum_of_sums(before, own, sums, n);
    }
}

/// Mean shares over units sum to the units' mean gain.
pub proof fn law_unit_shares_average_the_gains<N: Amount, E: Engine<N>>(
    val: spec_fn(N) -> real,
    result: UnitChangeResult<N>,
    estimates: Seq<ShapleyEstimate<N>>,
    engine: E,
    model: ModelView,
    slots: Seq<MechanismSlot<N>>,
    values: NodeTable<N>,
    noise: Seq<N>,
    outcome: int,
    rows: Seq<usize>,
    config: ShapleyConfig,
    ctx: ExecutionContext,
)
    requires
        efficiency::is_exact(val),
        rows.len() > 0,
        estimates.len() == rows.len(),
        distribution::parents_of(model, outcome).len() <= usize::MAX,
        unit::summarizes(result, estimates, distribution::parents_of(model, outcome).len()),
        unit::estimates_rows(
            estimates,
            engine,
            model,
            slots,
            values,
            noise,
            outcome,
            rows,
            config,
            ctx,
        ),
    ensures
        efficiency::sum(
            |j: int| val(result.mean_contributions@[j]),
            distribution::parents_of(model, outcome).len(),
        ) * (rows.len() as real) == efficiency::sum(
            |u: int| unit_gain(val, engine, model, slots, values, noise, outcome, rows[u]),
            rows.len(),
        ),
{
    let n = distribution::parents_of(model, outcome).len();
    let k = rows.len();
    lemma_unit_sums(
        val,
        estimates,
        engine,
        model,
        slots,
        values,
        noise,
        outcome,
        rows,
        config,
        ctx,
        k,
    );
    let means = |j: int| val(result.mean_contributions@[j]);
    let sums = |j: int| val(unit::value_sum(estimates, j, k));
    assert(val(N::counted(k)) == k as real);
    assert forall|j: int| 0 <= j < n implies #[trigger] means(j) * (k as real) == sums(j) by {}
    efficiency::lemma_scaled(k as real, sums, means, n);
}

} // verus!
