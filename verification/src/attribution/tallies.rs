//! What totals, layouts and refusals of attributions come to.
//!
//! Where a law is about numbers, it is about exact arithmetic: a valuation reads the numbers of
//! a computation as real numbers.
//!
//! SPDX-License-Identifier: MIT OR Apache-2.0

use crate::attribution::allocation;
use crate::attribution::amount::Amount;
use crate::attribution::anomaly;
use crate::attribution::anomaly::{AnomalyInputs, AnomalyScores};
use crate::attribution::bootstrap::{BootstrapCase, Refit, Resample};
use crate::attribution::coalition;
use crate::attribution::distribution;
use crate::attribution::efficiency;
use crate::attribution::engine::Engine;
use crate::attribution::error::AttributionError;
use crate::attribution::mechanism_change;
use crate::attribution::mechanism_change::ResidualTests;
use crate::attribution::model::ModelView;
use crate::attribution::result::{ChangeAttributionResult, PathContribution, UnitChangeResult};
use crate::attribution::shapley;
use crate::attribution::shapley::ShapleyEstimate;
use crate::attribution::unit;
use crate::ids::{ComponentId, VariableId};
use crate::query::attribution::{MechanismChangeQuery, ShapleyConfig};
use vstd::prelude::*;

verus! {

/// Sum of the first `k` whole terms.
pub open spec fn whole_sum(f: spec_fn(int) -> int, k: nat) -> int
    decreases k,
{
    if k == 0 {
        0
    } else {
        whole_sum(f, (k - 1) as nat) + f(k - 1)
    }
}

/// A counter that stops at its largest value shows a total.
pub open spec fn shows(counter: u64, total: int) -> bool {
    counter == total || (counter == u64::MAX && total > u64::MAX)
}

/// The work on all units is the sum of the work on each, as far as counters go; coalitions of
/// single units are not counted among the exact ones.
pub proof fn law_work_adds_up<N>(estimates: Seq<ShapleyEstimate<N>>, k: nat)
    requires
        k <= estimates.len(),
    ensures
        shows(
            unit::work(estimates, k).evaluations,
            whole_sum(|u: int| estimates[u].budget.evaluations as int, k),
        ),
        shows(
            unit::work(estimates, k).samples,
            whole_sum(|u: int| estimates[u].budget.samples as int, k),
        ),
        unit::work(estimates, k).exact_coalitions == 0,
    decreases k,
{
    if k > 0 {
        law_work_adds_up(estimates, (k - 1) as nat);
    }
}

/// Cache hits and misses of all units add up, as far as counters go; the entries are the
/// payoffs asked for, and the cache counts as saturated where that of any unit is.
pub proof fn law_cache_use_adds_up<N>(estimates: Seq<ShapleyEstimate<N>>, k: nat)
    requires
        k <= estimates.len(),
    ensures
        shows(
            unit::cache_use(estimates, k).hits,
            whole_sum(|u: int| estimates[u].cache_stats.hits as int, k),
        ),
        shows(
            unit::cache_use(estimates, k).misses,
            whole_sum(|u: int| estimates[u].cache_stats.misses as int, k),
        ),
        shows(
            unit::cache_use(estimates, k).entries,
            unit::cache_use(estimates, k).hits + unit::cache_use(estimates, k).misses,
        ),
        unit::cache_use(estimates, k).bytes == 0,
        unit::cache_use(estimates, k).saturated <==> exists|u: int|
            0 <= u < k && (#[trigger] estimates[u]).cache_stats.saturated,
    decreases k,
{
    if k > 0 {
        law_cache_use_adds_up(estimates, (k - 1) as nat);
        if estimates[k - 1].cache_stats.saturated {
            assert(estimates[k - 1].cache_stats.saturated);
        }
    }
}

/// Errors are reported where any unit reports them.
pub proof fn law_any_reported_error_counts<N>(estimates: Seq<ShapleyEstimate<N>>, k: nat)
    requires
        k <= estimates.len(),
    ensures
        unit::reporting(estimates, k) > 0 <==> exists|u: int|
            0 <= u < k && (#[trigger] estimates[u]).component_mc_stderr is Some,
    decreases k,
{
    if k > 0 {
        law_any_reported_error_counts(estimates, (k - 1) as nat);
        if estimates[k - 1].component_mc_stderr is Some {
            assert(estimates[k - 1].component_mc_stderr is Some);
        }
    }
}

/// Units differ in their seeds alone.
pub proof fn law_units_share_their_settings(config: ShapleyConfig, row: usize)
    ensures
        unit::unit_config(config, row).mode == config.mode,
        unit::unit_config(config, row).max_exact_components == config.max_exact_components,
        unit::unit_config(config, row).allow_exact_override == config.allow_exact_override,
        unit::unit_config(config, row).seed == unit::seed_of(config.seed, row),
{
}

/// The shares of players are split over their paths one player after the other: the `j`-th path
/// of a player stands `j` places after all paths of the players before, under its own name, and
/// has its part of the player's share.
pub proof fn law_shares_are_split_player_by_player<N: Amount>(
    raw: Seq<N>,
    scale: Option<N>,
    player_paths: Seq<Vec<PathContribution<N>>>,
    k: nat,
    i: int,
    j: int,
)
    requires
        0 <= i < k <= player_paths.len(),
        0 <= j < player_paths[i]@.len(),
    ensures
        allocation::breakdown(raw, scale, player_paths, k).len() == whole_sum(
            |p: int| player_paths[p]@.len() as int,
            k,
        ),
        ({
            let place = whole_sum(|p: int| player_paths[p]@.len() as int, i as nat) + j;
            &&& 0 <= place < allocation::breakdown(raw, scale, player_paths, k).len()
            &&& allocation::breakdown(raw, scale, player_paths, k)[place].path
                == player_paths[i]@[j].path@
            &&& allocation::breakdown(raw, scale, player_paths, k)[place].contribution
                == allocation::scaled(raw[i], scale).times(
                allocation::fraction(player_paths[i]@, j),
            )
        }),
    decreases k,
{
    let size = |p: int| player_paths[p]@.len() as int;
    lemma_breakdown_len(raw, scale, player_paths, (k - 1) as nat);
    lemma_breakdown_len(raw, scale, player_paths, k);
    if i < k - 1 {
        law_shares_are_split_player_by_player(raw, scale, player_paths, (k - 1) as nat, i, j);
        let place = whole_sum(size, i as nat) + j;
        assert(allocation::breakdown(raw, scale, player_paths, k)[place] == allocation::breakdown(
            raw,
            scale,
            player_paths,
            (k - 1) as nat,
        )[place]);
    }
}

proof fn lemma_breakdown_len<N: Amount>(
    raw: Seq<N>,
    scale: Option<N>,
    player_paths: Seq<Vec<PathContribution<N>>>,
    k: nat,
)
    ensures
        allocation::breakdown(raw, scale, player_paths, k).len() == whole_sum(
            |p: int| player_paths[p]@.len() as int,
            k,
        ),
    decreases k,
{
    if k > 0 {
        lemma_breakdown_len(raw, scale, player_paths, (k - 1) as nat);
    }
}

/// A path-based result names the players in order, gives each its scaled change on its own, and
/// counts one evaluation for the empty coalition, one for each player and one for each path.
pub proof fn law_path_results_are_scaled_lone_changes<N: Amount>(
    result: ChangeAttributionResult<N>,
    outcome: VariableId,
    players: Seq<ComponentId>,
    total_change: N,
    unidentified: Seq<ComponentId>,
    g: spec_fn(u64) -> Result<N, AttributionError>,
    player_paths: Seq<Vec<PathContribution<N>>>,
    i: int,
)
    requires
        allocation::is_path_result(
            result,
            outcome,
            players,
            total_change,
            unidentified,
            g,
            player_paths,
        ),
        0 <= i < players.len(),
    ensures
        result.outcome == outcome,
        result.total_change == total_change,
        result.unidentified@ == unidentified,
        result.contributions@.len() == players.len(),
        result.contributions@[i].component == players[i],
        allocation::efficiency_scale(
            shapley::total(allocation::all_alone(g, players.len())),
            total_change,
        ) matches Ok(scale) && result.contributions@[i].contribution == allocation::scaled(
            allocation::alone(g, i),
            scale,
        ),
        shows(
            result.budget.evaluations,
            (players.len() + 1 + result.path_breakdown@.len()) as int,
        ),
        result.budget.samples == 0 && result.budget.exact_coalitions == 0,
        result.contributions@[i].stderr is None && result.monte_carlo_stderr is None,
        result.cache_stats.hits == 0 && result.cache_stats.misses == 0
            && !result.cache_stats.saturated,
{
}

proof fn lemma_lone(i: u64, j: u64)
    by (bit_vector)
    requires
        i < 64,
        j < 64,
    ensures
        ((0u64 | (1u64 << i)) & (1u64 << j)) != 0 <==> i == j,
{
}

/// Path-based allocation visits the empty coalition and then every player alone.
pub proof fn law_players_are_visited_alone(k: nat, i: int, j: int)
    requires
        0 <= i < k <= 64,
        0 <= j < 64,
    ensures
        allocation::single_visits(k).len() == k + 1,
        allocation::single_visits(k)[0] == 0,
        coalition::member(allocation::single_visits(k)[i + 1], j) <==> i == j,
{
    lemma_lone(i as u64, j as u64);
}

proof fn lemma_shares_len<N: Amount, E: Engine<N>>(
    inputs: AnomalyInputs<N>,
    engine: E,
    target: int,
    rows: Seq<usize>,
    k: nat,
)
    ensures
        inputs.all_shares(engine, target, rows, k).len() == whole_sum(
            |u: int| inputs.shares(engine, target, rows[u] as int).len() as int,
            k,
        ),
    decreases k,
{
    if k > 0 {
        lemma_shares_len(inputs, engine, target, rows, (k - 1) as nat);
    }
}

/// Noise contributions stand row by row, in the order of the rows, and within a row in the order
/// of the players.
pub proof fn law_contributions_stand_row_by_row<N: Amount, E: Engine<N>>(
    inputs: AnomalyInputs<N>,
    engine: E,
    target: int,
    rows: Seq<usize>,
    k: nat,
    u: int,
    j: int,
)
    requires
        0 <= u < k <= rows.len(),
        0 <= j < inputs.shares(engine, target, rows[u] as int).len(),
    ensures
        ({
            let place = whole_sum(
                |v: int| inputs.shares(engine, target, rows[v] as int).len() as int,
                u as nat,
            ) + j;
            &&& 0 <= place < inputs.all_shares(engine, target, rows, k).len()
            &&& inputs.all_shares(engine, target, rows, k)[place] == inputs.shares(
                engine,
                target,
                rows[u] as int,
            )[j]
        }),
    decreases k,
{
    lemma_shares_len(inputs, engine, target, rows, (k - 1) as nat);
    lemma_shares_len(inputs, engine, target, rows, k);
    if u < k - 1 {
        law_contributions_stand_row_by_row(inputs, engine, target, rows, (k - 1) as nat, u, j);
    }
}

/// A refit that counts comes of a resample that was fitted and has one contribution for every
/// component; a cancelled resample counts as nothing, not even as a failure.
pub proof fn law_counted_refits_are_whole<N: Amount, E: Engine<N>>(
    case: BootstrapCase<N, E>,
    resample: Result<Resample<N>, AttributionError>,
    outcome: Option<Refit<N>>,
    n_components: nat,
)
    requires
        case.counts_as(resample, outcome, n_components),
    ensures
        outcome matches Some(refit) ==> resample is Ok && refit.contributions@.len()
            == n_components,
        resample matches Err(error) ==> !(error is Cancelled) && outcome is None,
{
}

/// A mean absolute deviation is made a standard deviation by its factor for normal values.
pub proof fn law_consistency_factor<N: Amount>(val: spec_fn(N) -> real)
    requires
        efficiency::is_exact(val),
    ensures
        val(anomaly::consistency::<N>()) * (1_000_000_000_000_000 as real)
            == 1_482_602_218_505_602 as real,
{
    let top = N::counted(1_482_602_218_505_602);
    let bottom = N::counted(1_000_000_000_000_000);
    assert(val(bottom) == 1_000_000_000_000_000 as real);
    assert(val(top.over(bottom)) * val(bottom) == val(top));
}

/// Residuals are cross-fitted in three folds, in five from thirty rows on.
pub proof fn law_many_rows_have_more_folds(n: usize)
    ensures
        n < 30 ==> mechanism_change::fold_count(n) == 3,
        n >= 30 ==> mechanism_change::fold_count(n) == 5,
{
}

proof fn lemma_covariates<N: Amount, T: ResidualTests<N>>(
    model: ModelView,
    tests: T,
    targets: Seq<VariableId>,
    k: nat,
)
    ensures
        mechanism_change::covariate_refusal::<N, T>(model, tests, targets, k) is None <==> forall|
            i: int,
        |
            0 <= i < k ==> is_comparable::<N, T>(model, tests, #[trigger] targets[i]),
    decreases k,
{
    if k > 0 {
        lemma_covariates::<N, T>(model, tests, targets, (k - 1) as nat);
        assert(is_comparable::<N, T>(model, tests, targets[k - 1]) || !is_comparable::<N, T>(
            model,
            tests,
            targets[k - 1],
        ));
    }
}

/// A target is in the model and none of its parents is shifted.
pub open spec fn is_comparable<N: Amount, T: ResidualTests<N>>(
    model: ModelView,
    tests: T,
    target: VariableId,
) -> bool {
    match distribution::dense(model, target) {
        None => false,
        Some(node) => mechanism_change::parent_shift::<N, T>(
            model,
            tests,
            distribution::parents_of(model, node as int),
            distribution::parents_of(model, node as int).len(),
        ) == Ok::<bool, AttributionError>(false),
    }
}

/// Mechanism changes are looked for exactly where the query is accepted and has no more targets
/// than allowed, both populations have ten rows or more, and every target is in the model with
/// no shifted parent.
pub proof fn law_admitted_detections<N: Amount, T: ResidualTests<N>>(
    model: ModelView,
    tests: T,
    query: MechanismChangeQuery,
    baseline_rows: usize,
    comparison_rows: usize,
)
    ensures
        mechanism_change::detection_refusal::<N, T>(
            model,
            tests,
            query,
            baseline_rows,
            comparison_rows,
        ) is None <==> {
            &&& query.refusal() is None
            &&& query.targets@.len() <= query.max_targets
            &&& baseline_rows >= 10
            &&& comparison_rows >= 10
            &&& forall|i: int|
                0 <= i < query.targets@.len() ==> is_comparable::<N, T>(
                    model,
                    tests,
                    #[trigger] query.targets@[i],
                )
        },
{
    lemma_covariates::<N, T>(model, tests, query.targets@, query.targets@.len());
}

/// A target is scored exactly where it is in the model, has no more ancestors than a coalition
/// can hold, and no row fails.
pub proof fn law_scored_targets<N: Amount, E: Engine<N>>(
    inputs: AnomalyInputs<N>,
    engine: E,
    target: VariableId,
    rows: Seq<usize>,
)
    ensures
        inputs.failure(engine, target, rows) is None <==> (distribution::dense(
            inputs.model,
            target,
        ) matches Some(node) && anomaly::noise_players(inputs.model, node as int).len() <= 64
            && inputs.rows_failure(engine, node as int, rows, rows.len()) is None),
{
}

/// The summary of some units reports the work on all of them, and errors exactly where a unit
/// reports them.
pub proof fn law_summaries_report_all_the_work<N: Amount>(
    result: UnitChangeResult<N>,
    estimates: Seq<ShapleyEstimate<N>>,
    n_players: nat,
)
    requires
        unit::summarizes(result, estimates, n_players),
    ensures
        shows(
            result.budget.evaluations,
            whole_sum(|u: int| estimates[u].budget.evaluations as int, estimates.len()),
        ),
        shows(
            result.budget.samples,
            whole_sum(|u: int| estimates[u].budget.samples as int, estimates.len()),
        ),
        shows(
            result.cache_stats.hits,
            whole_sum(|u: int| estimates[u].cache_stats.hits as int, estimates.len()),
        ),
        shows(
            result.cache_stats.misses,
            whole_sum(|u: int| estimates[u].cache_stats.misses as int, estimates.len()),
        ),
        result.component_mc_stderr is Some <==> exists|u: int|
            0 <= u < estimates.len() && (#[trigger] estimates[u]).component_mc_stderr is Some,
        result.monte_carlo_stderr is Some <==> result.component_mc_stderr is Some,
        result.mean_contributions@.len() == n_players,
{
    law_work_adds_up(estimates, estimates.len());
    law_cache_use_adds_up(estimates, estimates.len());
    law_any_reported_error_counts(estimates, estimates.len());
}

/// Scores are of the target and of the rows asked for, one score and one residual for each row.
pub proof fn law_scores_are_of_the_rows_asked_for<N: Amount, E: Engine<N>>(
    inputs: AnomalyInputs<N>,
    engine: E,
    target: VariableId,
    rows: Seq<usize>,
    scores: AnomalyScores<N>,
    node: usize,
    u: int,
)
    requires
        inputs.is_scored(engine, target, rows, scores),
        distribution::dense(inputs.model, target) == Some(node),
        0 <= u < rows.len(),
    ensures
        scores.target == target,
        scores.rows@ == rows,
        scores.scores@.len() == rows.len(),
        scores.residual_abs@.len() == rows.len(),
        scores.scores@[u] == anomaly::scored(
            engine,
            inputs.tail(node as int),
            inputs.values.at(node as int, rows[u] as int),
        ),
        scores.residual_abs@[u] == anomaly::absolute_total(
            inputs.shares(engine, node as int, rows[u] as int),
        ),
        scores.noise_components@.len() == anomaly::noise_players(
            inputs.model,
            node as int,
        ).len(),
{
}

/// Residuals are put back where their rows are: those of a fold stand as many rows apart as there
/// are folds, in their order, and rows without a residual count as nought.
pub proof fn law_residuals_return_to_their_rows<N: Amount>(
    residuals: Seq<Seq<N>>,
    n: nat,
    k: nat,
    fold: int,
    p: int,
)
    requires
        0 <= fold < k,
        0 <= p,
        p * k + fold < n,
    ensures
        mechanism_change::assembled(residuals, n, k).len() == n,
        p < residuals[fold].len() ==> mechanism_change::assembled(residuals, n, k)[p * k + fold]
            == residuals[fold][p],
        p >= residuals[fold].len() ==> mechanism_change::assembled(residuals, n, k)[p * k + fold]
            == N::nil(),
{
    let row = p * k + fold;
    assert(0 <= p * k) by (nonlinear_arith)
        requires
            0 <= p,
            0 <= k,
    ;
    vstd::arithmetic::div_mod::lemma_fundamental_div_mod_converse(row, k as int, p, fold);
}

} // verus!
