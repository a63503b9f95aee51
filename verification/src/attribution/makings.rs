//! What regressions, estimates, rankings and compiled models are made of.
//!
//! Where a law is about numbers, it is about exact arithmetic: a valuation reads the numbers of
//! a computation as real numbers.
//!
//! SPDX-License-Identifier: MIT OR Apache-2.0

use crate::attribution::allocation;
use crate::attribution::amount::Amount;
use crate::attribution::arrange;
use crate::attribution::change::ChangeOptions;
use crate::attribution::coalition;
use crate::attribution::coalition::{CacheState, CoalitionKey};
use crate::attribution::distribution;
use crate::attribution::efficiency;
use crate::attribution::engine::Engine;
use crate::attribution::error::AttributionError;
use crate::attribution::implied;
use crate::attribution::model;
use crate::attribution::model::{LinearForm, MechanismSlot, ModelView};
use crate::attribution::orders;
use crate::attribution::payoff;
use crate::attribution::payoff::MeterState;
use crate::attribution::result::{ChangeAttributionResult, RootCauseRank};
use crate::attribution::robust;
use crate::attribution::robust::{
    NodeRegression, ParentSource, RobustChangeOptions, RobustLinearPayoff,
};
use crate::attribution::root_cause;
use crate::attribution::root_cause::{ContributionDraws, WeightedGraphSamples};
use crate::attribution::sequential;
use crate::attribution::shapley;
use crate::attribution::shapley::ShapleyEstimate;
use crate::attribution::shares;
use crate::attribution::structure;
use crate::attribution::table::NodeTable;
use crate::execution;
use crate::execution::{ExecutionContext, RngFactory};
use crate::ids::{ComponentId, DenseNodeId, VariableId};
use crate::query::attribution::{ChangeAttributionQuery, ShapleyConfig, ShapleyMode};
use vstd::arithmetic::power2;
use vstd::prelude::*;

verus! {

/// A regression is its intercept and then one coefficient for each parent; a constant has no
/// parents, and nothing else is a regression.
pub proof fn law_regressions_start_with_the_intercept<N>(
    slot: MechanismSlot<N>,
    form: LinearForm<N>,
    n_parents: nat,
    i: int,
)
    ensures
        implied::has_form(slot, form) ==> match robust::beta_of(slot, n_parents) {
            Ok(beta) => {
                &&& form.coeffs.len() == n_parents
                &&& beta.len() == n_parents + 1
                &&& beta[0] == form.intercept
                &&& 0 <= i < n_parents ==> beta[i + 1] == form.coeffs[i]
            },
            Err(_) => form.coeffs.len() != n_parents,
        },
        slot matches MechanismSlot::Constant { value } ==> match robust::beta_of(slot, n_parents) {
            Ok(beta) => n_parents == 0 && beta == seq![value],
            Err(_) => n_parents != 0,
        },
        slot is Discrete || slot is Opaque ==> robust::beta_of(slot, n_parents) is Err,
{
    if let MechanismSlot::Constant { value } = slot {
        assert(seq![value] + Seq::<N>::empty() =~= seq![value]);
    }
}

/// The fit of a player's node holds the regressions of both populations, each in its own place.
pub proof fn law_fits_hold_both_regressions<N>(
    fit: NodeRegression<N>,
    columns: Seq<Vec<N>>,
    model: ModelView,
    players: Seq<ComponentId>,
    values: NodeTable<N>,
    baseline: Seq<MechanismSlot<N>>,
    comparison: Seq<MechanismSlot<N>>,
    i: int,
    node: usize,
    before: LinearForm<N>,
    after: LinearForm<N>,
    k: int,
)
    requires
        robust::is_node_fit(fit, columns, model, players, values, baseline, comparison, i),
        distribution::dense(model, players[i].variable_of()) == Some(node),
        implied::has_form(baseline[node as int], before),
        implied::has_form(comparison[node as int], after),
        0 <= k < distribution::parents_of(model, node as int).len(),
    ensures
        fit.baseline_beta@[0] == before.intercept,
        fit.baseline_beta@[k + 1] == before.coeffs[k],
        fit.comparison_beta@[0] == after.intercept,
        fit.comparison_beta@[k + 1] == after.coeffs[k],
        fit.sources@.len() == distribution::parents_of(model, node as int).len(),
{
    let width = distribution::parents_of(model, node as int).len();
    law_regressions_start_with_the_intercept(baseline[node as int], before, width, k);
    law_regressions_start_with_the_intercept(comparison[node as int], after, width, k);
}

/// A parent that is a player is read from that player's prediction, any other from its column of
/// the baseline population.
pub proof fn law_parents_are_read_from_their_source<N>(
    source: ParentSource,
    columns: Seq<Vec<N>>,
    model: ModelView,
    players: Seq<ComponentId>,
    values: NodeTable<N>,
    parents: Seq<DenseNodeId>,
    k: int,
)
    requires
        players.len() <= usize::MAX,
        robust::source_of(source, columns, model, players, values, parents, k),
    ensures
        match source {
            ParentSource::Player(p) => p < players.len() && players[p as int]
                == robust::parent_component(model, parents, k),
            ParentSource::Column(c) => {
                &&& !players.contains(robust::parent_component(model, parents, k))
                &&& c < columns.len()
                &&& columns[c as int]@ == values.columns@[parents[k].raw as int]@
            },
        },
{
    sequential::lemma_place(players, robust::parent_component(model, parents, k));
}

/// Players can be fitted exactly where each of them is in the model and has a regression on its
/// parents in both populations.
pub proof fn law_fitted_players_have_regressions<N>(
    model: ModelView,
    players: Seq<ComponentId>,
    baseline: Seq<MechanismSlot<N>>,
    comparison: Seq<MechanismSlot<N>>,
    k: nat,
)
    ensures
        robust::fit_failure(model, players, baseline, comparison, k) is None <==> forall|i: int|
            0 <= i < k ==> (#[trigger] robust::player_node(model, players, i) matches Some(node)
                && robust::beta_of(
                baseline[node as int],
                distribution::parents_of(model, node as int).len(),
            ) is Ok && robust::beta_of(
                comparison[node as int],
                distribution::parents_of(model, node as int).len(),
            ) is Ok),
    decreases k,
{
    if k > 0 {
        law_fitted_players_have_regressions(model, players, baseline, comparison, (k - 1) as nat);
        assert(robust::player_node(model, players, k - 1) is Some || robust::player_node(
            model,
            players,
            k - 1,
        ) is None);
    }
}

/// Coefficients that a coalition puts in force for a player: those of the comparison population
/// for members, those of the baseline for the others.
pub open spec fn in_force<N>(payoff: RobustLinearPayoff<N>, mask: u64, i: int) -> Seq<N> {
    if i < 64 && coalition::member(mask, i) {
        payoff.fitted@[i].comparison_beta@
    } else {
        payoff.fitted@[i].baseline_beta@
    }
}

/// What an input of a player's regression reads in a row.
pub open spec fn input<N: Amount>(
    payoff: RobustLinearPayoff<N>,
    mask: u64,
    i: int,
    row: int,
    k: int,
) -> N {
    match payoff.fitted@[i].sources@[k] {
        ParentSource::Player(p) => payoff.predicted(mask, p as int, row),
        ParentSource::Column(c) => payoff.columns@[c as int]@[row],
    }
}

proof fn lemma_partly<N: Amount>(
    val: spec_fn(N) -> real,
    payoff: RobustLinearPayoff<N>,
    mask: u64,
    i: int,
    row: int,
    k: nat,
)
    requires
        efficiency::is_exact(val),
        payoff.well_formed(),
        0 <= i < payoff.fitted@.len(),
        k <= payoff.fitted@[i].sources@.len(),
    ensures
        val(payoff.partly(mask, i, row, k)) == val(in_force(payoff, mask, i)[0]) + efficiency::sum(
            |j: int|
                val(in_force(payoff, mask, i)[j + 1]) * val(input(payoff, mask, i, row, j)),
            k,
        ),
    decreases k,
{
    if k > 0 {
        lemma_partly(val, payoff, mask, i, row, (k - 1) as nat);
        assert(payoff.fitted@[i].sources@[k - 1] == payoff.fitted@[i].sources@[k - 1]);
        let beta = robust::beta_in_force(payoff.fitted@[i], mask, i);
        let x = input(payoff, mask, i, row, k - 1);
        assert(payoff.partly(mask, i, row, k) == payoff.partly(mask, i, row, (k - 1) as nat).plus(
            beta[k as int].times(x),
        ));
        assert(val(beta[k as int].times(x)) == val(beta[k as int]) * val(x));
    }
}

/// A player's prediction in a row is the intercept in force and every coefficient in force times
/// what its input reads.
pub proof fn law_composed_predictions_are_linear<N: Amount>(
    val: spec_fn(N) -> real,
    payoff: RobustLinearPayoff<N>,
    mask: u64,
    i: int,
    row: int,
)
    requires
        efficiency::is_exact(val),
        payoff.well_formed(),
        0 <= i < payoff.fitted@.len(),
    ensures
        val(payoff.predicted(mask, i, row)) == val(in_force(payoff, mask, i)[0]) + efficiency::sum(
            |j: int|
                val(in_force(payoff, mask, i)[j + 1]) * val(input(payoff, mask, i, row, j)),
            payoff.fitted@[i].sources@.len(),
        ),
{
    lemma_partly(val, payoff, mask, i, row, payoff.fitted@[i].sources@.len());
}

/// A sampled coalition is worth the mean of the law that the engine finds for the mechanisms it
/// chooses; no samples count as one.
pub proof fn law_sampled_coalitions_are_worth_their_mean<N: Amount, E: Engine<N>>(
    engine: E,
    model: ModelView,
    baseline: Seq<MechanismSlot<N>>,
    comparison: Seq<MechanismSlot<N>>,
    nodes: Seq<Option<usize>>,
    outcome: int,
    options: RobustChangeOptions,
    rng: RngFactory,
    mask: u64,
    n_samples: usize,
)
    requires
        n_samples >= 1,
        options.n_samples >= 1 ==> n_samples == options.n_samples,
        options.n_samples == 0 ==> n_samples == 1,
    ensures
        robust::sampled_game(engine, model, baseline, comparison, nodes, outcome, options, rng)(mask)
            == match engine.law_of(
            model,
            distribution::chosen(baseline, comparison, nodes, mask),
            outcome,
            n_samples,
            execution::mixed(
                rng.master_seed,
                robust::ROBUST_STREAM.wrapping_add(options.seed),
            ),
        ) {
            Ok((mean, _)) => Ok::<N, AttributionError>(mean),
            Err(error) => Err(error),
        },
{
}

/// Sampling uses at least one sample, and otherwise as many as asked for; the larger of two
/// counts is one of them and below neither.
pub proof fn law_sample_counts(a: usize, b: usize)
    ensures
        structure::at_least_one(a) >= 1,
        a >= 1 ==> structure::at_least_one(a) == a,
        structure::at_least_one(0) == 1,
        robust::larger(a, b) >= a && robust::larger(a, b) >= b,
        robust::larger(a, b) == a || robust::larger(a, b) == b,
{
}

/// The law of a mixed structure is that of the model compiled from the mixed parents; with a
/// cycle among these there is none.
pub proof fn law_cyclic_structures_have_no_law<N: Amount, E: Engine<N>>(
    engine: E,
    variables: Seq<VariableId>,
    baseline_parents: Seq<Seq<DenseNodeId>>,
    comparison_parents: Seq<Seq<DenseNodeId>>,
    baseline: Seq<MechanismSlot<N>>,
    comparison: Seq<MechanismSlot<N>>,
    nodes: Seq<Option<usize>>,
    outcome: int,
    n_samples: usize,
    seed: u64,
    mask: u64,
    law: (N, N),
)
    requires
        structure::structure_law(
            engine,
            variables,
            baseline_parents,
            comparison_parents,
            baseline,
            comparison,
            nodes,
            outcome,
            n_samples,
            seed,
            mask,
        ) == Ok::<(N, N), AttributionError>(law),
    ensures
        exists|rank: spec_fn(int) -> nat| #[trigger]
            model::respects(
                rank,
                structure::hybrid_lists(baseline_parents, comparison_parents, nodes, mask),
            ),
        engine.law_of(
            model::compiled(
                variables,
                structure::hybrid_lists(baseline_parents, comparison_parents, nodes, mask),
            ),
            distribution::chosen(baseline, comparison, nodes, mask),
            outcome,
            n_samples,
            seed,
        ) == Ok::<(N, N), AttributionError>(law),
{
}

/// An exact estimate names the players in order, holds their Shapley values, and counts every
/// coalition; a sampled one counts the orders it drew, at least one and no more than asked for.
pub proof fn law_estimates_say_how_they_were_made<N: Amount>(
    estimate: ShapleyEstimate<N>,
    players: Seq<ComponentId>,
    config: ShapleyConfig,
    g: spec_fn(u64) -> Result<N, AttributionError>,
    ctx: ExecutionContext,
)
    requires
        shapley::is_estimate(estimate, players, config, g, ctx),
    ensures
        estimate.players@ == players,
        estimate.values@.len() == players.len(),
        estimate.interactions@.len() == 0,
        config.mode is Exact ==> {
            &&& estimate.values@ == shapley::shapley_values(g, players.len())
            &&& estimate.budget.samples == 0
            &&& estimate.budget.exact_coalitions == power2::pow2(players.len()) as u64
            &&& estimate.monte_carlo_stderr is None
            &&& estimate.component_mc_stderr is None
        },
        config.mode matches ShapleyMode::MonteCarlo { n_samples } ==> 1 <= estimate.budget.samples
            <= n_samples && (!ctx.may_stop() ==> estimate.budget.samples == n_samples),
        config.mode matches ShapleyMode::Permutation { n_permutations } ==> 1
            <= estimate.budget.samples <= n_permutations && (!ctx.may_stop()
            ==> estimate.budget.samples == n_permutations),
        !(config.mode is Exact) ==> estimate.budget.exact_coalitions == 0
            && estimate.monte_carlo_stderr is Some && (estimate.component_mc_stderr matches Some(
            errors,
        ) && errors@.len() == players.len()),
{
}

/// An estimate that is not made has a cause: it is refused, or the context may stop it, or a
/// payoff fails, and the first that fails is the error.
pub proof fn law_missing_estimates_have_a_cause<N: Amount>(
    error: AttributionError,
    n_players: nat,
    config: ShapleyConfig,
    g: spec_fn(u64) -> Result<N, AttributionError>,
    ctx: ExecutionContext,
)
    requires
        shapley::is_not_made(error, n_players, config, g, ctx),
    ensures
        shapley::refusal(n_players as usize, config) matches Some(refused) ==> error == refused,
        shapley::refusal(n_players as usize, config) is None && !(error is Cancelled)
            ==> payoff::first_failure(g, shapley::planned_visits(n_players, config)) == Some(error)
            && !ctx.must_stop(),
        shapley::refusal(n_players as usize, config) is None && !ctx.may_stop()
            ==> payoff::first_failure(g, shapley::planned_visits(n_players, config)) == Some(error),
{
}

/// Along an order the empty coalition is visited first, and then every coalition with one more
/// player of the order.
pub proof fn law_orders_are_walked_player_by_player(order: Seq<usize>, k: nat, j: int)
    requires
        0 <= j < k <= order.len(),
    ensures
        orders::order_visits(order, k).len() == k + 1,
        orders::order_visits(order, k)[0] == 0,
        orders::order_visits(order, k)[j + 1] == coalition::with_member(
            orders::order_visits(order, k)[j],
            order[j] as int,
        ),
    decreases k,
{
    lemma_visits(order, k);
    assert(orders::order_visits(order, k)[j + 1] == orders::along(order, (j + 1) as nat));
    assert(orders::order_visits(order, k)[j] == orders::along(order, j as nat));
}

proof fn lemma_visits(order: Seq<usize>, k: nat)
    ensures
        orders::order_visits(order, k).len() == k + 1,
        forall|j: int|
            0 <= j <= k ==> #[trigger] orders::order_visits(order, k)[j] == orders::along(
                order,
                j as nat,
            ),
    decreases k,
{
    if k > 0 {
        lemma_visits(order, (k - 1) as nat);
    }
}

/// Sampling walks every drawn order in turn: the `j`-th coalition of a walk stands `j` places
/// after all coalitions of the walks before.
pub proof fn law_drawn_orders_are_walked_in_turn(seed: u64, n: nat, c: nat, s: int, j: int)
    requires
        0 <= s < c,
        0 <= j <= n,
    ensures
        shapley::sampled_visits(seed, n, c).len() == c * (n + 1),
        0 <= s * (n + 1) + j < c * (n + 1),
        shapley::sampled_visits(seed, n, c)[s * (n + 1) + j] == orders::order_visits(
            orders::drawn_order(seed, n, s as nat),
            n,
        )[j],
    decreases c,
{
    lemma_sampled_len(seed, n, c);
    lemma_sampled_len(seed, n, (c - 1) as nat);
    lemma_visits(orders::drawn_order(seed, n, (c - 1) as nat), n);
    assert(s * (n + 1) + j < (s + 1) * (n + 1) && 0 <= s * (n + 1)) by (nonlinear_arith)
        requires
            0 <= s,
            0 <= j <= n,
    ;
    assert((s + 1) * (n + 1) <= c * (n + 1)) by (nonlinear_arith)
        requires
            s + 1 <= c,
            0 <= n,
    ;
    if s < c - 1 {
        law_drawn_orders_are_walked_in_turn(seed, n, (c - 1) as nat, s, j);
    }
}

proof fn lemma_sampled_len(seed: u64, n: nat, c: nat)
    ensures
        shapley::sampled_visits(seed, n, c).len() == c * (n + 1),
    decreases c,
{
    if c > 0 {
        lemma_sampled_len(seed, n, (c - 1) as nat);
        lemma_visits(orders::drawn_order(seed, n, (c - 1) as nat), n);
        assert(c * (n + 1) == (c - 1) * (n + 1) + (n + 1)) by (nonlinear_arith);
    } else {
        assert(0 * (n + 1) == 0) by (nonlinear_arith);
    }
}

/// Draws are ranked exactly where there are components, draws of all of them, and blocks to read
/// them in.
pub proof fn law_ranked_draws<N>(draws: ContributionDraws<N>, n_components: nat, block_size: usize)
    ensures
        root_cause::draws_refusal(draws, n_components, block_size) is None <==> n_components > 0
            && block_size > 0 && draws.n_draws > 0 && draws.columns@.len() >= n_components,
{
}

/// Draws are ranked over graphs exactly where every component has a column, every draw has a
/// graph and every graph a weight, and the weights have a scale.
pub proof fn law_ranked_graphs<N: Amount>(
    n_components: nat,
    graphs: WeightedGraphSamples<N>,
    draws: ContributionDraws<N>,
)
    ensures
        root_cause::graph_refusal(n_components, graphs, draws) is None <==> {
            &&& draws.columns@.len() >= n_components
            &&& draws.n_draws == graphs.n_samples
            &&& graphs.weights@.len() == graphs.n_samples
            &&& root_cause::scale_of(graphs.weights@) is Ok
        },
{
}

/// A ranking by moments holds every component once for every time it is given, each with the
/// moments of its own column.
pub proof fn law_rankings_hold_every_component<N: Amount>(
    r: Result<Vec<RootCauseRank<N>>, AttributionError>,
    weights: Seq<N>,
    draws: ContributionDraws<N>,
    components: Seq<ComponentId>,
    q: int,
)
    requires
        root_cause::is_moment_ranking(r, weights, draws, components),
        0 <= q < components.len(),
    ensures
        match r {
            Ok(ranks) => {
                &&& ranks@.len() == components.len()
                &&& root_cause::moments_of(
                    weights,
                    draws.columns@[q]@,
                    draws.n_draws as nat,
                ) matches Ok(moments) && ranks@.contains(root_cause::ranked(moments, components[q]))
            },
            Err(_) => exists|p: int|
                0 <= p < components.len() && root_cause::moments_of(
                    weights,
                    (#[trigger] draws.columns@[p])@,
                    draws.n_draws as nat,
                ) is Err,
        },
{
    if let Ok(ranks) = r {
        let given = root_cause::moment_ranks(weights, draws, components);
        arrange::law_arranging_keeps_values(given);
        assert(draws.columns@[q]@ == draws.columns@[q]@);
        let own = given[q];
        given.to_multiset_ensures();
        ranks@.to_multiset_ensures();
        assert(given.contains(own));
        assert(given.to_multiset().count(own) > 0);
        assert(ranks@.to_multiset().count(own) > 0);
    }
}

/// Before any value there is no mass, no mean and no spread, and draws without weights weigh the
/// same.
pub proof fn law_empty_moments_are_nought<N: Amount>(val: spec_fn(N) -> real, n: nat, i: int)
    requires
        efficiency::is_exact(val),
        0 <= i < n,
    ensures
        root_cause::no_moments::<N>().mass == N::nil(),
        root_cause::no_moments::<N>().mean == N::nil(),
        root_cause::no_moments::<N>().m2 == N::nil(),
        root_cause::equal_weights::<N>(n).len() == n,
        val(root_cause::equal_weights::<N>(n)[i]) == 1 as real,
{
}

proof fn lemma_ready(
    parents: Seq<Seq<DenseNodeId>>,
    rank: spec_fn(int) -> nat,
    done: Seq<int>,
    x: int,
) -> (y: int)
    requires
        model::respects(rank, parents),
        model::closed_under_parents(parents),
        0 <= x < parents.len(),
        !done.contains(x),
    ensures
        0 <= y < parents.len(),
        !done.contains(y),
        model::is_ready(parents, done, y),
    decreases rank(x),
{
    if model::is_ready(parents, done, x) {
        x
    } else {
        let i = choose|i: int|
            0 <= i < parents[x].len() && !done.contains((#[trigger] parents[x][i]).raw as int);
        lemma_ready(parents, rank, done, parents[x][i].raw as int)
    }
}

proof fn lemma_first_ready(parents: Seq<Seq<DenseNodeId>>, done: Seq<int>, y: int)
    requires
        0 <= y < parents.len(),
        !done.contains(y),
        model::is_ready(parents, done, y),
    ensures
        exists|x: int| model::is_next(parents, done, x),
    decreases y,
{
    if forall|z: int|
        0 <= z < y ==> done.contains(z) || !(#[trigger] model::is_ready(parents, done, z)) {
        assert(model::is_next(parents, done, y));
    } else {
        let z = choose|z: int|
            0 <= z < y && !(done.contains(z) || !(#[trigger] model::is_ready(parents, done, z)));
        lemma_first_ready(parents, done, z);
    }
}

proof fn lemma_left(done: Seq<int>, n: nat) -> (x: int)
    requires
        done.no_duplicates(),
        done.len() < n,
        forall|j: int| 0 <= j < done.len() ==> 0 <= #[trigger] done[j] < n,
    ensures
        0 <= x < n,
        !done.contains(x),
{
    let all = vstd::set_lib::set_int_range(0, n as int);
    vstd::set_lib::lemma_int_range(0, n as int);
    done.unique_seq_to_set();
    if forall|x: int| 0 <= x < n ==> done.contains(x) {
        assert forall|x: int| all.contains(x) implies done.to_set().contains(x) by {
            assert(done.contains(x));
        }
        vstd::set_lib::lemma_len_subset(all, done.to_set());
    }
    choose|x: int| 0 <= x < n && !done.contains(x)
}

proof fn lemma_schedule(parents: Seq<Seq<DenseNodeId>>, k: nat)
    requires
        model::acyclic(parents),
        model::closed_under_parents(parents),
        k <= parents.len(),
    ensures
        model::schedule(parents, k).len() == k,
        model::schedule(parents, k).no_duplicates(),
        forall|j: int|
            0 <= j < k ==> 0 <= #[trigger] model::schedule(parents, k)[j] < parents.len(),
        k < parents.len() ==> exists|x: int|
            model::is_next(parents, model::schedule(parents, k), x),
    decreases k,
{
    if k > 0 {
        lemma_schedule(parents, (k - 1) as nat);
        let done = model::schedule(parents, (k - 1) as nat);
        let x = choose|x: int| model::is_next(parents, done, x);
        assert(model::is_next(parents, done, x));
        assert(model::schedule(parents, k) == done.push(x));
    }
    if k < parents.len() {
        let done = model::schedule(parents, k);
        let rank = choose|rank: spec_fn(int) -> nat| model::respects(rank, parents);
        let x = lemma_left(done, parents.len());
        let y = lemma_ready(parents, rank, done, x);
        lemma_first_ready(parents, done, y);
    }
}

/// A model is compiled by placing, again and again, the lowest node whose parents are all placed:
/// the parents of a node come before it, and a lower node that does not waits for a parent.
pub proof fn law_the_lowest_ready_node_comes_next(parents: Seq<Seq<DenseNodeId>>, k: nat, x: int)
    requires
        model::acyclic(parents),
        model::closed_under_parents(parents),
        k < parents.len(),
        x == model::schedule(parents, k + 1)[k as int],
    ensures
        model::schedule(parents, k + 1).drop_last() == model::schedule(parents, k),
        0 <= x < parents.len(),
        !model::schedule(parents, k).contains(x),
        forall|i: int|
            0 <= i < parents[x].len() ==> model::schedule(parents, k).contains(
                (#[trigger] parents[x][i]).raw as int,
            ),
        forall|y: int|
            0 <= y < x ==> model::schedule(parents, k).contains(y) || exists|i: int|
                0 <= i < parents[y].len() && !model::schedule(parents, k).contains(
                    (#[trigger] parents[y][i]).raw as int,
                ),
{
    lemma_schedule(parents, k);
    let done = model::schedule(parents, k);
    let next = choose|next: int| model::is_next(parents, done, next);
    assert(model::schedule(parents, k + 1) == done.push(next));
    assert(model::is_next(parents, done, x));
    assert forall|y: int| 0 <= y < x implies done.contains(y) || exists|i: int|
        0 <= i < parents[y].len() && !done.contains((#[trigger] parents[y][i]).raw as int) by {
        assert(done.contains(y) || !model::is_ready(parents, done, y));
    }
}

/// A compiled model has the given variables and, for every node, the parents given for it.
pub proof fn law_compiled_models_keep_the_parents(
    variables: Seq<VariableId>,
    parents: Seq<Seq<DenseNodeId>>,
    k: int,
)
    requires
        model::acyclic(parents),
        model::closed_under_parents(parents),
        parents.len() <= u32::MAX,
        0 <= k < parents.len(),
    ensures
        model::compiled(variables, parents).variables == variables,
        model::compiled(variables, parents).gathers.len() == parents.len(),
        0 <= model::compiled(variables, parents).child(k) < parents.len(),
        model::compiled(variables, parents).parents(k) == parents[model::compiled(
            variables,
            parents,
        ).child(k)],
{
    lemma_schedule(parents, parents.len());
    assert(0 <= model::schedule(parents, parents.len())[k] < parents.len());
}

/// A payoff that is cached is a hit and is not evaluated again; any other is a miss, is evaluated
/// once, and is offered to the cache.
pub proof fn law_cached_payoffs_are_not_evaluated<N>(meter: MeterState<N>, mask: u64, value: N)
    requires
        meter.evaluations < u64::MAX,
        meter.cache.hits < u64::MAX,
        meter.cache.misses < u64::MAX,
    ensures
        meter.cache.found(CoalitionKey { mask, tag: 0 }) is Some ==> {
            &&& meter.after(mask, value).evaluations == meter.evaluations
            &&& meter.after(mask, value).cache.hits == meter.cache.hits + 1
            &&& meter.after(mask, value).cache.misses == meter.cache.misses
            &&& meter.after(mask, value).cache.used_bytes == meter.cache.used_bytes
        },
        meter.cache.found(CoalitionKey { mask, tag: 0 }) is None ==> {
            &&& meter.after(mask, value).evaluations == meter.evaluations + 1
            &&& meter.after(mask, value).cache.hits == meter.cache.hits
            &&& meter.after(mask, value).cache.misses == meter.cache.misses + 1
        },
{
}

/// Every visit is a hit or a miss, and every miss an evaluation.
pub proof fn law_every_visit_is_counted<N>(
    meter: MeterState<N>,
    g: spec_fn(u64) -> Result<N, AttributionError>,
    masks: Seq<u64>,
)
    requires
        meter.evaluations + masks.len() <= u64::MAX,
        meter.cache.hits + masks.len() <= u64::MAX,
        meter.cache.misses + masks.len() <= u64::MAX,
    ensures
        meter.visited(g, masks).cache.hits + meter.visited(g, masks).cache.misses
            == meter.cache.hits + meter.cache.misses + masks.len(),
        meter.visited(g, masks).evaluations - meter.evaluations == meter.visited(
            g,
            masks,
        ).cache.misses - meter.cache.misses,
        meter.cache.hits <= meter.visited(g, masks).cache.hits <= meter.cache.hits + masks.len(),
        meter.cache.misses <= meter.visited(g, masks).cache.misses <= meter.cache.misses
            + masks.len(),
    decreases masks.len(),
{
    if masks.len() > 0 {
        law_every_visit_is_counted(meter, g, masks.drop_last());
        let before = meter.visited(g, masks.drop_last());
        law_cached_payoffs_are_not_evaluated(
            before,
            masks.last(),
            payoff::worth_of(g, masks.last()),
        );
    }
}

/// The cache of a meter is reported as it stands.
pub proof fn law_cache_reports<N>(cache: CacheState<N>)
    ensures
        cache.summary().hits == cache.hits,
        cache.summary().misses == cache.misses,
        cache.summary().bytes == cache.used_bytes,
        cache.summary().saturated == cache.saturated,
{
}

/// Sampled estimates have one degree of freedom less than samples, others none.
pub proof fn law_degrees_of_freedom<N>(estimate: ShapleyEstimate<N>)
    ensures
        estimate.budget.samples > 0 ==> allocation::freedom(estimate) + 1
            == estimate.budget.samples,
        estimate.budget.samples == 0 ==> allocation::freedom(estimate) == 0,
{
}

/// A packed result says what its estimate says, and nothing of paths, other graphs or refits.
pub proof fn law_packed_results_keep_the_estimate<N: Amount>(
    result: ChangeAttributionResult<N>,
    outcome: VariableId,
    total_change: N,
    estimate: ShapleyEstimate<N>,
    unidentified: Seq<ComponentId>,
    critical: N,
)
    requires
        allocation::is_packed(result, outcome, total_change, estimate, unidentified, critical),
    ensures
        result.outcome == outcome,
        result.total_change == total_change,
        result.unidentified@ == unidentified,
        result.interactions@ == estimate.interactions@,
        result.budget.evaluations == estimate.budget.evaluations,
        result.budget.samples == estimate.budget.samples,
        result.budget.exact_coalitions == estimate.budget.exact_coalitions,
        result.monte_carlo_stderr == estimate.monte_carlo_stderr,
        result.component_mc_stderr is Some <==> estimate.component_mc_stderr is Some,
        result.component_mc_stderr matches Some(list) ==> (estimate.component_mc_stderr matches Some(
            own,
        ) && list@ == own@),
        result.cache_stats == estimate.cache_stats,
        result.path_breakdown@.len() == 0,
        result.graph_sensitivity is None,
        result.fit_uncertainty is None,
{
}

/// In a sequence the empty coalition is visited first, and each component then joins those before
/// it, and, where there are any, those before it but the last.
pub proof fn law_sequences_are_walked_step_by_step(seats: Seq<usize>, k: int)
    requires
        0 <= k < seats.len(),
    ensures
        sequential::sequence_visits(seats, 0) == seq![0u64],
        sequential::sequence_visits(seats, (k + 1) as nat) == sequential::sequence_visits(
            seats,
            k as nat,
        ) + sequential::step_visits(seats, k),
        sequential::step_visits(seats, k)[0] == coalition::with_member(
            orders::along(seats, k as nat),
            seats[k] as int,
        ),
        k == 0 ==> sequential::step_visits(seats, k).len() == 1,
        k > 0 ==> {
            &&& sequential::step_visits(seats, k).len() == 3
            &&& sequential::step_visits(seats, k)[1] == coalition::without_member(
                orders::along(seats, k as nat),
                seats[k - 1] as int,
            )
            &&& sequential::step_visits(seats, k)[2] == coalition::with_member(
                sequential::step_visits(seats, k)[1],
                seats[k] as int,
            )
        },
{
    assert(orders::along(seats, (k + 1) as nat) == coalition::with_member(
        orders::along(seats, k as nat),
        seats[k] as int,
    ));
}

/// A component takes its seat exactly where it is a player, fits into a coalition, and is not
/// seated already.
pub proof fn law_seats_are_taken_once(
    order: Seq<ComponentId>,
    at: spec_fn(ComponentId) -> Option<usize>,
    k: int,
)
    ensures
        sequential::seat_refusal(order, at, k) is None <==> (at(order[k]) matches Some(place)
            && place < 64 && !coalition::member(
            orders::along(sequential::seats(order, at), k as nat),
            place as int,
        )),
{
}

/// All coalitions that a step visits have a worth.
pub open spec fn step_succeeds<N>(
    g: spec_fn(u64) -> Result<N, AttributionError>,
    seats: Seq<usize>,
    k: int,
) -> bool {
    forall|j: int|
        0 <= j < sequential::step_visits(seats, k).len() ==> g(
            #[trigger] sequential::step_visits(seats, k)[j],
        ) is Ok
}

/// A sequence succeeds exactly where the empty coalition has a worth, every component takes its
/// seat, and every coalition visited has a worth.
pub proof fn law_sequences_succeed_step_by_step<N>(
    g: spec_fn(u64) -> Result<N, AttributionError>,
    order: Seq<ComponentId>,
    at: spec_fn(ComponentId) -> Option<usize>,
    k: nat,
)
    ensures
        sequential::sequence_failure(g, order, at, k) is None <==> g(0) is Ok && forall|i: int|
            0 <= i < k ==> (#[trigger] sequential::seat_refusal(order, at, i)) is None
                && step_succeeds(g, sequential::seats(order, at), i),
    decreases k,
{
    if k == 0 {
        shares::law_walks_stop_at_the_first_failure(g, seq![0u64]);
        assert(seq![0u64][0] == 0);
    } else {
        law_sequences_succeed_step_by_step(g, order, at, (k - 1) as nat);
        shares::law_walks_stop_at_the_first_failure(
            g,
            sequential::step_visits(sequential::seats(order, at), k - 1),
        );
        assert(sequential::seat_refusal(order, at, k - 1) is None || sequential::seat_refusal(
            order,
            at,
            k - 1,
        ) is Some);
    }
}

proof fn lemma_shuffle_keeps(order: Seq<usize>, state: u64, i: nat, p: int)
    requires
        i < order.len(),
        i < p < order.len(),
    ensures
        orders::shuffled(order, state, i).0.len() == order.len(),
        orders::shuffled(order, state, i).0[p] == order[p],
    decreases i,
{
    if i > 0 {
        let next = state.wrapping_add(execution::STATE_STEP);
        let j = execution::output(next) as int % (i + 1) as int;
        lemma_shuffle_keeps(orders::exchanged(order, i as int, j), next, (i - 1) as nat, p);
    }
}

/// A shuffle draws what ends up last from everything up to there, by the next output of the
/// stream, and leaves what comes after it.
pub proof fn law_shuffles_draw_from_what_is_left(order: Seq<usize>, state: u64, i: nat, p: int)
    requires
        0 < i < order.len(),
        i < p < order.len(),
    ensures
        orders::shuffled(order, state, i).0[i as int] == order[execution::output(
            state.wrapping_add(execution::STATE_STEP),
        ) as int % (i + 1) as int],
        orders::shuffled(order, state, i).0[p] == order[p],
        orders::shuffled(order, state, 0).0 == order,
{
    let next = state.wrapping_add(execution::STATE_STEP);
    let j = execution::output(next) as int % (i + 1) as int;
    lemma_shuffle_keeps(order, state, i, p);
    lemma_shuffle_keeps(
        orders::exchanged(order, i as int, j),
        next,
        (i - 1) as nat,
        i as int,
    );
}

/// The slots of a dense index are laid out for a number of players that is not too large, one for
/// each coalition and all of them empty; nothing else about the cache changes.
pub proof fn law_dense_slots_are_laid_out<N>(cache: CacheState<N>, n_players: usize)
    ensures
        cache.enabled && 1 <= n_players <= 16 ==> (cache.indexed(n_players).dense matches Some(
            slots,
        ) && slots.len() == power2::pow2(n_players as nat) && forall|i: int|
            0 <= i < slots.len() ==> (#[trigger] slots[i]) is None),
        !cache.enabled || n_players == 0 || n_players > 16 ==> cache.indexed(n_players) == cache,
        cache.indexed(n_players).sparse == cache.sparse,
        cache.indexed(n_players).used_bytes == cache.used_bytes,
        cache.indexed(n_players).hits == cache.hits,
        cache.indexed(n_players).misses == cache.misses,
{
}

/// The entries that a cache reports are those it holds, as far as the counter goes.
pub proof fn law_reported_entries_are_held<N>(cache: CacheState<N>)
    ensures
        coalition::held(cache) <= u64::MAX ==> cache.summary().entries == coalition::held(cache),
        coalition::held(cache) > u64::MAX ==> cache.summary().entries == u64::MAX,
{
}

/// A change is attributed only where nothing refuses it and the whole change can be computed; a
/// refusal is the error.
pub proof fn law_attributions_are_admitted<N: Amount, E: Engine<N>>(
    r: Result<ChangeAttributionResult<N>, AttributionError>,
    model: ModelView,
    baseline: Seq<MechanismSlot<N>>,
    comparison: Seq<MechanismSlot<N>>,
    query: ChangeAttributionQuery,
    options: ChangeOptions,
    engine: E,
    ctx: ExecutionContext,
)
    requires
        distribution::is_attribution(
            r,
            model,
            baseline,
            comparison,
            query,
            options,
            engine,
            ctx,
            None,
        ),
    ensures
        match distribution::distribution_refusal::<N, E>(
            model,
            query,
            options.n_samples,
            None,
            engine,
        ) {
            Some(error) => r == Err::<ChangeAttributionResult<N>, AttributionError>(error),
            None => r matches Ok(result) ==> result.outcome == query.outcome,
        },
{
}

} // verus!
