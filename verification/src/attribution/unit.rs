//! Attribution of each unit's outcome to the parents of the outcome.
//!
//! The outcome mechanism is evaluated on parent values that are factual for players in the
//! coalition and average for the others, with the unit's own noise throughout.
//!
//! SPDX-License-Identifier: MIT OR Apache-2.0

use crate::attribution::amount::Amount;
use crate::attribution::change;
use crate::attribution::change::UNIT_STREAM;
use crate::attribution::coalition;
use crate::attribution::distribution;
use crate::attribution::engine::Engine;
use crate::attribution::error::AttributionError;
use crate::attribution::model::{CausalModel, MechanismSlot, ModelView};
use crate::attribution::payoff;
use crate::attribution::payoff::CoalitionPayoff;
use crate::attribution::result::{CacheStats, ComputeBudget, UnitChangeResult};
use crate::attribution::shapley;
use crate::attribution::shapley::ShapleyEstimate;
use crate::attribution::table;
use crate::attribution::table::NodeTable;
use crate::execution;
use crate::execution::ExecutionContext;
use crate::ids::{ComponentId, DenseNodeId};
use crate::query::attribution::{
    AllocationMethod, AttributionComponents, ShapleyConfig, UnitChangeQuery,
};
use vstd::prelude::*;

verus! {

/// Message for components that are not inputs.
pub const INPUTS_REQUIRED: &'static str = "unit_change requires AttributionComponents::Inputs";

/// Message for an allocation other than Shapley values.
pub const SHAPLEY_REQUIRED: &'static str = "unit_change supports Shapley allocation";

/// Message for an outcome without parents.
pub const PARENTS_REQUIRED: &'static str = "unit_change requires parents of the outcome";

/// Seed of one unit's permutations.
pub open spec fn seed_of(base: u64, row: usize) -> u64 {
    execution::mixed(execution::mixed(UNIT_STREAM, base), row as u64)
}

/// Seed of one unit's permutations.
#[must_use]
pub fn unit_seed(base: u64, row: usize) -> (seed: u64)
    ensures
        seed == seed_of(base, row),
{
    change::stream_tag(change::stream_tag(UNIT_STREAM, base), row as u64)
}

/// Units draw their permutations from streams of their own.
pub proof fn law_units_have_distinct_seeds(base: u64, left: usize, right: usize)
    requires
        left != right,
    ensures
        seed_of(base, left) != seed_of(base, right),
{
    execution::law_streams_of_one_master_are_distinct(
        execution::mixed(UNIT_STREAM, base),
        left as u64,
        right as u64,
    );
}

/// Different base seeds give a unit different seeds.
pub proof fn law_base_seeds_are_kept_apart(left: u64, right: u64, row: usize)
    requires
        left != right,
    ensures
        seed_of(left, row) != seed_of(right, row),
{
    execution::law_streams_of_one_master_are_distinct(UNIT_STREAM, left, right);
    execution::law_streams_of_one_id_are_distinct(
        execution::mixed(UNIT_STREAM, left),
        execution::mixed(UNIT_STREAM, right),
        row as u64,
    );
}

/// Standard errors of means over independent units.
pub open spec fn pooled<N: Amount>(sums: Seq<N>, n_units: N) -> Seq<N> {
    sums.map_values(|s: N| s.root().over(n_units))
}

/// Standard error of each player's mean over units, from the sums of the units' squared
/// standard errors.
#[must_use]
pub fn pooled_stderr<N: Amount>(sums: &[N], n_units: N) -> (errors: Vec<N>)
    ensures
        errors@ == pooled(sums@, n_units),
{
    let mut errors: Vec<N> = Vec::new();
    while errors.len() < sums.len()
        invariant
            errors@.len() <= sums@.len(),
            errors@ == pooled(sums@, n_units).take(errors@.len() as int),
        decreases sums.len() - errors.len(),
    {
        errors.push(sums[errors.len()].square_root().quotient(n_units));
        assert(errors@ =~= pooled(sums@, n_units).take(errors@.len() as int));
    }
    assert(errors@ =~= pooled(sums@, n_units));
    errors
}

/// Parent values of a coalition: factual for its players, average for the others.
pub open spec fn mixture<N>(factual: Seq<N>, reference: Seq<N>, mask: u64) -> Seq<N> {
    Seq::new(
        factual.len(),
        |i: int|
            if i < 64 && coalition::member(mask, i) {
                factual[i]
            } else {
                reference[i]
            },
    )
}

/// The game of one unit.
pub open spec fn unit_game<N: Amount, E: Engine<N>>(
    engine: E,
    slot: MechanismSlot<N>,
    factual: Seq<N>,
    reference: Seq<N>,
    noise: N,
) -> spec_fn(u64) -> Result<N, AttributionError> {
    |mask: u64| engine.evaluated(slot, mixture(factual, reference, mask), noise)
}

/// Payoff of one unit.
pub struct UnitPayoff<'a, N, E> {
    /// Engine.
    pub engine: &'a E,
    /// Mechanism of the outcome.
    pub slot: &'a MechanismSlot<N>,
    /// The unit's parent values.
    pub factual: Vec<N>,
    /// Average parent values.
    pub reference: &'a Vec<N>,
    /// The unit's noise.
    pub noise: N,
}

impl<'a, N: Amount, E: Engine<N>> CoalitionPayoff<N> for UnitPayoff<'a, N, E> {
    open spec fn ready(&self) -> bool {
        self.factual@.len() == self.reference@.len()
    }

    open spec fn worth(&self, mask: u64) -> Result<N, AttributionError> {
        self.engine.evaluated(
            *self.slot,
            mixture(self.factual@, self.reference@, mask),
            self.noise,
        )
    }

    fn value(&mut self, mask: u64) -> Result<N, AttributionError> {
        let mut parents: Vec<N> = Vec::new();
        while parents.len() < self.factual.len()
            invariant
                parents@.len() <= self.factual@.len(),
                self.factual@.len() == self.reference@.len(),
                parents@ == mixture(self.factual@, self.reference@, mask).take(
                    parents@.len() as int,
                ),
            decreases self.factual.len() - parents.len(),
        {
            let i: usize = parents.len();
            let value = if i < 64 && coalition::contains(mask, i) {
                self.factual[i]
            } else {
                self.reference[i]
            };
            parents.push(value);
            assert(parents@ =~= mixture(self.factual@, self.reference@, mask).take(
                parents@.len() as int,
            ));
        }
        assert(parents@ =~= mixture(self.factual@, self.reference@, mask));
        self.engine.evaluate(self.slot, &parents, self.noise)
    }
}

/// Parent values of one row.
pub open spec fn row_values<N>(
    table: NodeTable<N>,
    parents: Seq<DenseNodeId>,
    row: usize,
) -> Seq<N> {
    Seq::new(parents.len(), |i: int| table.at(parents[i].raw as int, row as int))
}

/// Average parent values.
pub open spec fn averages<N: Amount>(table: NodeTable<N>, parents: Seq<DenseNodeId>) -> Seq<N> {
    Seq::new(parents.len(), |i: int| table::mean(table.columns@[parents[i].raw as int]@))
}

/// Components of parents.
pub open spec fn parent_components(
    model: ModelView,
    parents: Seq<DenseNodeId>,
) -> Seq<ComponentId> {
    parents.map_values(|p: DenseNodeId| distribution::component_of(model, p.raw as int))
}

/// The first row that lies outside the table.
pub open spec fn row_fault(rows: Seq<usize>, n_rows: usize, k: nat) -> Option<AttributionError>
    decreases k,
{
    if k == 0 {
        None
    } else if row_fault(rows, n_rows, (k - 1) as nat) is Some {
        row_fault(rows, n_rows, (k - 1) as nat)
    } else if rows[k - 1] >= n_rows {
        Some(
            AttributionError::PopulationOutOfRange {
                kind: "row",
                index: rows[k - 1],
                limit: n_rows,
            },
        )
    } else {
        None
    }
}

proof fn lemma_row_fault_stays(rows: Seq<usize>, n_rows: usize, k: nat, n: nat)
    requires
        k <= n,
        row_fault(rows, n_rows, k) is Some,
    ensures
        row_fault(rows, n_rows, n) == row_fault(rows, n_rows, k),
    decreases n,
{
    if k < n {
        lemma_row_fault_stays(rows, n_rows, k, (n - 1) as nat);
    }
}

/// Check that rows lie in a table and are not too many.
pub fn check_rows(rows: &Vec<usize>, n_rows: usize, max_units: usize) -> (r: Result<
    (),
    AttributionError,
>)
    ensures
        r == match row_refusal(rows@, n_rows, max_units) {
            Some(error) => Err(error),
            None => Ok(()),
        },
        r is Ok ==> forall|k: int| 0 <= k < rows@.len() ==> #[trigger] rows@[k] < n_rows,
{
    let mut k: usize = 0;
    while k < rows.len()
        invariant
            0 <= k <= rows@.len(),
            row_fault(rows@, n_rows, k as nat) is None,
            forall|i: int| 0 <= i < k ==> #[trigger] rows@[i] < n_rows,
        decreases rows.len() - k,
    {
        if rows[k] >= n_rows {
            proof {
                lemma_row_fault_stays(rows@, n_rows, (k + 1) as nat, rows@.len());
            }
            return Err(
                AttributionError::PopulationOutOfRange {
                    kind: "row",
                    index: rows[k],
                    limit: n_rows,
                },
            );
        }
        k = k + 1;
    }
    if rows.len() > max_units {
        return Err(
            AttributionError::SizeLimit { kind: "units", requested: rows.len(), max: max_units },
        );
    }
    Ok(())
}

/// Why rows are refused: one lies outside the table, or they are too many.
pub open spec fn row_refusal(rows: Seq<usize>, n_rows: usize, max_units: usize) -> Option<
    AttributionError,
> {
    if row_fault(rows, n_rows, rows.len()) is Some {
        row_fault(rows, n_rows, rows.len())
    } else if rows.len() > max_units {
        Some(
            AttributionError::SizeLimit {
                kind: "units",
                requested: rows.len() as usize,
                max: max_units,
            },
        )
    } else {
        None
    }
}

/// Why an attribution is refused before a unit is evaluated.
pub open spec fn unit_refusal(
    model: ModelView,
    n_rows: usize,
    query: UnitChangeQuery,
) -> Option<AttributionError> {
    let rows = table::rows_asked(query.unit_rows, n_rows);
    if query.refusal() is Some {
        Some(AttributionError::Query(query.refusal()->0))
    } else if row_refusal(rows, n_rows, query.max_units) is Some {
        row_refusal(rows, n_rows, query.max_units)
    } else if !(query.components is Inputs) {
        Some(AttributionError::Unsupported { message: INPUTS_REQUIRED })
    } else {
        match distribution::dense(model, query.outcome) {
            None => Some(
                AttributionError::MissingVariable { role: "outcome", id: query.outcome },
            ),
            Some(outcome) => if distribution::parents_of(model, outcome as int).len() == 0 {
                Some(AttributionError::Unsupported { message: PARENTS_REQUIRED })
            } else if !(query.allocation is Shapley) {
                Some(AttributionError::Unsupported { message: SHAPLEY_REQUIRED })
            } else {
                None
            },
        }
    }
}

/// Values of the first `k` estimates, one after another.
pub open spec fn laid_out<N>(estimates: Seq<ShapleyEstimate<N>>, k: nat) -> Seq<N>
    decreases k,
{
    if k == 0 {
        Seq::empty()
    } else {
        laid_out(estimates, (k - 1) as nat) + estimates[k - 1].values@
    }
}

/// Sum of player `j`'s values over the first `k` estimates.
pub open spec fn value_sum<N: Amount>(estimates: Seq<ShapleyEstimate<N>>, j: int, k: nat) -> N
    decreases k,
{
    if k == 0 {
        N::nil()
    } else {
        value_sum(estimates, j, (k - 1) as nat).plus(estimates[k - 1].values@[j])
    }
}

/// Sum of player `j`'s squared standard errors over the first `k` estimates that have them.
pub open spec fn error_sum<N: Amount>(estimates: Seq<ShapleyEstimate<N>>, j: int, k: nat) -> N
    decreases k,
{
    if k == 0 {
        N::nil()
    } else {
        let before = error_sum(estimates, j, (k - 1) as nat);
        match estimates[k - 1].component_mc_stderr {
            Some(errors) => before.plus(errors@[j].times(errors@[j])),
            None => before,
        }
    }
}

/// Number of the first `k` estimates that report standard errors.
pub open spec fn reporting<N>(estimates: Seq<ShapleyEstimate<N>>, k: nat) -> nat
    decreases k,
{
    if k == 0 {
        0
    } else {
        reporting(estimates, (k - 1) as nat) + if estimates[k - 1].component_mc_stderr is Some {
            1nat
        } else {
            0
        }
    }
}

/// A sum of counts that stops at the end of its range.
pub open spec fn added(a: u64, b: u64) -> u64 {
    if a + b > u64::MAX {
        u64::MAX
    } else {
        (a + b) as u64
    }
}

/// Work of the first `k` estimates.
pub open spec fn work<N>(estimates: Seq<ShapleyEstimate<N>>, k: nat) -> ComputeBudget
    decreases k,
{
    if k == 0 {
        ComputeBudget { evaluations: 0, samples: 0, exact_coalitions: 0 }
    } else {
        let before = work(estimates, (k - 1) as nat);
        let own = estimates[k - 1].budget;
        ComputeBudget {
            evaluations: added(before.evaluations, own.evaluations),
            samples: added(before.samples, own.samples),
            exact_coalitions: 0,
        }
    }
}

/// Cache use of the first `k` estimates: entries count every lookup.
pub open spec fn cache_use<N>(estimates: Seq<ShapleyEstimate<N>>, k: nat) -> CacheStats
    decreases k,
{
    if k == 0 {
        CacheStats { hits: 0, misses: 0, entries: 0, bytes: 0, saturated: false }
    } else {
        let before = cache_use(estimates, (k - 1) as nat);
        let own = estimates[k - 1].cache_stats;
        let hits = added(before.hits, own.hits);
        let misses = added(before.misses, own.misses);
        CacheStats {
            hits,
            misses,
            entries: added(hits, misses),
            bytes: 0,
            saturated: before.saturated || own.saturated,
        }
    }
}

/// Number of units, at least one.
pub open spec fn unit_count<N: Amount>(k: nat) -> N {
    N::counted(
        if k == 0 {
            1
        } else {
            k
        },
    )
}

/// Averages over units, errors of the averages, and total work.
pub open spec fn summarizes<N: Amount>(
    result: UnitChangeResult<N>,
    estimates: Seq<ShapleyEstimate<N>>,
    n_players: nat,
) -> bool {
    let k = estimates.len();
    let errors = pooled(
        Seq::new(n_players, |j: int| error_sum(estimates, j, k)),
        unit_count::<N>(k),
    );
    &&& result.contributions@ == laid_out(estimates, k)
    &&& result.mean_contributions@ == Seq::new(
        n_players,
        |j: int| value_sum(estimates, j, k).over(unit_count::<N>(k)),
    )
    &&& result.budget == work(estimates, k)
    &&& result.cache_stats == cache_use(estimates, k)
    &&& if reporting(estimates, k) > 0 {
        &&& shapley::listed(result.component_mc_stderr) == Some(errors)
        &&& result.monte_carlo_stderr == Some(
            shapley::total(errors).over(N::counted(n_players)),
        )
    } else {
        result.component_mc_stderr is None && result.monte_carlo_stderr is None
    }
}

/// Configuration of one unit.
pub open spec fn unit_config(config: ShapleyConfig, row: usize) -> ShapleyConfig {
    ShapleyConfig { seed: seed_of(config.seed, row), ..config }
}

/// Running totals over units.
struct UnitTotals<N> {
    contributions: Vec<N>,
    sums: Vec<N>,
    error_sums: Vec<N>,
    reporting: bool,
    budget: ComputeBudget,
    cache_stats: CacheStats,
}

spec fn hold<N: Amount>(
    totals: UnitTotals<N>,
    estimates: Seq<ShapleyEstimate<N>>,
    n: nat,
) -> bool {
    let k = estimates.len();
    &&& totals.contributions@ == laid_out(estimates, k)
    &&& totals.sums@ == Seq::new(n, |j: int| value_sum(estimates, j, k))
    &&& totals.error_sums@ == Seq::new(n, |j: int| error_sum(estimates, j, k))
    &&& totals.reporting == (reporting(estimates, k) > 0)
    &&& totals.budget == work(estimates, k)
    &&& totals.cache_stats == cache_use(estimates, k)
}

/// Totals of the first estimates do not depend on later ones.
proof fn lemma_totals_of_prefix<N: Amount>(
    estimates: Seq<ShapleyEstimate<N>>,
    last: ShapleyEstimate<N>,
    j: int,
    k: nat,
)
    requires
        k <= estimates.len(),
    ensures
        laid_out(estimates.push(last), k) == laid_out(estimates, k),
        value_sum(estimates.push(last), j, k) == value_sum(estimates, j, k),
        error_sum(estimates.push(last), j, k) == error_sum(estimates, j, k),
        reporting(estimates.push(last), k) == reporting(estimates, k),
        work(estimates.push(last), k) == work(estimates, k),
        cache_use(estimates.push(last), k) == cache_use(estimates, k),
    decreases k,
{
    if k > 0 {
        lemma_totals_of_prefix(estimates, last, j, (k - 1) as nat);
        assert(estimates.push(last)[k - 1] == estimates[k - 1]);
    }
}

fn no_totals<N: Amount>(n: usize) -> (totals: UnitTotals<N>)
    ensures
        hold(totals, Seq::empty(), n as nat),
{
    let mut sums: Vec<N> = Vec::new();
    let mut error_sums: Vec<N> = Vec::new();
    while sums.len() < n
        invariant
            sums@.len() <= n,
            error_sums@.len() == sums@.len(),
            forall|j: int| 0 <= j < sums@.len() ==> #[trigger] sums@[j] == N::nil(),
            forall|j: int| 0 <= j < sums@.len() ==> #[trigger] error_sums@[j] == N::nil(),
        decreases n - sums.len(),
    {
        sums.push(N::zero());
        error_sums.push(N::zero());
    }
    let totals = UnitTotals {
        contributions: Vec::new(),
        sums,
        error_sums,
        reporting: false,
        budget: ComputeBudget::none_spent(),
        cache_stats: CacheStats::unused(),
    };
    proof {
        let none: Seq<ShapleyEstimate<N>> = Seq::empty();
        assert(totals.contributions@ =~= laid_out(none, 0));
        assert(totals.sums@ =~= Seq::new(n as nat, |j: int| value_sum(none, j, 0)));
        assert(totals.error_sums@ =~= Seq::new(n as nat, |j: int| error_sum(none, j, 0)));
    }
    totals
}

fn add_estimate<N: Amount>(
    totals: &mut UnitTotals<N>,
    estimate: &ShapleyEstimate<N>,
    n: usize,
    Ghost(estimates): Ghost<Seq<ShapleyEstimate<N>>>,
)
    requires
        hold(*old(totals), estimates, n as nat),
        estimate.values@.len() == n,
        estimate.component_mc_stderr matches Some(errors) ==> errors@.len() == n,
    ensures
        hold(*final(totals), estimates.push(*estimate), n as nat),
{
    let ghost k = estimates.len();
    let ghost all = estimates.push(*estimate);
    let ghost before = *totals;
    proof {
        lemma_totals_of_prefix(estimates, *estimate, 0, k);
    }
    totals.budget = ComputeBudget {
        evaluations: totals.budget.evaluations.saturating_add(estimate.budget.evaluations),
        samples: totals.budget.samples.saturating_add(estimate.budget.samples),
        exact_coalitions: 0,
    };
    let hits: u64 = totals.cache_stats.hits.saturating_add(estimate.cache_stats.hits);
    let misses: u64 = totals.cache_stats.misses.saturating_add(estimate.cache_stats.misses);
    totals.cache_stats = CacheStats {
        hits,
        misses,
        entries: hits.saturating_add(misses),
        bytes: 0,
        saturated: totals.cache_stats.saturated || estimate.cache_stats.saturated,
    };
    if let Some(errors) = &estimate.component_mc_stderr {
        let mut j: usize = 0;
        while j < n
            invariant
                0 <= j <= n,
                errors@.len() == n,
                totals.error_sums@.len() == n,
                before.error_sums@.len() == n,
                totals.contributions == before.contributions,
                totals.sums == before.sums,
                totals.reporting == before.reporting,
                totals.budget == work(all, k + 1),
                totals.cache_stats == cache_use(all, k + 1),
                forall|i: int|
                    0 <= i < n ==> #[trigger] totals.error_sums@[i] == if i < j {
                        before.error_sums@[i].plus(errors@[i].times(errors@[i]))
                    } else {
                        before.error_sums@[i]
                    },
            decreases n - j,
        {
            let se = errors[j];
            let next = totals.error_sums[j].sum(se.product(se));
            totals.error_sums.set(j, next);
            j = j + 1;
        }
        totals.reporting = true;
    }
    proof {
        assert forall|j: int| 0 <= j < n implies #[trigger] totals.error_sums@[j] == error_sum(
            all,
            j,
            k + 1,
        ) by {
            lemma_totals_of_prefix(estimates, *estimate, j, k);
            assert(before.error_sums@[j] == error_sum(estimates, j, k));
        }
        assert(totals.error_sums@ =~= Seq::new(n as nat, |j: int| error_sum(all, j, k + 1)));
        assert(totals.reporting == (reporting(all, k + 1) > 0));
    }
    let mut j: usize = 0;
    while j < n
        invariant
            0 <= j <= n,
            k == estimates.len(),
            all == estimates.push(*estimate),
            estimate.values@.len() == n,
            totals.sums@.len() == n,
            before.sums@.len() == n,
            before.contributions@ == laid_out(estimates, k),
            totals.contributions@ == before.contributions@ + estimate.values@.take(j as int),
            totals.error_sums@ == Seq::new(n as nat, |j: int| error_sum(all, j, k + 1)),
            totals.reporting == (reporting(all, k + 1) > 0),
            totals.budget == work(all, k + 1),
            totals.cache_stats == cache_use(all, k + 1),
            forall|i: int|
                0 <= i < n ==> #[trigger] totals.sums@[i] == if i < j {
                    before.sums@[i].plus(estimate.values@[i])
                } else {
                    before.sums@[i]
                },
        decreases n - j,
    {
        let value = estimate.values[j];
        totals.contributions.push(value);
        let next = totals.sums[j].sum(value);
        totals.sums.set(j, next);
        j = j + 1;
        assert(totals.contributions@ =~= before.contributions@ + estimate.values@.take(j as int));
    }
    proof {
        assert(estimate.values@.take(n as int) =~= estimate.values@);
        assert forall|j: int| 0 <= j < n implies #[trigger] totals.sums@[j] == value_sum(
            all,
            j,
            k + 1,
        ) by {
            lemma_totals_of_prefix(estimates, *estimate, j, k);
            assert(before.sums@[j] == value_sum(estimates, j, k));
        }
        assert(totals.sums@ =~= Seq::new(n as nat, |j: int| value_sum(all, j, k + 1)));
    }
}

/// Games of the rows that are asked for.
pub open spec fn game_of_row<N: Amount, E: Engine<N>>(
    engine: E,
    model: ModelView,
    slots: Seq<MechanismSlot<N>>,
    values: NodeTable<N>,
    noise: Seq<N>,
    outcome: int,
    row: usize,
) -> spec_fn(u64) -> Result<N, AttributionError> {
    let parents = distribution::parents_of(model, outcome);
    unit_game(
        engine,
        slots[outcome],
        row_values(values, parents, row),
        averages(values, parents),
        noise[row as int],
    )
}

/// One estimate per row that is asked for.
pub open spec fn estimates_rows<N: Amount, E: Engine<N>>(
    estimates: Seq<ShapleyEstimate<N>>,
    engine: E,
    model: ModelView,
    slots: Seq<MechanismSlot<N>>,
    values: NodeTable<N>,
    noise: Seq<N>,
    outcome: int,
    rows: Seq<usize>,
    config: ShapleyConfig,
    ctx: ExecutionContext,
) -> bool {
    let players = parent_components(model, distribution::parents_of(model, outcome));
    &&& estimates.len() <= rows.len()
    &&& forall|u: int|
        #![trigger estimates[u]]
        0 <= u < estimates.len() ==> {
            &&& shapley::refusal(players.len() as usize, unit_config(config, rows[u])) is None
            &&& shapley::is_estimate(
                estimates[u],
                players,
                unit_config(config, rows[u]),
                game_of_row(engine, model, slots, values, noise, outcome, rows[u]),
                ctx,
            )
        }
}

/// Why no estimate is made for a row.
pub open spec fn fails_at<N: Amount, E: Engine<N>>(
    error: AttributionError,
    engine: E,
    model: ModelView,
    slots: Seq<MechanismSlot<N>>,
    values: NodeTable<N>,
    noise: Seq<N>,
    outcome: int,
    row: usize,
    config: ShapleyConfig,
    ctx: ExecutionContext,
) -> bool {
    shapley::is_not_made(
        error,
        distribution::parents_of(model, outcome).len(),
        unit_config(config, row),
        game_of_row(engine, model, slots, values, noise, outcome, row),
        ctx,
    )
}

/// Some coalition that a row's estimate evaluates has no worth.
pub open spec fn breaks_at<N: Amount, E: Engine<N>>(
    engine: E,
    model: ModelView,
    slots: Seq<MechanismSlot<N>>,
    values: NodeTable<N>,
    noise: Seq<N>,
    outcome: int,
    row: usize,
    config: ShapleyConfig,
) -> bool {
    payoff::first_failure(
        game_of_row(engine, model, slots, values, noise, outcome, row),
        shapley::planned_visits(
            distribution::parents_of(model, outcome).len(),
            unit_config(config, row),
        ),
    ) is Some
}

/// Rows with an estimate that nothing stopped have a worth for every coalition.
proof fn lemma_estimated_rows_hold<N: Amount, E: Engine<N>>(
    estimates: Seq<ShapleyEstimate<N>>,
    engine: E,
    model: ModelView,
    slots: Seq<MechanismSlot<N>>,
    values: NodeTable<N>,
    noise: Seq<N>,
    outcome: int,
    rows: Seq<usize>,
    config: ShapleyConfig,
    ctx: ExecutionContext,
)
    requires
        !ctx.may_stop(),
        estimates_rows(
            estimates,
            engine,
            model,
            slots,
            values,
            noise,
            outcome,
            rows,
            config,
            ctx,
        ),
    ensures
        forall|v: int|
            0 <= v < estimates.len() ==> !breaks_at(
                engine,
                model,
                slots,
                values,
                noise,
                outcome,
                #[trigger] rows[v],
                config,
            ),
{
    let parents = distribution::parents_of(model, outcome);
    let players = parent_components(model, parents);
    assert(players.len() == parents.len());
    assert forall|v: int| 0 <= v < estimates.len() implies !breaks_at(
        engine,
        model,
        slots,
        values,
        noise,
        outcome,
        #[trigger] rows[v],
        config,
    ) by {
        assert(shapley::is_estimate(
            estimates[v],
            players,
            unit_config(config, rows[v]),
            game_of_row(engine, model, slots, values, noise, outcome, rows[v]),
            ctx,
        ));
    }
}

/// Shapley configuration of an allocation.
pub open spec fn config_of(allocation: AllocationMethod) -> ShapleyConfig {
    allocation->approximation
}

/// Attribute each unit's outcome to the parents of the outcome.
///
/// `slots` holds one fitted mechanism per node and `noise` the outcome's noise in each row.
/// Every unit draws permutations of its own, so the errors of the means are those of
/// independent estimates.
pub fn unit_change<N: Amount, E: Engine<N>>(
    model: &CausalModel,
    slots: &Vec<MechanismSlot<N>>,
    values: &NodeTable<N>,
    noise: &Vec<N>,
    query: &UnitChangeQuery,
    engine: &E,
    ctx: &ExecutionContext,
) -> (r: Result<UnitChangeResult<N>, AttributionError>)
    requires
        model@.well_formed(),
        model@.variables.no_duplicates(),
        slots@.len() == model@.nodes(),
        values.fits(model@.nodes()),
        noise@.len() == values.n_rows,
    ensures
        ({
            let refusal = unit_refusal(model@, values.n_rows, *query);
            let outcome = distribution::dense(model@, query.outcome)->0 as int;
            let rows = table::rows_asked(query.unit_rows, values.n_rows);
            let players = parent_components(
                model@,
                distribution::parents_of(model@, outcome),
            );
            let config = config_of(query.allocation);
            match r {
                Ok(result) => {
                    &&& refusal is None
                    &&& result.outcome == query.outcome
                    &&& result.unit_rows@ == rows
                    &&& result.components@ == players
                    &&& exists|estimates: Seq<ShapleyEstimate<N>>|
                        {
                            &&& #[trigger] summarizes(result, estimates, players.len())
                            &&& estimates.len() == rows.len()
                            &&& estimates_rows(
                                estimates,
                                *engine,
                                model@,
                                slots@,
                                *values,
                                noise@,
                                outcome,
                                rows,
                                config,
                                *ctx,
                            )
                        }
                },
                Err(error) => if refusal is Some {
                    refusal == Some(error)
                } else {
                    exists|u: int|
                        {
                            &&& 0 <= u < rows.len()
                            &&& fails_at(
                                error,
                                *engine,
                                model@,
                                slots@,
                                *values,
                                noise@,
                                outcome,
                                #[trigger] rows[u],
                                config,
                                *ctx,
                            )
                            &&& !ctx.may_stop() ==> forall|v: int|
                                0 <= v < u ==> !breaks_at(
                                    *engine,
                                    model@,
                                    slots@,
                                    *values,
                                    noise@,
                                    outcome,
                                    #[trigger] rows[v],
                                    config,
                                )
                        }
                },
            }
        }),
{
    match query.validate() {
        Ok(_) => {},
        Err(error) => {
            return Err(AttributionError::Query(error));
        },
    }
    let rows = table::requested_rows(&query.unit_rows, values.n_rows);
    match check_rows(&rows, values.n_rows, query.max_units) {
        Ok(_) => {},
        Err(error) => {
            return Err(error);
        },
    }
    if !matches!(query.components, AttributionComponents::Inputs) {
        return Err(AttributionError::unsupported(INPUTS_REQUIRED));
    }
    let outcome: usize = match distribution::find_node(model, query.outcome) {
        Some(node) => node,
        None => {
            return Err(AttributionError::missing_var("outcome", query.outcome));
        },
    };
    let ghost parents = distribution::parents_of(model@, outcome as int);
    proof {
        model@.lemma_placed(outcome as int);
    }
    let listed: Vec<DenseNodeId> = distribution::parents_of_node(model, outcome);
    let n: usize = listed.len();
    if n == 0 {
        return Err(AttributionError::unsupported(PARENTS_REQUIRED));
    }
    let config: ShapleyConfig = match &query.allocation {
        AllocationMethod::Shapley { approximation } => *approximation,
        _ => {
            return Err(AttributionError::unsupported(SHAPLEY_REQUIRED));
        },
    };
    let mut players: Vec<ComponentId> = Vec::new();
    let mut reference: Vec<N> = Vec::new();
    while players.len() < n
        invariant
            players@.len() <= n,
            reference@.len() == players@.len(),
            n == parents.len(),
            listed@ == parents,
            model@.well_formed(),
            values.fits(model@.nodes()),
            forall|i: int| 0 <= i < n ==> (#[trigger] parents[i]).raw < model@.nodes(),
            players@ == parent_components(model@, parents).take(players@.len() as int),
            reference@ == averages(*values, parents).take(players@.len() as int),
        decreases n - players.len(),
    {
        let i: usize = players.len();
        let node: usize = listed[i].raw as usize;
        assert(parents[i as int].raw < model@.nodes());
        players.push(ComponentId::from_variable(model.variables[node]));
        reference.push(table::mean_of(&values.columns[node]));
        assert(players@ =~= parent_components(model@, parents).take(players@.len() as int));
        assert(reference@ =~= averages(*values, parents).take(players@.len() as int));
    }
    proof {
        assert(players@ =~= parent_components(model@, parents));
        assert(reference@ =~= averages(*values, parents));
    }
    let mut totals: UnitTotals<N> = no_totals(n);
    let ghost mut estimates: Seq<ShapleyEstimate<N>> = Seq::empty();
    let mut u: usize = 0;
    while u < rows.len()
        invariant
            0 <= u <= rows@.len(),
            rows@ == table::rows_asked(query.unit_rows, values.n_rows),
            forall|k: int| 0 <= k < rows@.len() ==> #[trigger] rows@[k] < values.n_rows,
            n == parents.len(),
            n == players@.len(),
            n >= 1,
            listed@ == parents,
            parents == distribution::parents_of(model@, outcome as int),
            players@ == parent_components(model@, parents),
            reference@ == averages(*values, parents),
            model@.well_formed(),
            outcome < model@.nodes(),
            slots@.len() == model@.nodes(),
            values.fits(model@.nodes()),
            noise@.len() == values.n_rows,
            forall|i: int| 0 <= i < n ==> (#[trigger] parents[i]).raw < model@.nodes(),
            estimates.len() == u,
            hold(totals, estimates, n as nat),
            estimates_rows(
                estimates,
                *engine,
                model@,
                slots@,
                *values,
                noise@,
                outcome as int,
                rows@,
                config,
                *ctx,
            ),
            unit_refusal(model@, values.n_rows, *query) is None,
            outcome == distribution::dense(model@, query.outcome)->0,
            config == config_of(query.allocation),
        decreases rows.len() - u,
    {
        let row: usize = rows[u];
        assert(rows@[u as int] < values.n_rows);
        let mut factual: Vec<N> = Vec::new();
        while factual.len() < n
            invariant
                factual@.len() <= n,
                n == parents.len(),
                listed@ == parents,
                row < values.n_rows,
                values.fits(model@.nodes()),
                forall|i: int| 0 <= i < n ==> (#[trigger] parents[i]).raw < model@.nodes(),
                factual@ == row_values(*values, parents, row).take(factual@.len() as int),
            decreases n - factual.len(),
        {
            let node: usize = listed[factual.len()].raw as usize;
            assert(parents[factual@.len() as int].raw < model@.nodes());
            assert(values.columns@[node as int]@.len() == values.n_rows);
            factual.push(values.columns[node][row]);
            assert(factual@ =~= row_values(*values, parents, row).take(factual@.len() as int));
        }
        assert(factual@ =~= row_values(*values, parents, row));
        let mut payoff = UnitPayoff {
            engine,
            slot: &slots[outcome],
            factual,
            reference: &reference,
            noise: noise[row],
        };
        let ghost g = game_of_row(
            *engine,
            model@,
            slots@,
            *values,
            noise@,
            outcome as int,
            row,
        );
        assert(payoff::game(payoff) =~= g);
        let unit = config.with_seed(unit_seed(config.seed, row));
        let estimate = match shapley::estimate_shapley(
            players.as_slice(),
            &unit,
            &mut payoff,
            ctx,
        ) {
            Ok(estimate) => estimate,
            Err(error) => {
                assert(fails_at(
                    error,
                    *engine,
                    model@,
                    slots@,
                    *values,
                    noise@,
                    outcome as int,
                    rows@[u as int],
                    config,
                    *ctx,
                ));
                proof {
                    if !ctx.may_stop() {
                        lemma_estimated_rows_hold(
                            estimates,
                            *engine,
                            model@,
                            slots@,
                            *values,
                            noise@,
                            outcome as int,
                            rows@,
                            config,
                            *ctx,
                        );
                    }
                }
                return Err(error);
            },
        };
        proof {
            assert(shapley::is_estimate(
                estimate,
                players@,
                unit_config(config, rows@[u as int]),
                g,
                *ctx,
            ));
        }
        add_estimate(&mut totals, &estimate, n, Ghost(estimates));
        proof {
            estimates = estimates.push(estimate);
        }
        u = u + 1;
    }
    let units: usize = if rows.len() == 0 {
        1
    } else {
        rows.len()
    };
    let count = N::count(units as u64);
    let mut mean_contributions: Vec<N> = Vec::new();
    while mean_contributions.len() < n
        invariant
            mean_contributions@.len() <= n,
            hold(totals, estimates, n as nat),
            mean_contributions@ == Seq::new(
                mean_contributions@.len(),
                |j: int| value_sum(estimates, j, estimates.len()).over(count),
            ),
        decreases n - mean_contributions.len(),
    {
        let j: usize = mean_contributions.len();
        assert(totals.sums@[j as int] == value_sum(estimates, j as int, estimates.len()));
        mean_contributions.push(totals.sums[j].quotient(count));
        assert(mean_contributions@ =~= Seq::new(
            mean_contributions@.len(),
            |j: int| value_sum(estimates, j, estimates.len()).over(count),
        ));
    }
    let component_mc_stderr: Option<Vec<N>> = if totals.reporting {
        Some(pooled_stderr(totals.error_sums.as_slice(), count))
    } else {
        None
    };
    let monte_carlo_stderr: Option<N> = match &component_mc_stderr {
        Some(errors) => Some(
            shapley::sum_of(errors.as_slice()).quotient(N::count(errors.len() as u64)),
        ),
        None => None,
    };
    let result = UnitChangeResult {
        outcome: query.outcome,
        unit_rows: rows,
        components: players,
        contributions: totals.contributions,
        mean_contributions,
        budget: totals.budget,
        monte_carlo_stderr,
        component_mc_stderr,
        cache_stats: totals.cache_stats,
    };
    assert(summarizes(result, estimates, n as nat));
    Ok(result)
}

} // verus!
