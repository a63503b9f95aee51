//! Attribution of a change in the mean outcome that composes fitted regressions.
//!
//! Where every player's mechanism is linear, a coalition's mean is computed from the fitted
//! coefficients on the rows of the baseline population. Otherwise it is sampled.
//!
//! SPDX-License-Identifier: MIT OR Apache-2.0

use crate::attribution::allocation;
use crate::attribution::amount::Amount;
use crate::attribution::change;
use crate::attribution::change::{DifferenceMeasure, LawPayoff};
use crate::attribution::coalition;
use crate::attribution::distribution;
use crate::attribution::distribution::{MechanismSwap, Roster};
use crate::attribution::engine;
use crate::attribution::engine::{Engine, HybridStore};
use crate::attribution::error::AttributionError;
use crate::attribution::model::{CausalModel, MechanismSlot, ModelView};
use crate::attribution::payoff;
use crate::attribution::payoff::CoalitionPayoff;
use crate::attribution::result::ChangeAttributionResult;
use crate::attribution::sequential;
use crate::attribution::table;
use crate::attribution::table::NodeTable;
use crate::execution;
use crate::execution::{ExecutionContext, RngFactory};
use crate::ids::{ComponentId, DenseNodeId};
use crate::query::attribution::{
    AllocationMethod, AttributionComponents, ChangeAttributionQuery,
};
use vstd::prelude::*;

verus! {

/// First stream of samples of the sampled payoff.
pub const ROBUST_STREAM: u64 = 0x526F_6275_7374_4D43;

/// Message for a mechanism that is not linear.
pub const NON_LINEAR: &'static str = "robust linear payoff: non-linear-family slot";

/// Message for coefficients that do not match the parents.
pub const COEFFICIENT_MISMATCH: &'static str =
    "robust linear payoff: fitted coefficient count does not match parent count";

/// Message for an outcome that is no player.
pub const OUTCOME_NOT_A_PLAYER: &'static str =
    "robust payoff: outcome is not among Shapley players";

/// Message for components that are not mechanisms.
pub const MECHANISMS_REQUIRED: &'static str =
    "distribution_change_robust requires AttributionComponents::Mechanisms";

/// Message for an allocation other than Shapley values.
pub const SHAPLEY_REQUIRED: &'static str =
    "distribution_change_robust currently supports Shapley allocation";

/// Options of the robust attribution.
#[derive(Clone, Copy, Debug, PartialEq, Eq, Structural)]
pub struct RobustChangeOptions {
    /// Largest population.
    pub max_rows: usize,
    /// Samples per coalition, where payoffs are sampled.
    pub n_samples: usize,
    /// Seed of the samples.
    pub seed: u64,
}

impl Default for RobustChangeOptions {
    fn default() -> (options: Self)
        ensures
            options == (RobustChangeOptions { max_rows: 10_000, n_samples: 4_000, seed: 0 }),
    {
        RobustChangeOptions { max_rows: 10_000, n_samples: 4_000, seed: 0 }
    }
}

/// Intercept and coefficients of a mechanism of the linear family.
pub open spec fn regression<N>(slot: MechanismSlot<N>) -> Option<(N, Seq<N>)> {
    match slot.linear() {
        Some(form) => Some((form.intercept, form.coeffs)),
        None => match slot {
            MechanismSlot::Constant { value } => Some((value, Seq::empty())),
            _ => None,
        },
    }
}

/// Whether a mechanism is of the linear family.
pub fn slot_is_linear<N: Copy>(slot: &MechanismSlot<N>) -> (yes: bool)
    ensures
        yes == regression(*slot) is Some,
{
    match slot {
        MechanismSlot::LinearGaussian { .. } => true,
        MechanismSlot::HierarchicalLinear { .. } => true,
        MechanismSlot::Bvar { .. } => true,
        MechanismSlot::Constant { .. } => true,
        _ => false,
    }
}

/// Intercept followed by coefficients, or why there are none: another family, or another
/// number of parents.
pub open spec fn beta_of<N>(slot: MechanismSlot<N>, n_parents: nat) -> Result<
    Seq<N>,
    AttributionError,
> {
    match regression(slot) {
        None => Err(AttributionError::Unsupported { message: NON_LINEAR }),
        Some((intercept, coeffs)) => if coeffs.len() != n_parents {
            Err(AttributionError::Unsupported { message: COEFFICIENT_MISMATCH })
        } else {
            Ok(seq![intercept] + coeffs)
        },
    }
}

/// Extract the intercept followed by the coefficients of a fitted mechanism.
pub fn linear_beta<N: Amount>(slot: &MechanismSlot<N>, n_parents: usize) -> (r: Result<
    Vec<N>,
    AttributionError,
>)
    ensures
        match r {
            Ok(beta) => beta_of(*slot, n_parents as nat) == Ok::<Seq<N>, AttributionError>(beta@),
            Err(error) => beta_of(*slot, n_parents as nat) == Err::<Seq<N>, AttributionError>(
                error,
            ),
        },
{
    let mut beta: Vec<N> = Vec::new();
    match slot.linear_parts() {
        Some((intercept, coeffs, _)) => {
            if coeffs.len() != n_parents {
                return Err(AttributionError::unsupported(COEFFICIENT_MISMATCH));
            }
            beta.push(intercept);
            let mut i: usize = 0;
            while i < coeffs.len()
                invariant
                    0 <= i <= coeffs@.len(),
                    beta@ == seq![intercept] + coeffs@.take(i as int),
                decreases coeffs.len() - i,
            {
                beta.push(coeffs[i]);
                i = i + 1;
                assert(beta@ =~= seq![intercept] + coeffs@.take(i as int));
            }
            assert(coeffs@.take(coeffs@.len() as int) =~= coeffs@);
        },
        None => match slot {
            MechanismSlot::Constant { value } => {
                if n_parents != 0 {
                    return Err(AttributionError::unsupported(COEFFICIENT_MISMATCH));
                }
                beta.push(*value);
                assert(beta@ =~= seq![*value] + Seq::empty());
            },
            _ => {
                return Err(AttributionError::unsupported(NON_LINEAR));
            },
        },
    }
    Ok(beta)
}

/// Where a regression takes an input from.
#[derive(Clone, Copy, Debug, PartialEq, Eq, Structural)]
pub enum ParentSource {
    /// Prediction of an earlier player.
    Player(usize),
    /// A column of the baseline population.
    Column(usize),
}

/// Regressions of one player.
#[derive(Clone, Debug, PartialEq)]
pub struct NodeRegression<N> {
    /// Intercept and coefficients fitted on the baseline population.
    pub baseline_beta: Vec<N>,
    /// Intercept and coefficients fitted on the comparison population.
    pub comparison_beta: Vec<N>,
    /// Source of each input.
    pub sources: Vec<ParentSource>,
}

/// Mean outcome of a coalition, composed from regressions.
#[derive(Clone, Debug, PartialEq)]
pub struct RobustLinearPayoff<N> {
    /// Regressions, by player.
    pub fitted: Vec<NodeRegression<N>>,
    /// Columns of the baseline population.
    pub columns: Vec<Vec<N>>,
    /// Outcome among the players, if it is one.
    pub outcome_idx: Option<usize>,
    /// Rows of the baseline population.
    pub n_rows: usize,
}

/// Intercept and coefficients in force for player `i`.
pub open spec fn beta_in_force<N>(fit: NodeRegression<N>, mask: u64, i: int) -> Seq<N> {
    if i < 64 && coalition::member(mask, i) {
        fit.comparison_beta@
    } else {
        fit.baseline_beta@
    }
}

impl<N: Amount> RobustLinearPayoff<N> {
    /// Inputs of every player are there, and players come after the ones they depend on.
    pub open spec fn well_formed(self) -> bool {
        &&& forall|i: int|
            0 <= i < self.fitted@.len() ==> {
                &&& (#[trigger] self.fitted@[i]).baseline_beta@.len()
                    == self.fitted@[i].sources@.len() + 1
                &&& self.fitted@[i].comparison_beta@.len() == self.fitted@[i].sources@.len() + 1
            }
        &&& forall|i: int, k: int|
            #![trigger self.fitted@[i].sources@[k]]
            0 <= i < self.fitted@.len() && 0 <= k < self.fitted@[i].sources@.len()
                ==> match self.fitted@[i].sources@[k] {
                ParentSource::Player(p) => p < i,
                ParentSource::Column(c) => c < self.columns@.len(),
            }
        &&& forall|c: int|
            0 <= c < self.columns@.len() ==> (#[trigger] self.columns@[c])@.len() == self.n_rows
        &&& self.outcome_idx matches Some(o) ==> o < self.fitted@.len()
    }

    /// Prediction for player `i` in a row.
    pub open spec fn predicted(self, mask: u64, i: int, row: int) -> N
        decreases i, self.fitted@[i].sources@.len() + 1,
    {
        if 0 <= i < self.fitted@.len() {
            self.partly(mask, i, row, self.fitted@[i].sources@.len())
        } else {
            N::nil()
        }
    }

    /// Intercept and the first `k` inputs of player `i` in a row.
    pub open spec fn partly(self, mask: u64, i: int, row: int, k: nat) -> N
        decreases i, k,
    {
        let beta = beta_in_force(self.fitted@[i], mask, i);
        if k == 0 {
            beta[0]
        } else {
            let x = match self.fitted@[i].sources@[k - 1] {
                ParentSource::Player(p) => if p < i {
                    self.predicted(mask, p as int, row)
                } else {
                    N::nil()
                },
                ParentSource::Column(c) => self.columns@[c as int]@[row],
            };
            self.partly(mask, i, row, (k - 1) as nat).plus(beta[k as int].times(x))
        }
    }

    /// Predictions for player `i`, by row.
    pub open spec fn prediction(self, mask: u64, i: int) -> Seq<N> {
        Seq::new(self.n_rows as nat, |row: int| self.predicted(mask, i, row))
    }
}

impl<N: Amount> CoalitionPayoff<N> for RobustLinearPayoff<N> {
    open spec fn ready(&self) -> bool {
        self.well_formed()
    }

    open spec fn worth(&self, mask: u64) -> Result<N, AttributionError> {
        match self.outcome_idx {
            None => Err(AttributionError::Unsupported { message: OUTCOME_NOT_A_PLAYER }),
            Some(outcome) => Ok(table::mean(self.prediction(mask, outcome as int))),
        }
    }

    fn value(&mut self, mask: u64) -> Result<N, AttributionError> {
        let outcome: usize = match self.outcome_idx {
            Some(outcome) => outcome,
            None => {
                return Err(AttributionError::unsupported(OUTCOME_NOT_A_PLAYER));
            },
        };
        let mut predictions: Vec<Vec<N>> = Vec::new();
        while predictions.len() < self.fitted.len()
            invariant
                *self == *old(self),
                self.well_formed(),
                predictions@.len() <= self.fitted@.len(),
                forall|i: int|
                    0 <= i < predictions@.len() ==> (#[trigger] predictions@[i])@
                        == self.prediction(mask, i),
            decreases self.fitted.len() - predictions.len(),
        {
            let i: usize = predictions.len();
            let fit = &self.fitted[i];
            assert(self.fitted@[i as int].baseline_beta@.len()
                == self.fitted@[i as int].sources@.len() + 1);
            let beta = if i < 64 && coalition::contains(mask, i) {
                &fit.comparison_beta
            } else {
                &fit.baseline_beta
            };
            let mut column: Vec<N> = Vec::new();
            while column.len() < self.n_rows
                invariant
                    self.well_formed(),
                    i < self.fitted@.len(),
                    fit == self.fitted@[i as int],
                    beta@ == beta_in_force(*fit, mask, i as int),
                    beta@.len() == fit.sources@.len() + 1,
                    predictions@.len() == i,
                    forall|p: int|
                        0 <= p < i ==> (#[trigger] predictions@[p])@ == self.prediction(mask, p),
                    column@.len() <= self.n_rows,
                    column@ == self.prediction(mask, i as int).take(column@.len() as int),
                decreases self.n_rows - column.len(),
            {
                let row: usize = column.len();
                let mut value = beta[0];
                let mut k: usize = 0;
                while k < fit.sources.len()
                    invariant
                        0 <= k <= fit.sources@.len(),
                        row < self.n_rows,
                        self.well_formed(),
                        i < self.fitted@.len(),
                        *fit == self.fitted@[i as int],
                        beta@ == beta_in_force(*fit, mask, i as int),
                        beta@.len() == fit.sources@.len() + 1,
                        predictions@.len() == i,
                        forall|p: int|
                            0 <= p < i ==> (#[trigger] predictions@[p])@ == self.prediction(
                                mask,
                                p,
                            ),
                        value == self.partly(mask, i as int, row as int, k as nat),
                    decreases fit.sources.len() - k,
                {
                    let source = fit.sources[k];
                    assert(self.fitted@[i as int].sources@[k as int] == source);
                    let x = match source {
                        ParentSource::Player(p) => {
                            assert(predictions@[p as int]@ == self.prediction(mask, p as int));
                            predictions[p][row]
                        },
                        ParentSource::Column(c) => {
                            assert(self.columns@[c as int]@.len() == self.n_rows);
                            self.columns[c][row]
                        },
                    };
                    value = value.sum(beta[k + 1].product(x));
                    k = k + 1;
                }
                column.push(value);
                assert(column@ =~= self.prediction(mask, i as int).take(column@.len() as int));
            }
            assert(column@ =~= self.prediction(mask, i as int));
            predictions.push(column);
        }
        assert(predictions@[outcome as int]@ == self.prediction(mask, outcome as int));
        Ok(table::mean_of(&predictions[outcome]))
    }
}

/// Component of a parent.
pub open spec fn parent_component(
    model: ModelView,
    parents: Seq<DenseNodeId>,
    k: int,
) -> ComponentId {
    distribution::component_of(model, parents[k].raw as int)
}

/// Players come after the players they depend on.
pub open spec fn in_order(model: ModelView, players: Seq<ComponentId>) -> bool {
    forall|i: int, k: int|
        #![trigger parent_component(model, player_parents(model, players, i), k)]
        0 <= i < players.len() && 0 <= k < player_parents(model, players, i).len() ==> (
        sequential::place_of(
            players,
            parent_component(model, player_parents(model, players, i), k),
        ) matches Some(p) ==> p < i)
}

/// Node of a player.
pub open spec fn player_node(model: ModelView, players: Seq<ComponentId>, i: int) -> Option<usize> {
    distribution::dense(model, players[i].variable_of())
}

/// Parents of a player.
pub open spec fn player_parents(
    model: ModelView,
    players: Seq<ComponentId>,
    i: int,
) -> Seq<DenseNodeId> {
    distribution::parents_of(model, player_node(model, players, i)->0 as int)
}

/// Why the regressions of player `i` cannot be read.
pub open spec fn fit_fault<N>(
    model: ModelView,
    players: Seq<ComponentId>,
    baseline: Seq<MechanismSlot<N>>,
    comparison: Seq<MechanismSlot<N>>,
    i: int,
) -> Option<AttributionError> {
    match player_node(model, players, i) {
        None => Some(
            AttributionError::MissingVariable {
                role: "component",
                id: players[i].variable_of(),
            },
        ),
        Some(node) => {
            let width = player_parents(model, players, i).len();
            match beta_of(baseline[node as int], width) {
                Err(error) => Some(error),
                Ok(_) => match beta_of(comparison[node as int], width) {
                    Err(error) => Some(error),
                    Ok(_) => None,
                },
            }
        },
    }
}

/// Why the regressions of the first `k` players cannot be read.
pub open spec fn fit_failure<N>(
    model: ModelView,
    players: Seq<ComponentId>,
    baseline: Seq<MechanismSlot<N>>,
    comparison: Seq<MechanismSlot<N>>,
    k: nat,
) -> Option<AttributionError>
    decreases k,
{
    if k == 0 {
        None
    } else {
        let before = fit_failure(model, players, baseline, comparison, (k - 1) as nat);
        if before is Some {
            before
        } else {
            fit_fault(model, players, baseline, comparison, k - 1)
        }
    }
}

proof fn lemma_fit_failure_stays<N>(
    model: ModelView,
    players: Seq<ComponentId>,
    baseline: Seq<MechanismSlot<N>>,
    comparison: Seq<MechanismSlot<N>>,
    k: nat,
    n: nat,
)
    requires
        k <= n,
        fit_failure(model, players, baseline, comparison, k) is Some,
    ensures
        fit_failure(model, players, baseline, comparison, n) == fit_failure(
            model,
            players,
            baseline,
            comparison,
            k,
        ),
    decreases n,
{
    if k < n {
        lemma_fit_failure_stays(model, players, baseline, comparison, k, (n - 1) as nat);
    }
}

/// An input comes from the player its parent is, or from the parent's own column.
pub open spec fn source_of<N>(
    source: ParentSource,
    columns: Seq<Vec<N>>,
    model: ModelView,
    players: Seq<ComponentId>,
    values: NodeTable<N>,
    parents: Seq<DenseNodeId>,
    k: int,
) -> bool {
    match sequential::place_of(players, parent_component(model, parents, k)) {
        Some(p) => source == ParentSource::Player(p),
        None => source matches ParentSource::Column(c) && c < columns.len() && columns[c as int]@
            == values.columns@[parents[k].raw as int]@,
    }
}

/// Regressions read off the fitted mechanisms of a player.
pub open spec fn is_node_fit<N>(
    fit: NodeRegression<N>,
    columns: Seq<Vec<N>>,
    model: ModelView,
    players: Seq<ComponentId>,
    values: NodeTable<N>,
    baseline: Seq<MechanismSlot<N>>,
    comparison: Seq<MechanismSlot<N>>,
    i: int,
) -> bool {
    let node = player_node(model, players, i)->0 as int;
    let parents = player_parents(model, players, i);
    &&& beta_of(baseline[node], parents.len()) == Ok::<Seq<N>, AttributionError>(
        fit.baseline_beta@,
    )
    &&& beta_of(comparison[node], parents.len()) == Ok::<Seq<N>, AttributionError>(
        fit.comparison_beta@,
    )
    &&& fit.sources@.len() == parents.len()
    &&& forall|k: int|
        0 <= k < parents.len() ==> source_of(
            #[trigger] fit.sources@[k],
            columns,
            model,
            players,
            values,
            parents,
            k,
        )
}

/// Find or fetch the column of a node.
fn column_of<N: Amount>(
    columns: &mut Vec<Vec<N>>,
    fetched: &mut Vec<usize>,
    values: &NodeTable<N>,
    node: usize,
    Ghost(n): Ghost<nat>,
) -> (c: usize)
    requires
        values.fits(n),
        node < n,
        old(fetched)@.len() == old(columns)@.len(),
        forall|j: int|
            0 <= j < old(fetched)@.len() ==> (#[trigger] old(fetched)@[j]) < n && old(columns)@[j]@ == values.columns@[old(fetched)@[j] as int]@,
    ensures
        final(fetched)@.len() == final(columns)@.len(),
        forall|j: int|
            0 <= j < final(fetched)@.len() ==> (#[trigger] final(fetched)@[j]) < n && final(columns)@[j]@ == values.columns@[final(fetched)@[j] as int]@,
        old(columns)@.len() <= final(columns)@.len(),
        forall|j: int|
            0 <= j < old(columns)@.len() ==> #[trigger] final(columns)@[j] == old(columns)@[j],
        c < final(columns)@.len(),
        final(columns)@[c as int]@ == values.columns@[node as int]@,
{
    let mut j: usize = 0;
    while j < fetched.len()
        invariant
            0 <= j <= fetched@.len(),
            *fetched == *old(fetched),
            *columns == *old(columns),
            fetched@.len() == columns@.len(),
            forall|j: int|
                0 <= j < fetched@.len() ==> (#[trigger] fetched@[j]) < n && columns@[j]@
                    == values.columns@[fetched@[j] as int]@,
        decreases fetched.len() - j,
    {
        if fetched[j] == node {
            assert(columns@[j as int]@ == values.columns@[fetched@[j as int] as int]@);
            return j;
        }
        j = j + 1;
    }
    let source = &values.columns[node];
    let mut copy: Vec<N> = Vec::new();
    while copy.len() < source.len()
        invariant
            copy@.len() <= source@.len(),
            copy@ == source@.take(copy@.len() as int),
        decreases source.len() - copy.len(),
    {
        copy.push(source[copy.len()]);
        assert(copy@ =~= source@.take(copy@.len() as int));
    }
    assert(copy@ =~= source@);
    let c: usize = columns.len();
    columns.push(copy);
    fetched.push(node);
    proof {
        assert forall|j: int| 0 <= j < fetched@.len() implies (#[trigger] fetched@[j]) < n
            && columns@[j]@ == values.columns@[fetched@[j] as int]@ by {
            if j < c {
                assert(fetched@[j] == old(fetched)@[j]);
                assert(columns@[j] == old(columns)@[j]);
            }
        }
    }
    c
}

proof fn lemma_more_columns<N>(
    fit: NodeRegression<N>,
    before: Seq<Vec<N>>,
    after: Seq<Vec<N>>,
    model: ModelView,
    players: Seq<ComponentId>,
    values: NodeTable<N>,
    baseline: Seq<MechanismSlot<N>>,
    comparison: Seq<MechanismSlot<N>>,
    i: int,
)
    requires
        is_node_fit(fit, before, model, players, values, baseline, comparison, i),
        before.len() <= after.len(),
        forall|j: int| 0 <= j < before.len() ==> #[trigger] after[j] == before[j],
    ensures
        is_node_fit(fit, after, model, players, values, baseline, comparison, i),
{
    let parents = player_parents(model, players, i);
    assert forall|k: int| 0 <= k < parents.len() implies source_of(
        #[trigger] fit.sources@[k],
        after,
        model,
        players,
        values,
        parents,
        k,
    ) by {
        assert(source_of(fit.sources@[k], before, model, players, values, parents, k));
    }
}

/// Read the regressions of all players off their fitted mechanisms.
pub fn fit_linear<N: Amount>(
    model: &CausalModel,
    players: &Vec<ComponentId>,
    outcome: ComponentId,
    values: &NodeTable<N>,
    baseline: &Vec<MechanismSlot<N>>,
    comparison: &Vec<MechanismSlot<N>>,
) -> (r: Result<RobustLinearPayoff<N>, AttributionError>)
    requires
        model@.well_formed(),
        model@.variables.no_duplicates(),
        in_order(model@, players@),
        values.fits(model@.nodes()),
        baseline@.len() == model@.nodes(),
        comparison@.len() == model@.nodes(),
    ensures
        match r {
            Ok(payoff) => {
                &&& fit_failure(
                    model@,
                    players@,
                    baseline@,
                    comparison@,
                    players@.len(),
                ) is None
                &&& payoff.well_formed()
                &&& payoff.fitted@.len() == players@.len()
                &&& payoff.n_rows == values.n_rows
                &&& payoff.outcome_idx == sequential::place_of(players@, outcome)
                &&& forall|i: int|
                    0 <= i < players@.len() ==> is_node_fit(
                        #[trigger] payoff.fitted@[i],
                        payoff.columns@,
                        model@,
                        players@,
                        *values,
                        baseline@,
                        comparison@,
                        i,
                    )
            },
            Err(error) => fit_failure(
                model@,
                players@,
                baseline@,
                comparison@,
                players@.len(),
            ) == Some(error),
        },
{
    let n: usize = players.len();
    let ghost nodes = model@.nodes();
    let mut fitted: Vec<NodeRegression<N>> = Vec::new();
    let mut columns: Vec<Vec<N>> = Vec::new();
    let mut fetched: Vec<usize> = Vec::new();
    while fitted.len() < n
        invariant
            n == players@.len(),
            nodes == model@.nodes(),
            model@.well_formed(),
            model@.variables.no_duplicates(),
            in_order(model@, players@),
            values.fits(nodes),
            baseline@.len() == nodes,
            comparison@.len() == nodes,
            fitted@.len() <= n,
            fetched@.len() == columns@.len(),
            forall|j: int|
                0 <= j < fetched@.len() ==> (#[trigger] fetched@[j]) < nodes && columns@[j]@
                    == values.columns@[fetched@[j] as int]@,
            fit_failure(model@, players@, baseline@, comparison@, fitted@.len()) is None,
            forall|i: int|
                0 <= i < fitted@.len() ==> is_node_fit(
                    #[trigger] fitted@[i],
                    columns@,
                    model@,
                    players@,
                    *values,
                    baseline@,
                    comparison@,
                    i,
                ),
        decreases n - fitted.len(),
    {
        let i: usize = fitted.len();
        let ghost before = columns@;
        let node: usize = match distribution::find_node(model, players[i].variable()) {
            Some(node) => node,
            None => {
                proof {
                    lemma_fit_failure_stays(
                        model@,
                        players@,
                        baseline@,
                        comparison@,
                        (i + 1) as nat,
                        n as nat,
                    );
                }
                return Err(AttributionError::missing_var("component", players[i].variable()));
            },
        };
        let parents = distribution::parents_of_node(model, node);
        let width: usize = parents.len();
        let mut sources: Vec<ParentSource> = Vec::new();
        while sources.len() < width
            invariant
                width == parents@.len(),
                parents@ == player_parents(model@, players@, i as int),
                forall|k: int|
                    0 <= k < parents@.len() ==> (#[trigger] parents@[k]).raw < model@.nodes(),
                nodes == model@.nodes(),
                values.fits(nodes),
                sources@.len() <= width,
                fetched@.len() == columns@.len(),
                forall|j: int|
                    0 <= j < fetched@.len() ==> (#[trigger] fetched@[j]) < nodes && columns@[j]@
                        == values.columns@[fetched@[j] as int]@,
                before.len() <= columns@.len(),
                forall|j: int| 0 <= j < before.len() ==> #[trigger] columns@[j] == before[j],
                forall|k: int|
                    0 <= k < sources@.len() ==> source_of(
                        #[trigger] sources@[k],
                        columns@,
                        model@,
                        players@,
                        *values,
                        parents@,
                        k,
                    ),
            decreases width - sources.len(),
        {
            let k: usize = sources.len();
            let parent: usize = parents[k].raw as usize;
            assert(parents@[k as int].raw < model@.nodes());
            let component = ComponentId::from_variable(model.variables[parent]);
            let ghost earlier = columns@;
            let source = match sequential::position_of(players.as_slice(), component) {
                Some(p) => ParentSource::Player(p),
                None => ParentSource::Column(
                    column_of(&mut columns, &mut fetched, values, parent, Ghost(nodes)),
                ),
            };
            proof {
                assert forall|j: int| 0 <= j < sources@.len() implies source_of(
                    #[trigger] sources@[j],
                    columns@,
                    model@,
                    players@,
                    *values,
                    parents@,
                    j,
                ) by {
                    assert(source_of(
                        sources@[j],
                        earlier,
                        model@,
                        players@,
                        *values,
                        parents@,
                        j,
                    ));
                }
            }
            sources.push(source);
        }
        proof {
            if fit_fault(model@, players@, baseline@, comparison@, i as int) is Some {
                lemma_fit_failure_stays(
                    model@,
                    players@,
                    baseline@,
                    comparison@,
                    (i + 1) as nat,
                    n as nat,
                );
            }
        }
        let baseline_beta = match linear_beta(&baseline[node], width) {
            Ok(beta) => beta,
            Err(error) => {
                return Err(error);
            },
        };
        let comparison_beta = match linear_beta(&comparison[node], width) {
            Ok(beta) => beta,
            Err(error) => {
                return Err(error);
            },
        };
        proof {
            assert forall|j: int| 0 <= j < fitted@.len() implies is_node_fit(
                #[trigger] fitted@[j],
                columns@,
                model@,
                players@,
                *values,
                baseline@,
                comparison@,
                j,
            ) by {
                lemma_more_columns(
                    fitted@[j],
                    before,
                    columns@,
                    model@,
                    players@,
                    *values,
                    baseline@,
                    comparison@,
                    j,
                );
            }
        }
        fitted.push(NodeRegression { baseline_beta, comparison_beta, sources });
    }
    let outcome_idx = sequential::position_of(players.as_slice(), outcome);
    let payoff = RobustLinearPayoff { fitted, columns, outcome_idx, n_rows: values.n_rows };
    proof {
        assert forall|i: int, k: int|
            #![trigger payoff.fitted@[i].sources@[k]]
            0 <= i < payoff.fitted@.len() && 0 <= k
                < payoff.fitted@[i].sources@.len() implies match payoff.fitted@[i].sources@[k] {
            ParentSource::Player(p) => p < i,
            ParentSource::Column(c) => c < payoff.columns@.len(),
        } by {
            let fit = payoff.fitted@[i];
            let parents = player_parents(model@, players@, i);
            assert(is_node_fit(
                fit,
                columns@,
                model@,
                players@,
                *values,
                baseline@,
                comparison@,
                i,
            ));
            assert(source_of(
                fit.sources@[k],
                columns@,
                model@,
                players@,
                *values,
                parents,
                k,
            ));
            let component = parent_component(
                model@,
                player_parents(model@, players@, i),
                k,
            );
        }
        assert forall|i: int| 0 <= i < payoff.fitted@.len() implies {
            &&& (#[trigger] payoff.fitted@[i]).baseline_beta@.len()
                == payoff.fitted@[i].sources@.len() + 1
            &&& payoff.fitted@[i].comparison_beta@.len() == payoff.fitted@[i].sources@.len() + 1
        } by {
            assert(is_node_fit(
                payoff.fitted@[i],
                columns@,
                model@,
                players@,
                *values,
                baseline@,
                comparison@,
                i,
            ));
        }
        assert forall|c: int| 0 <= c < payoff.columns@.len() implies (
        #[trigger] payoff.columns@[c])@.len() == payoff.n_rows by {
            assert(columns@[c]@ == values.columns@[fetched@[c] as int]@);
        }
    }
    Ok(payoff)
}

/// What predictions of a coalition are computed from.
#[verifier::ext_equal]
pub struct LinearInputs<N> {
    /// Model.
    pub model: ModelView,
    /// Players.
    pub players: Seq<ComponentId>,
    /// Rows of the baseline population.
    pub values: NodeTable<N>,
    /// Mechanisms fitted on the baseline population.
    pub baseline: Seq<MechanismSlot<N>>,
    /// Mechanisms fitted on the comparison population.
    pub comparison: Seq<MechanismSlot<N>>,
}

impl<N: Amount> LinearInputs<N> {
    /// Intercept and coefficients in force for player `i`: those of the comparison population
    /// for members of the coalition.
    pub open spec fn beta(self, mask: u64, i: int) -> Seq<N> {
        let node = player_node(self.model, self.players, i)->0 as int;
        let width = player_parents(self.model, self.players, i).len();
        if i < 64 && coalition::member(mask, i) {
            beta_of(self.comparison[node], width)->Ok_0
        } else {
            beta_of(self.baseline[node], width)->Ok_0
        }
    }

    /// Prediction for player `i` in a row.
    pub open spec fn predicted(self, mask: u64, i: int, row: int) -> N
        decreases i, player_parents(self.model, self.players, i).len() + 1,
    {
        self.partly(mask, i, row, player_parents(self.model, self.players, i).len())
    }

    /// Intercept and the first `k` inputs of player `i` in a row. Inputs are the predictions
    /// for players, and baseline values for other parents.
    pub open spec fn partly(self, mask: u64, i: int, row: int, k: nat) -> N
        decreases i, k,
    {
        let beta = self.beta(mask, i);
        if k == 0 {
            beta[0]
        } else {
            let parents = player_parents(self.model, self.players, i);
            let x = match sequential::place_of(
                self.players,
                parent_component(self.model, parents, k - 1),
            ) {
                Some(p) => if p < i {
                    self.predicted(mask, p as int, row)
                } else {
                    N::nil()
                },
                None => self.values.columns@[parents[k - 1].raw as int]@[row],
            };
            self.partly(mask, i, row, (k - 1) as nat).plus(beta[k as int].times(x))
        }
    }

    /// Worth of a coalition: the mean prediction for the outcome.
    pub open spec fn game(self, outcome: ComponentId) -> spec_fn(
        u64,
    ) -> Result<N, AttributionError> {
        |mask: u64|
            match sequential::place_of(self.players, outcome) {
                None => Err(AttributionError::Unsupported { message: OUTCOME_NOT_A_PLAYER }),
                Some(o) => Ok(
                    table::mean(
                        Seq::new(
                            self.values.n_rows as nat,
                            |row: int| self.predicted(mask, o as int, row),
                        ),
                    ),
                ),
            }
    }
}

/// A payoff whose regressions are all read off the fitted mechanisms.
spec fn is_fit<N: Amount>(payoff: RobustLinearPayoff<N>, inputs: LinearInputs<N>) -> bool {
    &&& payoff.well_formed()
    &&& payoff.fitted@.len() == inputs.players.len()
    &&& payoff.n_rows == inputs.values.n_rows
    &&& forall|i: int|
        0 <= i < inputs.players.len() ==> is_node_fit(
            #[trigger] payoff.fitted@[i],
            payoff.columns@,
            inputs.model,
            inputs.players,
            inputs.values,
            inputs.baseline,
            inputs.comparison,
            i,
        )
}

proof fn lemma_fit_predicts<N: Amount>(
    payoff: RobustLinearPayoff<N>,
    inputs: LinearInputs<N>,
    mask: u64,
    i: int,
    row: int,
    k: nat,
)
    requires
        is_fit(payoff, inputs),
        0 <= i < inputs.players.len(),
        0 <= row < payoff.n_rows,
        k <= payoff.fitted@[i].sources@.len(),
    ensures
        payoff.partly(mask, i, row, k) == inputs.partly(mask, i, row, k),
    decreases i, k,
{
    let fit = payoff.fitted@[i];
    let parents = player_parents(inputs.model, inputs.players, i);
    assert(is_node_fit(
        fit,
        payoff.columns@,
        inputs.model,
        inputs.players,
        inputs.values,
        inputs.baseline,
        inputs.comparison,
        i,
    ));
    assert(beta_in_force(fit, mask, i) == inputs.beta(mask, i));
    if k > 0 {
        lemma_fit_predicts(payoff, inputs, mask, i, row, (k - 1) as nat);
        assert(source_of(
            fit.sources@[k - 1],
            payoff.columns@,
            inputs.model,
            inputs.players,
            inputs.values,
            parents,
            k - 1,
        ));
        if let ParentSource::Player(p) = fit.sources@[k - 1] {
            assert(p < i);
            lemma_fit_predicts(
                payoff,
                inputs,
                mask,
                p as int,
                row,
                payoff.fitted@[p as int].sources@.len(),
            );
            assert(is_node_fit(
                payoff.fitted@[p as int],
                payoff.columns@,
                inputs.model,
                inputs.players,
                inputs.values,
                inputs.baseline,
                inputs.comparison,
                p as int,
            ));
            assert(payoff.predicted(mask, p as int, row) == inputs.predicted(
                mask,
                p as int,
                row,
            ));
        }
    }
}

proof fn lemma_fit_game<N: Amount>(
    payoff: RobustLinearPayoff<N>,
    inputs: LinearInputs<N>,
    outcome: ComponentId,
)
    requires
        is_fit(payoff, inputs),
        payoff.outcome_idx == sequential::place_of(inputs.players, outcome),
    ensures
        payoff::game(payoff) == inputs.game(outcome),
{
    assert forall|mask: u64| #[trigger] payoff.worth(mask) == inputs.game(outcome)(mask) by {
        if let Some(o) = payoff.outcome_idx {
            assert(payoff.prediction(mask, o as int) =~= Seq::new(
                inputs.values.n_rows as nat,
                |row: int| inputs.predicted(mask, o as int, row),
            )) by {
                assert forall|row: int| 0 <= row < payoff.n_rows implies payoff.predicted(
                    mask,
                    o as int,
                    row,
                ) == inputs.predicted(mask, o as int, row) by {
                    assert(is_node_fit(
                        payoff.fitted@[o as int],
                        payoff.columns@,
                        inputs.model,
                        inputs.players,
                        inputs.values,
                        inputs.baseline,
                        inputs.comparison,
                        o as int,
                    ));
                    lemma_fit_predicts(
                        payoff,
                        inputs,
                        mask,
                        o as int,
                        row,
                        payoff.fitted@[o as int].sources@.len(),
                    );
                }
            }
        }
    }
    assert(payoff::game(payoff) =~= inputs.game(outcome));
}

/// Whether both mechanisms of every player are of the linear family.
pub open spec fn all_linear<N>(
    model: ModelView,
    players: Seq<ComponentId>,
    baseline: Seq<MechanismSlot<N>>,
    comparison: Seq<MechanismSlot<N>>,
) -> bool {
    forall|i: int|
        0 <= i < players.len() ==> (#[trigger] player_node(model, players, i) matches Some(node)
            && regression(baseline[node as int]) is Some && regression(
            comparison[node as int],
        ) is Some)
}

/// Test whether both mechanisms of every player are of the linear family.
fn every_player_is_linear<N: Amount>(
    model: &CausalModel,
    players: &Vec<ComponentId>,
    baseline: &Vec<MechanismSlot<N>>,
    comparison: &Vec<MechanismSlot<N>>,
) -> (yes: bool)
    requires
        model@.well_formed(),
        model@.variables.no_duplicates(),
        baseline@.len() == model@.nodes(),
        comparison@.len() == model@.nodes(),
    ensures
        yes == all_linear(model@, players@, baseline@, comparison@),
{
    let mut i: usize = 0;
    while i < players.len()
        invariant
            model@.well_formed(),
            model@.variables.no_duplicates(),
            baseline@.len() == model@.nodes(),
            comparison@.len() == model@.nodes(),
            0 <= i <= players@.len(),
            forall|j: int|
                0 <= j < i ==> (#[trigger] player_node(model@, players@, j) matches Some(node)
                    && regression(baseline@[node as int]) is Some && regression(
                    comparison@[node as int],
                ) is Some),
        decreases players.len() - i,
    {
        let found = distribution::find_node(model, players[i].variable());
        assert(found == player_node(model@, players@, i as int));
        match found {
            Some(node) => {
                if !slot_is_linear(&baseline[node]) || !slot_is_linear(&comparison[node]) {
                    return false;
                }
            },
            None => {
                return false;
            },
        }
        i = i + 1;
    }
    true
}

/// Places of upstream nodes, in order.
spec fn places(model: ModelView, outcome: int, k: nat) -> Seq<int>
    decreases k,
{
    if k == 0 {
        Seq::empty()
    } else {
        let before = places(model, outcome, (k - 1) as nat);
        if model.is_ancestor(model.child(k - 1), outcome) {
            before.push(k - 1)
        } else {
            before
        }
    }
}

proof fn lemma_places(model: ModelView, outcome: int, k: nat)
    ensures
        places(model, outcome, k).len() == distribution::upstream(model, outcome, k).len(),
        places(model, outcome, k).len() <= k,
        forall|i: int|
            0 <= i < places(model, outcome, k).len() ==> {
                &&& 0 <= (#[trigger] places(model, outcome, k)[i]) < k
                &&& model.child(places(model, outcome, k)[i]) == distribution::upstream(
                    model,
                    outcome,
                    k,
                )[i]
            },
        forall|i: int, j: int|
            0 <= i < j < places(model, outcome, k).len() ==> (#[trigger] places(
                model,
                outcome,
                k,
            )[i]) < #[trigger] places(model, outcome, k)[j],
    decreases k,
{
    if k > 0 {
        lemma_places(model, outcome, (k - 1) as nat);
    }
}

/// Players of a mechanism attribution come after the players they depend on.
pub proof fn law_mechanism_players_are_in_order(model: ModelView, outcome: int)
    requires
        model.well_formed(),
        model.variables.no_duplicates(),
        0 <= outcome < model.nodes(),
    ensures
        in_order(model, distribution::mechanism_roster(model, outcome).players),
{
    let n = model.nodes();
    let players = distribution::mechanism_roster(model, outcome).players;
    let nodes = distribution::upstream(model, outcome, n);
    let at = places(model, outcome, n);
    lemma_places(model, outcome, n);
    assert forall|i: int, k: int|
        #![trigger parent_component(model, player_parents(model, players, i), k)]
        0 <= i < players.len() && 0 <= k < player_parents(model, players, i).len() implies (
    sequential::place_of(
        players,
        parent_component(model, player_parents(model, players, i), k),
    ) matches Some(p) ==> p < i) by {
        let component = parent_component(model, player_parents(model, players, i), k);
        if let Some(p) = sequential::place_of(players, component) {
            sequential::lemma_place(players, component);
            assert(players[p as int] == component);
            let place = at[i];
            let node = nodes[i];
            assert(model.child(place) == node);
            assert(model.child(place) < n);
            let variable = model.variables[node];
            assert(players[i].variable_of() == variable);
            assert(model.variables.contains(variable));
            let found = model.variables.index_of(variable);
            assert(model.variables[found] == variable);
            assert(found == node);
            assert(player_node(model, players, i) == Some(node as usize));
            let chosen = choose|q: int| 0 <= q < n && #[trigger] model.child(q) == node;
            if chosen < place {
                assert(model.child(chosen) != model.child(place));
            } else if place < chosen {
                assert(model.child(place) != model.child(chosen));
            }
            let parent = model.parents(place)[k].raw as int;
            assert(model.comes_before(parent, place));
            reveal(ModelView::comes_before);
            let q = choose|q: int| 0 <= q < place && #[trigger] model.child(q) == parent;
            let other = nodes[p as int];
            assert(model.child(at[p as int]) == other);
            assert(model.variables[other].raw == model.variables[parent].raw);
            assert(model.variables[other] == model.variables[parent]);
            assert(other == parent);
            if at[p as int] < q {
                assert(model.child(at[p as int]) != model.child(q));
            } else if q < at[p as int] {
                assert(model.child(q) != model.child(at[p as int]));
            }
            assert(at[p as int] < at[i]);
            if p > i {
                assert(at[i] < at[p as int]);
            }
        }
    }
}

/// Rows of the larger population.
pub open spec fn larger(a: usize, b: usize) -> usize {
    if a < b {
        b
    } else {
        a
    }
}

/// Why a robust attribution is refused before anything is evaluated.
pub open spec fn robust_refusal(
    model: ModelView,
    query: ChangeAttributionQuery,
    max_rows: usize,
    baseline_rows: usize,
    comparison_rows: usize,
) -> Option<AttributionError> {
    if let Some(error) = query.refusal() {
        Some(AttributionError::Query(error))
    } else if query.components !is Mechanisms {
        Some(AttributionError::Unsupported { message: MECHANISMS_REQUIRED })
    } else if baseline_rows > max_rows || comparison_rows > max_rows {
        Some(
            AttributionError::SizeLimit {
                kind: "units",
                requested: larger(baseline_rows, comparison_rows),
                max: max_rows,
            },
        )
    } else {
        match distribution::dense(model, query.outcome) {
            None => Some(
                AttributionError::MissingVariable { role: "outcome", id: query.outcome },
            ),
            Some(outcome) => {
                let players = distribution::mechanism_roster(model, outcome as int).players;
                if players.len() > query.max_components {
                    Some(
                        AttributionError::SizeLimit {
                            kind: "components",
                            requested: players.len() as usize,
                            max: query.max_components,
                        },
                    )
                } else if query.allocation !is Shapley {
                    Some(AttributionError::Unsupported { message: SHAPLEY_REQUIRED })
                } else {
                    None
                }
            },
        }
    }
}

/// Mean and variance of the outcome by coalition, where it is sampled.
pub open spec fn sampled_law<N: Amount, E: Engine<N>>(
    engine: E,
    model: ModelView,
    baseline: Seq<MechanismSlot<N>>,
    comparison: Seq<MechanismSlot<N>>,
    nodes: Seq<Option<usize>>,
    outcome: int,
    options: RobustChangeOptions,
    rng: RngFactory,
    mask: u64,
) -> Result<(N, N), AttributionError> {
    engine.law_of(
        model,
        distribution::chosen(baseline, comparison, nodes, mask),
        outcome,
        if options.n_samples == 0 {
            1
        } else {
            options.n_samples
        },
        execution::mixed(rng.master_seed, ROBUST_STREAM.wrapping_add(options.seed)),
    )
}

/// The game of exchanging mechanisms for the mean of a sampled outcome.
pub open spec fn sampled_game<N: Amount, E: Engine<N>>(
    engine: E,
    model: ModelView,
    baseline: Seq<MechanismSlot<N>>,
    comparison: Seq<MechanismSlot<N>>,
    nodes: Seq<Option<usize>>,
    outcome: int,
    options: RobustChangeOptions,
    rng: RngFactory,
) -> spec_fn(u64) -> Result<N, AttributionError> {
    |mask: u64|
        change::law_worth(
            engine,
            DifferenceMeasure::MeanDiff,
            sampled_law(engine, model, baseline, comparison, nodes, outcome, options, rng, 0),
            sampled_law(engine, model, baseline, comparison, nodes, outcome, options, rng, mask),
            mask,
        )
}

/// What the sharing of a change in the mean returns: the first failure, or the allocated
/// change.
pub open spec fn is_sharing<N: Amount, E: Engine<N>>(
    r: Result<ChangeAttributionResult<N>, AttributionError>,
    query: ChangeAttributionQuery,
    players: Seq<ComponentId>,
    g: spec_fn(u64) -> Result<N, AttributionError>,
    engine: E,
    ctx: ExecutionContext,
) -> bool {
    let n = players.len();
    let total = distribution::total_of(g, n, DifferenceMeasure::MeanDiff);
    match r {
        Ok(result) => {
            &&& distribution::total_failure(g, n) is None
            &&& allocation::is_allocation(
                result,
                query.outcome,
                players,
                query.allocation,
                g,
                total,
                Seq::empty(),
                ctx,
                None,
                engine,
            )
        },
        Err(error) => if distribution::total_failure(g, n) is Some {
            distribution::total_failure(g, n) == Some(error)
        } else {
            allocation::is_not_allocated(
                error,
                players,
                query.allocation,
                g,
                total,
                false,
                ctx,
            )
        },
    }
}

/// Share the change from nobody to everybody.
fn shared_change<N: Amount, P: CoalitionPayoff<N>, E: Engine<N>>(
    query: &ChangeAttributionQuery,
    players: &Vec<ComponentId>,
    payoff: &mut P,
    engine: &E,
    ctx: &ExecutionContext,
) -> (r: Result<ChangeAttributionResult<N>, AttributionError>)
    requires
        old(payoff).ready(),
        query.allocation is Shapley,
    ensures
        is_sharing(
            r,
            *query,
            players@,
            payoff::game(*old(payoff)),
            *engine,
            *ctx,
        ),
{
    let ghost g = payoff::game(*payoff);
    let empty = payoff.value(0);
    assert(payoff::game(*payoff) =~= g);
    let v0 = match empty {
        Ok(value) => value,
        Err(error) => {
            return Err(error);
        },
    };
    let full: u64 = match coalition::full_coalition_mask(players.len()) {
        Ok(mask) => mask,
        Err(error) => {
            return Err(error);
        },
    };
    let everyone = payoff.value(full);
    assert(payoff::game(*payoff) =~= g);
    let v_full = match everyone {
        Ok(value) => value,
        Err(error) => {
            return Err(error);
        },
    };
    let total = change::total_change(DifferenceMeasure::MeanDiff, v0, v_full);
    let none: Vec<ComponentId> = Vec::new();
    assert(none@ =~= Seq::empty());
    allocation::run_change_allocation(
        query.outcome,
        players.as_slice(),
        &query.allocation,
        payoff,
        total,
        none,
        ctx,
        None,
        engine,
    )
}

/// Attribute a change in the mean outcome to mechanisms by Shapley values.
///
/// `values` holds the baseline population, and `comparison_rows` counts the other. A
/// coalition's mean is composed from regressions where every player has them, and sampled
/// otherwise, from a stream of the context that is the same for every coalition.
pub fn distribution_change_robust<N: Amount, E: Engine<N>>(
    model: &CausalModel,
    values: &NodeTable<N>,
    comparison_rows: usize,
    baseline: Vec<MechanismSlot<N>>,
    comparison: Vec<MechanismSlot<N>>,
    query: &ChangeAttributionQuery,
    options: &RobustChangeOptions,
    engine: &E,
    ctx: &ExecutionContext,
) -> (r: Result<ChangeAttributionResult<N>, AttributionError>)
    requires
        model@.well_formed(),
        model@.variables.no_duplicates(),
        values.fits(model@.nodes()),
        baseline@.len() == model@.nodes(),
        comparison@.len() == model@.nodes(),
    ensures
        ({
            let refusal = robust_refusal(
                model@,
                *query,
                options.max_rows,
                values.n_rows,
                comparison_rows,
            );
            let outcome = distribution::dense(model@, query.outcome)->0 as int;
            let roster = distribution::mechanism_roster(model@, outcome);
            let players = roster.players;
            let failure = fit_failure(model@, players, baseline@, comparison@, players.len());
            if let Some(error) = refusal {
                r == Err::<ChangeAttributionResult<N>, _>(error)
            } else if all_linear(model@, players, baseline@, comparison@) {
                if let Some(error) = failure {
                    r == Err::<ChangeAttributionResult<N>, _>(error)
                } else {
                    is_sharing(
                        r,
                        *query,
                        players,
                        (LinearInputs {
                            model: model@,
                            players,
                            values: *values,
                            baseline: baseline@,
                            comparison: comparison@,
                        }).game(ComponentId { raw: query.outcome.raw }),
                        *engine,
                        *ctx,
                    )
                }
            } else {
                is_sharing(
                    r,
                    *query,
                    players,
                    sampled_game(
                        *engine,
                        model@,
                        baseline@,
                        comparison@,
                        distribution::exchangeable(model@, roster),
                        outcome,
                        *options,
                        ctx.rng,
                    ),
                    *engine,
                    *ctx,
                )
            }
        }),
{
    match query.validate() {
        Ok(_) => {},
        Err(error) => {
            return Err(AttributionError::Query(error));
        },
    }
    if !matches!(query.components, AttributionComponents::Mechanisms) {
        return Err(AttributionError::unsupported(MECHANISMS_REQUIRED));
    }
    if values.n_rows > options.max_rows || comparison_rows > options.max_rows {
        let requested: usize = if values.n_rows < comparison_rows {
            comparison_rows
        } else {
            values.n_rows
        };
        return Err(
            AttributionError::SizeLimit { kind: "units", requested, max: options.max_rows },
        );
    }
    let outcome: usize = match distribution::find_node(model, query.outcome) {
        Some(node) => node,
        None => {
            return Err(AttributionError::missing_var("outcome", query.outcome));
        },
    };
    let (players, kinds) = match distribution::joint_players(
        model,
        outcome,
        query.max_components,
        AttributionComponents::Mechanisms,
    ) {
        Ok(found) => found,
        Err(error) => {
            return Err(error);
        },
    };
    let ghost roster = distribution::mechanism_roster(model@, outcome as int);
    assert(Roster { players: players@, kinds: kinds@ } =~= roster);
    let linear = every_player_is_linear(model, &players, &baseline, &comparison);
    if !matches!(query.allocation, AllocationMethod::Shapley { .. }) {
        return Err(AttributionError::unsupported(SHAPLEY_REQUIRED));
    }
    proof {
        law_mechanism_players_are_in_order(model@, outcome as int);
        distribution::law_players_are_distinct(
            model@,
            outcome as int,
            AttributionComponents::Mechanisms,
        );
    }
    if linear {
        let component = ComponentId::from_variable(query.outcome);
        let mut payoff = match fit_linear(
            model,
            &players,
            component,
            values,
            &baseline,
            &comparison,
        ) {
            Ok(payoff) => payoff,
            Err(error) => {
                return Err(error);
            },
        };
        proof {
            lemma_fit_game(
                payoff,
                LinearInputs {
                    model: model@,
                    players: players@,
                    values: *values,
                    baseline: baseline@,
                    comparison: comparison@,
                },
                component,
            );
        }
        return shared_change(query, &players, &mut payoff, engine, ctx);
    }
    let player_nodes = distribution::exchangeable_nodes(model, &players, &kinds);
    let ghost nodes = player_nodes@;
    let n_samples: usize = if options.n_samples == 0 {
        1
    } else {
        options.n_samples
    };
    let seed: u64 = execution::mix_seed(
        ctx.rng.master_seed(),
        ROBUST_STREAM.wrapping_add(options.seed),
    );
    let ghost g = sampled_game(
        *engine,
        model@,
        baseline@,
        comparison@,
        nodes,
        outcome as int,
        *options,
        ctx.rng,
    );
    let store = HybridStore::new(baseline, comparison);
    proof {
        assert(engine::swaps(nodes, 0, model@.nodes()) =~= store@.swapped) by {
            assert forall|x: int| 0 <= x < model@.nodes() implies !engine::swaps(
                nodes,
                0,
                model@.nodes(),
            )[x] by {
                distribution::lemma_nobody_swaps(nodes, x, model@.nodes());
            }
        }
    }
    if players.len() > 64 {
        let law = engine.outcome_law(model, &store, outcome, n_samples, seed);
        assert(store@ =~= distribution::chosen(baseline@, comparison@, nodes, 0));
        return match law {
            Ok(_) => Err(
                AttributionError::SizeLimit {
                    kind: "components",
                    requested: players.len(),
                    max: 64,
                },
            ),
            Err(error) => Err(error),
        };
    }
    let laws = MechanismSwap {
        model,
        store,
        player_nodes,
        applied: 0,
        outcome,
        n_samples,
        seed,
        engine,
    };
    let mut payoff = LawPayoff::new(laws, DifferenceMeasure::MeanDiff, engine);
    assert(payoff::game(payoff) =~= g);
    shared_change(query, &players, &mut payoff, engine, ctx)
}

} // verus!
