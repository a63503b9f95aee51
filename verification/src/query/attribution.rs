//! Queries that attribute change or anomaly to components.
//!
//! SPDX-License-Identifier: MIT OR Apache-2.0

use crate::ids::{ComponentId, VariableId};
use crate::level::OrderedFloatBits;
use crate::query::error::QueryError;
use vstd::prelude::*;

verus! {

/// Largest game enumerated exactly unless a query says otherwise.
pub const DEFAULT_MAX_EXACT_COMPONENTS: usize = 16;

/// Largest number of components attributed unless a query says otherwise.
pub const DEFAULT_MAX_COMPONENTS: usize = 64;

/// What a check returns: success exactly where nothing is refused.
pub open spec fn verdict(refusal: Option<QueryError>) -> Result<(), QueryError> {
    match refusal {
        Some(error) => Err(error),
        None => Ok(()),
    }
}

/// How Shapley values are computed.
#[derive(Clone, Copy, Debug, PartialEq, Eq, Hash, Structural)]
pub enum ShapleyMode {
    /// Every coalition is evaluated.
    Exact,
    /// Marginals are averaged over random orders.
    MonteCarlo {
        /// Number of orders.
        n_samples: usize,
    },
    /// Marginals are averaged over random permutations.
    Permutation {
        /// Number of permutations.
        n_permutations: usize,
    },
}

/// Configuration of a Shapley computation.
#[derive(Clone, Copy, Debug, PartialEq, Eq, Hash, Structural)]
pub struct ShapleyConfig {
    /// Mode.
    pub mode: ShapleyMode,
    /// Largest game enumerated exactly.
    pub max_exact_components: usize,
    /// Whether an exact game may exceed that size.
    pub allow_exact_override: bool,
    /// Seed of the random orders.
    pub seed: u64,
}

impl ShapleyConfig {
    /// Exact enumeration.
    #[must_use]
    pub fn exact() -> (config: Self)
        ensures
            config == (ShapleyConfig {
                mode: ShapleyMode::Exact,
                max_exact_components: DEFAULT_MAX_EXACT_COMPONENTS,
                allow_exact_override: false,
                seed: 0,
            }),
    {
        ShapleyConfig {
            mode: ShapleyMode::Exact,
            max_exact_components: DEFAULT_MAX_EXACT_COMPONENTS,
            allow_exact_override: false,
            seed: 0,
        }
    }

    /// Averages over `n_samples` random orders.
    #[must_use]
    pub fn monte_carlo(n_samples: usize) -> (config: Self)
        ensures
            config == (ShapleyConfig {
                mode: ShapleyMode::MonteCarlo { n_samples },
                max_exact_components: DEFAULT_MAX_EXACT_COMPONENTS,
                allow_exact_override: false,
                seed: 0,
            }),
    {
        ShapleyConfig {
            mode: ShapleyMode::MonteCarlo { n_samples },
            max_exact_components: DEFAULT_MAX_EXACT_COMPONENTS,
            allow_exact_override: false,
            seed: 0,
        }
    }

    /// Replace the largest game enumerated exactly.
    #[must_use]
    pub fn with_max_exact_components(self, max_exact_components: usize) -> (config: Self)
        ensures
            config == (ShapleyConfig { max_exact_components, ..self }),
    {
        ShapleyConfig { max_exact_components, ..self }
    }

    /// Allow or forbid larger exact games.
    #[must_use]
    pub fn with_exact_override(self, allow_exact_override: bool) -> (config: Self)
        ensures
            config == (ShapleyConfig { allow_exact_override, ..self }),
    {
        ShapleyConfig { allow_exact_override, ..self }
    }

    /// Replace the seed.
    #[must_use]
    pub fn with_seed(self, seed: u64) -> (config: Self)
        ensures
            config == (ShapleyConfig { seed, ..self }),
    {
        ShapleyConfig { seed, ..self }
    }

    /// Replace the mode.
    #[must_use]
    pub fn with_mode(self, mode: ShapleyMode) -> (config: Self)
        ensures
            config == (ShapleyConfig { mode, ..self }),
    {
        ShapleyConfig { mode, ..self }
    }

    /// Why a configuration is refused: no game fits, or no order is drawn.
    pub open spec fn refusal(self) -> Option<QueryError> {
        if self.max_exact_components == 0 {
            Some(QueryError::NonPositiveShapleyLimit)
        } else {
            match self.mode {
                ShapleyMode::Exact => None,
                ShapleyMode::MonteCarlo { n_samples } => if n_samples == 0 {
                    Some(QueryError::NonPositiveShapleySamples)
                } else {
                    None
                },
                ShapleyMode::Permutation { n_permutations } => if n_permutations == 0 {
                    Some(QueryError::NonPositiveShapleySamples)
                } else {
                    None
                },
            }
        }
    }

    /// Validate limits and counts.
    pub fn validate(&self) -> (r: Result<(), QueryError>)
        ensures
            r == verdict(self.refusal()),
    {
        if self.max_exact_components == 0 {
            return Err(QueryError::NonPositiveShapleyLimit);
        }
        let draws_nothing = match self.mode {
            ShapleyMode::Exact => false,
            ShapleyMode::MonteCarlo { n_samples } => n_samples == 0,
            ShapleyMode::Permutation { n_permutations } => n_permutations == 0,
        };
        if draws_nothing {
            return Err(QueryError::NonPositiveShapleySamples);
        }
        Ok(())
    }
}

/// How a change is shared among components.
#[derive(Clone, Debug, PartialEq, Eq)]
#[non_exhaustive]
pub enum AllocationMethod {
    /// Shapley values.
    Shapley {
        /// How they are computed.
        approximation: ShapleyConfig,
    },
    /// Successive marginals along one order.
    Sequential {
        /// The order.
        order: Vec<ComponentId>,
    },
    /// Single-component marginals, split over directed paths.
    PathBased,
}

/// Whether no component of a list occurs twice.
pub fn distinct_components(list: &Vec<ComponentId>) -> (yes: bool)
    ensures
        yes == list@.no_duplicates(),
{
    let mut i: usize = 0;
    while i < list.len()
        invariant
            0 <= i <= list.len(),
            forall|j: int, k: int|
                0 <= j < k < i ==> #[trigger] list@[j] != #[trigger] list@[k],
        decreases list.len() - i,
    {
        let mut k: usize = 0;
        while k < i
            invariant
                0 <= k <= i < list.len(),
                forall|j: int| 0 <= j < k ==> #[trigger] list@[j] != list@[i as int],
            decreases i - k,
        {
            if list[k] == list[i] {
                assert(list@[k as int] == list@[i as int]);
                return false;
            }
            k = k + 1;
        }
        i = i + 1;
    }
    true
}

impl AllocationMethod {
    /// Why a method is refused.
    pub open spec fn refusal(self) -> Option<QueryError> {
        match self {
            AllocationMethod::Shapley { approximation } => approximation.refusal(),
            AllocationMethod::Sequential { order } => if order@.len() == 0 {
                Some(QueryError::EmptyAllocationOrder)
            } else if !order@.no_duplicates() {
                Some(QueryError::DuplicateAllocationComponent)
            } else {
                None
            },
            AllocationMethod::PathBased => None,
        }
    }

    /// Validate the configuration or the order.
    pub fn validate(&self) -> (r: Result<(), QueryError>)
        ensures
            r == verdict(self.refusal()),
    {
        match self {
            AllocationMethod::Shapley { approximation } => approximation.validate(),
            AllocationMethod::Sequential { order } => {
                if order.len() == 0 {
                    return Err(QueryError::EmptyAllocationOrder);
                }
                if !distinct_components(order) {
                    return Err(QueryError::DuplicateAllocationComponent);
                }
                Ok(())
            },
            AllocationMethod::PathBased => Ok(()),
        }
    }
}

/// Which components share a change.
#[derive(Clone, Copy, Debug, PartialEq, Eq, Hash, Structural)]
#[non_exhaustive]
pub enum AttributionComponents {
    /// Parents of the outcome.
    Inputs,
    /// Mechanisms of the outcome and its ancestors.
    Mechanisms,
    /// Both of them.
    InputsAndMechanisms,
    /// Parent sets that differ between two graphs.
    Structure,
    /// Everything.
    All,
}

/// Rows of a table that make up a population.
#[derive(Clone, Debug, PartialEq, Eq)]
#[non_exhaustive]
pub enum PopulationSelector {
    /// The listed rows.
    Rows(Vec<usize>),
    /// Rows from `start` up to, not including, `end`.
    TimeRange {
        /// First row.
        start: usize,
        /// One past the last row.
        end: usize,
    },
}

impl PopulationSelector {
    /// Why a selector is refused: it selects nothing.
    pub open spec fn refusal(self) -> Option<QueryError> {
        match self {
            PopulationSelector::Rows(rows) => if rows@.len() == 0 {
                Some(QueryError::EmptyPopulationRows)
            } else {
                None
            },
            PopulationSelector::TimeRange { start, end } => if end <= start {
                Some(QueryError::InvalidPopulationTimeRange { start, end })
            } else {
                None
            },
        }
    }

    /// Validate that rows are selected.
    pub fn validate(&self) -> (r: Result<(), QueryError>)
        ensures
            r == verdict(self.refusal()),
    {
        match self {
            PopulationSelector::Rows(rows) => if rows.len() == 0 {
                Err(QueryError::EmptyPopulationRows)
            } else {
                Ok(())
            },
            PopulationSelector::TimeRange { start, end } => if *end <= *start {
                Err(QueryError::InvalidPopulationTimeRange { start: *start, end: *end })
            } else {
                Ok(())
            },
        }
    }

    /// The rows a selector stands for, in order.
    pub open spec fn rows(self) -> Seq<usize> {
        match self {
            PopulationSelector::Rows(rows) => rows@,
            PopulationSelector::TimeRange { start, end } => if end <= start {
                Seq::empty()
            } else {
                Seq::new((end - start) as nat, |i: int| (start + i) as usize)
            },
        }
    }

    /// List the rows a selector stands for.
    #[must_use]
    pub fn selected_rows(&self) -> (listed: Vec<usize>)
        ensures
            listed@ == self.rows(),
    {
        let mut listed: Vec<usize> = Vec::new();
        match self {
            PopulationSelector::Rows(rows) => {
                let mut i: usize = 0;
                while i < rows.len()
                    invariant
                        0 <= i <= rows.len(),
                        listed@ == rows@.take(i as int),
                    decreases rows.len() - i,
                {
                    listed.push(rows[i]);
                    i = i + 1;
                    assert(listed@ =~= rows@.take(i as int));
                }
                assert(rows@.take(rows@.len() as int) =~= rows@);
            },
            PopulationSelector::TimeRange { start, end } => {
                let mut row: usize = *start;
                while row < *end
                    invariant
                        *start <= row,
                        row <= *end || row == *start,
                        listed@ == Seq::new((row - *start) as nat, |i: int| (*start + i) as usize),
                    decreases *end - row,
                {
                    listed.push(row);
                    row = row + 1;
                    assert(listed@ =~= Seq::new(
                        (row - *start) as nat,
                        |i: int| (*start + i) as usize,
                    ));
                }
                assert(listed@ =~= self.rows());
            },
        }
        listed
    }
}

/// Attribution of the change in an outcome between two populations.
#[derive(Clone, Debug, PartialEq, Eq)]
pub struct ChangeAttributionQuery {
    /// Outcome.
    pub outcome: VariableId,
    /// Population the change starts from.
    pub baseline: PopulationSelector,
    /// Population the change leads to.
    pub comparison: PopulationSelector,
    /// Components that share the change.
    pub components: AttributionComponents,
    /// How they share it.
    pub allocation: AllocationMethod,
    /// Largest number of components.
    pub max_components: usize,
}

impl ChangeAttributionQuery {
    /// Exact Shapley values of the mechanisms.
    #[must_use]
    pub fn new(
        outcome: VariableId,
        baseline: PopulationSelector,
        comparison: PopulationSelector,
    ) -> (query: Self)
        ensures
            query.outcome == outcome,
            query.baseline == baseline,
            query.comparison == comparison,
            query.components is Mechanisms,
            query.allocation matches AllocationMethod::Shapley { approximation }
                && approximation.mode is Exact && approximation.refusal() is None,
            query.max_components == DEFAULT_MAX_COMPONENTS,
    {
        ChangeAttributionQuery {
            outcome,
            baseline,
            comparison,
            components: AttributionComponents::Mechanisms,
            allocation: AllocationMethod::Shapley { approximation: ShapleyConfig::exact() },
            max_components: DEFAULT_MAX_COMPONENTS,
        }
    }

    /// Replace the components.
    #[must_use]
    pub fn with_components(self, components: AttributionComponents) -> (query: Self)
        ensures
            query == (ChangeAttributionQuery { components, ..self }),
    {
        ChangeAttributionQuery { components, ..self }
    }

    /// Replace the allocation.
    #[must_use]
    pub fn with_allocation(self, allocation: AllocationMethod) -> (query: Self)
        ensures
            query == (ChangeAttributionQuery { allocation, ..self }),
    {
        ChangeAttributionQuery { allocation, ..self }
    }

    /// Replace the largest number of components.
    #[must_use]
    pub fn with_max_components(self, max_components: usize) -> (query: Self)
        ensures
            query == (ChangeAttributionQuery { max_components, ..self }),
    {
        ChangeAttributionQuery { max_components, ..self }
    }

    /// Why a query is refused: an empty population, no room for a component, or a
    /// malformed allocation.
    pub open spec fn refusal(self) -> Option<QueryError> {
        if self.baseline.refusal() is Some {
            self.baseline.refusal()
        } else if self.comparison.refusal() is Some {
            self.comparison.refusal()
        } else if self.max_components == 0 {
            Some(QueryError::NonPositiveComponentLimit)
        } else {
            self.allocation.refusal()
        }
    }

    /// Validate populations, limit and allocation.
    pub fn validate(&self) -> (r: Result<(), QueryError>)
        ensures
            r == verdict(self.refusal()),
    {
        match self.baseline.validate() {
            Ok(_) => {},
            Err(error) => {
                return Err(error);
            },
        }
        match self.comparison.validate() {
            Ok(_) => {},
            Err(error) => {
                return Err(error);
            },
        }
        if self.max_components == 0 {
            return Err(QueryError::NonPositiveComponentLimit);
        }
        self.allocation.validate()
    }
}

/// Attribution of each unit's outcome to the parents of the outcome.
#[derive(Clone, Debug, PartialEq, Eq)]
pub struct UnitChangeQuery {
    /// Outcome.
    pub outcome: VariableId,
    /// Rows to attribute; every row where there are none.
    pub unit_rows: Option<Vec<usize>>,
    /// Largest number of rows.
    pub max_units: usize,
    /// Components that share the change.
    pub components: AttributionComponents,
    /// How they share it.
    pub allocation: AllocationMethod,
}

impl UnitChangeQuery {
    /// Exact Shapley values of the outcome's parents, for every row.
    #[must_use]
    pub fn new(outcome: VariableId, max_units: usize) -> (query: Self)
        ensures
            query.outcome == outcome,
            query.unit_rows is None,
            query.max_units == max_units,
            query.components is Inputs,
            query.allocation matches AllocationMethod::Shapley { approximation }
                && approximation.mode is Exact && approximation.refusal() is None,
    {
        UnitChangeQuery {
            outcome,
            unit_rows: None,
            max_units,
            components: AttributionComponents::Inputs,
            allocation: AllocationMethod::Shapley { approximation: ShapleyConfig::exact() },
        }
    }

    /// Restrict to the listed rows.
    #[must_use]
    pub fn with_unit_rows(self, rows: Vec<usize>) -> (query: Self)
        ensures
            query == (UnitChangeQuery { unit_rows: Some(rows), ..self }),
    {
        UnitChangeQuery { unit_rows: Some(rows), ..self }
    }

    /// Replace the components.
    #[must_use]
    pub fn with_components(self, components: AttributionComponents) -> (query: Self)
        ensures
            query == (UnitChangeQuery { components, ..self }),
    {
        UnitChangeQuery { components, ..self }
    }

    /// Replace the allocation.
    #[must_use]
    pub fn with_allocation(self, allocation: AllocationMethod) -> (query: Self)
        ensures
            query == (UnitChangeQuery { allocation, ..self }),
    {
        UnitChangeQuery { allocation, ..self }
    }

    /// Why a query is refused: no room for a unit, or a malformed allocation.
    pub open spec fn refusal(self) -> Option<QueryError> {
        if self.max_units == 0 {
            Some(QueryError::NonPositiveAnomalyLimit)
        } else {
            self.allocation.refusal()
        }
    }

    /// Validate limit and allocation.
    pub fn validate(&self) -> (r: Result<(), QueryError>)
        ensures
            r == verdict(self.refusal()),
    {
        if self.max_units == 0 {
            return Err(QueryError::NonPositiveAnomalyLimit);
        }
        self.allocation.validate()
    }
}

/// Detection of mechanisms that differ between two populations.
#[derive(Clone, Debug, PartialEq, Eq)]
pub struct MechanismChangeQuery {
    /// Variables whose mechanisms are tested.
    pub targets: Vec<VariableId>,
    /// First population.
    pub baseline: PopulationSelector,
    /// Second population.
    pub comparison: PopulationSelector,
    /// Level below which a mechanism counts as changed.
    pub significance_level: OrderedFloatBits,
    /// Largest number of targets.
    pub max_targets: usize,
}

impl MechanismChangeQuery {
    /// Construct a query.
    #[must_use]
    pub fn new(
        targets: Vec<VariableId>,
        baseline: PopulationSelector,
        comparison: PopulationSelector,
        significance_level: OrderedFloatBits,
        max_targets: usize,
    ) -> (query: Self)
        ensures
            query == (MechanismChangeQuery {
                targets,
                baseline,
                comparison,
                significance_level,
                max_targets,
            }),
    {
        MechanismChangeQuery { targets, baseline, comparison, significance_level, max_targets }
    }

    /// Why a query is refused: no targets, no room for one, an empty population, or a
    /// level that is not strictly between zero and one.
    pub open spec fn refusal(self) -> Option<QueryError> {
        if self.targets@.len() == 0 {
            Some(QueryError::EmptyMechanismChangeTargets)
        } else if self.max_targets == 0 {
            Some(QueryError::NonPositiveComponentLimit)
        } else if self.baseline.refusal() is Some {
            self.baseline.refusal()
        } else if self.comparison.refusal() is Some {
            self.comparison.refusal()
        } else if !((OrderedFloatBits { bits: 0 }).lt(self.significance_level)
            && self.significance_level.lt(OrderedFloatBits { bits: crate::level::ONE_BITS })) {
            Some(QueryError::InvalidSignificanceLevel)
        } else {
            None
        }
    }

    /// Validate targets, populations and level.
    pub fn validate(&self) -> (r: Result<(), QueryError>)
        ensures
            r == verdict(self.refusal()),
    {
        if self.targets.len() == 0 {
            return Err(QueryError::EmptyMechanismChangeTargets);
        }
        if self.max_targets == 0 {
            return Err(QueryError::NonPositiveComponentLimit);
        }
        match self.baseline.validate() {
            Ok(_) => {},
            Err(error) => {
                return Err(error);
            },
        }
        match self.comparison.validate() {
            Ok(_) => {},
            Err(error) => {
                return Err(error);
            },
        }
        if !(OrderedFloatBits::zero().less(self.significance_level)
            && self.significance_level.less(OrderedFloatBits::one())) {
            return Err(QueryError::InvalidSignificanceLevel);
        }
        Ok(())
    }
}

/// Attribution of anomalous values to noise terms.
#[derive(Clone, Debug, PartialEq, Eq)]
pub struct AnomalyAttributionQuery {
    /// Variables to score.
    pub targets: Vec<VariableId>,
    /// Rows to score; every row where there are none.
    pub unit_rows: Option<Vec<usize>>,
    /// Largest number of rows.
    pub max_units: usize,
}

impl AnomalyAttributionQuery {
    /// Construct a query that scores every row.
    #[must_use]
    pub fn new(targets: Vec<VariableId>, max_units: usize) -> (query: Self)
        ensures
            query == (AnomalyAttributionQuery { targets, unit_rows: None, max_units }),
    {
        AnomalyAttributionQuery { targets, unit_rows: None, max_units }
    }

    /// Score the listed rows only.
    #[must_use]
    pub fn with_unit_rows(self, rows: Vec<usize>) -> (query: Self)
        ensures
            query == (AnomalyAttributionQuery { unit_rows: Some(rows), ..self }),
    {
        AnomalyAttributionQuery { unit_rows: Some(rows), ..self }
    }

    /// Why a query is refused: no targets, or no room for a unit.
    pub open spec fn refusal(self) -> Option<QueryError> {
        if self.targets@.len() == 0 {
            Some(QueryError::EmptyAnomalyTargets)
        } else if self.max_units == 0 {
            Some(QueryError::NonPositiveAnomalyLimit)
        } else {
            None
        }
    }

    /// Validate targets and limit.
    pub fn validate(&self) -> (r: Result<(), QueryError>)
        ensures
            r == verdict(self.refusal()),
    {
        if self.targets.len() == 0 {
            return Err(QueryError::EmptyAnomalyTargets);
        }
        if self.max_units == 0 {
            return Err(QueryError::NonPositiveAnomalyLimit);
        }
        Ok(())
    }
}

} // verus!
