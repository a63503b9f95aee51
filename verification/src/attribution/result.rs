//! Results of attribution.
//!
//! SPDX-License-Identifier: MIT OR Apache-2.0

use crate::ids::{ComponentId, VariableId};
use vstd::prelude::*;

verus! {

/// How a coalition cache was used.
#[derive(Clone, Copy, Debug, PartialEq, Eq, Structural)]
pub struct CacheStats {
    /// Lookups that found a value.
    pub hits: u64,
    /// Lookups that found none.
    pub misses: u64,
    /// Values held.
    pub entries: u64,
    /// Bytes charged for them.
    pub bytes: u64,
    /// Whether a value was refused for want of room.
    pub saturated: bool,
}

impl CacheStats {
    /// A cache that was not used.
    #[must_use]
    pub fn unused() -> (stats: Self)
        ensures
            stats == (CacheStats { hits: 0, misses: 0, entries: 0, bytes: 0, saturated: false }),
    {
        CacheStats { hits: 0, misses: 0, entries: 0, bytes: 0, saturated: false }
    }
}

impl Default for CacheStats {
    fn default() -> (stats: Self)
        ensures
            stats == (CacheStats { hits: 0, misses: 0, entries: 0, bytes: 0, saturated: false }),
    {
        CacheStats::unused()
    }
}

/// Work spent on an attribution.
#[derive(Clone, Copy, Debug, PartialEq, Eq, Structural)]
pub struct ComputeBudget {
    /// Payoff evaluations.
    pub evaluations: u64,
    /// Random orders completed.
    pub samples: u64,
    /// Coalitions enumerated.
    pub exact_coalitions: u64,
}

impl ComputeBudget {
    /// No work.
    #[must_use]
    pub fn none_spent() -> (budget: Self)
        ensures
            budget == (ComputeBudget { evaluations: 0, samples: 0, exact_coalitions: 0 }),
    {
        ComputeBudget { evaluations: 0, samples: 0, exact_coalitions: 0 }
    }
}

impl Default for ComputeBudget {
    fn default() -> (budget: Self)
        ensures
            budget == (ComputeBudget { evaluations: 0, samples: 0, exact_coalitions: 0 }),
    {
        ComputeBudget::none_spent()
    }
}

/// One component's share of a change.
#[derive(Clone, Copy, Debug, PartialEq)]
pub struct ComponentContribution<N> {
    /// Component.
    pub component: ComponentId,
    /// Its share.
    pub contribution: N,
    /// Monte Carlo standard error of the share.
    pub stderr: Option<N>,
    /// Lower end of the interval around the share.
    pub ci_low: Option<N>,
    /// Upper end of the interval around the share.
    pub ci_high: Option<N>,
}

/// Interaction of two components that follow each other in an order.
#[derive(Clone, Copy, Debug, PartialEq)]
pub struct InteractionTerm<N> {
    /// First component.
    pub a: ComponentId,
    /// Second component.
    pub b: ComponentId,
    /// What they add together beyond what each adds alone.
    pub value: N,
}

/// Share of a change that flows along one directed path.
#[derive(Clone, Debug, PartialEq)]
pub struct PathContribution<N> {
    /// Variables on the path, from the component to the outcome.
    pub path: Vec<VariableId>,
    /// The share.
    pub contribution: N,
}

/// Uncertainty of an attribution that comes from fitting on finite populations.
#[derive(Clone, Debug, PartialEq)]
pub struct FitUncertainty<N> {
    /// Refits requested.
    pub replicates: u32,
    /// Refits that failed.
    pub failures: u32,
    /// Coverage of the intervals.
    pub level: N,
    /// Lower end per component; withheld where a refit failed.
    pub lower: Option<Vec<N>>,
    /// Upper end per component; withheld where a refit failed.
    pub upper: Option<Vec<N>>,
    /// Interval of the total change; withheld where a refit failed.
    pub total_interval: Option<(N, N)>,
}

/// Attribution of a change to components.
#[derive(Clone, Debug, PartialEq)]
pub struct ChangeAttributionResult<N> {
    /// Outcome.
    pub outcome: VariableId,
    /// The change that is shared.
    pub total_change: N,
    /// Shares, one per component.
    pub contributions: Vec<ComponentContribution<N>>,
    /// Interactions along a sequential order.
    pub interactions: Vec<InteractionTerm<N>>,
    /// Shares per directed path.
    pub path_breakdown: Vec<PathContribution<N>>,
    /// Components whose share is not identified.
    pub unidentified: Vec<ComponentId>,
    /// Work spent.
    pub budget: ComputeBudget,
    /// Mean Monte Carlo standard error.
    pub monte_carlo_stderr: Option<N>,
    /// Monte Carlo standard error per component.
    pub component_mc_stderr: Option<Vec<N>>,
    /// Use of the cache.
    pub cache_stats: CacheStats,
    /// Spread of each share over graphs, where graphs were sampled.
    pub graph_sensitivity: Option<Vec<N>>,
    /// Uncertainty from fitting, where it was asked for.
    pub fit_uncertainty: Option<FitUncertainty<N>>,
}

/// Attribution of each unit's outcome.
#[derive(Clone, Debug, PartialEq)]
pub struct UnitChangeResult<N> {
    /// Outcome.
    pub outcome: VariableId,
    /// Rows attributed.
    pub unit_rows: Vec<usize>,
    /// Components.
    pub components: Vec<ComponentId>,
    /// Shares, one run of components per row.
    pub contributions: Vec<N>,
    /// Mean share per component.
    pub mean_contributions: Vec<N>,
    /// Work spent.
    pub budget: ComputeBudget,
    /// Mean standard error over components.
    pub monte_carlo_stderr: Option<N>,
    /// Standard error of each component's mean share.
    pub component_mc_stderr: Option<Vec<N>>,
    /// Use of the cache.
    pub cache_stats: CacheStats,
}

/// Outcome of testing one mechanism.
#[derive(Clone, Copy, Debug, PartialEq)]
pub struct MechanismChangeDetection<N> {
    /// Variable whose mechanism was tested.
    pub variable: VariableId,
    /// Whether it counts as changed.
    pub changed: bool,
    /// Test statistic.
    pub statistic: N,
    /// Unadjusted p-value.
    pub p_value: N,
    /// P-value adjusted for the number of targets, where asked for.
    pub adjusted_p_value: Option<N>,
    /// Test.
    pub method: &'static str,
}

/// Place of a component in a ranking.
#[derive(Clone, Copy, Debug, PartialEq)]
pub struct RootCauseRank<N> {
    /// Component.
    pub component: ComponentId,
    /// Score it is ranked by.
    pub score: N,
    /// Spread of the contribution over graphs or draws, where known.
    pub graph_std: Option<N>,
}

} // verus!
