//! Randomized interference queries.
//!
//! SPDX-License-Identifier: MIT OR Apache-2.0

use crate::ids::VariableId;
use crate::level;
use crate::level::OrderedFloatBits;
use crate::query::error;
use crate::query::error::{QueryError, QueryFault};
use vstd::prelude::*;

verus! {

/// Known random assignment design.
#[derive(Clone, Debug, PartialEq)]
pub enum AssignmentDesign {
    /// Independent Bernoulli assignment, scalar or unit-specific probabilities.
    Bernoulli {
        /// One probability for all units or one per unit.
        probabilities: Vec<OrderedFloatBits>,
    },
    /// Exactly `treated` units selected uniformly without replacement.
    CompleteRandomization {
        /// Number assigned to treatment.
        treated: usize,
    },
    /// Exactly `treated_clusters` clusters selected uniformly.
    ClusterRandomization {
        /// Cluster id per unit.
        clusters: Vec<u32>,
        /// Number of treated clusters.
        treated_clusters: usize,
    },
}

/// Built-in map from the global assignment vector to unit exposure.
#[derive(Clone, Debug, PartialEq)]
pub enum ExposureMapping {
    /// Unit's own binary treatment only.
    OwnTreatment,
    /// Own treatment plus count of treated incoming neighbors.
    NeighborCount,
    /// Own treatment plus fraction of treated incoming neighbors.
    NeighborFraction,
    /// Own treatment plus weighted mean neighbor treatment.
    WeightedNeighborExposure,
    /// Opaque custom mapping id resolved by a caller registry.
    Custom(String),
}

/// Bit pattern of the distance (`1e-12`) within which two exposure levels are one.
///
/// Levels are often derived from neighbor fractions or weighted means, so exact
/// equality is too brittle: levels that differ by rounding alone would select one
/// unit set for both sides of a contrast.
pub const EXPOSURE_LEVEL_TOLERANCE_BITS: u64 = 0x3d71_9799_812d_ea11;

/// One exposure category.
#[derive(Clone, Copy, Debug, PartialEq, Structural)]
pub struct ExposureLevel {
    /// Unit's own treatment.
    pub own: OrderedFloatBits,
    /// Neighborhood summary; zero for [`ExposureMapping::OwnTreatment`].
    pub neighbors: OrderedFloatBits,
}

/// Randomization-based interference estimand.
#[derive(Clone, Debug, PartialEq)]
pub enum InterferenceFunctional {
    /// Mean potential-outcome contrast between two exposure levels.
    ExposureContrast {
        /// Outcome variable.
        outcome: VariableId,
        /// Baseline exposure.
        from: ExposureLevel,
        /// Active exposure.
        to: ExposureLevel,
    },
}

/// Assignment design, exposure mapping and estimand.
#[derive(Clone, Debug, PartialEq)]
pub struct InterferenceQuery {
    /// Known random assignment design.
    pub assignment: AssignmentDesign,
    /// Exposure mapping.
    pub exposure: ExposureMapping,
    /// Requested contrast.
    pub functional: InterferenceFunctional,
    /// Monte Carlo assignments used when exposure probabilities are not analytic.
    pub probability_draws: u32,
}

/// Strictly between zero and one.
pub open spec fn proper_probability(p: OrderedFloatBits) -> bool {
    p.finite() && (OrderedFloatBits { bits: 0 }).lt(p) && p.lt(
        OrderedFloatBits { bits: level::ONE_BITS },
    )
}

fn all_proper(probabilities: &Vec<OrderedFloatBits>) -> (yes: bool)
    ensures
        yes == forall|i: int|
            0 <= i < probabilities@.len() ==> proper_probability(#[trigger] probabilities@[i]),
{
    let mut i: usize = 0;
    while i < probabilities.len()
        invariant
            0 <= i <= probabilities.len(),
            forall|k: int| 0 <= k < i ==> proper_probability(#[trigger] probabilities@[k]),
        decreases probabilities.len() - i,
    {
        let p = probabilities[i];
        if !p.is_finite() || !OrderedFloatBits::zero().less(p) || !p.less(OrderedFloatBits::one()) {
            assert(!proper_probability(probabilities@[i as int]));
            return false;
        }
        i = i + 1;
    }
    true
}

impl AssignmentDesign {
    /// Why a design is refused.
    pub open spec fn refusal(self) -> Option<QueryFault> {
        match self {
            AssignmentDesign::Bernoulli { probabilities } => if probabilities@.len() > 0
                && forall|i: int|
                0 <= i < probabilities@.len() ==> proper_probability(
                    #[trigger] probabilities@[i],
                ) {
                None
            } else {
                Some(
                    QueryFault::Interference(
                        "Bernoulli probabilities must be finite and strictly between zero and one"@,
                    ),
                )
            },
            AssignmentDesign::CompleteRandomization { treated } => if treated == 0 {
                Some(
                    QueryFault::Interference(
                        "complete randomization requires at least one treated unit"@,
                    ),
                )
            } else {
                None
            },
            AssignmentDesign::ClusterRandomization { clusters, treated_clusters } =>
            if clusters@.len() == 0 || treated_clusters == 0 {
                Some(
                    QueryFault::Interference(
                        "cluster randomization requires clusters and at least one treated cluster"@,
                    ),
                )
            } else {
                None
            },
        }
    }

    fn validate(&self) -> (r: Result<(), QueryError>)
        ensures
            error::answers(r, self.refusal()),
    {
        match self {
            AssignmentDesign::Bernoulli { probabilities } => {
                if probabilities.len() == 0 || !all_proper(probabilities) {
                    return Err(
                        QueryError::InvalidInterference(
                            "Bernoulli probabilities must be finite and strictly between zero and one".to_owned(),
                        ),
                    );
                }
            },
            AssignmentDesign::CompleteRandomization { treated } => {
                if *treated == 0 {
                    return Err(
                        QueryError::InvalidInterference(
                            "complete randomization requires at least one treated unit".to_owned(),
                        ),
                    );
                }
            },
            AssignmentDesign::ClusterRandomization { clusters, treated_clusters } => {
                if clusters.len() == 0 || *treated_clusters == 0 {
                    return Err(
                        QueryError::InvalidInterference(
                            "cluster randomization requires clusters and at least one treated cluster".to_owned(),
                        ),
                    );
                }
            },
        }
        Ok(())
    }
}

impl InterferenceQuery {
    /// Construct with 10,000 exposure-probability simulations when required.
    #[must_use]
    pub fn new(
        assignment: AssignmentDesign,
        exposure: ExposureMapping,
        functional: InterferenceFunctional,
    ) -> (query: Self)
        ensures
            query == (InterferenceQuery {
                assignment,
                exposure,
                functional,
                probability_draws: 10_000,
            }),
    {
        InterferenceQuery { assignment, exposure, functional, probability_draws: 10_000 }
    }

    /// Every component of both exposure levels is finite.
    pub open spec fn levels_finite(self) -> bool {
        match self.functional {
            InterferenceFunctional::ExposureContrast { from, to, .. } => from.own.finite()
                && from.neighbors.finite() && to.own.finite() && to.neighbors.finite(),
        }
    }

    /// Both components of the two levels are equal as numbers.
    pub open spec fn levels_equal(self) -> bool {
        match self.functional {
            InterferenceFunctional::ExposureContrast { from, to, .. } => from.own.numeric_eq(to.own)
                && from.neighbors.numeric_eq(to.neighbors),
        }
    }

    /// Why a query is refused, given whether its two levels lie within the tolerance
    /// of each other on both components. Equal levels always do.
    pub open spec fn refusal(self, levels_match: bool) -> Option<QueryFault> {
        if self.assignment.refusal() is Some {
            self.assignment.refusal()
        } else if !self.levels_finite() || self.levels_equal() || levels_match
            || self.probability_draws == 0 {
            Some(
                QueryFault::Interference(
                    "exposure levels must be finite/distinct and probability_draws must be positive"@,
                ),
            )
        } else {
            None
        }
    }

    /// Validate design probabilities, exposure levels, and simulation budget.
    ///
    /// `levels_match` is whether both components of the two levels differ by no more
    /// than the tolerance, which the caller computes in floating point. Equal levels are
    /// refused whatever it says.
    pub fn validate(&self, levels_match: bool) -> (r: Result<(), QueryError>)
        ensures
            error::answers(r, self.refusal(levels_match)),
    {
        match self.assignment.validate() {
            Ok(_) => {},
            Err(error) => {
                return Err(error);
            },
        }
        let finite = match &self.functional {
            InterferenceFunctional::ExposureContrast { from, to, .. } => from.own.is_finite()
                && from.neighbors.is_finite() && to.own.is_finite() && to.neighbors.is_finite(),
        };
        let equal = match &self.functional {
            InterferenceFunctional::ExposureContrast { from, to, .. } => from.own.equals(to.own)
                && from.neighbors.equals(to.neighbors),
        };
        if !finite || equal || levels_match || self.probability_draws == 0 {
            return Err(
                QueryError::InvalidInterference(
                    "exposure levels must be finite/distinct and probability_draws must be positive".to_owned(),
                ),
            );
        }
        Ok(())
    }
}

} // verus!
