//! Target populations.
//!
//! SPDX-License-Identifier: MIT OR Apache-2.0

use crate::ids::{DistributionRef, EnvironmentId, VariableId};
use crate::level::OrderedFloatBits;
use crate::query::error;
use crate::query::error::{QueryError, QueryFault};
use vstd::prelude::*;

verus! {

/// Portable predicate over units or rows.
///
/// [`Self::Rows`] is evaluated directly; [`Self::Named`] resolves through a registry
/// of the caller.
#[derive(Clone, Debug, PartialEq, Eq, Hash)]
#[non_exhaustive]
pub enum PredicateExpr {
    /// Registry-named predicate resolved by callers.
    Named(String),
    /// Explicit row indices into the bound tabular view.
    Rows(Vec<usize>),
}

impl PredicateExpr {
    /// Named registry predicate.
    #[must_use]
    pub fn named(id: &str) -> (made: Self)
        ensures
            made matches PredicateExpr::Named(name) && name@ == id@,
    {
        PredicateExpr::Named(id.to_owned())
    }

    /// Explicit row subset.
    #[must_use]
    pub fn rows(rows: Vec<usize>) -> (made: Self)
        ensures
            made == PredicateExpr::Rows(rows),
    {
        PredicateExpr::Rows(rows)
    }

    /// Why a predicate is refused: an empty name or an empty row set.
    pub open spec fn refusal(self) -> Option<QueryFault> {
        match self {
            PredicateExpr::Named(name) => if name@.len() == 0 {
                Some(QueryFault::Plain(QueryError::EmptyPredicateName))
            } else {
                None
            },
            PredicateExpr::Rows(rows) => if rows@.len() == 0 {
                Some(QueryFault::Plain(QueryError::EmptyPopulationRows))
            } else {
                None
            },
        }
    }

    /// Validate predicate geometry (non-empty name or rows).
    pub fn validate(&self) -> (r: Result<(), QueryError>)
        ensures
            error::answers(r, self.refusal()),
    {
        match self {
            PredicateExpr::Named(name) => {
                if name.as_str().unicode_len() == 0 {
                    Err(QueryError::EmptyPredicateName)
                } else {
                    Ok(())
                }
            },
            PredicateExpr::Rows(rows) => {
                if rows.len() == 0 {
                    Err(QueryError::EmptyPopulationRows)
                } else {
                    Ok(())
                }
            },
        }
    }
}

/// Target population for an effect query.
#[derive(Clone, Debug, PartialEq, Eq, Hash)]
#[non_exhaustive]
pub enum TargetPopulation {
    /// All observed units.
    AllObserved,
    /// Treated units only.
    Treated,
    /// Untreated units only.
    Untreated,
    /// Environment-restricted population.
    Environment(EnvironmentId),
    /// Predicate-selected units.
    Predicate(PredicateExpr),
    /// Custom target distribution handle (weights live in a registry of the caller).
    CustomDistribution(DistributionRef),
    /// Row-weight retarget bound to one data snapshot.
    RowWeights {
        /// Target-weights identity: the exact weight bits in row order, their row
        /// count, the data snapshot, the score table they reweight, and `depends_on`.
        weights: [u8; 32],
        /// Covariates the weights are declared to depend on.
        depends_on: Vec<VariableId>,
    },
    /// Units at the threshold of a running variable: the limit population `R = c`.
    ///
    /// This is the population a sharp regression-discontinuity design speaks for. It
    /// is not a row subset: the effect over it is the difference of the one-sided
    /// limits at `c`, and it says nothing about units away from the cutoff.
    LocalAtCutoff {
        /// Running (assignment) variable `R`.
        running: VariableId,
        /// Cutoff `c` (finite; negative zero is stored as zero).
        cutoff: OrderedFloatBits,
    },
}

/// One bit pattern per cutoff: both zeros become the positive one.
pub open spec fn canonical_cutoff(cutoff: OrderedFloatBits) -> OrderedFloatBits {
    if cutoff.numeric_eq(OrderedFloatBits { bits: 0 }) {
        OrderedFloatBits { bits: 0 }
    } else {
        cutoff
    }
}

impl TargetPopulation {
    /// Units at the cutoff `cutoff` of `running` ([`Self::LocalAtCutoff`]).
    #[must_use]
    pub fn local_at_cutoff(running: VariableId, cutoff: OrderedFloatBits) -> (made: Self)
        ensures
            made == (TargetPopulation::LocalAtCutoff { running, cutoff: canonical_cutoff(cutoff) }),
    {
        let cutoff = if cutoff.equals(OrderedFloatBits::zero()) {
            OrderedFloatBits::zero()
        } else {
            cutoff
        };
        TargetPopulation::LocalAtCutoff { running, cutoff }
    }

    /// Whether this is the cutoff population of exactly this design.
    #[must_use]
    pub fn is_local_at_cutoff(&self, running: VariableId, cutoff: OrderedFloatBits) -> (yes: bool)
        ensures
            yes == (*self == (TargetPopulation::LocalAtCutoff {
                running,
                cutoff: canonical_cutoff(cutoff),
            })),
    {
        match self {
            TargetPopulation::LocalAtCutoff { running: own, cutoff: level } => {
                let zero = cutoff.equals(OrderedFloatBits::zero());
                let wanted: u64 = if zero {
                    0
                } else {
                    cutoff.bits
                };
                own.raw == running.raw && level.bits == wanted
            },
            _ => false,
        }
    }

    /// Why a population is refused: a bad predicate or a cutoff that is not finite.
    pub open spec fn refusal(self) -> Option<QueryFault> {
        match self {
            TargetPopulation::Predicate(expr) => expr.refusal(),
            TargetPopulation::LocalAtCutoff { cutoff, .. } => if cutoff.finite() {
                None
            } else {
                Some(QueryFault::Plain(QueryError::NonFiniteCutoff))
            },
            _ => None,
        }
    }

    /// Validate population geometry.
    pub fn validate(&self) -> (r: Result<(), QueryError>)
        ensures
            error::answers(r, self.refusal()),
    {
        match self {
            TargetPopulation::Predicate(expr) => expr.validate(),
            TargetPopulation::LocalAtCutoff { cutoff, .. } => {
                if cutoff.is_finite() {
                    Ok(())
                } else {
                    Err(QueryError::NonFiniteCutoff)
                }
            },
            _ => Ok(()),
        }
    }
}

/// Cutoffs that are numerically equal, or the same bit pattern, describe one
/// population; numerically different cutoffs describe two.
pub proof fn law_one_population_per_cutoff(a: OrderedFloatBits, b: OrderedFloatBits)
    ensures
        a.numeric_eq(b) ==> canonical_cutoff(a) == canonical_cutoff(b),
        canonical_cutoff(a) == canonical_cutoff(b) ==> a.numeric_eq(b) || a == b,
{
}

} // verus!
