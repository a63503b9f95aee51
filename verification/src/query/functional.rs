//! Outcome functionals on licensed effect and response queries.
//!
//! Identification is unchanged: the same adjustment set is applied to a transform of
//! `Y` (`Y` itself, or `1{Y > c}`). Quantile inversion is not licensed here.
//!
//! SPDX-License-Identifier: MIT OR Apache-2.0

use crate::level;
use crate::level::OrderedFloatBits;
use crate::query::error;
use crate::query::error::{QueryError, QueryFault};
use vstd::prelude::*;

verus! {

/// Functional of the interventional outcome law.
///
/// [`Self::Mean`] is the licensed default. Exceedance functionals replace `Y` with an
/// indicator of the upper tail; the adjustment set does not change.
#[derive(Clone, Debug, PartialEq, Eq, Hash)]
#[non_exhaustive]
pub enum OutcomeFunctional {
    /// `E[Y(a)]` (default).
    Mean,
    /// `P(Y(a) > c)` at a single threshold.
    Exceedance(OrderedFloatBits),
    /// `P(Y(a) > c)` on a strictly increasing threshold grid.
    ExceedanceGrid(Vec<OrderedFloatBits>),
}

impl Default for OutcomeFunctional {
    fn default() -> (made: Self)
        ensures
            made is Mean,
    {
        OutcomeFunctional::Mean
    }
}

impl OutcomeFunctional {
    /// Single-threshold exceedance.
    #[must_use]
    pub fn exceedance(threshold: OrderedFloatBits) -> (made: Self)
        ensures
            made == OutcomeFunctional::Exceedance(threshold),
    {
        OutcomeFunctional::Exceedance(threshold)
    }

    /// Exceedance on an explicit grid.
    #[must_use]
    pub fn exceedance_grid(thresholds: Vec<OrderedFloatBits>) -> (made: Self)
        ensures
            made == OutcomeFunctional::ExceedanceGrid(thresholds),
    {
        OutcomeFunctional::ExceedanceGrid(thresholds)
    }

    /// Thresholds in evaluation order (`None` for the mean functional).
    #[must_use]
    pub fn thresholds(&self) -> (list: Option<Vec<OrderedFloatBits>>)
        ensures
            match *self {
                OutcomeFunctional::Mean => list is None,
                OutcomeFunctional::Exceedance(c) => list matches Some(v) && v@ == seq![c],
                OutcomeFunctional::ExceedanceGrid(grid) => list matches Some(v) && v@ == grid@,
            },
    {
        match self {
            OutcomeFunctional::Mean => None,
            OutcomeFunctional::Exceedance(c) => {
                let v = vec![*c];
                assert(v@ =~= seq![*c]);
                Some(v)
            },
            OutcomeFunctional::ExceedanceGrid(grid) => Some(level::copied(grid)),
        }
    }

    /// Whether this functional is the default mean.
    #[must_use]
    pub fn is_mean(&self) -> (yes: bool)
        ensures
            yes == (self is Mean),
    {
        match self {
            OutcomeFunctional::Mean => true,
            _ => false,
        }
    }

    /// Finite thresholds, at least one, each below every later one.
    pub open spec fn well_formed(self) -> bool {
        match self {
            OutcomeFunctional::Mean => true,
            OutcomeFunctional::Exceedance(c) => c.finite(),
            OutcomeFunctional::ExceedanceGrid(grid) => grid@.len() > 0 && level::all_finite(grid@)
                && level::strictly_increasing(grid@),
        }
    }

    /// Why a functional is refused.
    pub open spec fn refusal(self) -> Option<QueryFault> {
        if self.well_formed() {
            None
        } else {
            Some(QueryFault::Plain(QueryError::InvalidOutcomeFunctional))
        }
    }

    /// Validate finite, strictly increasing thresholds.
    pub fn validate(&self) -> (r: Result<(), QueryError>)
        ensures
            error::answers(r, self.refusal()),
    {
        let fine = match self {
            OutcomeFunctional::Mean => true,
            OutcomeFunctional::Exceedance(c) => c.is_finite(),
            OutcomeFunctional::ExceedanceGrid(grid) => grid.len() > 0
                && level::finite_and_increasing(grid),
        };
        if fine {
            Ok(())
        } else {
            Err(QueryError::InvalidOutcomeFunctional)
        }
    }
}

} // verus!
