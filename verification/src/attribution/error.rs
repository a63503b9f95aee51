//! Errors of attribution.
//!
//! SPDX-License-Identifier: MIT OR Apache-2.0

use crate::ids::VariableId;
use crate::query::error::QueryError;
use vstd::prelude::*;

verus! {

/// Why an attribution could not be computed.
#[derive(Clone, Debug, PartialEq, Eq)]
#[non_exhaustive]
pub enum AttributionError {
    /// The query is malformed.
    Query(QueryError),
    /// A count exceeds its limit.
    SizeLimit {
        /// What was counted.
        kind: &'static str,
        /// The count.
        requested: usize,
        /// The limit.
        max: usize,
    },
    /// A game is too large to be enumerated.
    ExactShapleyRejected {
        /// Players of the game.
        n_components: usize,
        /// Largest game enumerated.
        max: usize,
    },
    /// The computation was cancelled.
    Cancelled,
    /// A component is not among the players.
    UnknownPlayer,
    /// An argument has no meaning.
    InvalidInput {
        /// What is wrong with it.
        message: &'static str,
    },
    /// A combination is not supported.
    Unsupported {
        /// What is not supported.
        message: &'static str,
    },
    /// A row lies outside its table.
    PopulationOutOfRange {
        /// What is indexed.
        kind: &'static str,
        /// The index.
        index: usize,
        /// One past the last valid index.
        limit: usize,
    },
    /// A part of the compiled model is absent.
    MissingArtifact(&'static str),
    /// A variable is not in the model.
    MissingVariable {
        /// Its role.
        role: &'static str,
        /// Its id.
        id: VariableId,
    },
    /// A mechanism has no closed-form variance.
    NonLinearGaussianMechanism,
    /// A budget cannot be met.
    Budget {
        /// Which one.
        message: &'static str,
    },
    /// A model, table or sampler failed while a payoff was evaluated.
    Evaluation(String),
}

impl AttributionError {
    /// An argument has no meaning.
    #[must_use]
    pub fn invalid_input(message: &'static str) -> (error: Self)
        ensures
            error == (AttributionError::InvalidInput { message }),
    {
        AttributionError::InvalidInput { message }
    }

    /// A combination is not supported.
    #[must_use]
    pub fn unsupported(message: &'static str) -> (error: Self)
        ensures
            error == (AttributionError::Unsupported { message }),
    {
        AttributionError::Unsupported { message }
    }

    /// A variable is not in the model.
    #[must_use]
    pub fn missing_var(role: &'static str, id: VariableId) -> (error: Self)
        ensures
            error == (AttributionError::MissingVariable { role, id }),
    {
        AttributionError::MissingVariable { role, id }
    }
}

} // verus!
