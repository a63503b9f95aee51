//! Mediation and conditional-effect queries.
//!
//! SPDX-License-Identifier: MIT OR Apache-2.0

use crate::ids;
use crate::ids::VariableId;
use crate::intervention::Intervention;
use crate::level::OrderedFloatBits;
use crate::query::effect;
use crate::query::effect::AverageEffectQuery;
use crate::query::error;
use crate::query::error::{QueryError, QueryFault};
use crate::query::target::TargetPopulation;
use crate::value::Value;
use vstd::prelude::*;

verus! {

/// Which mediation contrast to identify or estimate (linear structural path).
#[derive(Clone, Copy, Debug, PartialEq, Eq, Hash, Structural)]
pub enum MediationContrast {
    /// Total effect (direct and mediated).
    Total,
    /// Controlled direct effect (holding mediators fixed).
    Direct,
    /// Mediated effect (path through mediators).
    Mediated,
    /// Natural direct effect (coincides with controlled direct under linearity).
    NaturalDirect,
    /// Natural indirect effect (coincides with mediated under linearity).
    NaturalIndirect,
}

/// Mediation query: treatment to mediators to outcome.
#[derive(Clone, Debug, PartialEq)]
pub struct MediationQuery {
    /// Treatment variable.
    pub treatment: VariableId,
    /// Outcome variable.
    pub outcome: VariableId,
    /// Mediator set (non-empty).
    pub mediators: Vec<VariableId>,
    /// Contrast of interest.
    pub contrast: MediationContrast,
    /// Control intervention level.
    pub control: Intervention,
    /// Active intervention level.
    pub active: Intervention,
    /// Target population.
    pub target_population: TargetPopulation,
}

impl MediationQuery {
    /// Linear mediation with treatment levels zero and one.
    #[must_use]
    pub fn binary(
        treatment: VariableId,
        outcome: VariableId,
        mediators: Vec<VariableId>,
        contrast: MediationContrast,
    ) -> (query: Self)
        ensures
            query.treatment == treatment,
            query.outcome == outcome,
            query.mediators == mediators,
            query.contrast == contrast,
            query.control == effect::zero_level(treatment),
            query.active == effect::one_level(treatment),
            query.target_population is AllObserved,
    {
        MediationQuery {
            treatment,
            outcome,
            mediators,
            contrast,
            control: Intervention::set(treatment, Value::float64(OrderedFloatBits::zero())),
            active: Intervention::set(treatment, Value::float64(OrderedFloatBits::one())),
            target_population: TargetPopulation::AllObserved,
        }
    }

    /// Why a query is refused.
    pub open spec fn refusal(self) -> Option<QueryFault> {
        if self.treatment == self.outcome {
            Some(QueryFault::Plain(QueryError::TreatmentEqualsOutcome { id: self.treatment }))
        } else if self.mediators@.len() == 0 {
            Some(QueryFault::Plain(QueryError::EmptyMediators))
        } else if self.mediators@.contains(self.treatment) || self.mediators@.contains(
            self.outcome,
        ) {
            Some(QueryFault::Plain(QueryError::MediatorOverlapsTreatmentOrOutcome))
        } else if effect::level_target_refusal(self.control, self.treatment) is Some {
            effect::level_target_refusal(self.control, self.treatment)
        } else if effect::level_target_refusal(self.active, self.treatment) is Some {
            effect::level_target_refusal(self.active, self.treatment)
        } else {
            self.target_population.refusal()
        }
    }

    /// Validate ids and interventions.
    pub fn validate(&self) -> (r: Result<(), QueryError>)
        ensures
            error::answers(r, self.refusal()),
    {
        if self.treatment == self.outcome {
            return Err(QueryError::TreatmentEqualsOutcome { id: self.treatment });
        }
        if self.mediators.len() == 0 {
            return Err(QueryError::EmptyMediators);
        }
        if ids::contains_id(&self.mediators, self.treatment) || ids::contains_id(
            &self.mediators,
            self.outcome,
        ) {
            return Err(QueryError::MediatorOverlapsTreatmentOrOutcome);
        }
        match effect::require_level_target(&self.control, self.treatment) {
            Ok(_) => {},
            Err(error) => {
                return Err(error);
            },
        }
        match effect::require_level_target(&self.active, self.treatment) {
            Ok(_) => {},
            Err(error) => {
                return Err(error);
            },
        }
        self.target_population.validate()
    }
}

/// Conditional average effect given effect modifiers.
#[derive(Clone, Debug, PartialEq)]
pub struct ConditionalEffectQuery {
    /// Inner average-effect query; its effect modifiers must be non-empty.
    pub inner: AverageEffectQuery,
}

impl ConditionalEffectQuery {
    /// Why a wrapped query is refused.
    pub open spec fn inner_refusal(inner: AverageEffectQuery) -> Option<QueryFault> {
        if inner.effect_modifiers@.len() == 0 {
            Some(QueryFault::Plain(QueryError::EmptyEffectModifiers))
        } else {
            inner.refusal()
        }
    }

    /// Wrap an average-effect query that already carries modifiers.
    pub fn try_new(inner: AverageEffectQuery) -> (r: Result<Self, QueryError>)
        ensures
            error::answers(r, ConditionalEffectQuery::inner_refusal(inner)),
            r matches Ok(query) ==> query.inner == inner,
    {
        let query = ConditionalEffectQuery { inner };
        match query.validate() {
            Ok(_) => Ok(query),
            Err(error) => Err(error),
        }
    }

    /// Validate modifiers and the inner query.
    pub fn validate(&self) -> (r: Result<(), QueryError>)
        ensures
            error::answers(r, ConditionalEffectQuery::inner_refusal(self.inner)),
    {
        if self.inner.effect_modifiers.len() == 0 {
            return Err(QueryError::EmptyEffectModifiers);
        }
        self.inner.validate()
    }
}

} // verus!
