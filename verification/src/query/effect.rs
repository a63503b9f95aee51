//! Average effect queries.
//!
//! SPDX-License-Identifier: MIT OR Apache-2.0

use crate::ids;
use crate::ids::VariableId;
use crate::intervention::Intervention;
use crate::level::{OrderedFloatBits, ONE_BITS};
use crate::query::error;
use crate::query::error::{QueryError, QueryFault};
use crate::query::target::TargetPopulation;
use crate::value::Value;
use vstd::prelude::*;

verus! {

/// Average effect of moving a treatment from its control to its active level.
#[derive(Clone, Debug, PartialEq)]
pub struct AverageEffectQuery {
    /// Treatment variable.
    pub treatment: VariableId,
    /// Outcome variable.
    pub outcome: VariableId,
    /// Control intervention level.
    pub control: Intervention,
    /// Active intervention level.
    pub active: Intervention,
    /// Effect modifiers; empty for a marginal effect.
    pub effect_modifiers: Vec<VariableId>,
    /// Target population.
    pub target_population: TargetPopulation,
}

/// Why an intervention does not serve as a level of `treatment`.
pub open spec fn level_target_refusal(level: Intervention, treatment: VariableId) -> Option<
    QueryFault,
> {
    match level.primary() {
        None => Some(QueryFault::Plain(QueryError::AmbiguousInterventionTarget)),
        Some(got) => if got == treatment {
            None
        } else {
            Some(
                QueryFault::Plain(
                    QueryError::InterventionVariableMismatch { expected: treatment, got },
                ),
            )
        },
    }
}

/// Require that an intervention targets `treatment` and nothing else.
pub fn require_level_target(level: &Intervention, treatment: VariableId) -> (r: Result<
    (),
    QueryError,
>)
    ensures
        error::answers(r, level_target_refusal(*level, treatment)),
{
    match level.primary_variable() {
        None => Err(QueryError::AmbiguousInterventionTarget),
        Some(got) => {
            if got == treatment {
                Ok(())
            } else {
                Err(QueryError::InterventionVariableMismatch { expected: treatment, got })
            }
        },
    }
}

/// Hard set to zero.
pub open spec fn zero_level(variable: VariableId) -> Intervention {
    Intervention::Assign { variable, value: Value::Float64(OrderedFloatBits { bits: 0 }) }
}

/// Hard set to one.
pub open spec fn one_level(variable: VariableId) -> Intervention {
    Intervention::Assign { variable, value: Value::Float64(OrderedFloatBits { bits: ONE_BITS }) }
}

impl AverageEffectQuery {
    /// Average effect of a binary treatment.
    #[must_use]
    pub fn binary_ate(treatment: VariableId, outcome: VariableId) -> (query: Self)
        ensures
            query.treatment == treatment,
            query.outcome == outcome,
            query.control == zero_level(treatment),
            query.active == one_level(treatment),
            query.effect_modifiers@.len() == 0,
            query.target_population is AllObserved,
    {
        AverageEffectQuery {
            treatment,
            outcome,
            control: Intervention::set(treatment, Value::float64(OrderedFloatBits::zero())),
            active: Intervention::set(treatment, Value::float64(OrderedFloatBits::one())),
            effect_modifiers: Vec::new(),
            target_population: TargetPopulation::AllObserved,
        }
    }

    /// Why a query is refused.
    pub open spec fn refusal(self) -> Option<QueryFault> {
        if self.treatment == self.outcome {
            Some(QueryFault::Plain(QueryError::TreatmentEqualsOutcome { id: self.treatment }))
        } else if level_target_refusal(self.control, self.treatment) is Some {
            level_target_refusal(self.control, self.treatment)
        } else if level_target_refusal(self.active, self.treatment) is Some {
            level_target_refusal(self.active, self.treatment)
        } else if self.effect_modifiers@.contains(self.treatment)
            || self.effect_modifiers@.contains(self.outcome) {
            Some(QueryFault::Plain(QueryError::ModifierOverlapsTreatmentOrOutcome))
        } else {
            self.target_population.refusal()
        }
    }

    /// Validate ids, interventions and modifiers.
    pub fn validate(&self) -> (r: Result<(), QueryError>)
        ensures
            error::answers(r, self.refusal()),
    {
        if self.treatment == self.outcome {
            return Err(QueryError::TreatmentEqualsOutcome { id: self.treatment });
        }
        match require_level_target(&self.control, self.treatment) {
            Ok(_) => {},
            Err(error) => {
                return Err(error);
            },
        }
        match require_level_target(&self.active, self.treatment) {
            Ok(_) => {},
            Err(error) => {
                return Err(error);
            },
        }
        if ids::contains_id(&self.effect_modifiers, self.treatment) || ids::contains_id(
            &self.effect_modifiers,
            self.outcome,
        ) {
            return Err(QueryError::ModifierOverlapsTreatmentOrOutcome);
        }
        self.target_population.validate()
    }
}

} // verus!
