//! Counterfactual queries over factual observations.
//!
//! SPDX-License-Identifier: MIT OR Apache-2.0

use crate::ids::VariableId;
use crate::intervention::Intervention;
use crate::level::OrderedFloatBits;
use crate::query::error;
use crate::query::error::{QueryError, QueryFault};
use crate::value::Value;
use vstd::prelude::*;

verus! {

/// Counterfactual query over factual observations and interventions.
#[derive(Clone, Debug, PartialEq)]
pub struct CounterfactualQuery {
    /// Outcome variables to predict under the counterfactual world.
    pub outcomes: Vec<VariableId>,
    /// Interventions defining the counterfactual (active) world after abduction.
    pub interventions: Vec<Intervention>,
    /// Control world for a two-world contrast (typically a hard set to zero).
    pub control: Intervention,
    /// When true, allow nested counterfactual interventions under invertible models.
    pub allow_nested: bool,
}

/// Target of the first intervention, if it has a unique one.
pub open spec fn first_target(interventions: Seq<Intervention>) -> Option<VariableId> {
    if interventions.len() > 0 {
        interventions[0].primary()
    } else {
        None
    }
}

fn first_intervened(interventions: &Vec<Intervention>) -> (target: Option<VariableId>)
    ensures
        target == first_target(interventions@),
{
    if interventions.len() > 0 {
        interventions[0].primary_variable()
    } else {
        None
    }
}

/// The checks on each intervention, in order.
pub open spec fn level_faults(interventions: Seq<Intervention>) -> Seq<Option<QueryFault>> {
    Seq::new(interventions.len(), |i: int| level_fault(interventions[i]))
}

/// Why one intervention is refused.
pub open spec fn level_fault(intervention: Intervention) -> Option<QueryFault> {
    match intervention.fault() {
        Some(error) => Some(QueryFault::Intervention(error.message())),
        None => None,
    }
}

impl CounterfactualQuery {
    /// The variable a default control sets: the first intervention's target, and
    /// variable zero where there is none.
    pub open spec fn control_target(interventions: Seq<Intervention>) -> VariableId {
        match first_target(interventions) {
            Some(variable) => variable,
            None => VariableId { raw: 0 },
        }
    }

    /// Hard set of the first intervention's target to zero.
    ///
    /// [`Self::new`] uses this; so does decoding of a query that omits its control.
    #[must_use]
    pub fn default_control(interventions: &Vec<Intervention>) -> (control: Intervention)
        ensures
            control == (Intervention::Assign {
                variable: CounterfactualQuery::control_target(interventions@),
                value: Value::Float64(OrderedFloatBits { bits: 0 }),
            }),
    {
        let variable = match first_intervened(interventions) {
            Some(variable) => variable,
            None => VariableId::from_raw(0),
        };
        Intervention::set(variable, Value::float64(OrderedFloatBits::zero()))
    }

    /// Construct a single-outcome counterfactual query with the default control.
    #[must_use]
    pub fn new(outcome: VariableId, interventions: Vec<Intervention>) -> (query: Self)
        ensures
            query.outcomes@ == seq![outcome],
            query.interventions == interventions,
            query.control == (Intervention::Assign {
                variable: CounterfactualQuery::control_target(interventions@),
                value: Value::Float64(OrderedFloatBits { bits: 0 }),
            }),
            !query.allow_nested,
    {
        let control = CounterfactualQuery::default_control(&interventions);
        let outcomes = vec![outcome];
        assert(outcomes@ =~= seq![outcome]);
        CounterfactualQuery { outcomes, interventions, control, allow_nested: false }
    }

    /// Replace the control world.
    #[must_use]
    pub fn with_control(self, control: Intervention) -> (query: Self)
        ensures
            query == (CounterfactualQuery { control, ..self }),
    {
        CounterfactualQuery { control, ..self }
    }

    /// Hard-set the control level on the current control's target, else on the first
    /// intervention's.
    #[must_use]
    pub fn with_control_level(self, level: OrderedFloatBits) -> (query: Self)
        ensures
            query == (CounterfactualQuery {
                control: Intervention::Assign {
                    variable: match self.control.primary() {
                        Some(variable) => variable,
                        None => CounterfactualQuery::control_target(self.interventions@),
                    },
                    value: Value::Float64(level),
                },
                ..self
            }),
    {
        let variable = match self.control.primary_variable() {
            Some(variable) => variable,
            None => match first_intervened(&self.interventions) {
                Some(variable) => variable,
                None => VariableId::from_raw(0),
            },
        };
        self.with_control(Intervention::set(variable, Value::float64(level)))
    }

    /// Enable nested interventions where the model supports them.
    #[must_use]
    pub fn with_nested(self, allow_nested: bool) -> (query: Self)
        ensures
            query == (CounterfactualQuery { allow_nested, ..self }),
    {
        CounterfactualQuery { allow_nested, ..self }
    }

    /// Why a query is refused: no outcomes, an invalid intervention, an invalid
    /// control, or a control that targets another variable than the first active
    /// intervention.
    pub open spec fn refusal(self) -> Option<QueryFault> {
        if self.outcomes@.len() == 0 {
            Some(QueryFault::Plain(QueryError::EmptyCounterfactualOutcomes))
        } else if error::first_fault(level_faults(self.interventions@)) is Some {
            error::first_fault(level_faults(self.interventions@))
        } else if level_fault(self.control) is Some {
            level_fault(self.control)
        } else {
            match (first_target(self.interventions@), self.control.primary()) {
                (None, _) => None,
                (Some(_), None) => Some(QueryFault::Plain(QueryError::AmbiguousInterventionTarget)),
                (Some(active), Some(control)) => if control == active {
                    None
                } else {
                    Some(
                        QueryFault::Plain(
                            QueryError::InterventionVariableMismatch {
                                expected: active,
                                got: control,
                            },
                        ),
                    )
                },
            }
        }
    }

    /// Validate outcomes, interventions and control.
    pub fn validate(&self) -> (r: Result<(), QueryError>)
        ensures
            error::answers(r, self.refusal()),
    {
        if self.outcomes.len() == 0 {
            return Err(QueryError::EmptyCounterfactualOutcomes);
        }
        match validate_levels(&self.interventions) {
            Ok(_) => {},
            Err(error) => {
                return Err(error);
            },
        }
        match self.control.validate() {
            Ok(_) => {},
            Err(error) => {
                return Err(QueryError::InvalidIntervention(error.to_message()));
            },
        }
        match first_intervened(&self.interventions) {
            None => Ok(()),
            Some(active) => match self.control.primary_variable() {
                None => Err(QueryError::AmbiguousInterventionTarget),
                Some(control) => {
                    if control == active {
                        Ok(())
                    } else {
                        Err(
                            QueryError::InterventionVariableMismatch {
                                expected: active,
                                got: control,
                            },
                        )
                    }
                },
            },
        }
    }
}

fn validate_levels(interventions: &Vec<Intervention>) -> (r: Result<(), QueryError>)
    ensures
        error::answers(r, error::first_fault(level_faults(interventions@))),
{
    let ghost faults = level_faults(interventions@);
    let mut i: usize = 0;
    while i < interventions.len()
        invariant
            0 <= i <= interventions.len(),
            faults == level_faults(interventions@),
            forall|k: int| 0 <= k < i ==> (#[trigger] faults[k]) is None,
        decreases interventions.len() - i,
    {
        match interventions[i].validate() {
            Ok(_) => {},
            Err(error) => {
                proof {
                    error::lemma_first_fault(faults, i as int);
                }
                return Err(QueryError::InvalidIntervention(error.to_message()));
            },
        }
        assert(faults[i as int] is None);
        i = i + 1;
    }
    proof {
        error::lemma_first_fault(faults, faults.len() as int);
    }
    Ok(())
}

/// A query made from an outcome and interventions that are valid, and whose first has
/// a unique target, is accepted: the default control always fits.
pub proof fn law_default_control_is_accepted(query: CounterfactualQuery)
    requires
        query.outcomes@.len() > 0,
        forall|i: int|
            0 <= i < query.interventions@.len() ==> (
            #[trigger] query.interventions@[i]).fault() is None,
        query.control == (Intervention::Assign {
            variable: CounterfactualQuery::control_target(query.interventions@),
            value: Value::Float64(OrderedFloatBits { bits: 0 }),
        }),
    ensures
        query.refusal() is None,
{
    error::lemma_no_fault(level_faults(query.interventions@));
}

} // verus!
