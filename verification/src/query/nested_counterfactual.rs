//! A narrowly licensed natural direct effect query.
//!
//! SPDX-License-Identifier: MIT OR Apache-2.0

use crate::ids::VariableId;
use crate::intervention::Intervention;
use crate::level::{OrderedFloatBits, ONE_BITS};
use crate::query::error;
use crate::query::error::{QueryError, QueryFault};
use crate::query::mediation::{MediationContrast, MediationQuery};
use crate::value::Value;
use vstd::prelude::*;

verus! {

/// Natural direct effect `E[Y(1, M(0)) - Y(0, M(0))]` for one mediator.
///
/// Execution licenses the fixed Markovian graph `X -> M`, `X -> Y`, `M -> Y` with
/// linear Gaussian mechanisms.
#[derive(Clone, Copy, Debug, PartialEq, Eq, Structural)]
pub struct NestedCounterfactualQuery {
    /// Treatment node.
    pub treatment: VariableId,
    /// Mediator held to its control-world value.
    pub mediator: VariableId,
    /// Outcome node.
    pub outcome: VariableId,
    /// Control treatment level.
    pub control: OrderedFloatBits,
    /// Active treatment level.
    pub active: OrderedFloatBits,
}

impl NestedCounterfactualQuery {
    /// Treatment, mediator and outcome are three variables.
    pub open spec fn roles_distinct(self) -> bool {
        self.treatment != self.mediator && self.treatment != self.outcome && self.mediator
            != self.outcome
    }

    /// Construct the natural direct effect using treatment levels zero and one.
    pub fn new(treatment: VariableId, mediator: VariableId, outcome: VariableId) -> (r: Result<
        Self,
        QueryError,
    >)
        ensures
            match r {
                Ok(query) => {
                    &&& query.treatment == treatment && query.mediator == mediator
                        && query.outcome == outcome
                    &&& query.roles_distinct()
                    &&& query.control.bits == 0
                    &&& query.active.bits == ONE_BITS
                },
                Err(error) => {
                    &&& treatment == mediator || treatment == outcome || mediator == outcome
                    &&& error.fault() == QueryFault::Intervention(
                        "nested treatment, mediator, and outcome must be distinct"@,
                    )
                },
            },
    {
        NestedCounterfactualQuery::with_levels(
            treatment,
            mediator,
            outcome,
            OrderedFloatBits::zero(),
            OrderedFloatBits::one(),
        )
    }

    /// Construct with explicit finite control and active treatment values.
    pub fn with_levels(
        treatment: VariableId,
        mediator: VariableId,
        outcome: VariableId,
        control: OrderedFloatBits,
        active: OrderedFloatBits,
    ) -> (r: Result<Self, QueryError>)
        ensures
            match r {
                Ok(query) => {
                    &&& query.treatment == treatment && query.mediator == mediator
                        && query.outcome == outcome
                    &&& query.control == control && query.active == active
                    &&& control.finite() && active.finite() && !control.numeric_eq(active)
                    &&& query.roles_distinct()
                },
                Err(error) => error.fault() == if !control.finite() || !active.finite()
                    || control.numeric_eq(active) {
                    QueryFault::Intervention("nested treatment levels must be finite and distinct"@)
                } else {
                    QueryFault::Intervention(
                        "nested treatment, mediator, and outcome must be distinct"@,
                    )
                },
            },
            r is Err <==> !(control.finite() && active.finite() && !control.numeric_eq(active)
                && treatment != mediator && treatment != outcome && mediator != outcome),
    {
        if !control.is_finite() || !active.is_finite() || control.equals(active) {
            return Err(
                QueryError::InvalidIntervention(
                    "nested treatment levels must be finite and distinct".to_owned(),
                ),
            );
        }
        let query = NestedCounterfactualQuery { treatment, mediator, outcome, control, active };
        match query.validate() {
            Ok(_) => Ok(query),
            Err(error) => Err(error),
        }
    }

    /// Why a query is refused: overlapping roles, else levels that are not finite or
    /// share one bit pattern.
    pub open spec fn refusal(self) -> Option<QueryFault> {
        if !self.roles_distinct() {
            Some(
                QueryFault::Intervention(
                    "nested treatment, mediator, and outcome must be distinct"@,
                ),
            )
        } else if !self.control.finite() || !self.active.finite()
            || self.control.bits == self.active.bits {
            Some(QueryFault::Intervention("nested treatment levels must be finite and distinct"@))
        } else {
            None
        }
    }

    /// Validate distinct treatment, mediator, and outcome roles.
    pub fn validate(&self) -> (r: Result<(), QueryError>)
        ensures
            error::answers(r, self.refusal()),
    {
        if self.treatment == self.mediator || self.treatment == self.outcome || self.mediator
            == self.outcome {
            return Err(
                QueryError::InvalidIntervention(
                    "nested treatment, mediator, and outcome must be distinct".to_owned(),
                ),
            );
        }
        if !self.control.is_finite() || !self.active.is_finite() || self.control.bits
            == self.active.bits {
            return Err(
                QueryError::InvalidIntervention(
                    "nested treatment levels must be finite and distinct".to_owned(),
                ),
            );
        }
        Ok(())
    }

    /// Control treatment level.
    #[must_use]
    pub fn control_value(&self) -> (level: OrderedFloatBits)
        ensures
            level == self.control,
    {
        self.control
    }

    /// Active treatment level.
    #[must_use]
    pub fn active_value(&self) -> (level: OrderedFloatBits)
        ensures
            level == self.active,
    {
        self.active
    }

    /// Represent this natural direct effect using the linear mediation contract.
    #[must_use]
    pub fn as_mediation_query(&self) -> (query: MediationQuery)
        ensures
            query.treatment == self.treatment,
            query.outcome == self.outcome,
            query.mediators@ == seq![self.mediator],
            query.contrast is NaturalDirect,
            query.control == (Intervention::Assign {
                variable: self.treatment,
                value: Value::Float64(self.control),
            }),
            query.active == (Intervention::Assign {
                variable: self.treatment,
                value: Value::Float64(self.active),
            }),
            query.target_population is AllObserved,
            self.refusal() is None ==> query.refusal() is None,
    {
        let mediators = vec![self.mediator];
        assert(mediators@ =~= seq![self.mediator]);
        let mut query = MediationQuery::binary(
            self.treatment,
            self.outcome,
            mediators,
            MediationContrast::NaturalDirect,
        );
        query.control = Intervention::set(self.treatment, Value::float64(self.control_value()));
        query.active = Intervention::set(self.treatment, Value::float64(self.active_value()));
        query
    }
}

} // verus!
