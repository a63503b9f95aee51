//! Interventions and temporal intervention policies.
//!
//! SPDX-License-Identifier: MIT OR Apache-2.0

use crate::ids::{DynamicRuleId, VariableId};
use crate::text;
use crate::value::Value;
use vstd::prelude::*;

verus! {

/// One step of an intervention sequence.
#[derive(Clone, Debug, PartialEq, Eq)]
pub struct SequencedIntervention {
    /// Time offset from the analysis origin.
    pub at: i32,
    /// Intervened variable.
    pub variable: VariableId,
    /// Assigned value.
    pub value: Value,
}

/// An intervention on the mechanisms of a model.
#[derive(Clone, Debug, PartialEq, Eq)]
pub enum Intervention {
    /// Hard set of one variable.
    Assign {
        /// Intervened variable.
        variable: VariableId,
        /// Assigned value.
        value: Value,
    },
    /// Hard sets at several time offsets.
    Sequence {
        /// Steps in order.
        steps: Vec<SequencedIntervention>,
    },
}

/// Errors from validating an intervention or a temporal policy.
#[derive(Clone, Copy, Debug, PartialEq, Eq, Hash, Structural)]
pub enum InterventionError {
    /// Sustained window has `until < from`.
    InvalidTemporalWindow {
        /// Window start.
        from: i32,
        /// Window end.
        until: i32,
    },
    /// Assigned float level is NaN or infinite.
    NonFiniteLevel {
        /// Intervened variable.
        variable: VariableId,
    },
    /// Intervention sequence has no steps.
    EmptySequence,
}

impl InterventionError {
    /// The message as text.
    pub open spec fn message(self) -> Seq<char> {
        match self {
            InterventionError::InvalidTemporalWindow { from, until } => "invalid temporal window ["@
                + text::signed_decimal(from as int) + ", "@ + text::signed_decimal(until as int)
                + "]"@,
            InterventionError::NonFiniteLevel { variable } => "non-finite level for variable "@
                + text::decimal(variable.raw as nat),
            InterventionError::EmptySequence => "intervention sequence has no steps"@,
        }
    }

    /// Human-readable message.
    #[must_use]
    pub fn to_message(&self) -> (out: String)
        ensures
            out@ == self.message(),
    {
        match self {
            InterventionError::InvalidTemporalWindow { from, until } => "invalid temporal window [".to_owned().concat(
            text::signed_decimal_text(*from as i64).as_str()).concat(", ").concat(
                text::signed_decimal_text(*until as i64).as_str(),
            ).concat("]"),
            InterventionError::NonFiniteLevel { variable } => "non-finite level for variable ".to_owned().concat(
            text::decimal_text(variable.raw as u64).as_str()),
            InterventionError::EmptySequence => "intervention sequence has no steps".to_owned(),
        }
    }
}

impl Intervention {
    /// Hard set of `variable` to `value`.
    #[must_use]
    pub fn set(variable: VariableId, value: Value) -> (made: Self)
        ensures
            made == (Intervention::Assign { variable, value }),
    {
        Intervention::Assign { variable, value }
    }

    /// The one variable an intervention targets, if it targets exactly one.
    pub open spec fn primary(self) -> Option<VariableId> {
        match self {
            Intervention::Assign { variable, .. } => Some(variable),
            Intervention::Sequence { steps } => if steps@.len() > 0 && forall|i: int|
                0 <= i < steps@.len() ==> (#[trigger] steps@[i]).variable == steps@[0].variable {
                Some(steps@[0].variable)
            } else {
                None
            },
        }
    }

    /// The one variable this intervention targets; `None` where a sequence has no
    /// unique target.
    #[must_use]
    pub fn primary_variable(&self) -> (variable: Option<VariableId>)
        ensures
            variable == self.primary(),
    {
        match self {
            Intervention::Assign { variable, .. } => Some(*variable),
            Intervention::Sequence { steps } => {
                if steps.len() == 0 {
                    return None;
                }
                let first = steps[0].variable;
                let mut i: usize = 0;
                while i < steps.len()
                    invariant
                        0 <= i <= steps.len(),
                        steps.len() > 0,
                        first == steps@[0].variable,
                        forall|k: int|
                            0 <= k < i ==> (#[trigger] steps@[k]).variable == steps@[0].variable,
                        *self == (Intervention::Sequence { steps: *steps }),
                    decreases steps.len() - i,
                {
                    if steps[i].variable != first {
                        assert(steps@[i as int].variable != steps@[0].variable);
                        return None;
                    }
                    i = i + 1;
                }
                Some(first)
            },
        }
    }

    /// A float level that is NaN or infinite.
    pub open spec fn non_finite(value: Value) -> bool {
        value matches Value::Float64(level) && !level.finite()
    }

    /// What is wrong with an intervention, if anything: an empty sequence, or the
    /// first assigned level that is not finite.
    pub open spec fn fault(self) -> Option<InterventionError> {
        match self {
            Intervention::Assign { variable, value } => if Intervention::non_finite(value) {
                Some(InterventionError::NonFiniteLevel { variable })
            } else {
                None
            },
            Intervention::Sequence { steps } => if steps@.len() == 0 {
                Some(InterventionError::EmptySequence)
            } else {
                Intervention::step_fault(steps@)
            },
        }
    }

    /// The first step whose level is not finite.
    pub open spec fn step_fault(steps: Seq<SequencedIntervention>) -> Option<InterventionError>
        decreases steps.len(),
    {
        if steps.len() == 0 {
            None
        } else if Intervention::step_fault(steps.drop_last()) is Some {
            Intervention::step_fault(steps.drop_last())
        } else if Intervention::non_finite(steps.last().value) {
            Some(InterventionError::NonFiniteLevel { variable: steps.last().variable })
        } else {
            None
        }
    }

    fn holds_non_finite(value: &Value) -> (yes: bool)
        ensures
            yes == Intervention::non_finite(*value),
    {
        match value {
            Value::Float64(level) => !level.is_finite(),
            _ => false,
        }
    }

    /// Validate assigned levels. The symbolic marker is accepted: it is not a float.
    pub fn validate(&self) -> (r: Result<(), InterventionError>)
        ensures
            match r {
                Ok(_) => self.fault() is None,
                Err(error) => self.fault() == Some(error),
            },
    {
        match self {
            Intervention::Assign { variable, value } => {
                if Intervention::holds_non_finite(value) {
                    Err(InterventionError::NonFiniteLevel { variable: *variable })
                } else {
                    Ok(())
                }
            },
            Intervention::Sequence { steps } => {
                if steps.len() == 0 {
                    return Err(InterventionError::EmptySequence);
                }
                let mut i: usize = 0;
                while i < steps.len()
                    invariant
                        0 <= i <= steps.len(),
                        steps.len() > 0,
                        Intervention::step_fault(steps@.take(i as int)) is None,
                        *self == (Intervention::Sequence { steps: *steps }),
                    decreases steps.len() - i,
                {
                    proof {
                        assert(steps@.take(i + 1).drop_last() =~= steps@.take(i as int));
                    }
                    if Intervention::holds_non_finite(&steps[i].value) {
                        proof {
                            lemma_step_fault_keeps(steps@, i + 1);
                        }
                        return Err(
                            InterventionError::NonFiniteLevel { variable: steps[i].variable },
                        );
                    }
                    i = i + 1;
                }
                assert(steps@.take(i as int) =~= steps@);
                Ok(())
            },
        }
    }
}

proof fn lemma_step_fault_keeps(steps: Seq<SequencedIntervention>, n: int)
    requires
        0 <= n <= steps.len(),
        Intervention::step_fault(steps.take(n)) is Some,
    ensures
        Intervention::step_fault(steps) == Intervention::step_fault(steps.take(n)),
    decreases steps.len(),
{
    if n == steps.len() {
        assert(steps.take(n) =~= steps);
    } else {
        assert(steps.drop_last().take(n) =~= steps.take(n));
        lemma_step_fault_keeps(steps.drop_last(), n);
    }
}

/// When an intervention is applied over time.
#[derive(Clone, Debug, PartialEq, Eq)]
pub enum TemporalPolicy {
    /// One time step.
    Pulse {
        /// Time offset of the pulse.
        at: i32,
    },
    /// Every step of a closed window.
    Sustained {
        /// First step.
        from: i32,
        /// Last step.
        until: i32,
    },
    /// Assigned by a registered rule at the listed steps.
    Dynamic {
        /// Rule handle.
        rule: DynamicRuleId,
        /// Active steps.
        active_at: Vec<i32>,
    },
}

impl TemporalPolicy {
    /// Policy of a registered rule.
    #[must_use]
    pub fn dynamic(rule: DynamicRuleId, active_at: Vec<i32>) -> (made: Self)
        ensures
            made == (TemporalPolicy::Dynamic { rule, active_at }),
    {
        TemporalPolicy::Dynamic { rule, active_at }
    }

    /// What is wrong with a policy, if anything: a window that ends before it starts.
    pub open spec fn fault(self) -> Option<InterventionError> {
        match self {
            TemporalPolicy::Sustained { from, until } => if until < from {
                Some(InterventionError::InvalidTemporalWindow { from, until })
            } else {
                None
            },
            _ => None,
        }
    }

    /// Validate the window.
    pub fn validate(&self) -> (r: Result<(), InterventionError>)
        ensures
            match r {
                Ok(_) => self.fault() is None,
                Err(error) => self.fault() == Some(error),
            },
    {
        match self {
            TemporalPolicy::Sustained { from, until } => {
                if *until < *from {
                    Err(InterventionError::InvalidTemporalWindow { from: *from, until: *until })
                } else {
                    Ok(())
                }
            },
            _ => Ok(()),
        }
    }
}

} // verus!
