//! Errors from query construction or validation.
//!
//! SPDX-License-Identifier: MIT OR Apache-2.0

use crate::ids::VariableId;
use crate::text;
use vstd::prelude::*;

verus! {

/// Errors from query construction or validation.
#[derive(Clone, Debug, PartialEq, Eq)]
#[non_exhaustive]
pub enum QueryError {
    /// Treatment and outcome are the same variable.
    TreatmentEqualsOutcome {
        /// Shared id.
        id: VariableId,
    },
    /// Intervention does not target the declared treatment.
    InterventionVariableMismatch {
        /// Expected treatment id.
        expected: VariableId,
        /// Actual intervention target.
        got: VariableId,
    },
    /// Intervention sequence has no unique target variable.
    AmbiguousInterventionTarget,
    /// Effect modifier overlaps treatment or outcome.
    ModifierOverlapsTreatmentOrOutcome,
    /// Sustained window has `until < from`.
    InvalidTemporalWindow {
        /// Window start.
        from: i32,
        /// Window end.
        until: i32,
    },
    /// Horizon must be at least one time step.
    NonPositiveHorizon,
    /// Nested intervention failed validation.
    InvalidIntervention(String),
    /// Counterfactual query has no outcomes.
    EmptyCounterfactualOutcomes,
    /// Anomaly query has no targets.
    EmptyAnomalyTargets,
    /// Anomaly `max_units` must be at least one.
    NonPositiveAnomalyLimit,
    /// Mediation query has no mediators.
    EmptyMediators,
    /// Mediator overlaps treatment or outcome.
    MediatorOverlapsTreatmentOrOutcome,
    /// Conditional effect requires non-empty modifiers.
    EmptyEffectModifiers,
    /// Population selector has no rows.
    EmptyPopulationRows,
    /// Named predicate has an empty registry key.
    EmptyPredicateName,
    /// A dynamic policy has no single treatment origin.
    DynamicPolicyHasNoTreatmentOffset,
    /// Time-range population has `end <= start`.
    InvalidPopulationTimeRange {
        /// Start.
        start: usize,
        /// End.
        end: usize,
    },
    /// Sequential allocation order is empty.
    EmptyAllocationOrder,
    /// Sequential allocation order contains the same component more than once.
    DuplicateAllocationComponent,
    /// Shapley exact component limit must be at least one.
    NonPositiveShapleyLimit,
    /// Approximate Shapley sample or permutation count must be at least one.
    NonPositiveShapleySamples,
    /// Change attribution component limit must be at least one.
    NonPositiveComponentLimit,
    /// Mechanism-change query has no targets.
    EmptyMechanismChangeTargets,
    /// Significance level must lie strictly between zero and one.
    InvalidSignificanceLevel,
    /// Interventional distribution query has no outcomes.
    EmptyDistributionOutcomes,
    /// Path enumeration limits must be at least one.
    NonPositivePathLimit,
    /// Path node overlaps treatment or outcome.
    PathNodeOverlapsTreatmentOrOutcome,
    /// Distribution conditioning overlaps an outcome or intervention target.
    ConditioningOverlapsOutcomeOrIntervention,
    /// Named or custom population requires a registry.
    PopulationRegistryRequired,
    /// Named predicate is not bound in the registry.
    UnknownPredicateName {
        /// Predicate key.
        name: String,
    },
    /// Custom distribution handle is not bound in the registry.
    UnknownDistributionRef {
        /// Raw distribution id.
        id: u32,
    },
    /// Treated or untreated population requires a treatment column.
    PopulationNeedsTreatment,
    /// Treatment column is not binary.
    PopulationNonBinaryTreatment,
    /// Keep-mask or weight length mismatch.
    PopulationLengthMismatch {
        /// Expected length.
        expected: usize,
        /// Actual length.
        actual: usize,
    },
    /// Predicate row index is not below `n`.
    PopulationRowOutOfRange {
        /// Offending row.
        row: usize,
        /// Population size.
        n: usize,
    },
    /// Environment-restricted populations need multi-environment data.
    PopulationEnvironmentUnsupported,
    /// Distribution weights contain negative or non-finite values.
    InvalidPopulationWeights,
    /// A continuous-response query is malformed.
    InvalidResponse(String),
    /// A transport query or evidence catalog is malformed.
    InvalidTransport(String),
    /// A randomized-interference query is malformed.
    InvalidInterference(String),
    /// Exceedance thresholds are not finite and strictly increasing.
    InvalidOutcomeFunctional,
    /// A cutoff population has a cutoff that is not finite.
    NonFiniteCutoff,
}

/// What an error says, with its text as a sequence of characters.
pub enum QueryFault {
    /// An error that carries no text.
    Plain(QueryError),
    /// [`QueryError::InvalidIntervention`].
    Intervention(Seq<char>),
    /// [`QueryError::InvalidResponse`].
    Response(Seq<char>),
    /// [`QueryError::InvalidTransport`].
    Transport(Seq<char>),
    /// [`QueryError::InvalidInterference`].
    Interference(Seq<char>),
    /// [`QueryError::UnknownPredicateName`].
    PredicateName(Seq<char>),
}

/// A check answers a refusal: success exactly if there is none, else its error.
pub open spec fn answers<T>(r: Result<T, QueryError>, refusal: Option<QueryFault>) -> bool {
    match r {
        Ok(_) => refusal is None,
        Err(error) => refusal == Some(error.fault()),
    }
}

/// The first fault of a sequence of checks.
pub open spec fn first_fault(faults: Seq<Option<QueryFault>>) -> Option<QueryFault>
    decreases faults.len(),
{
    if faults.len() == 0 {
        None
    } else if faults[0] is Some {
        faults[0]
    } else {
        first_fault(faults.skip(1))
    }
}

/// A fault with none before it is the first; where there is none, no check fails.
pub proof fn lemma_first_fault(faults: Seq<Option<QueryFault>>, k: int)
    requires
        0 <= k <= faults.len(),
        forall|i: int| 0 <= i < k ==> (#[trigger] faults[i]) is None,
        k == faults.len() || faults[k] is Some,
    ensures
        first_fault(faults) == if k == faults.len() {
            None
        } else {
            faults[k]
        },
    decreases faults.len(),
{
    if faults.len() > 0 && k > 0 {
        let rest = faults.skip(1);
        assert forall|i: int| 0 <= i < k - 1 implies (#[trigger] rest[i]) is None by {
            assert(rest[i] == faults[i + 1]);
        }
        lemma_first_fault(rest, k - 1);
    }
}

/// No check fails exactly if each one passes.
pub proof fn lemma_no_fault(faults: Seq<Option<QueryFault>>)
    ensures
        first_fault(faults) is None <==> forall|i: int|
            0 <= i < faults.len() ==> (#[trigger] faults[i]) is None,
    decreases faults.len(),
{
    if faults.len() > 0 {
        let rest = faults.skip(1);
        lemma_no_fault(rest);
        if first_fault(faults) is None {
            assert forall|i: int| 0 <= i < faults.len() implies (#[trigger] faults[i]) is None by {
                if i > 0 {
                    assert(rest[i - 1] == faults[i]);
                }
            }
        } else if faults[0] is None {
            let i = choose|i: int| 0 <= i < rest.len() && (#[trigger] rest[i]) is Some;
            assert(faults[i + 1] is Some);
        }
    }
}

impl QueryError {
    /// What this error says.
    pub open spec fn fault(self) -> QueryFault {
        match self {
            QueryError::InvalidIntervention(text) => QueryFault::Intervention(text@),
            QueryError::InvalidResponse(text) => QueryFault::Response(text@),
            QueryError::InvalidTransport(text) => QueryFault::Transport(text@),
            QueryError::InvalidInterference(text) => QueryFault::Interference(text@),
            QueryError::UnknownPredicateName { name } => QueryFault::PredicateName(name@),
            other => QueryFault::Plain(other),
        }
    }

    /// The message as text; ids are rendered by their raw number.
    pub open spec fn message(self) -> Seq<char> {
        match self {
            QueryError::TreatmentEqualsOutcome { id } => "treatment and outcome are the same variable "@ + text::decimal(id.raw as nat),
            QueryError::InterventionVariableMismatch { expected, got } => "intervention targets "@ + text::decimal(got.raw as nat) + ", expected treatment "@ + text::decimal(expected.raw as nat),
            QueryError::AmbiguousInterventionTarget => "intervention does not have a unique target variable"@,
            QueryError::ModifierOverlapsTreatmentOrOutcome => "effect modifier overlaps treatment or outcome"@,
            QueryError::InvalidTemporalWindow { from, until } => "invalid temporal window ["@ + text::signed_decimal(from as int) + ", "@ + text::signed_decimal(until as int) + "]"@,
            QueryError::NonPositiveHorizon => "horizon_steps must be >= 1"@,
            QueryError::InvalidIntervention(text) => "invalid intervention: "@ + text@,
            QueryError::EmptyCounterfactualOutcomes => "counterfactual query requires at least one outcome"@,
            QueryError::EmptyAnomalyTargets => "anomaly attribution requires targets"@,
            QueryError::NonPositiveAnomalyLimit => "anomaly max_units must be >= 1"@,
            QueryError::EmptyMediators => "mediation query requires mediators"@,
            QueryError::MediatorOverlapsTreatmentOrOutcome => "mediator overlaps treatment or outcome"@,
            QueryError::EmptyEffectModifiers => "conditional effect requires non-empty effect modifiers"@,
            QueryError::EmptyPopulationRows => "population selector has no rows"@,
            QueryError::EmptyPredicateName => "predicate name must be non-empty"@,
            QueryError::DynamicPolicyHasNoTreatmentOffset => "TemporalPolicy::Dynamic has no single treatment offset"@,
            QueryError::InvalidPopulationTimeRange { start, end } => "invalid population time range ["@ + text::decimal(start as nat) + ", "@ + text::decimal(end as nat) + ")"@,
            QueryError::EmptyAllocationOrder => "sequential allocation order is empty"@,
            QueryError::DuplicateAllocationComponent => "sequential allocation order contains duplicate components"@,
            QueryError::NonPositiveShapleyLimit => "Shapley max_exact_components must be >= 1"@,
            QueryError::NonPositiveShapleySamples => "Shapley sample / permutation count must be >= 1"@,
            QueryError::NonPositiveComponentLimit => "max_components / max_targets must be >= 1"@,
            QueryError::EmptyMechanismChangeTargets => "mechanism-change detection requires targets"@,
            QueryError::InvalidSignificanceLevel => "significance level must be in (0, 1)"@,
            QueryError::EmptyDistributionOutcomes => "interventional distribution requires at least one outcome"@,
            QueryError::NonPositivePathLimit => "path max_paths / max_len must be >= 1"@,
            QueryError::PathNodeOverlapsTreatmentOrOutcome => "path node overlaps treatment or outcome"@,
            QueryError::ConditioningOverlapsOutcomeOrIntervention => "distribution conditioning overlaps outcome or intervention"@,
            QueryError::PopulationRegistryRequired => "named predicate / custom distribution requires a PopulationRegistry"@,
            QueryError::UnknownPredicateName { name } => "unknown predicate name `"@ + name@ + "`"@,
            QueryError::UnknownDistributionRef { id } => "unknown DistributionRef("@ + text::decimal(id as nat) + ")"@,
            QueryError::PopulationNeedsTreatment => "Treated/Untreated population requires a treatment column"@,
            QueryError::PopulationNonBinaryTreatment => "Treated/Untreated population requires binary 0/1 treatment"@,
            QueryError::PopulationLengthMismatch { expected, actual } => "population length mismatch: expected "@ + text::decimal(expected as nat) + ", got "@ + text::decimal(actual as nat),
            QueryError::PopulationRowOutOfRange { row, n } => "population row "@ + text::decimal(row as nat) + " out of range for n="@ + text::decimal(n as nat),
            QueryError::PopulationEnvironmentUnsupported => "Environment target population is not resolved by PopulationRegistry"@,
            QueryError::InvalidPopulationWeights => "custom distribution weights must be finite and non-negative"@,
            QueryError::InvalidResponse(text) => "invalid response: "@ + text@,
            QueryError::InvalidTransport(text) => "invalid transport: "@ + text@,
            QueryError::InvalidInterference(text) => "invalid interference: "@ + text@,
            QueryError::InvalidOutcomeFunctional => "outcome functional requires finite, strictly increasing thresholds"@,
            QueryError::NonFiniteCutoff => "cutoff must be finite"@,
        }
    }

    /// Human-readable message.
    #[must_use]
    pub fn to_message(&self) -> (out: String)
        ensures
            out@ == self.message(),
    {
        match self {
            QueryError::TreatmentEqualsOutcome { id } => "treatment and outcome are the same variable ".to_owned().concat(text::decimal_text(id.raw as u64).as_str()),
            QueryError::InterventionVariableMismatch { expected, got } => "intervention targets ".to_owned().concat(text::decimal_text(got.raw as u64).as_str()).concat(", expected treatment ").concat(text::decimal_text(expected.raw as u64).as_str()),
            QueryError::AmbiguousInterventionTarget => "intervention does not have a unique target variable".to_owned(),
            QueryError::ModifierOverlapsTreatmentOrOutcome => "effect modifier overlaps treatment or outcome".to_owned(),
            QueryError::InvalidTemporalWindow { from, until } => "invalid temporal window [".to_owned().concat(text::signed_decimal_text(*from as i64).as_str()).concat(", ").concat(text::signed_decimal_text(*until as i64).as_str()).concat("]"),
            QueryError::NonPositiveHorizon => "horizon_steps must be >= 1".to_owned(),
            QueryError::InvalidIntervention(text) => "invalid intervention: ".to_owned().concat(text.as_str()),
            QueryError::EmptyCounterfactualOutcomes => "counterfactual query requires at least one outcome".to_owned(),
            QueryError::EmptyAnomalyTargets => "anomaly attribution requires targets".to_owned(),
            QueryError::NonPositiveAnomalyLimit => "anomaly max_units must be >= 1".to_owned(),
            QueryError::EmptyMediators => "mediation query requires mediators".to_owned(),
            QueryError::MediatorOverlapsTreatmentOrOutcome => "mediator overlaps treatment or outcome".to_owned(),
            QueryError::EmptyEffectModifiers => "conditional effect requires non-empty effect modifiers".to_owned(),
            QueryError::EmptyPopulationRows => "population selector has no rows".to_owned(),
            QueryError::EmptyPredicateName => "predicate name must be non-empty".to_owned(),
            QueryError::DynamicPolicyHasNoTreatmentOffset => "TemporalPolicy::Dynamic has no single treatment offset".to_owned(),
            QueryError::InvalidPopulationTimeRange { start, end } => "invalid population time range [".to_owned().concat(text::decimal_text(*start as u64).as_str()).concat(", ").concat(text::decimal_text(*end as u64).as_str()).concat(")"),
            QueryError::EmptyAllocationOrder => "sequential allocation order is empty".to_owned(),
            QueryError::DuplicateAllocationComponent => "sequential allocation order contains duplicate components".to_owned(),
            QueryError::NonPositiveShapleyLimit => "Shapley max_exact_components must be >= 1".to_owned(),
            QueryError::NonPositiveShapleySamples => "Shapley sample / permutation count must be >= 1".to_owned(),
            QueryError::NonPositiveComponentLimit => "max_components / max_targets must be >= 1".to_owned(),
            QueryError::EmptyMechanismChangeTargets => "mechanism-change detection requires targets".to_owned(),
            QueryError::InvalidSignificanceLevel => "significance level must be in (0, 1)".to_owned(),
            QueryError::EmptyDistributionOutcomes => "interventional distribution requires at least one outcome".to_owned(),
            QueryError::NonPositivePathLimit => "path max_paths / max_len must be >= 1".to_owned(),
            QueryError::PathNodeOverlapsTreatmentOrOutcome => "path node overlaps treatment or outcome".to_owned(),
            QueryError::ConditioningOverlapsOutcomeOrIntervention => "distribution conditioning overlaps outcome or intervention".to_owned(),
            QueryError::PopulationRegistryRequired => "named predicate / custom distribution requires a PopulationRegistry".to_owned(),
            QueryError::UnknownPredicateName { name } => "unknown predicate name `".to_owned().concat(name.as_str()).concat("`"),
            QueryError::UnknownDistributionRef { id } => "unknown DistributionRef(".to_owned().concat(text::decimal_text(*id as u64).as_str()).concat(")"),
            QueryError::PopulationNeedsTreatment => "Treated/Untreated population requires a treatment column".to_owned(),
            QueryError::PopulationNonBinaryTreatment => "Treated/Untreated population requires binary 0/1 treatment".to_owned(),
            QueryError::PopulationLengthMismatch { expected, actual } => "population length mismatch: expected ".to_owned().concat(text::decimal_text(*expected as u64).as_str()).concat(", got ").concat(text::decimal_text(*actual as u64).as_str()),
            QueryError::PopulationRowOutOfRange { row, n } => "population row ".to_owned().concat(text::decimal_text(*row as u64).as_str()).concat(" out of range for n=").concat(text::decimal_text(*n as u64).as_str()),
            QueryError::PopulationEnvironmentUnsupported => "Environment target population is not resolved by PopulationRegistry".to_owned(),
            QueryError::InvalidPopulationWeights => "custom distribution weights must be finite and non-negative".to_owned(),
            QueryError::InvalidResponse(text) => "invalid response: ".to_owned().concat(text.as_str()),
            QueryError::InvalidTransport(text) => "invalid transport: ".to_owned().concat(text.as_str()),
            QueryError::InvalidInterference(text) => "invalid interference: ".to_owned().concat(text.as_str()),
            QueryError::InvalidOutcomeFunctional => "outcome functional requires finite, strictly increasing thresholds".to_owned(),
            QueryError::NonFiniteCutoff => "cutoff must be finite".to_owned(),
        }
    }
}

} // verus!
