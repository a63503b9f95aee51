//! Continuous causal-response queries.
//!
//! SPDX-License-Identifier: MIT OR Apache-2.0

use crate::ids;
use crate::ids::VariableId;
use crate::intervention::{Intervention, InterventionError, TemporalPolicy};
use crate::level;
use crate::level::OrderedFloatBits;
use crate::query::error;
use crate::query::error::{QueryError, QueryFault};
use crate::query::target::TargetPopulation;
use vstd::prelude::*;

verus! {

/// Maximum number of discrete horizons a temporal response may request.
pub const MAX_TEMPORAL_RESPONSE_HORIZONS: usize = 512;

/// Maximum treatment dimension for an explicitly gridded non-parametric surface.
pub const MAX_NONPARAMETRIC_RESPONSE_DIM: usize = 2;

/// Maximum number of points a [`GridSpec::Linspace`] may materialize.
pub const MAX_MATERIALIZED_GRID_POINTS: usize = 1_000_000;

/// Temporal attachment for a continuous-response query.
///
/// When present, the query is a temporal cell: dose by horizon surfaces for
/// [`ResponseFunctional::MeanCurve`], or horizon-indexed intervention responses.
/// Absence means a static response cell.
#[derive(Clone, Debug, PartialEq)]
pub struct TemporalResponseSpec {
    /// Outcome evaluation horizons in time steps after the policy origin, each at
    /// least one, strictly increasing, at least one entry.
    pub horizons: Vec<u32>,
    /// Temporal intervention policy; a dynamic policy is refused here.
    pub policy: TemporalPolicy,
    /// Optional largest history lag when unfolding; `None` is the planner default.
    pub max_history_lag: Option<u32>,
}

/// Each horizon is below every later one.
pub open spec fn horizons_increase(horizons: Seq<u32>) -> bool {
    forall|i: int, j: int|
        0 <= i < j < horizons.len() ==> #[trigger] horizons[i] < #[trigger] horizons[j]
}

impl TemporalResponseSpec {
    /// Construct a temporal attachment after validating horizons and policy.
    pub fn new(horizons: Vec<u32>, policy: TemporalPolicy, max_history_lag: Option<u32>) -> (r:
        Result<Self, QueryError>)
        ensures
            error::answers(
                r,
                (TemporalResponseSpec { horizons, policy, max_history_lag }).refusal(),
            ),
            r matches Ok(spec) ==> spec == (TemporalResponseSpec {
                horizons,
                policy,
                max_history_lag,
            }),
    {
        let spec = TemporalResponseSpec { horizons, policy, max_history_lag };
        match spec.validate() {
            Ok(_) => Ok(spec),
            Err(error) => Err(error),
        }
    }

    /// Why an attachment is refused.
    pub open spec fn refusal(self) -> Option<QueryFault> {
        if self.horizons@.len() == 0 {
            Some(QueryFault::Response("temporal response requires at least one horizon"@))
        } else if self.horizons@.len() > MAX_TEMPORAL_RESPONSE_HORIZONS {
            Some(
                QueryFault::Response(
                    "temporal response horizon count exceeds the materialization cap"@,
                ),
            )
        } else if self.horizons@.contains(0) {
            Some(QueryFault::Plain(QueryError::NonPositiveHorizon))
        } else if !horizons_increase(self.horizons@) {
            Some(QueryFault::Response("temporal response horizons must be strictly increasing"@))
        } else {
            match self.policy {
                TemporalPolicy::Pulse { .. } => None,
                TemporalPolicy::Sustained { from, until } => if until < from {
                    Some(QueryFault::Plain(QueryError::InvalidTemporalWindow { from, until }))
                } else {
                    None
                },
                TemporalPolicy::Dynamic { .. } => Some(
                    QueryFault::Response(
                        "temporal response policy must be pulse or sustained; Dynamic is a TemporalEffect spelling, not a ResponseCurve cell"@,
                    ),
                ),
            }
        }
    }

    /// Validate horizons and nested policy.
    pub fn validate(&self) -> (r: Result<(), QueryError>)
        ensures
            error::answers(r, self.refusal()),
    {
        if self.horizons.len() == 0 {
            return Err(
                QueryError::InvalidResponse(
                    "temporal response requires at least one horizon".to_owned(),
                ),
            );
        }
        if self.horizons.len() > MAX_TEMPORAL_RESPONSE_HORIZONS {
            return Err(
                QueryError::InvalidResponse(
                    "temporal response horizon count exceeds the materialization cap".to_owned(),
                ),
            );
        }
        if holds_zero(&self.horizons) {
            return Err(QueryError::NonPositiveHorizon);
        }
        if !increases(&self.horizons) {
            return Err(
                QueryError::InvalidResponse(
                    "temporal response horizons must be strictly increasing".to_owned(),
                ),
            );
        }
        match self.policy.validate() {
            Ok(_) => {},
            Err(InterventionError::InvalidTemporalWindow { from, until }) => {
                return Err(QueryError::InvalidTemporalWindow { from, until });
            },
            Err(other) => {
                return Err(QueryError::InvalidIntervention(other.to_message()));
            },
        }
        match &self.policy {
            TemporalPolicy::Dynamic { .. } => Err(
                QueryError::InvalidResponse(
                    "temporal response policy must be pulse or sustained; Dynamic is a TemporalEffect spelling, not a ResponseCurve cell".to_owned(),
                ),
            ),
            _ => Ok(()),
        }
    }

    /// Largest requested horizon: the last one, and one where there is none.
    #[must_use]
    pub fn max_horizon(&self) -> (horizon: u32)
        ensures
            horizon == if self.horizons@.len() > 0 {
                self.horizons@.last()
            } else {
                1
            },
            self.refusal() is None ==> horizon >= 1 && forall|i: int|
                0 <= i < self.horizons@.len() ==> #[trigger] self.horizons@[i] <= horizon,
    {
        if self.horizons.len() == 0 {
            1
        } else {
            let last: u32 = self.horizons[self.horizons.len() - 1];
            assert(last == self.horizons@.last());
            assert(last == 0 ==> self.horizons@.contains(0));
            last
        }
    }

    /// Treatment-time origin under the attached policy; an empty dynamic schedule has
    /// none.
    pub fn treatment_offset(&self) -> (r: Result<i32, QueryError>)
        ensures
            match self.policy {
                TemporalPolicy::Pulse { at } => r == Ok::<i32, QueryError>(at),
                TemporalPolicy::Sustained { from, .. } => r == Ok::<i32, QueryError>(from),
                TemporalPolicy::Dynamic { active_at, .. } => if active_at@.len() > 0 {
                    r == Ok::<i32, QueryError>(active_at@[0])
                } else {
                    r == Err::<i32, QueryError>(QueryError::DynamicPolicyHasNoTreatmentOffset)
                },
            },
    {
        match &self.policy {
            TemporalPolicy::Pulse { at } => Ok(*at),
            TemporalPolicy::Sustained { from, .. } => Ok(*from),
            TemporalPolicy::Dynamic { active_at, .. } => {
                if active_at.len() > 0 {
                    Ok(active_at[0])
                } else {
                    Err(QueryError::DynamicPolicyHasNoTreatmentOffset)
                }
            },
        }
    }
}

fn holds_zero(horizons: &Vec<u32>) -> (yes: bool)
    ensures
        yes == horizons@.contains(0),
{
    let mut i: usize = 0;
    while i < horizons.len()
        invariant
            0 <= i <= horizons.len(),
            forall|k: int| 0 <= k < i ==> #[trigger] horizons@[k] != 0,
        decreases horizons.len() - i,
    {
        if horizons[i] == 0 {
            assert(horizons@[i as int] == 0);
            return true;
        }
        i = i + 1;
    }
    false
}

fn increases(horizons: &Vec<u32>) -> (yes: bool)
    ensures
        yes == horizons_increase(horizons@),
{
    let mut i: usize = 1;
    while i < horizons.len()
        invariant
            1 <= i,
            horizons.len() > 0 ==> i <= horizons.len(),
            forall|j: int, k: int|
                0 <= j < k < i && k < horizons@.len() ==> #[trigger] horizons@[j]
                    < #[trigger] horizons@[k],
        decreases horizons.len() - i,
    {
        if horizons[i - 1] >= horizons[i] {
            assert(horizons@[i - 1] >= horizons@[i as int]);
            return false;
        }
        i = i + 1;
    }
    true
}

/// Points at which a continuous response is evaluated.
#[derive(Clone, Debug, PartialEq)]
pub enum GridSpec {
    /// Explicit, strictly increasing finite values.
    Values(Vec<OrderedFloatBits>),
    /// Inclusive evenly spaced grid.
    Linspace {
        /// First point.
        start: OrderedFloatBits,
        /// Last point.
        end: OrderedFloatBits,
        /// Number of points, at least two.
        points: usize,
    },
}

impl GridSpec {
    /// Why a grid is refused.
    pub open spec fn refusal(self) -> Option<QueryFault> {
        match self {
            GridSpec::Values(values) => if values@.len() < 2 {
                Some(QueryFault::Response("a response grid requires at least two points"@))
            } else if !(level::all_finite(values@) && level::strictly_increasing(values@)) {
                Some(
                    QueryFault::Response(
                        "response-grid values must be finite and strictly increasing"@,
                    ),
                )
            } else {
                None
            },
            GridSpec::Linspace { start, end, points } => if !(start.finite() && end.finite()
                && start.lt(end)) || points < 2 {
                Some(
                    QueryFault::Response(
                        "linspace requires finite start < end and at least two points"@,
                    ),
                )
            } else if points > MAX_MATERIALIZED_GRID_POINTS {
                Some(QueryFault::Response("linspace point count is too large to materialize"@))
            } else {
                None
            },
        }
    }

    /// Validate finiteness, size, and ordering.
    pub fn validate(&self) -> (r: Result<(), QueryError>)
        ensures
            error::answers(r, self.refusal()),
    {
        match self {
            GridSpec::Values(values) => {
                if values.len() < 2 {
                    return Err(
                        QueryError::InvalidResponse(
                            "a response grid requires at least two points".to_owned(),
                        ),
                    );
                }
                if !level::finite_and_increasing(values) {
                    return Err(
                        QueryError::InvalidResponse(
                            "response-grid values must be finite and strictly increasing".to_owned(),
                        ),
                    );
                }
            },
            GridSpec::Linspace { start, end, points } => {
                if !start.is_finite() || !end.is_finite() || !start.less(*end) || *points < 2 {
                    return Err(
                        QueryError::InvalidResponse(
                            "linspace requires finite start < end and at least two points".to_owned(),
                        ),
                    );
                }
                if *points > MAX_MATERIALIZED_GRID_POINTS {
                    return Err(
                        QueryError::InvalidResponse(
                            "linspace point count is too large to materialize".to_owned(),
                        ),
                    );
                }
            },
        }
        Ok(())
    }

    /// Number of points of a valid grid. The points themselves are the listed values,
    /// or the caller's evenly spaced ones.
    pub fn point_count(&self) -> (r: Result<usize, QueryError>)
        ensures
            error::answers(r, self.refusal()),
            r matches Ok(n) ==> 2 <= n && match *self {
                GridSpec::Values(values) => n == values@.len(),
                GridSpec::Linspace { points, .. } => n == points && n
                    <= MAX_MATERIALIZED_GRID_POINTS,
            },
    {
        match self.validate() {
            Err(error) => Err(error),
            Ok(_) => match self {
                GridSpec::Values(values) => Ok(values.len()),
                GridSpec::Linspace { points, .. } => Ok(*points),
            },
        }
    }
}

/// Domain of a scalar continuous intervention.
#[derive(Clone, Debug, PartialEq)]
pub struct ContinuousDomain {
    /// Intervened variable.
    pub variable: VariableId,
    /// Evaluation grid.
    pub grid: GridSpec,
}

impl ContinuousDomain {
    /// Construct a continuous intervention domain.
    #[must_use]
    pub fn new(variable: VariableId, grid: GridSpec) -> (made: Self)
        ensures
            made == (ContinuousDomain { variable, grid }),
    {
        ContinuousDomain { variable, grid }
    }
}

/// Weighting law for an average derivative effect.
#[derive(Clone, Debug, PartialEq)]
pub enum DerivativeWeighting {
    /// Average over the observed treatment and covariate law.
    Observed,
    /// Uniform weighting over a supplied finite interval.
    Uniform {
        /// Inclusive lower endpoint.
        lower: OrderedFloatBits,
        /// Inclusive upper endpoint.
        upper: OrderedFloatBits,
    },
    /// Caller-supplied row weights, normalized by the estimator.
    Custom(Vec<OrderedFloatBits>),
}

/// Weights are non-empty, finite, none below zero, not all zero.
pub open spec fn usable_weights(weights: Seq<OrderedFloatBits>) -> bool {
    let zero = OrderedFloatBits { bits: 0 };
    &&& weights.len() > 0
    &&& level::all_finite(weights)
    &&& forall|i: int| 0 <= i < weights.len() ==> !(#[trigger] weights[i]).lt(zero)
    &&& exists|i: int| 0 <= i < weights.len() && !(#[trigger] weights[i]).numeric_eq(zero)
}

fn weights_usable(weights: &Vec<OrderedFloatBits>) -> (yes: bool)
    ensures
        yes == usable_weights(weights@),
{
    let zero = OrderedFloatBits::zero();
    if !level::every_finite(weights) {
        return false;
    }
    let mut positive = false;
    let mut i: usize = 0;
    while i < weights.len()
        invariant
            0 <= i <= weights.len(),
            zero == (OrderedFloatBits { bits: 0 }),
            level::all_finite(weights@),
            forall|k: int| 0 <= k < i ==> !(#[trigger] weights@[k]).lt(zero),
            positive == exists|k: int|
                0 <= k < i && !(#[trigger] weights@[k]).numeric_eq(zero),
        decreases weights.len() - i,
    {
        if weights[i].less(zero) {
            assert(weights@[i as int].lt(zero));
            return false;
        }
        if !weights[i].equals(zero) {
            assert(!weights@[i as int].numeric_eq(zero));
            positive = true;
        }
        i = i + 1;
    }
    positive
}

/// Scale on which a derivative is reported.
#[derive(Clone, Copy, Debug, PartialEq, Eq, Hash, Structural)]
pub enum DerivativeScale {
    /// `dm/da`.
    Identity,
    /// `a * dm/da`.
    LogTreatment,
    /// `(1/m) * dm/da`.
    LogOutcome,
    /// `(a/m) * dm/da` (elasticity).
    LogLog,
}

impl DerivativeScale {
    /// Whether the scale takes the logarithm of the treatment.
    pub open spec fn logs_treatment(self) -> bool {
        self is LogTreatment || self is LogLog
    }

    fn takes_log_of_treatment(self) -> (yes: bool)
        ensures
            yes == self.logs_treatment(),
    {
        match self {
            DerivativeScale::LogTreatment => true,
            DerivativeScale::LogLog => true,
            _ => false,
        }
    }
}

/// How a scientific outcome entered the observed dataset.
#[derive(Clone, Copy, Debug, PartialEq, Eq, Hash, Structural)]
pub enum ObservationSpec {
    /// Outcome is completely observed.
    Complete,
    /// Right-censored continuous outcome.
    RightCensored {
        /// Scientific latent outcome.
        latent: VariableId,
        /// Recorded minimum of the latent outcome and censoring value.
        observed: VariableId,
        /// Censoring value.
        censoring: VariableId,
        /// Event (uncensored) indicator.
        event: VariableId,
    },
    /// Left-censored continuous outcome.
    LeftCensored {
        /// Scientific latent outcome.
        latent: VariableId,
        /// Recorded maximum of the latent outcome and censoring value.
        observed: VariableId,
        /// Censoring value.
        censoring: VariableId,
        /// Event (uncensored) indicator.
        event: VariableId,
    },
    /// Interval-censored continuous outcome.
    IntervalCensored {
        /// Scientific latent outcome.
        latent: VariableId,
        /// Observed lower endpoint.
        lower: VariableId,
        /// Observed upper endpoint.
        upper: VariableId,
    },
    /// Sampling truncation with optional row-specific bounds.
    Truncated {
        /// Scientific latent outcome.
        latent: VariableId,
        /// Recorded outcome among sampled units.
        observed: VariableId,
        /// Optional lower truncation bound.
        lower: Option<VariableId>,
        /// Optional upper truncation bound.
        upper: Option<VariableId>,
    },
    /// Outcome observed only when an indicator is one.
    Selected {
        /// Scientific latent outcome.
        latent: VariableId,
        /// Recorded outcome (valid only on selected rows).
        observed: VariableId,
        /// Observation (selection) indicator.
        indicator: VariableId,
    },
}

/// Explicit claim about an observation mechanism.
#[derive(Clone, Debug, PartialEq, Eq, Hash)]
pub enum ObservationAssumption {
    /// Observation or censoring is independent after conditioning on these variables.
    IndependentGiven(Vec<VariableId>),
    /// Observation is independent of the latent outcome after conditioning.
    OutcomeIndependentGiven(Vec<VariableId>),
    /// Named structural observation model.
    StructuralModel(String),
}

/// A response functional, distinct from the estimator used to learn it.
#[derive(Clone, Debug, PartialEq)]
pub enum ResponseFunctional {
    /// `a -> E[Y | do(A=a)]`.
    MeanCurve {
        /// Outcome.
        outcome: VariableId,
        /// Scalar continuous treatment domain.
        treatment: ContinuousDomain,
    },
    /// Scalar weighted average derivative effect.
    AverageDerivative {
        /// Outcome.
        outcome: VariableId,
        /// Treatment.
        treatment: VariableId,
        /// Target weighting law.
        weighting: DerivativeWeighting,
    },
    /// Local derivative of a response representation.
    PointDerivative {
        /// Outcome.
        outcome: VariableId,
        /// Treatment.
        treatment: VariableId,
        /// Evaluation point.
        at: OrderedFloatBits,
        /// Derivative order (one or two).
        order: u8,
        /// Reporting scale.
        scale: DerivativeScale,
    },
    /// Directional derivative for a vector intervention.
    DirectionalDerivative {
        /// Outcomes.
        outcomes: Vec<VariableId>,
        /// Treatments.
        treatments: Vec<VariableId>,
        /// Evaluation point in treatment order.
        at: Vec<OrderedFloatBits>,
        /// Direction in treatment order.
        direction: Vec<OrderedFloatBits>,
    },
    /// Low-dimensional response Jacobian.
    Jacobian {
        /// Outcomes.
        outcomes: Vec<VariableId>,
        /// Treatments.
        treatments: Vec<VariableId>,
        /// Evaluation point in treatment order.
        at: Vec<OrderedFloatBits>,
        /// Reporting scale.
        scale: DerivativeScale,
    },
    /// Mean response under an existing intervention or joint intervention.
    InterventionResponse {
        /// Outcome.
        outcome: VariableId,
        /// Intervention set.
        interventions: Vec<Intervention>,
    },
}

/// Target variables of the interventions that have a unique one, in order.
pub open spec fn targets(interventions: Seq<Intervention>) -> Seq<VariableId>
    decreases interventions.len(),
{
    if interventions.len() == 0 {
        Seq::empty()
    } else {
        let before = targets(interventions.drop_last());
        match interventions.last().primary() {
            Some(variable) => before.push(variable),
            None => before,
        }
    }
}

impl ResponseFunctional {
    /// Treatments in query order.
    pub open spec fn treatments(self) -> Seq<VariableId> {
        match self {
            ResponseFunctional::MeanCurve { treatment, .. } => seq![treatment.variable],
            ResponseFunctional::AverageDerivative { treatment, .. } => seq![treatment],
            ResponseFunctional::PointDerivative { treatment, .. } => seq![treatment],
            ResponseFunctional::DirectionalDerivative { treatments, .. } => treatments@,
            ResponseFunctional::Jacobian { treatments, .. } => treatments@,
            ResponseFunctional::InterventionResponse { interventions, .. } => targets(
                interventions@,
            ),
        }
    }

    /// Outcomes in query order.
    pub open spec fn outcomes(self) -> Seq<VariableId> {
        match self {
            ResponseFunctional::MeanCurve { outcome, .. } => seq![outcome],
            ResponseFunctional::AverageDerivative { outcome, .. } => seq![outcome],
            ResponseFunctional::PointDerivative { outcome, .. } => seq![outcome],
            ResponseFunctional::DirectionalDerivative { outcomes, .. } => outcomes@,
            ResponseFunctional::Jacobian { outcomes, .. } => outcomes@,
            ResponseFunctional::InterventionResponse { outcome, .. } => seq![outcome],
        }
    }

    /// Treatment variable ids in query order.
    #[must_use]
    pub fn treatment_ids(&self) -> (list: Vec<VariableId>)
        ensures
            list@ == self.treatments(),
    {
        match self {
            ResponseFunctional::MeanCurve { treatment, .. } => single(treatment.variable),
            ResponseFunctional::AverageDerivative { treatment, .. } => single(*treatment),
            ResponseFunctional::PointDerivative { treatment, .. } => single(*treatment),
            ResponseFunctional::DirectionalDerivative { treatments, .. } => ids::copied_ids(
                treatments,
            ),
            ResponseFunctional::Jacobian { treatments, .. } => ids::copied_ids(treatments),
            ResponseFunctional::InterventionResponse { interventions, .. } => intervened(
                interventions,
            ),
        }
    }

    /// Outcome variable ids in query order.
    #[must_use]
    pub fn outcome_ids(&self) -> (list: Vec<VariableId>)
        ensures
            list@ == self.outcomes(),
    {
        match self {
            ResponseFunctional::MeanCurve { outcome, .. } => single(*outcome),
            ResponseFunctional::AverageDerivative { outcome, .. } => single(*outcome),
            ResponseFunctional::PointDerivative { outcome, .. } => single(*outcome),
            ResponseFunctional::DirectionalDerivative { outcomes, .. } => ids::copied_ids(outcomes),
            ResponseFunctional::Jacobian { outcomes, .. } => ids::copied_ids(outcomes),
            ResponseFunctional::InterventionResponse { outcome, .. } => single(*outcome),
        }
    }

    /// First treatment and outcome, when the functional names at least one of each.
    #[must_use]
    pub fn primary_pair(&self) -> (pair: Option<(VariableId, VariableId)>)
        ensures
            pair == if self.treatments().len() > 0 && self.outcomes().len() > 0 {
                Some((self.treatments()[0], self.outcomes()[0]))
            } else {
                None
            },
    {
        let treatments = self.treatment_ids();
        let outcomes = self.outcome_ids();
        if treatments.len() > 0 && outcomes.len() > 0 {
            Some((treatments[0], outcomes[0]))
        } else {
            None
        }
    }

    /// Why a functional is refused.
    pub open spec fn refusal(self) -> Option<QueryFault> {
        let zero = OrderedFloatBits { bits: 0 };
        match self {
            ResponseFunctional::MeanCurve { outcome, treatment } => if outcome
                == treatment.variable {
                Some(QueryFault::Plain(QueryError::TreatmentEqualsOutcome { id: outcome }))
            } else {
                treatment.grid.refusal()
            },
            ResponseFunctional::AverageDerivative { outcome, treatment, weighting } => if outcome
                == treatment {
                Some(QueryFault::Plain(QueryError::TreatmentEqualsOutcome { id: outcome }))
            } else {
                match weighting {
                    DerivativeWeighting::Observed => None,
                    DerivativeWeighting::Uniform { lower, upper } => if lower.finite()
                        && upper.finite() && lower.lt(upper) {
                        None
                    } else {
                        Some(
                            QueryFault::Response(
                                "uniform derivative weighting requires finite lower < upper"@,
                            ),
                        )
                    },
                    DerivativeWeighting::Custom(weights) => if usable_weights(weights@) {
                        None
                    } else {
                        Some(
                            QueryFault::Response(
                                "custom derivative weights must be finite, non-negative, and non-zero"@,
                            ),
                        )
                    },
                }
            },
            ResponseFunctional::PointDerivative { outcome, treatment, at, order, scale } =>
            if outcome == treatment {
                Some(QueryFault::Plain(QueryError::TreatmentEqualsOutcome { id: outcome }))
            } else if !at.finite() || !(order == 1 || order == 2) {
                Some(
                    QueryFault::Response(
                        "point derivative requires a finite point and order one or two"@,
                    ),
                )
            } else if scale.logs_treatment() && at.le(zero) {
                Some(
                    QueryFault::Response(
                        "log-treatment derivative scales require a positive treatment point"@,
                    ),
                )
            } else {
                None
            },
            ResponseFunctional::DirectionalDerivative { outcomes, treatments, at, direction } =>
            if distinct_sets(outcomes@, treatments@) && at@.len() == treatments@.len()
                && direction@.len() == treatments@.len() && level::all_finite(at@)
                && level::all_finite(direction@) && exists|i: int|
                0 <= i < direction@.len() && !(#[trigger] direction@[i]).numeric_eq(zero) {
                None
            } else {
                Some(
                    QueryFault::Response(
                        "directional derivative dimensions/values are inconsistent"@,
                    ),
                )
            },
            ResponseFunctional::Jacobian { outcomes, treatments, at, scale } => if !(distinct_sets(
                outcomes@,
                treatments@,
            ) && at@.len() == treatments@.len() && level::all_finite(at@)) {
                Some(QueryFault::Response("Jacobian dimensions/values are inconsistent"@))
            } else if scale.logs_treatment() && exists|i: int|
                0 <= i < at@.len() && (#[trigger] at@[i]).le(zero) {
                Some(
                    QueryFault::Response(
                        "log-treatment Jacobians require positive treatment coordinates"@,
                    ),
                )
            } else {
                None
            },
            ResponseFunctional::InterventionResponse { outcome, interventions } =>
            if interventions@.len() == 0 {
                Some(
                    QueryFault::Response("intervention response requires at least one intervention"@),
                )
            } else {
                error::first_fault(intervention_faults(interventions@, outcome))
            },
        }
    }

    /// Validate dimensions, finite values, scales and intervention targets.
    pub fn validate(&self) -> (r: Result<(), QueryError>)
        ensures
            error::answers(r, self.refusal()),
    {
        let zero = OrderedFloatBits::zero();
        match self {
            ResponseFunctional::MeanCurve { outcome, treatment } => {
                if *outcome == treatment.variable {
                    return Err(QueryError::TreatmentEqualsOutcome { id: *outcome });
                }
                treatment.grid.validate()
            },
            ResponseFunctional::AverageDerivative { outcome, treatment, weighting } => {
                if *outcome == *treatment {
                    return Err(QueryError::TreatmentEqualsOutcome { id: *outcome });
                }
                match weighting {
                    DerivativeWeighting::Observed => Ok(()),
                    DerivativeWeighting::Uniform { lower, upper } => {
                        if !lower.is_finite() || !upper.is_finite() || !lower.less(*upper) {
                            return Err(
                                QueryError::InvalidResponse(
                                    "uniform derivative weighting requires finite lower < upper".to_owned(),
                                ),
                            );
                        }
                        Ok(())
                    },
                    DerivativeWeighting::Custom(weights) => {
                        if !weights_usable(weights) {
                            return Err(
                                QueryError::InvalidResponse(
                                    "custom derivative weights must be finite, non-negative, and non-zero".to_owned(),
                                ),
                            );
                        }
                        Ok(())
                    },
                }
            },
            ResponseFunctional::PointDerivative { outcome, treatment, at, order, scale } => {
                if *outcome == *treatment {
                    return Err(QueryError::TreatmentEqualsOutcome { id: *outcome });
                }
                if !at.is_finite() || !(*order == 1 || *order == 2) {
                    return Err(
                        QueryError::InvalidResponse(
                            "point derivative requires a finite point and order one or two".to_owned(),
                        ),
                    );
                }
                if scale.takes_log_of_treatment() && at.at_most(zero) {
                    return Err(
                        QueryError::InvalidResponse(
                            "log-treatment derivative scales require a positive treatment point".to_owned(),
                        ),
                    );
                }
                Ok(())
            },
            ResponseFunctional::DirectionalDerivative { outcomes, treatments, at, direction } => {
                if !response_sets_are_distinct(outcomes, treatments) || at.len() != treatments.len()
                    || direction.len() != treatments.len() || !level::every_finite(at)
                    || !level::every_finite(direction) || !any_nonzero(direction) {
                    return Err(
                        QueryError::InvalidResponse(
                            "directional derivative dimensions/values are inconsistent".to_owned(),
                        ),
                    );
                }
                Ok(())
            },
            ResponseFunctional::Jacobian { outcomes, treatments, at, scale } => {
                if !response_sets_are_distinct(outcomes, treatments) || at.len() != treatments.len()
                    || !level::every_finite(at) {
                    return Err(
                        QueryError::InvalidResponse(
                            "Jacobian dimensions/values are inconsistent".to_owned(),
                        ),
                    );
                }
                if scale.takes_log_of_treatment() && any_not_positive(at) {
                    return Err(
                        QueryError::InvalidResponse(
                            "log-treatment Jacobians require positive treatment coordinates".to_owned(),
                        ),
                    );
                }
                Ok(())
            },
            ResponseFunctional::InterventionResponse { outcome, interventions } => {
                if interventions.len() == 0 {
                    return Err(
                        QueryError::InvalidResponse(
                            "intervention response requires at least one intervention".to_owned(),
                        ),
                    );
                }
                validate_interventions(interventions, *outcome)
            },
        }
    }
}

/// Why one intervention of a response is refused.
pub open spec fn intervention_fault(intervention: Intervention, outcome: VariableId) -> Option<
    QueryFault,
> {
    match intervention.fault() {
        Some(error) => Some(QueryFault::Intervention(error.message())),
        None => if intervention.primary() == Some(outcome) {
            Some(QueryFault::Plain(QueryError::TreatmentEqualsOutcome { id: outcome }))
        } else {
            None
        },
    }
}

/// The checks on each intervention of a response, in order.
pub open spec fn intervention_faults(interventions: Seq<Intervention>, outcome: VariableId) -> Seq<
    Option<QueryFault>,
> {
    Seq::new(interventions.len(), |i: int| intervention_fault(interventions[i], outcome))
}

fn validate_interventions(interventions: &Vec<Intervention>, outcome: VariableId) -> (r: Result<
    (),
    QueryError,
>)
    ensures
        error::answers(r, error::first_fault(intervention_faults(interventions@, outcome))),
{
    let ghost faults = intervention_faults(interventions@, outcome);
    let mut i: usize = 0;
    while i < interventions.len()
        invariant
            0 <= i <= interventions.len(),
            faults == intervention_faults(interventions@, outcome),
            forall|k: int| 0 <= k < i ==> (#[trigger] faults[k]) is None,
        decreases interventions.len() - i,
    {
        proof {
            if faults[i as int] is Some {
                error::lemma_first_fault(faults, i as int);
            }
        }
        match interventions[i].validate() {
            Ok(_) => {},
            Err(error) => {
                return Err(QueryError::InvalidIntervention(error.to_message()));
            },
        }
        match interventions[i].primary_variable() {
            Some(variable) => {
                if variable == outcome {
                    return Err(QueryError::TreatmentEqualsOutcome { id: outcome });
                }
            },
            None => {},
        }
        i = i + 1;
    }
    proof {
        error::lemma_first_fault(faults, faults.len() as int);
    }
    Ok(())
}

fn single(id: VariableId) -> (list: Vec<VariableId>)
    ensures
        list@ == seq![id],
{
    let list = vec![id];
    assert(list@ =~= seq![id]);
    list
}

fn intervened(interventions: &Vec<Intervention>) -> (list: Vec<VariableId>)
    ensures
        list@ == targets(interventions@),
{
    let mut list: Vec<VariableId> = Vec::new();
    let mut i: usize = 0;
    while i < interventions.len()
        invariant
            0 <= i <= interventions.len(),
            list@ == targets(interventions@.take(i as int)),
        decreases interventions.len() - i,
    {
        proof {
            assert(interventions@.take(i + 1).drop_last() =~= interventions@.take(i as int));
        }
        match interventions[i].primary_variable() {
            Some(variable) => {
                list.push(variable);
            },
            None => {},
        }
        i = i + 1;
    }
    assert(interventions@.take(i as int) =~= interventions@);
    list
}

fn any_nonzero(levels: &Vec<OrderedFloatBits>) -> (yes: bool)
    ensures
        yes == exists|i: int|
            0 <= i < levels@.len() && !(#[trigger] levels@[i]).numeric_eq(
                OrderedFloatBits { bits: 0 },
            ),
{
    let mut i: usize = 0;
    while i < levels.len()
        invariant
            0 <= i <= levels.len(),
            forall|k: int|
                0 <= k < i ==> (#[trigger] levels@[k]).numeric_eq(OrderedFloatBits { bits: 0 }),
        decreases levels.len() - i,
    {
        if !levels[i].equals(OrderedFloatBits::zero()) {
            assert(!levels@[i as int].numeric_eq(OrderedFloatBits { bits: 0 }));
            return true;
        }
        i = i + 1;
    }
    false
}

fn any_not_positive(levels: &Vec<OrderedFloatBits>) -> (yes: bool)
    ensures
        yes == exists|i: int|
            0 <= i < levels@.len() && (#[trigger] levels@[i]).le(OrderedFloatBits { bits: 0 }),
{
    let mut i: usize = 0;
    while i < levels.len()
        invariant
            0 <= i <= levels.len(),
            forall|k: int|
                0 <= k < i ==> !(#[trigger] levels@[k]).le(OrderedFloatBits { bits: 0 }),
        decreases levels.len() - i,
    {
        if levels[i].at_most(OrderedFloatBits::zero()) {
            assert(levels@[i as int].le(OrderedFloatBits { bits: 0 }));
            return true;
        }
        i = i + 1;
    }
    false
}

/// Outcomes and treatments are non-empty and share no variable.
pub open spec fn distinct_sets(outcomes: Seq<VariableId>, treatments: Seq<VariableId>) -> bool {
    outcomes.len() > 0 && treatments.len() > 0 && !ids::share_an_id(outcomes, treatments)
}

fn response_sets_are_distinct(outcomes: &Vec<VariableId>, treatments: &Vec<VariableId>) -> (yes:
    bool)
    ensures
        yes == distinct_sets(outcomes@, treatments@),
{
    outcomes.len() > 0 && treatments.len() > 0 && !ids::any_shared(outcomes, treatments)
}

/// Complete continuous-response query.
#[derive(Clone, Debug, PartialEq)]
pub struct ResponseQuery {
    /// Requested functional.
    pub functional: ResponseFunctional,
    /// Target population.
    pub target_population: TargetPopulation,
    /// Observation mechanism (complete by default).
    pub observation: ObservationSpec,
    /// Caller-declared observation assumptions. Empty means none.
    pub observation_assumptions: Vec<ObservationAssumption>,
    /// Optional temporal attachment. `None` is a static response cell.
    pub temporal: Option<TemporalResponseSpec>,
}

impl ResponseQuery {
    /// Construct a completely observed response query.
    #[must_use]
    pub fn new(functional: ResponseFunctional) -> (query: Self)
        ensures
            query.functional == functional,
            query.target_population is AllObserved,
            query.observation is Complete,
            query.observation_assumptions@.len() == 0,
            query.temporal is None,
    {
        ResponseQuery {
            functional,
            target_population: TargetPopulation::AllObserved,
            observation: ObservationSpec::Complete,
            observation_assumptions: Vec::new(),
            temporal: None,
        }
    }

    /// Attach an explicit observation process and its assumptions.
    #[must_use]
    pub fn with_observation(
        self,
        observation: ObservationSpec,
        assumptions: Vec<ObservationAssumption>,
    ) -> (query: Self)
        ensures
            query == (ResponseQuery { observation, observation_assumptions: assumptions, ..self }),
    {
        ResponseQuery { observation, observation_assumptions: assumptions, ..self }
    }

    /// Attach a temporal dose-over-horizon or policy-path specification.
    #[must_use]
    pub fn with_temporal(self, temporal: TemporalResponseSpec) -> (query: Self)
        ensures
            query == (ResponseQuery { temporal: Some(temporal), ..self }),
    {
        ResponseQuery { temporal: Some(temporal), ..self }
    }

    /// Whether this query is a temporal response cell.
    #[must_use]
    pub fn is_temporal(&self) -> (yes: bool)
        ensures
            yes == (self.temporal is Some),
    {
        self.temporal.is_some()
    }

    /// Set the target population.
    #[must_use]
    pub fn with_target_population(self, target: TargetPopulation) -> (query: Self)
        ensures
            query == (ResponseQuery { target_population: target, ..self }),
    {
        ResponseQuery { target_population: target, ..self }
    }

    /// Why a temporal attachment does not fit the query.
    pub open spec fn attachment_refusal(self) -> Option<QueryFault> {
        match self.temporal {
            None => None,
            Some(temporal) => if temporal.refusal() is Some {
                temporal.refusal()
            } else if !(self.functional is MeanCurve || self.functional is InterventionResponse) {
                Some(
                    QueryFault::Response(
                        "temporal attachment is licensed only for MeanCurve and InterventionResponse"@,
                    ),
                )
            } else if !(self.observation is Complete) {
                Some(QueryFault::Response("temporal response requires complete observation in 0.7"@))
            } else {
                None
            },
        }
    }

    /// Why a query is refused: the attachment first, then the functional, then the
    /// target population.
    pub open spec fn refusal(self) -> Option<QueryFault> {
        if self.attachment_refusal() is Some {
            self.attachment_refusal()
        } else if self.functional.refusal() is Some {
            self.functional.refusal()
        } else {
            self.target_population.refusal()
        }
    }

    /// Validate dimensions, finite values, scales, and intervention targets.
    pub fn validate(&self) -> (r: Result<(), QueryError>)
        ensures
            error::answers(r, self.refusal()),
    {
        match self.validate_temporal_attachment() {
            Ok(_) => {},
            Err(error) => {
                return Err(error);
            },
        }
        match self.functional.validate() {
            Ok(_) => {},
            Err(error) => {
                return Err(error);
            },
        }
        self.target_population.validate()
    }

    fn validate_temporal_attachment(&self) -> (r: Result<(), QueryError>)
        ensures
            error::answers(r, self.attachment_refusal()),
    {
        match &self.temporal {
            None => Ok(()),
            Some(temporal) => {
                match temporal.validate() {
                    Ok(_) => {},
                    Err(error) => {
                        return Err(error);
                    },
                }
                let licensed = match &self.functional {
                    ResponseFunctional::MeanCurve { .. } => true,
                    ResponseFunctional::InterventionResponse { .. } => true,
                    _ => false,
                };
                if !licensed {
                    return Err(
                        QueryError::InvalidResponse(
                            "temporal attachment is licensed only for MeanCurve and InterventionResponse".to_owned(),
                        ),
                    );
                }
                match self.observation {
                    ObservationSpec::Complete => Ok(()),
                    _ => Err(
                        QueryError::InvalidResponse(
                            "temporal response requires complete observation in 0.7".to_owned(),
                        ),
                    ),
                }
            },
        }
    }
}

/// No treatment of an accepted query is one of its outcomes.
pub proof fn law_accepted_response_separates_treatment_and_outcome(functional: ResponseFunctional)
    requires
        functional.refusal() is None,
    ensures
        !ids::share_an_id(functional.outcomes(), functional.treatments()),
{
    match functional {
        ResponseFunctional::InterventionResponse { outcome, interventions } => {
            let faults = intervention_faults(interventions@, outcome);
            error::lemma_no_fault(faults);
            assert forall|i: int| 0 <= i < interventions@.len() implies (
            #[trigger] interventions@[i]).primary() != Some(outcome) by {
                assert(faults[i] is None);
            }
            lemma_targets(interventions@, outcome);
        },
        _ => {},
    }
}

proof fn lemma_targets(interventions: Seq<Intervention>, outcome: VariableId)
    requires
        forall|i: int|
            0 <= i < interventions.len() ==> (#[trigger] interventions[i]).primary() != Some(
                outcome,
            ),
    ensures
        !targets(interventions).contains(outcome),
    decreases interventions.len(),
{
    if interventions.len() > 0 {
        let before = interventions.drop_last();
        lemma_targets(before, outcome);
        let all = targets(interventions);
        if all.contains(outcome) {
            let k = choose|k: int| 0 <= k < all.len() && all[k] == outcome;
            if k < targets(before).len() {
                assert(targets(before)[k] == outcome);
            } else {
                assert(interventions[interventions.len() - 1].primary() == Some(outcome));
            }
        }
    }
}

} // verus!
