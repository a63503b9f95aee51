//! What queries that are accepted look like.
//!
//! SPDX-License-Identifier: MIT OR Apache-2.0

use crate::ids::VariableId;
use crate::intervention::{Intervention, SequencedIntervention, TemporalPolicy};
use crate::level::OrderedFloatBits;
use crate::query::admission;
use crate::query::attribution::{
    AllocationMethod, AnomalyAttributionQuery, ChangeAttributionQuery, MechanismChangeQuery,
    PopulationSelector, ShapleyConfig, ShapleyMode, UnitChangeQuery,
};
use crate::query::counterfactual;
use crate::query::counterfactual::CounterfactualQuery;
use crate::query::effect::AverageEffectQuery;
use crate::query::error;
use crate::query::functional::OutcomeFunctional;
use crate::query::interference::{AssignmentDesign, InterferenceFunctional, InterferenceQuery};
use crate::query::mediation::{ConditionalEffectQuery, MediationQuery};
use crate::query::nested_counterfactual::NestedCounterfactualQuery;
use crate::query::response;
use crate::query::response::{
    DerivativeScale, DerivativeWeighting, GridSpec, ResponseFunctional, ResponseQuery,
    TemporalResponseSpec,
};
use crate::query::target::{PredicateExpr, TargetPopulation};
use crate::query::transport::TransportQuery;
use crate::query::transport_catalog::CatalogView;
use crate::text;
use crate::value::Value;
use vstd::prelude::*;

verus! {

/// An intervention fixes nothing at a level that is not finite.
pub open spec fn is_finite_level(value: Value) -> bool {
    value matches Value::Float64(level) ==> level.finite()
}

proof fn lemma_step_fault(steps: Seq<SequencedIntervention>)
    ensures
        Intervention::step_fault(steps) is None <==> forall|i: int|
            0 <= i < steps.len() ==> is_finite_level((#[trigger] steps[i]).value),
    decreases steps.len(),
{
    if steps.len() > 0 {
        let rest = steps.drop_last();
        lemma_step_fault(rest);
        let last = steps.len() - 1;
        assert forall|i: int| 0 <= i < last implies #[trigger] steps[i] == rest[i] by {}
        if Intervention::step_fault(rest) is Some {
            let i = choose|i: int|
                0 <= i < rest.len() && !is_finite_level((#[trigger] rest[i]).value);
            assert(!is_finite_level(steps[i].value));
        } else {
            assert forall|i: int| 0 <= i < last implies is_finite_level(
                (#[trigger] steps[i]).value,
            ) by {
                assert(is_finite_level(rest[i].value));
            }
            assert(steps.last() == steps[last]);
        }
    }
}

/// An intervention is accepted exactly where it does something, and every level that it sets, at
/// whatever step, is finite. It has one target exactly where all its steps have that target.
pub proof fn law_accepted_interventions(intervention: Intervention, v: VariableId)
    ensures
        intervention.fault() is None <==> match intervention {
            Intervention::Assign { value, .. } => is_finite_level(value),
            Intervention::Sequence { steps } => steps@.len() > 0 && forall|i: int|
                0 <= i < steps@.len() ==> is_finite_level((#[trigger] steps@[i]).value),
        },
        intervention.primary() == Some(v) <==> match intervention {
            Intervention::Assign { variable, .. } => variable == v,
            Intervention::Sequence { steps } => steps@.len() > 0 && forall|i: int|
                0 <= i < steps@.len() ==> (#[trigger] steps@[i]).variable == v,
        },
{
    if let Intervention::Sequence { steps } = intervention {
        lemma_step_fault(steps@);
        if steps@.len() > 0 {
            assert(steps@[0].variable == steps@[0].variable);
        }
    }
}

/// A policy is refused exactly where it ends before it starts.
pub proof fn law_accepted_policies(from: i32, until: i32)
    ensures
        (TemporalPolicy::Sustained { from, until }).fault() is None <==> from <= until,
{
}

/// A level sets a treatment.
pub open spec fn sets(level: Intervention, treatment: VariableId) -> bool {
    level.primary() == Some(treatment)
}

/// An average effect is asked for of two different variables, with both levels on the treatment,
/// modifiers that are neither of the two, and a population that is accepted.
pub proof fn law_accepted_effects(query: AverageEffectQuery)
    ensures
        query.refusal() is None <==> {
            &&& query.treatment != query.outcome
            &&& sets(query.control, query.treatment)
            &&& sets(query.active, query.treatment)
            &&& !query.effect_modifiers@.contains(query.treatment)
            &&& !query.effect_modifiers@.contains(query.outcome)
            &&& query.target_population.refusal() is None
        },
        ConditionalEffectQuery::inner_refusal(query) is None <==> query.effect_modifiers@.len() > 0
            && query.refusal() is None,
{
}

/// A mediated effect is asked for of two different variables through at least one mediator,
/// which is neither of them, with both levels on the treatment and an accepted population.
pub proof fn law_accepted_mediations(query: MediationQuery)
    ensures
        query.refusal() is None <==> {
            &&& query.treatment != query.outcome
            &&& query.mediators@.len() > 0
            &&& !query.mediators@.contains(query.treatment)
            &&& !query.mediators@.contains(query.outcome)
            &&& sets(query.control, query.treatment)
            &&& sets(query.active, query.treatment)
            &&& query.target_population.refusal() is None
        },
{
}

/// A nested counterfactual has three different variables and two finite levels that are not one
/// bit pattern.
pub proof fn law_accepted_nestings(query: NestedCounterfactualQuery)
    ensures
        query.refusal() is None <==> {
            &&& query.treatment != query.mediator
            &&& query.treatment != query.outcome
            &&& query.mediator != query.outcome
            &&& query.control.finite()
            &&& query.active.finite()
            &&& query.control.bits != query.active.bits
        },
{
}

/// A counterfactual has an outcome and accepted interventions and control; where the first
/// intervention has one target, the control has the same.
pub proof fn law_accepted_counterfactuals(query: CounterfactualQuery)
    ensures
        query.refusal() is None <==> {
            &&& query.outcomes@.len() > 0
            &&& forall|i: int|
                0 <= i < query.interventions@.len() ==> (
                #[trigger] query.interventions@[i]).fault() is None
            &&& query.control.fault() is None
            &&& query.interventions@.len() > 0 && query.interventions@[0].primary() is Some
                ==> query.control.primary() == query.interventions@[0].primary()
        },
{
    let faults = counterfactual::level_faults(query.interventions@);
    admission::law_the_first_fault_is_reported(faults);
    assert forall|i: int| 0 <= i < faults.len() implies ((#[trigger] faults[i]) is None <==> (
    query.interventions@[i].fault() is None)) by {}
    if error::first_fault(faults) is None {
        assert forall|i: int| 0 <= i < query.interventions@.len() implies (
        #[trigger] query.interventions@[i]).fault() is None by {
            assert(faults[i] is None);
        }
    } else {
        let k = choose|k: int|
            0 <= k < faults.len() && #[trigger] faults[k] == error::first_fault(faults);
        assert(query.interventions@[k].fault() is Some);
    }
}

/// A target population is accepted where its predicate names something and its cutoff is finite.
pub proof fn law_accepted_targets(population: TargetPopulation)
    ensures
        population.refusal() is None <==> match population {
            TargetPopulation::Predicate(PredicateExpr::Named(name)) => name@.len() > 0,
            TargetPopulation::Predicate(PredicateExpr::Rows(rows)) => rows@.len() > 0,
            TargetPopulation::LocalAtCutoff { cutoff, .. } => cutoff.finite(),
            _ => true,
        },
{
}

/// Thresholds of an outcome functional are finite, and those of a grid ascend strictly.
pub proof fn law_accepted_functionals(functional: OutcomeFunctional)
    ensures
        functional.refusal() is None <==> match functional {
            OutcomeFunctional::Mean => true,
            OutcomeFunctional::Exceedance(threshold) => threshold.finite(),
            OutcomeFunctional::ExceedanceGrid(grid) => {
                &&& grid@.len() > 0
                &&& forall|i: int| 0 <= i < grid@.len() ==> (#[trigger] grid@[i]).finite()
                &&& forall|i: int, j: int|
                    0 <= i < j < grid@.len() ==> (#[trigger] grid@[i]).lt(#[trigger] grid@[j])
            },
        },
{
}

/// Randomizations draw: probabilities are finite and strictly between zero and one, and some
/// unit or cluster is treated.
pub proof fn law_accepted_assignments(design: AssignmentDesign)
    ensures
        design.refusal() is None <==> match design {
            AssignmentDesign::Bernoulli { probabilities } => probabilities@.len() > 0 && forall|
                i: int,
            |
                0 <= i < probabilities@.len() ==> {
                    let p = #[trigger] probabilities@[i];
                    &&& p.finite()
                    &&& (OrderedFloatBits { bits: 0 }).lt(p)
                    &&& p.lt(OrderedFloatBits { bits: 0x3FF0_0000_0000_0000 })
                },
            AssignmentDesign::CompleteRandomization { treated } => treated > 0,
            AssignmentDesign::ClusterRandomization { clusters, treated_clusters } =>
            clusters@.len() > 0 && treated_clusters > 0,
        },
{
}

/// An exposure contrast has two levels that are finite in both coordinates and differ in one, by
/// value and as reported, and draws at least once.
pub proof fn law_accepted_interferences(query: InterferenceQuery, levels_match: bool)
    ensures
        query.refusal(levels_match) is None <==> {
            &&& query.assignment.refusal() is None
            &&& !levels_match
            &&& query.probability_draws > 0
            &&& match query.functional {
                InterferenceFunctional::ExposureContrast { from, to, .. } => {
                    &&& from.own.finite()
                    &&& from.neighbors.finite()
                    &&& to.own.finite()
                    &&& to.neighbors.finite()
                    &&& !from.own.numeric_eq(to.own) || !from.neighbors.numeric_eq(to.neighbors)
                },
            }
        },
{
}

/// A configuration is accepted where its limit and its number of draws are positive.
pub proof fn law_accepted_configurations(config: ShapleyConfig)
    ensures
        config.refusal() is None <==> config.max_exact_components > 0 && match config.mode {
            ShapleyMode::Exact => true,
            ShapleyMode::MonteCarlo { n_samples } => n_samples > 0,
            ShapleyMode::Permutation { n_permutations } => n_permutations > 0,
        },
{
}

/// An order of allocation names something, and nothing twice.
pub proof fn law_accepted_allocations(method: AllocationMethod)
    ensures
        method.refusal() is None <==> match method {
            AllocationMethod::Shapley { approximation } => approximation.refusal() is None,
            AllocationMethod::Sequential { order } => order@.len() > 0 && order@.no_duplicates(),
            AllocationMethod::PathBased => true,
        },
{
}

/// A population has rows: those listed, or all from the start of its range up to before its end.
pub proof fn law_populations_have_rows(population: PopulationSelector, row: usize)
    ensures
        population.refusal() is None <==> population.rows().len() > 0,
        population.rows().contains(row) <==> match population {
            PopulationSelector::Rows(rows) => rows@.contains(row),
            PopulationSelector::TimeRange { start, end } => start <= row < end,
        },
        population matches PopulationSelector::TimeRange { start, end } ==> (start < end
            ==> population.rows().len() == end - start),
{
    if let PopulationSelector::TimeRange { start, end } = population {
        if start <= row < end {
            assert(population.rows()[row - start] == row);
        }
        if population.rows().contains(row) {
            let i = choose|i: int|
                0 <= i < population.rows().len() && population.rows()[i] == row;
            assert(row == start + i);
        }
    }
}

/// Attribution queries are accepted where their populations and their allocation are, and their
/// limits are positive.
pub proof fn law_accepted_attributions(
    change: ChangeAttributionQuery,
    unit: UnitChangeQuery,
    anomaly: AnomalyAttributionQuery,
)
    ensures
        change.refusal() is None <==> {
            &&& change.baseline.refusal() is None
            &&& change.comparison.refusal() is None
            &&& change.max_components > 0
            &&& change.allocation.refusal() is None
        },
        unit.refusal() is None <==> unit.max_units > 0 && unit.allocation.refusal() is None,
        anomaly.refusal() is None <==> anomaly.targets@.len() > 0 && anomaly.max_units > 0,
{
}

/// A query for changed mechanisms has targets, populations that are accepted, a positive limit,
/// and a level strictly between zero and one.
pub proof fn law_accepted_detections(query: MechanismChangeQuery)
    ensures
        query.refusal() is None <==> {
            &&& query.targets@.len() > 0
            &&& query.max_targets > 0
            &&& query.baseline.refusal() is None
            &&& query.comparison.refusal() is None
            &&& (OrderedFloatBits { bits: 0 }).lt(query.significance_level)
            &&& query.significance_level.lt(OrderedFloatBits { bits: 0x3FF0_0000_0000_0000 })
        },
{
}

/// Horizons of a temporal response are positive and ascend strictly, are not too many, and its
/// policy is a pulse or does not end before it starts.
pub proof fn law_accepted_temporal_responses(spec: TemporalResponseSpec)
    ensures
        spec.refusal() is None <==> {
            &&& 0 < spec.horizons@.len() <= response::MAX_TEMPORAL_RESPONSE_HORIZONS
            &&& forall|i: int| 0 <= i < spec.horizons@.len() ==> #[trigger] spec.horizons@[i] > 0
            &&& forall|i: int, j: int|
                0 <= i < j < spec.horizons@.len() ==> #[trigger] spec.horizons@[i]
                    < #[trigger] spec.horizons@[j]
            &&& match spec.policy {
                TemporalPolicy::Pulse { .. } => true,
                TemporalPolicy::Sustained { from, until } => from <= until,
                TemporalPolicy::Dynamic { .. } => false,
            }
        },
{
    let horizons = spec.horizons@;
    if horizons.contains(0) {
        let i = choose|i: int| 0 <= i < horizons.len() && horizons[i] == 0;
        assert(!(horizons[i] > 0));
    } else {
        assert forall|i: int| 0 <= i < horizons.len() implies #[trigger] horizons[i] > 0 by {
            assert(horizons.contains(horizons[i]));
        }
    }
}

/// A grid has two points or more, finite and ascending strictly, and not too many to lay out.
pub proof fn law_accepted_grids(grid: GridSpec)
    ensures
        grid.refusal() is None <==> match grid {
            GridSpec::Values(values) => {
                &&& values@.len() >= 2
                &&& forall|i: int| 0 <= i < values@.len() ==> (#[trigger] values@[i]).finite()
                &&& forall|i: int, j: int|
                    0 <= i < j < values@.len() ==> (#[trigger] values@[i]).lt(
                        #[trigger] values@[j],
                    )
            },
            GridSpec::Linspace { start, end, points } => start.finite() && end.finite()
                && start.lt(end) && 2 <= points <= response::MAX_MATERIALIZED_GRID_POINTS,
        },
{
}

/// No variable is in both lists, and neither is empty.
pub open spec fn apart(left: Seq<VariableId>, right: Seq<VariableId>) -> bool {
    &&& left.len() > 0
    &&& right.len() > 0
    &&& forall|v: VariableId| #[trigger] left.contains(v) ==> !right.contains(v)
}

proof fn lemma_apart(left: Seq<VariableId>, right: Seq<VariableId>)
    ensures
        response::distinct_sets(left, right) <==> apart(left, right),
{
    if response::distinct_sets(left, right) {
        assert forall|v: VariableId| #[trigger] left.contains(v) implies !right.contains(v) by {
            let i = choose|i: int| 0 <= i < left.len() && left[i] == v;
            assert(!right.contains(left[i]));
        }
    }
    assert forall|i: int| 0 <= i < left.len() implies left.contains(#[trigger] left[i]) by {}
}

/// A curve is asked for of another variable than its treatment, over an accepted grid; an
/// average derivative likewise, with weights that can be used; a point derivative likewise, of
/// the first or second order, at a finite point that is positive where the treatment is logged.
pub proof fn law_accepted_curves_and_derivatives(functional: ResponseFunctional)
    requires
        functional is MeanCurve || functional is AverageDerivative || functional is PointDerivative,
    ensures
        functional.refusal() is None <==> match functional {
            ResponseFunctional::MeanCurve { outcome, treatment } => outcome != treatment.variable
                && treatment.grid.refusal() is None,
            ResponseFunctional::AverageDerivative { outcome, treatment, weighting } => {
                &&& outcome != treatment
                &&& match weighting {
                    DerivativeWeighting::Observed => true,
                    DerivativeWeighting::Uniform { lower, upper } => lower.finite()
                        && upper.finite() && lower.lt(upper),
                    DerivativeWeighting::Custom(weights) => {
                        let zero = OrderedFloatBits { bits: 0 };
                        &&& forall|i: int|
                            0 <= i < weights@.len() ==> (#[trigger] weights@[i]).finite()
                                && !weights@[i].lt(zero)
                        &&& exists|i: int|
                            0 <= i < weights@.len() && !(#[trigger] weights@[i]).numeric_eq(zero)
                    },
                }
            },
            ResponseFunctional::PointDerivative { outcome, treatment, at, order, scale } => {
                &&& outcome != treatment
                &&& at.finite()
                &&& order == 1 || order == 2
                &&& scale.logs_treatment() ==> !at.le(OrderedFloatBits { bits: 0 })
            },
            _ => true,
        },
{
}

/// A directional derivative and a Jacobian are asked for of variables apart from the treatments,
/// at one finite coordinate for each treatment: the first in a direction that is finite and not
/// zero, the second at positive coordinates where the treatments are logged.
pub proof fn law_accepted_joint_derivatives(functional: ResponseFunctional)
    requires
        functional is DirectionalDerivative || functional is Jacobian,
    ensures
        functional.refusal() is None <==> match functional {
            ResponseFunctional::DirectionalDerivative { outcomes, treatments, at, direction } => {
                &&& apart(outcomes@, treatments@)
                &&& at@.len() == treatments@.len()
                &&& direction@.len() == treatments@.len()
                &&& forall|i: int| 0 <= i < at@.len() ==> (#[trigger] at@[i]).finite()
                &&& forall|i: int| 0 <= i < direction@.len() ==> (#[trigger] direction@[i]).finite()
                &&& exists|i: int|
                    0 <= i < direction@.len() && !(#[trigger] direction@[i]).numeric_eq(
                        OrderedFloatBits { bits: 0 },
                    )
            },
            ResponseFunctional::Jacobian { outcomes, treatments, at, scale } => {
                &&& apart(outcomes@, treatments@)
                &&& at@.len() == treatments@.len()
                &&& forall|i: int| 0 <= i < at@.len() ==> (#[trigger] at@[i]).finite()
                &&& scale.logs_treatment() ==> forall|i: int|
                    0 <= i < at@.len() ==> !(#[trigger] at@[i]).le(OrderedFloatBits { bits: 0 })
            },
            _ => true,
        },
{
    match functional {
        ResponseFunctional::DirectionalDerivative { outcomes, treatments, .. } => {
            lemma_apart(outcomes@, treatments@);
        },
        ResponseFunctional::Jacobian { outcomes, treatments, .. } => {
            lemma_apart(outcomes@, treatments@);
        },
        _ => {},
    }
}

/// A response to interventions has some, each accepted and none on the outcome.
pub proof fn law_accepted_intervention_responses(
    outcome: VariableId,
    interventions: Vec<Intervention>,
)
    ensures
        (ResponseFunctional::InterventionResponse { outcome, interventions }).refusal() is None <==> {
            &&& interventions@.len() > 0
            &&& forall|i: int|
                0 <= i < interventions@.len() ==> (#[trigger] interventions@[i]).fault() is None
                    && interventions@[i].primary() != Some(outcome)
        },
{
    let faults = response::intervention_faults(interventions@, outcome);
    admission::law_the_first_fault_is_reported(faults);
    if error::first_fault(faults) is None {
        assert forall|i: int| 0 <= i < interventions@.len() implies (
        #[trigger] interventions@[i]).fault() is None && interventions@[i].primary() != Some(
            outcome,
        ) by {
            assert(faults[i] is None);
        }
    } else {
        let k = choose|k: int|
            0 <= k < faults.len() && #[trigger] faults[k] == error::first_fault(faults);
        assert(response::intervention_fault(interventions@[k], outcome) is Some);
    }
}

/// A response query is accepted where its functional and its population are; one over time also
/// needs an accepted schedule, a curve or interventions, and complete observation.
pub proof fn law_accepted_responses(query: ResponseQuery)
    ensures
        query.refusal() is None <==> {
            &&& query.functional.refusal() is None
            &&& query.target_population.refusal() is None
            &&& query.temporal matches Some(spec) ==> {
                &&& spec.refusal() is None
                &&& query.functional is MeanCurve || query.functional is InterventionResponse
                &&& query.observation is Complete
            }
        },
{
}

/// A transport query is accepted where its response is, its populations are named and two, it
/// lists no experiment twice, and a catalog that it carries is accepted and has exactly the
/// listed experiments in the source population.
pub proof fn law_accepted_transports(query: TransportQuery)
    ensures
        query.refusal() is None <==> {
            &&& query.response.refusal() is None
            &&& text::trimmed(query.source_population@).len() > 0
            &&& text::trimmed(query.target_population@).len() > 0
            &&& query.source_population@ != query.target_population@
            &&& query.source_experiments@.no_duplicates()
            &&& query.catalog matches Some(catalog) ==> {
                &&& catalog@.refusal() is None
                &&& forall|v: VariableId| #[trigger]
                    query.source_experiments@.contains(v) <==> catalog@.experimented(
                        query.source_population@,
                        v,
                    )
            }
        },
{
}

/// Treatments are logged on the two scales that log them.
pub proof fn law_logged_treatments(scale: DerivativeScale)
    ensures
        scale == DerivativeScale::LogTreatment ==> scale.logs_treatment(),
        scale == DerivativeScale::LogLog ==> scale.logs_treatment(),
        scale.logs_treatment() ==> scale is LogTreatment || scale is LogLog,
{
}

/// The targets of some interventions are the variables they are about, each in its turn; an
/// intervention about no single variable has none.
pub proof fn law_targets_are_what_interventions_are_about(
    interventions: Seq<Intervention>,
    v: VariableId,
)
    ensures
        response::targets(interventions).contains(v) <==> exists|i: int|
            0 <= i < interventions.len() && (#[trigger] interventions[i]).primary() == Some(v),
        (forall|i: int|
            0 <= i < interventions.len() ==> (#[trigger] interventions[i]).primary() is Some)
            ==> response::targets(interventions) == interventions.map_values(
            |one: Intervention| one.primary()->0,
        ),
    decreases interventions.len(),
{
    if interventions.len() > 0 {
        let rest = interventions.drop_last();
        let before = response::targets(rest);
        let all = response::targets(interventions);
        let last = interventions.len() - 1;
        law_targets_are_what_interventions_are_about(rest, v);
        if all.contains(v) {
            let k = choose|k: int| 0 <= k < all.len() && all[k] == v;
            if k < before.len() {
                assert(before[k] == v);
                assert(before.contains(v));
                let i = choose|i: int|
                    0 <= i < rest.len() && (#[trigger] rest[i]).primary() == Some(v);
                assert(interventions[i].primary() == Some(v));
            } else {
                assert(interventions[last].primary() == Some(v));
            }
        }
        if exists|i: int|
            0 <= i < interventions.len() && (#[trigger] interventions[i]).primary() == Some(v) {
            let i = choose|i: int|
                0 <= i < interventions.len() && (#[trigger] interventions[i]).primary() == Some(v);
            if i < last {
                assert(rest[i].primary() == Some(v));
                let k = choose|k: int| 0 <= k < before.len() && before[k] == v;
                assert(all[k] == v);
            } else {
                assert(all[all.len() - 1] == v);
            }
        }
        if forall|i: int|
            0 <= i < interventions.len() ==> (#[trigger] interventions[i]).primary() is Some {
            assert forall|i: int| 0 <= i < rest.len() implies (
            #[trigger] rest[i]).primary() is Some by {
                assert(interventions[i].primary() is Some);
            }
            assert(interventions[last].primary() is Some);
            assert(all =~= interventions.map_values(|one: Intervention| one.primary()->0));
        }
    } else {
        assert(response::targets(interventions) =~= interventions.map_values(
            |one: Intervention| one.primary()->0,
        ));
    }
}

/// A catalog can be attached exactly where it is accepted and has the experiments that are
/// listed, if any are.
pub proof fn law_attached_catalogs(query: TransportQuery, catalog: CatalogView)
    ensures
        query.attachment_refusal(catalog) is None <==> {
            &&& catalog.refusal() is None
            &&& query.source_experiments@.len() > 0 ==> {
                &&& query.source_experiments@.no_duplicates()
                &&& forall|v: VariableId| #[trigger]
                    query.source_experiments@.contains(v) <==> catalog.experimented(
                        query.source_population@,
                        v,
                    )
            }
        },
{
}

} // verus!
