//! Queries: outcome functionals, grids, interference designs and transport contracts.

use antecedent::error::SchemaError;
use antecedent::ids::{DynamicRuleId, VariableId};
use antecedent::intervention::TemporalPolicy;
use antecedent::level::OrderedFloatBits;
use antecedent::query::error::QueryError;
use antecedent::query::functional::OutcomeFunctional;
use antecedent::query::interference::{
    AssignmentDesign, ExposureLevel, ExposureMapping, InterferenceFunctional, InterferenceQuery,
};
use antecedent::query::response::{
    DerivativeWeighting, GridSpec, ResponseFunctional, TemporalResponseSpec,
    MAX_MATERIALIZED_GRID_POINTS,
};
use antecedent::query::transport_contract::{
    ExperimentFamily, OutcomeGuarantee, TheoremFamily, TheoremScope, TransportEvaluateSupport,
    TransportIdentifySupport, TransportOutcome, TransportOutcomeKind, TransportSupportCoordinate,
};

fn level(value: f64) -> OrderedFloatBits {
    OrderedFloatBits::from_bits(value.to_bits())
}

fn levels(values: &[f64]) -> Vec<OrderedFloatBits> {
    values.iter().map(|v| level(*v)).collect()
}

#[test]
fn mean_is_default() {
    assert_eq!(OutcomeFunctional::default(), OutcomeFunctional::Mean);
    assert!(OutcomeFunctional::Mean.is_mean());
}

#[test]
fn grid_must_increase() {
    let bad = OutcomeFunctional::exceedance_grid(levels(&[0.2, 0.1]));
    assert_eq!(bad.validate(), Err(QueryError::InvalidOutcomeFunctional));
    let ok = OutcomeFunctional::exceedance_grid(levels(&[0.1, 0.2, 0.9]));
    assert!(ok.validate().is_ok());
}

#[test]
fn thresholds_are_listed_in_order() {
    assert_eq!(OutcomeFunctional::Mean.thresholds(), None);
    assert_eq!(OutcomeFunctional::exceedance(level(2.5)).thresholds(), Some(levels(&[2.5])));
    let grid = OutcomeFunctional::exceedance_grid(levels(&[-1.0, 0.0, 4.0]));
    assert_eq!(grid.thresholds(), Some(levels(&[-1.0, 0.0, 4.0])));
    assert!(OutcomeFunctional::exceedance(level(f64::NAN)).validate().is_err());
    assert!(OutcomeFunctional::exceedance_grid(Vec::new()).validate().is_err());
}

fn query_with_levels(from: (f64, f64), to: (f64, f64)) -> InterferenceQuery {
    InterferenceQuery::new(
        AssignmentDesign::Bernoulli { probabilities: levels(&[0.5]) },
        ExposureMapping::OwnTreatment,
        InterferenceFunctional::ExposureContrast {
            outcome: VariableId::from_raw(0),
            from: ExposureLevel { own: level(from.0), neighbors: level(from.1) },
            to: ExposureLevel { own: level(to.0), neighbors: level(to.1) },
        },
    )
}

fn within_tolerance(from: (f64, f64), to: (f64, f64)) -> bool {
    (from.0 - to.0).abs() <= 1e-12 && (from.1 - to.1).abs() <= 1e-12
}

#[test]
fn distinct_exposure_levels_validate() {
    let (from, to) = ((0.0, 0.0), (1.0, 0.0));
    assert!(query_with_levels(from, to).validate(within_tolerance(from, to)).is_ok());
}

#[test]
fn exposure_levels_within_tolerance_are_rejected_at_validation() {
    let from = (0.5, 0.25);
    let to = (0.5 + 1e-15, 0.25);
    assert_ne!(from, to, "the levels differ as numbers");
    let err = query_with_levels(from, to).validate(within_tolerance(from, to)).unwrap_err();
    assert!(matches!(err, QueryError::InvalidInterference(_)));
}

#[test]
fn equal_exposure_levels_are_rejected_whatever_the_flag() {
    for (from, to) in [((0.5, 0.25), (0.5, 0.25)), ((0.0, 1.0), (-0.0, 1.0))] {
        for flag in [true, false] {
            assert!(matches!(
                query_with_levels(from, to).validate(flag),
                Err(QueryError::InvalidInterference(_))
            ));
        }
    }
    assert!(query_with_levels((0.5, 0.25), (0.5, 0.75)).validate(false).is_ok());
}

#[test]
fn assignment_designs_are_checked() {
    let query = |assignment: AssignmentDesign| {
        let mut query = query_with_levels((0.0, 0.0), (1.0, 0.0));
        query.assignment = assignment;
        query.validate(false)
    };
    for p in [0.0, 1.0, -0.5, f64::NAN] {
        let design = AssignmentDesign::Bernoulli { probabilities: levels(&[0.5, p]) };
        assert!(matches!(query(design), Err(QueryError::InvalidInterference(_))), "{p}");
    }
    assert!(query(AssignmentDesign::CompleteRandomization { treated: 0 }).is_err());
    assert!(query(AssignmentDesign::CompleteRandomization { treated: 3 }).is_ok());
    assert!(query_with_levels((f64::INFINITY, 0.0), (1.0, 0.0)).validate(false).is_err());
}

#[test]
fn temporal_response_spec_refuses_dynamic_policy() {
    let err = TemporalResponseSpec::new(
        vec![1u32],
        TemporalPolicy::dynamic(DynamicRuleId::from_raw(0), vec![0]),
        None,
    )
    .unwrap_err();
    assert!(matches!(err, QueryError::InvalidResponse(_)));
    assert!(err.to_message().contains("pulse or sustained"));
}

#[test]
fn linspace_within_cap_validates_and_materializes() {
    let grid = GridSpec::Linspace { start: level(0.0), end: level(1.0), points: 5 };
    assert!(grid.validate().is_ok());
    assert_eq!(grid.point_count().unwrap(), 5);
}

#[test]
fn linspace_beyond_materialization_cap_is_rejected() {
    let grid = GridSpec::Linspace {
        start: level(0.0),
        end: level(1.0),
        points: MAX_MATERIALIZED_GRID_POINTS + 1,
    };
    let err = grid.validate().unwrap_err();
    assert!(matches!(err, QueryError::InvalidResponse(_)));
    assert!(grid.point_count().is_err());
}

#[test]
fn linspace_point_count_far_beyond_u32_capacity_is_still_rejected_by_the_cap() {
    let grid = GridSpec::Linspace { start: level(0.0), end: level(1.0), points: 4_000_000_000 };
    let err = grid.validate().unwrap_err();
    assert!(matches!(err, QueryError::InvalidResponse(_)));
}

#[test]
fn grids_are_finite_and_increasing() {
    assert!(GridSpec::Values(levels(&[0.0])).validate().is_err());
    assert!(GridSpec::Values(levels(&[0.0, 0.0])).validate().is_err());
    assert!(GridSpec::Values(levels(&[0.0, f64::INFINITY])).validate().is_err());
    let grid = GridSpec::Values(levels(&[-1.0, 0.0, 2.0]));
    assert!(grid.validate().is_ok());
    assert_eq!(grid.point_count(), Ok(3));
    let backwards = GridSpec::Linspace { start: level(1.0), end: level(0.0), points: 2 };
    assert!(backwards.validate().is_err());
}

#[test]
fn response_functional_primary_pair_matches_treatment_and_outcome_ids() {
    let treatment = VariableId::from_raw(0);
    let outcome = VariableId::from_raw(1);
    let functional = ResponseFunctional::AverageDerivative {
        outcome,
        treatment,
        weighting: DerivativeWeighting::Observed,
    };
    assert_eq!(functional.treatment_ids(), vec![treatment]);
    assert_eq!(functional.outcome_ids(), vec![outcome]);
    assert_eq!(functional.primary_pair(), Some((treatment, outcome)));
}

#[test]
fn every_outcome_kind_round_trips_by_name() {
    for kind in TransportOutcomeKind::all() {
        let parsed = TransportOutcomeKind::from_name(kind.as_str())
            .unwrap_or_else(|| panic!("round-trip failed for {}", kind.as_str()));
        assert_eq!(parsed, kind);
    }
    assert!(TransportOutcomeKind::from_name("not_implemented").is_none());
    assert_eq!(TransportOutcomeKind::all().len(), 10);
}

#[test]
fn missing_experiment_and_impossibility_witness_are_different_variants() {
    let missing = TransportOutcome::missing_evidence(
        "transport.source_experiment_missing",
        vec![VariableId::from_raw(0)],
    );
    let impossible = TransportOutcome::proven_non_transportable(
        "transport.sid.impossibility_witness",
        vec![VariableId::from_raw(0)],
    );
    assert_ne!(missing.kind, impossible.kind);
    assert_eq!(missing.kind, TransportOutcomeKind::MissingEvidence);
    assert_eq!(impossible.kind, TransportOutcomeKind::ProvenNonTransportable);
    assert_eq!(missing.kind.as_str(), "missing_evidence");
    assert_eq!(impossible.kind.as_str(), "proven_non_transportable");
    let provider = TransportOutcome::missing_provider("transport_missing_provider");
    assert_eq!(provider.kind, TransportOutcomeKind::MissingProvider);
    assert_eq!(provider.kind.as_str(), "missing_provider");
}

#[test]
fn classical_sid_scope_does_not_claim_catalog_completeness() {
    let scope = TheoremScope::classical_sid();
    assert_eq!(scope.family, TheoremFamily::ClassicalSid);
    assert_eq!(scope.outcome_guarantees, OutcomeGuarantee::SoundIncomplete);
    assert!(!scope.computation_limits.multi_node_c_component_recursion);
    assert_ne!(scope.family.as_str(), TheoremFamily::FiniteCatalogSearch.as_str());
}

#[test]
fn classical_complete_and_catalog_search_are_distinct_families() {
    let complete = TheoremScope::classical_sid_complete();
    let catalog = TheoremScope::finite_catalog_search();
    assert!(complete.computation_limits.multi_node_c_component_recursion);
    assert_eq!(complete.outcome_guarantees, OutcomeGuarantee::CompleteForStatedFamily);
    assert_eq!(complete.family, TheoremFamily::ClassicalSid);
    assert_eq!(catalog.family, TheoremFamily::FiniteCatalogSearch);
    assert_eq!(catalog.outcome_guarantees, OutcomeGuarantee::SoundIncomplete);
    assert_eq!(catalog.allowed_experiments, ExperimentFamily::SuppliedCatalog);
    assert_eq!(
        TheoremScope::exact_law_inspect_label(),
        "classical_single_source_all_experiments_v1; finite_catalog_search_bounded"
    );
}

#[test]
fn support_coordinates_are_stage_specific() {
    let identify = TransportSupportCoordinate::Identify(TransportIdentifySupport {
        graph_class: "admg".to_string(),
        evidence_setting: "classical_sid".to_string(),
        target_functional: "mean_curve".to_string(),
        observation_contract: "complete".to_string(),
    });
    let evaluate = TransportSupportCoordinate::Evaluate(TransportEvaluateSupport {
        evaluator: "trial_ipw".to_string(),
        evidence_setting: "classical_sid".to_string(),
        target_functional: "mean_curve".to_string(),
    });
    assert_eq!(identify.stage(), "identify");
    assert_eq!(evaluate.stage(), "evaluate");
    assert_ne!(identify.stage(), "analyze");
}

#[test]
fn schema_errors_name_what_is_wrong() {
    let name = || "dose".to_string();
    let cases = [
        (SchemaError::DuplicateVariableName { name: name() }, "duplicate variable name `dose`"),
        (SchemaError::UnknownVariableName { name: name() }, "unknown variable name `dose`"),
        (SchemaError::UnknownVariableId { id: 407 }, "unknown variable id 407"),
        (SchemaError::TooManyVariables, "schema exceeds maximum variable count"),
        (
            SchemaError::MissingCategoryDomain { name: name() },
            "variable `dose` requires a category domain",
        ),
        (
            SchemaError::UnexpectedCategoryDomain { name: name() },
            "variable `dose` must not have a category domain",
        ),
    ];
    for (error, message) in cases {
        assert_eq!(error.to_message(), message);
    }
}
