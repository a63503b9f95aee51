//! Constructors, attachments and accessors of queries, reports and records.

use antecedent::assumption::{AssumptionSource, AssumptionStatus};
use antecedent::capability::{
    BlockedOperation, OperationKind, OperationReport, SemanticApplicability,
};
use antecedent::claim::{AcceptanceReport, ConsumerProfile};
use antecedent::execution::Parallelism;
use antecedent::ids::{DynamicRuleId, RegimeId, VariableId};
use antecedent::intervention::{Intervention, TemporalPolicy};
use antecedent::level::{OrderedFloatBits, SIGN_BIT};
use antecedent::node::NodeRef;
use antecedent::obligation::{ObligationKind, ObligationRecord, ObligationScope};
use antecedent::query::attribution::PopulationSelector;
use antecedent::query::counterfactual::CounterfactualQuery;
use antecedent::query::effect::AverageEffectQuery;
use antecedent::query::error::QueryError;
use antecedent::query::evidence::{
    DistributionAvailability, Environment, EvidenceKind, EvidenceRegime, RegimeKind,
    VariableCoordinate, VariableDomain,
};
use antecedent::query::mediation::MediationContrast;
use antecedent::query::nested_counterfactual::NestedCounterfactualQuery;
use antecedent::query::response::{
    DerivativeWeighting, ObservationSpec, ResponseFunctional, ResponseQuery, TemporalResponseSpec,
};
use antecedent::query::target::TargetPopulation;
use antecedent::query::transport::TransportQuery;
use antecedent::query::transport_catalog::EvidenceCatalog;
use antecedent::query::transport_contract::TheoremScope;
use antecedent::value::Value;

fn variable(raw: u32) -> VariableId {
    VariableId::from_raw(raw)
}

fn level(value: f64) -> OrderedFloatBits {
    OrderedFloatBits::from_bits(value.to_bits())
}

fn derivative() -> ResponseQuery {
    ResponseQuery::new(ResponseFunctional::AverageDerivative {
        outcome: variable(1),
        treatment: variable(0),
        weighting: DerivativeWeighting::Observed,
    })
}

#[test]
fn worker_threads_are_capped() {
    assert_eq!(Parallelism::default_user(None).max_threads.get(), 1);
    assert_eq!(Parallelism::default_user(Some(6)).max_threads.get(), 6);
    assert_eq!(Parallelism::default_user(Some(96)).max_threads.get(), 16);
}

#[test]
fn only_static_and_unfolded_nodes_stand_in_static_graphs() {
    let unfolded = NodeRef::Unfolded { variable: variable(2), offset: -1 };
    let context = NodeRef::Context { variable: variable(2), environment: None };
    assert!(NodeRef::Static(variable(2)).is_static_graph_node());
    assert!(unfolded.is_static_graph_node());
    assert!(!context.is_static_graph_node());
}

#[test]
fn selectors_list_their_rows() {
    assert_eq!(PopulationSelector::Rows(vec![4, 1, 4]).selected_rows(), vec![4, 1, 4]);
    let range = PopulationSelector::TimeRange { start: 3, end: 6 };
    assert_eq!(range.selected_rows(), vec![3, 4, 5]);
}

#[test]
fn counterfactual_worlds_have_a_control() {
    let active = Intervention::set(variable(3), Value::float64(level(2.0)));
    let query = CounterfactualQuery::new(variable(5), vec![active]);
    assert_eq!(query.control, Intervention::set(variable(3), Value::float64(level(0.0))));
    let query = query.with_control_level(level(-1.5)).with_nested(true);
    assert_eq!(query.control, Intervention::set(variable(3), Value::float64(level(-1.5))));
    assert!(query.allow_nested);
}

#[test]
fn binary_effects_contrast_one_and_zero() {
    let query = AverageEffectQuery::binary_ate(variable(0), variable(1));
    assert_eq!(query.control, Intervention::set(variable(0), Value::float64(level(0.0))));
    assert_eq!(query.active, Intervention::set(variable(0), Value::float64(level(1.0))));
    assert_eq!(query.target_population, TargetPopulation::AllObserved);
}

#[test]
fn nested_queries_are_natural_direct_effects() {
    let nested = NestedCounterfactualQuery::new(variable(0), variable(1), variable(2)).unwrap();
    let mediation = nested.as_mediation_query();
    assert_eq!(mediation.mediators, vec![variable(1)]);
    assert_eq!(mediation.contrast, MediationContrast::NaturalDirect);
    assert_eq!(mediation.validate(), Ok(()));
}

#[test]
fn temporal_responses_have_horizons_and_offsets() {
    let window = TemporalPolicy::Sustained { from: -2, until: 0 };
    let spec = TemporalResponseSpec::new(vec![1, 4, 9], window, None).unwrap();
    assert_eq!(spec.max_horizon(), 9);
    assert_eq!(spec.treatment_offset(), Ok(-2));
    let ruled = |active_at: Vec<i32>| TemporalResponseSpec {
        horizons: Vec::new(),
        policy: TemporalPolicy::dynamic(DynamicRuleId::from_raw(7), active_at),
        max_history_lag: None,
    };
    assert_eq!(ruled(vec![5, 6]).treatment_offset(), Ok(5));
    assert_eq!(
        ruled(Vec::new()).treatment_offset(),
        Err(QueryError::DynamicPolicyHasNoTreatmentOffset)
    );
    assert_eq!(ruled(Vec::new()).max_horizon(), 1);
}

#[test]
fn responses_take_attachments() {
    let pulse = TemporalResponseSpec::new(vec![2], TemporalPolicy::Pulse { at: 0 }, Some(3));
    let censored = ObservationSpec::RightCensored {
        latent: variable(1),
        observed: variable(2),
        censoring: variable(3),
        event: variable(4),
    };
    let query = derivative();
    assert!(!query.is_temporal());
    let query = query
        .with_temporal(pulse.unwrap())
        .with_target_population(TargetPopulation::Treated)
        .with_observation(censored.clone(), Vec::new());
    assert!(query.is_temporal());
    assert_eq!(query.target_population, TargetPopulation::Treated);
    assert_eq!(query.observation, censored);
}

#[test]
fn cutoffs_do_not_tell_the_zeros_apart() {
    let negative_zero = OrderedFloatBits::from_bits(SIGN_BIT);
    let at_zero = TargetPopulation::local_at_cutoff(variable(3), negative_zero);
    assert!(at_zero.is_local_at_cutoff(variable(3), level(0.0)));
    assert!(at_zero.is_local_at_cutoff(variable(3), negative_zero));
    assert!(!at_zero.is_local_at_cutoff(variable(4), level(0.0)));
    assert!(!at_zero.is_local_at_cutoff(variable(3), level(0.5)));
    assert!(!TargetPopulation::Treated.is_local_at_cutoff(variable(3), level(0.0)));
}

fn experiment(id: u32, intervened: u32) -> EvidenceRegime {
    EvidenceRegime::try_new(
        RegimeId::from_raw(id),
        RegimeKind::Experimental,
        EvidenceKind::Available,
        vec![variable(intervened)],
        Vec::new(),
        vec![variable(9)],
        "trial",
        DistributionAvailability::Joint,
    )
    .unwrap()
}

#[test]
fn catalogs_name_the_source_experiments() {
    let catalog = EvidenceCatalog::try_new(
        Vec::new(),
        vec![experiment(2, 4), experiment(1, 3)],
        Vec::new(),
        None,
    )
    .unwrap();
    let query = |listed: Vec<VariableId>| TransportQuery {
        response: derivative(),
        source_population: "trial".to_string(),
        target_population: "clinic".to_string(),
        source_experiments: listed,
        catalog: None,
    };
    let attached = query(Vec::new()).with_catalog(catalog.clone()).unwrap();
    assert_eq!(attached.source_experiments, vec![variable(3), variable(4)]);
    assert_eq!(attached.validate(), Ok(()));
    assert!(matches!(
        query(vec![variable(8)]).with_catalog(catalog),
        Err(QueryError::InvalidTransport(_))
    ));
}

#[test]
fn canonical_catalogs_order_their_regimes() {
    let catalog = |regimes: Vec<EvidenceRegime>| {
        EvidenceCatalog::try_new(Vec::new(), regimes, Vec::new(), None).unwrap()
    };
    let one = catalog(vec![experiment(2, 4), experiment(1, 3)]).canonicalized().unwrap();
    let other = catalog(vec![experiment(1, 3), experiment(2, 4)]).canonicalized().unwrap();
    assert_eq!(one, other);
    assert_eq!(one.regimes[0].id, RegimeId::from_raw(1));
    assert_eq!(one.canonicalized().unwrap(), one);
}

#[test]
fn canonical_catalogs_order_every_list_and_stay_as_they_are() {
    let coordinate = |raw: u32, domain: VariableDomain| VariableCoordinate {
        variable: variable(raw),
        domain,
        unit: None,
    };
    let mut x = vec![coordinate(3, VariableDomain::Binary), coordinate(9, VariableDomain::Count)];
    let mut measured = vec![variable(9), variable(3)];
    let mut made = Vec::new();
    for _ in 0..2 {
        x.reverse();
        measured.reverse();
        let trial = Environment::try_new("trial", x.clone(), vec![variable(9), variable(3)]);
        let clinic = Environment::try_new("clinic", x.clone(), vec![variable(3), variable(9)]);
        let mut environments = vec![trial.unwrap(), clinic.unwrap()];
        let mut regimes = vec![experiment(2, 3), experiment(1, 3)];
        regimes[0].measured = measured.clone();
        if made.is_empty() {
            environments.reverse();
            regimes.reverse();
        }
        made.push(EvidenceCatalog::try_new(environments, regimes, Vec::new(), None).unwrap());
    }
    assert_ne!(made[0], made[1]);
    let canonical = made[0].canonicalized().unwrap();
    assert_eq!(made[1].canonicalized().unwrap(), canonical);
    assert_eq!(canonical.canonicalized().unwrap(), canonical);
    assert_eq!(canonical.environments[0].identity, "clinic");
    assert_eq!(canonical.environments[0].variables[0].variable, variable(3));
    assert_eq!(canonical.environments[1].selection_targets, vec![variable(3), variable(9)]);
    assert_eq!(canonical.regimes[1].measured, vec![variable(3), variable(9)]);
}

#[test]
fn complete_families_say_so() {
    let scope = TheoremScope::meta_sid_complete();
    assert_eq!(scope.reference.version, "meta-sid-pmlr31-2013-figure5-v1");
    assert_eq!(
        TheoremScope::statistical_table_inspect_label(),
        "classical_single_source_all_experiments_v1; empirical_table_plugin_iid"
    );
}

#[test]
fn the_first_blocker_is_primary() {
    let report = |blockers: Vec<BlockedOperation>| {
        OperationReport::new(
            OperationKind::Execute,
            SemanticApplicability::Unlicensed,
            None,
            None,
            blockers,
            Vec::new(),
            Vec::new(),
            Vec::new(),
            Vec::new(),
            Vec::new(),
        )
    };
    let blocked = report(vec![BlockedOperation::operation_unlicensed("no license")]);
    assert_eq!(blocked.primary_blocker_id(), Some("operation.unlicensed"));
    assert_eq!(report(Vec::new()).primary_blocker_id(), None);
}

#[test]
fn receivers_record_claims_and_features() {
    let report = AcceptanceReport::new(true, true, Vec::new(), Vec::new(), None);
    assert!(!report.claim_present);
    assert!(report.with_claim(true).claim_present);
    assert!(ConsumerProfile::full().understands("claim.point"));
    assert!(!ConsumerProfile::full().understands("claim.unheard_of"));
}

#[test]
fn obligations_take_checks_and_evidence() {
    let record = ObligationRecord::new(
        "overlap".to_string(),
        ObligationScope::Program,
        AssumptionSource::UserDeclared,
        ObligationKind::UserAssertion,
        AssumptionStatus::Declared,
        "treated and untreated units overlap".to_string(),
    );
    let record =
        record.with_required_check("positivity".to_string()).with_evidence("plot".to_string());
    assert_eq!(record.required_check.as_deref(), Some("positivity"));
    assert_eq!(record.evidence.as_deref(), Some("plot"));
    assert!(record.assumption.is_none());
}
