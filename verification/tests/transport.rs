//! Evidence catalogs for transport queries.

use antecedent::ids::{RegimeId, VariableId};
use antecedent::level::OrderedFloatBits;
use antecedent::query::error::QueryError;
use antecedent::query::evidence::{
    DistributionAvailability, Environment, EvidenceKind, EvidenceProjection, EvidenceRegime,
    FactorNeed, InterventionAssignment, RegimeKind, VariableCoordinate, VariableDomain,
};
use antecedent::query::transport_catalog::{
    DependenceGroup, EvidenceCatalog, RegimeBinding, SamplingDesign, TargetSampling,
};
use antecedent::query::transport_delta::EvidenceCatalogDelta;
use antecedent::value::Value;

fn variable(raw: u32) -> VariableId {
    VariableId::from_raw(raw)
}

fn coord(id: u32, domain: VariableDomain) -> VariableCoordinate {
    VariableCoordinate { variable: variable(id), domain, unit: None }
}

fn experimental(id: u32, population: &str, interventions: &[u32]) -> EvidenceRegime {
    EvidenceRegime::try_new(
        RegimeId::from_raw(id),
        RegimeKind::Experimental,
        EvidenceKind::Available,
        interventions.iter().copied().map(variable).collect(),
        Vec::new(),
        vec![variable(2)],
        population,
        DistributionAvailability::Joint,
    )
    .unwrap()
}

fn catalog_of(regimes: Vec<EvidenceRegime>) -> EvidenceCatalog {
    EvidenceCatalog::try_new(Vec::new(), regimes, Vec::new(), None).unwrap()
}

#[test]
fn single_and_joint_experiments_are_distinct() {
    let environment = Environment::try_new(
        "trial",
        vec![
            coord(0, VariableDomain::Binary),
            coord(1, VariableDomain::Binary),
            coord(2, VariableDomain::Binary),
        ],
        Vec::new(),
    )
    .unwrap();
    let catalog = EvidenceCatalog::try_new(
        vec![environment],
        vec![experimental(1, "trial", &[0]), experimental(2, "trial", &[1])],
        Vec::new(),
        None,
    )
    .unwrap();
    assert!(catalog.has_available_experiment("trial", &[variable(0)]));
    assert!(catalog.has_available_experiment("trial", &[variable(1)]));
    assert!(!catalog.has_available_experiment("trial", &[variable(0), variable(1)]));
    let joint = catalog_of(vec![experimental(3, "trial", &[0, 1])]);
    assert!(joint.has_available_experiment("trial", &[variable(0), variable(1)]));
}

#[test]
fn manipulable_is_not_available_evidence() {
    let regime = EvidenceRegime::try_new(
        RegimeId::from_raw(1),
        RegimeKind::Experimental,
        EvidenceKind::Manipulable,
        vec![variable(0)],
        Vec::new(),
        Vec::new(),
        "trial",
        DistributionAvailability::Joint,
    )
    .unwrap();
    let catalog = catalog_of(vec![regime]);
    assert!(!catalog.has_available_experiment("trial", &[variable(0)]));
    assert!(catalog.source_experiment_variables("trial").is_empty());
}

#[test]
fn separate_marginals_never_imply_a_joint() {
    let regime = EvidenceRegime::try_new(
        RegimeId::from_raw(1),
        RegimeKind::Observational,
        EvidenceKind::Available,
        Vec::new(),
        Vec::new(),
        vec![variable(0), variable(1)],
        "target",
        DistributionAvailability::SeparateMarginals { variables: vec![variable(0), variable(1)] },
    )
    .unwrap();
    assert!(matches!(regime.distribution, DistributionAvailability::SeparateMarginals { .. }));
    assert!(!matches!(regime.distribution, DistributionAvailability::Joint));
}

#[test]
fn convenience_sample_is_not_the_target_law() {
    assert!(!TargetSampling::ConvenienceSample.represents_target_law());
    assert!(TargetSampling::SuppliedPopulationLaw.represents_target_law());
    assert!(TargetSampling::RepresentativeSample.represents_target_law());
    assert_ne!(
        TargetSampling::ConvenienceSample.as_str(),
        TargetSampling::SuppliedPopulationLaw.as_str()
    );
}

#[test]
fn same_named_incompatible_domains_are_rejected() {
    let source = Environment::try_new(
        "trial",
        vec![VariableCoordinate {
            variable: variable(0),
            domain: VariableDomain::Binary,
            unit: Some("dose".to_string()),
        }],
        Vec::new(),
    )
    .unwrap();
    let target = Environment::try_new(
        "target",
        vec![VariableCoordinate {
            variable: variable(0),
            domain: VariableDomain::Continuous,
            unit: Some("mg".to_string()),
        }],
        Vec::new(),
    )
    .unwrap();
    let error =
        EvidenceCatalog::try_new(vec![source, target], Vec::new(), Vec::new(), None).unwrap_err();
    assert!(
        matches!(error, QueryError::InvalidTransport(message) if message.contains("incompatible"))
    );
}

#[test]
fn duplicate_environment_identities_are_rejected() {
    let a = Environment::try_new("trial", Vec::new(), Vec::new()).unwrap();
    let b = Environment::try_new("trial", Vec::new(), Vec::new()).unwrap();
    assert!(EvidenceCatalog::try_new(vec![a, b], Vec::new(), Vec::new(), None).is_err());
}

#[test]
fn deintervening_is_refused() {
    let regime = experimental(1, "trial", &[0]);
    let error = regime
        .project(EvidenceProjection::Deintervene { variables: vec![variable(0)] })
        .unwrap_err();
    assert!(matches!(error, QueryError::InvalidTransport(_)));
}

#[test]
fn unmet_dependencies_are_stable_and_complete() {
    let catalog = EvidenceCatalog::empty();
    let (v0, v1) = ([variable(0)], [variable(1)]);
    let unmet = catalog.unmet_factor_dependencies(&[
        (
            "factor.b".to_string(),
            FactorNeed {
                population: "trial",
                variables: &[],
                conditioned_on: &[],
                interventions: &v1,
            },
        ),
        (
            "factor.a".to_string(),
            FactorNeed {
                population: "trial",
                variables: &[],
                conditioned_on: &[],
                interventions: &v0,
            },
        ),
    ]);
    assert_eq!(unmet.len(), 2);
    assert_eq!(unmet[0].factor_id, "factor.a");
    assert_eq!(unmet[1].factor_id, "factor.b");
}

fn regime_with(
    measured: &[u32],
    interventions: &[u32],
    distribution: DistributionAvailability,
) -> EvidenceRegime {
    EvidenceRegime::try_new(
        RegimeId::from_raw(1),
        if interventions.is_empty() {
            RegimeKind::Observational
        } else {
            RegimeKind::Experimental
        },
        EvidenceKind::Available,
        interventions.iter().copied().map(variable).collect(),
        Vec::new(),
        measured.iter().copied().map(variable).collect(),
        "trial",
        distribution,
    )
    .unwrap()
}

#[test]
fn unmet_dependencies_require_the_measured_law_not_just_the_intervention_set() {
    let (x, y) = ([variable(0)], [variable(1)]);
    let need = FactorNeed {
        population: "trial",
        variables: &y,
        conditioned_on: &[],
        interventions: &x,
    };
    let unmet = |regime: EvidenceRegime| {
        catalog_of(vec![regime])
            .unmet_factor_dependencies(&[(
                "f".to_string(),
                FactorNeed {
                    population: "trial",
                    variables: &y,
                    conditioned_on: &[],
                    interventions: &x,
                },
            )])
            .len()
    };
    assert_eq!(unmet(regime_with(&[], &[0], DistributionAvailability::Joint)), 1);
    assert_eq!(unmet(regime_with(&[1], &[0], DistributionAvailability::Joint)), 0);
    assert_eq!(unmet(regime_with(&[1], &[1], DistributionAvailability::Joint)), 1);
    let two = [variable(1), variable(2)];
    let joint_need = FactorNeed {
        population: "trial",
        variables: &two,
        conditioned_on: &[],
        interventions: &x,
    };
    let marginals = DistributionAvailability::SeparateMarginals {
        variables: vec![variable(1), variable(2)],
    };
    let separate = regime_with(&[1, 2], &[0], marginals);
    assert!(!separate.satisfies(&joint_need));
    assert!(regime_with(&[1, 2], &[0], DistributionAvailability::Joint).satisfies(&joint_need));
    let mut restricted = regime_with(&[1], &[0], DistributionAvailability::Joint);
    restricted.intervention_values = vec![InterventionAssignment {
        variable: variable(0),
        value: Value::float64(OrderedFloatBits::from_bits(1.0f64.to_bits())),
    }];
    assert!(!restricted.satisfies(&need));
    let mut proposed = regime_with(&[1], &[0], DistributionAvailability::Joint);
    proposed.evidence_kind = EvidenceKind::Proposed;
    assert!(!proposed.satisfies(&need));
}

#[test]
fn regimes_must_name_declared_environments_and_variables() {
    let env = || {
        Environment::try_new(
            "trial",
            vec![coord(0, VariableDomain::Binary), coord(2, VariableDomain::Binary)],
            Vec::new(),
        )
        .unwrap()
    };
    let build = |regime: EvidenceRegime| {
        EvidenceCatalog::try_new(vec![env()], vec![regime], Vec::new(), None)
    };
    assert!(build(experimental(1, "trial", &[0])).is_ok());
    let typo = build(experimental(1, "trail", &[0])).unwrap_err();
    assert!(matches!(typo, QueryError::InvalidTransport(m) if m.contains("declared environment")));
    let undeclared = build(experimental(1, "trial", &[1])).unwrap_err();
    assert!(matches!(undeclared, QueryError::InvalidTransport(m) if m.contains("not declared")));
    let free = vec![experimental(1, "anywhere", &[1])];
    assert!(EvidenceCatalog::try_new(Vec::new(), free, Vec::new(), None).is_ok());
}

#[test]
fn bindings_to_regimes_without_results_are_rejected() {
    let binding = |regime: u32| RegimeBinding {
        dataset_identity: None,
        regime: RegimeId::from_raw(regime),
        snapshot_identity: "snap".to_string(),
        schema_names: Vec::new(),
        sampling: SamplingDesign::Independent,
        weights: None,
        dependence: DependenceGroup::IndependentStudies,
    };
    let mut proposed = experimental(1, "trial", &[0]);
    proposed.evidence_kind = EvidenceKind::Proposed;
    let error = EvidenceCatalog::try_new(Vec::new(), vec![proposed], vec![binding(1)], None)
        .unwrap_err();
    assert!(matches!(error, QueryError::InvalidTransport(m) if m.contains("do not exist")));
    let available = vec![experimental(1, "trial", &[0])];
    assert!(EvidenceCatalog::try_new(Vec::new(), available, vec![binding(1)], None).is_ok());
}

fn proposal() -> EvidenceRegime {
    EvidenceRegime::try_new(
        RegimeId::from_raw(7),
        RegimeKind::Experimental,
        EvidenceKind::Proposed,
        vec![variable(0)],
        Vec::new(),
        vec![variable(1)],
        "source",
        DistributionAvailability::Joint,
    )
    .unwrap()
}

#[test]
fn preview_is_available_only_in_the_clone() {
    let base = EvidenceCatalog::empty();
    let delta = EvidenceCatalogDelta::try_new(&base, vec![proposal()]).unwrap();
    let preview = delta.preview_catalog(&base).unwrap();
    assert!(!base.has_available_experiment("source", &[variable(0)]));
    assert!(preview.has_available_experiment("source", &[variable(0)]));
    assert_eq!(delta.proposed_regimes[0].evidence_kind, EvidenceKind::Proposed);
}

#[test]
fn delta_rejects_available_and_duplicate_proposals() {
    let base = EvidenceCatalog::empty();
    let mut proposed = proposal();
    proposed.evidence_kind = EvidenceKind::Available;
    assert!(EvidenceCatalogDelta::try_new(&base, vec![proposed]).is_err());
    assert!(EvidenceCatalogDelta::try_new(&base, vec![proposal(), proposal()]).is_err());
}
