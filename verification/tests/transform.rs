//! Transformation reports.

use antecedent::assumption::{AssumptionSource, AssumptionStatus};
use antecedent::identity::{ContractIdentities, IdentityDomain, IdentityRef, SemanticDigest};
use antecedent::obligation::{ObligationKind, ObligationRecord, ObligationScope};
use antecedent::transform::{
    intent_effects, SemanticLayer, TransformEffect, TransformIntent, TransformationReport,
};

fn digest(byte: u8) -> SemanticDigest {
    let mut bytes = [0u8; 32];
    bytes[0] = byte;
    SemanticDigest::from_bytes(bytes)
}

fn obligation(id: &str) -> ObligationRecord {
    ObligationRecord::new(
        id.to_string(),
        ObligationScope::Program,
        AssumptionSource::UserDeclared,
        ObligationKind::CheckNotRun,
        AssumptionStatus::Declared,
        "pending check".to_string(),
    )
}

#[test]
fn composition_cannot_drop_unresolved_obligations() {
    let program = digest(1);
    let input = || vec![IdentityRef::new(IdentityDomain::Program, program)];
    let first = TransformationReport::new(
        TransformIntent::CompatibleDataReplace,
        input(),
        intent_effects(TransformIntent::CompatibleDataReplace),
        vec![obligation("overlap")],
    );
    let second = TransformationReport::new(
        TransformIntent::DisplayPrecision,
        input(),
        intent_effects(TransformIntent::DisplayPrecision),
        vec![],
    );
    let chained = first.compose(&second);
    assert!(chained.obligations.iter().any(|o| o.id == "overlap"));
    assert!(chained.obligations.iter().any(ObligationRecord::is_unresolved));
    let support = chained.layer(SemanticLayer::Support).expect("support layer");
    assert!(support.effects.contains(&TransformEffect::Invalidates));
    assert!(support.effects.contains(&TransformEffect::RequiresReestimation));
    let identification = chained.layer(SemanticLayer::Identification).expect("id layer");
    assert!(identification.effects.contains(&TransformEffect::Preserves));
}

#[test]
fn a_resolved_record_does_not_stand_for_an_unresolved_one() {
    let report = |obligations: Vec<ObligationRecord>| {
        TransformationReport::new(TransformIntent::DisplayPrecision, vec![], vec![], obligations)
    };
    let resolved = || {
        let mut record = obligation("overlap");
        record.kind = ObligationKind::EmpiricalDiagnostic;
        record.status = AssumptionStatus::Supported;
        record
    };
    assert!(!resolved().is_unresolved());
    let first = report(vec![resolved()]);
    let second = report(vec![obligation("overlap"), obligation("overlap"), obligation("trend")]);
    let chained = first.compose(&second);
    assert_eq!(chained.obligations, [resolved(), obligation("overlap"), obligation("trend")]);
    let again = chained.compose(&report(vec![resolved(), obligation("overlap")]));
    assert_eq!(again.obligations, chained.obligations);
}

#[test]
fn horizon_scopes_are_named_by_their_step() {
    assert_eq!(ObligationScope::Program.as_str(), "program");
    assert_eq!(ObligationScope::Factor.as_str(), "factor");
    assert_eq!(ObligationScope::Atom.as_str(), "atom");
    assert_eq!(ObligationScope::Horizon { horizon: 3 }.as_str(), "horizon_3");
    assert_eq!(ObligationScope::Horizon { horizon: 40 }.as_str(), "horizon_40");
}

#[test]
fn display_precision_does_not_reidentify() {
    let effects = intent_effects(TransformIntent::DisplayPrecision);
    let identification = effects.iter().find(|e| e.layer == SemanticLayer::Identification);
    assert!(identification.is_some_and(|e| e.effects == [TransformEffect::Preserves]));
}

#[test]
fn a_report_binds_the_program_it_names() {
    let report = TransformationReport::new(
        TransformIntent::DisplayPrecision,
        vec![IdentityRef::new(IdentityDomain::Program, digest(1))],
        intent_effects(TransformIntent::DisplayPrecision),
        vec![],
    );
    assert!(report.binds_program(digest(1)));
    assert!(!report.binds_program(digest(2)));
    let contract = ContractIdentities::new(
        digest(3),
        digest(4),
        None,
        digest(1),
        digest(5),
        digest(6),
        digest(7),
    );
    assert!(!report.binds_contract(&contract));
    let bound = TransformationReport::new(
        TransformIntent::DisplayPrecision,
        contract.refs(),
        intent_effects(TransformIntent::DisplayPrecision),
        vec![],
    );
    assert!(bound.binds_contract(&contract));
}

#[test]
fn digest_hex_is_stable_and_lowercase() {
    let mut bytes = [0u8; 32];
    bytes[0] = 0xab;
    bytes[31] = 0xcd;
    let digest = SemanticDigest::from_bytes(bytes);
    let hex = digest.to_hex();
    assert_eq!(hex.len(), 64);
    assert!(hex.starts_with("ab"));
    assert!(hex.ends_with("cd"));
    assert!(hex.bytes().all(|b| b.is_ascii_digit() || (b'a'..=b'f').contains(&b)));
}

#[test]
fn domains_are_distinct_and_named() {
    let domains = IdentityDomain::all();
    let mut keys = std::collections::BTreeSet::new();
    let mut names = std::collections::BTreeSet::new();
    for domain in domains {
        assert!(keys.insert(domain.derive_key()));
        assert!(names.insert(domain.as_str()));
        assert!(domain.derive_key().contains(domain.as_str()) || domain.as_str().contains('_'));
    }
    assert_eq!(keys.len(), IdentityDomain::all().len());
}
