//! Claim envelopes, receipts and composition.

use antecedent::claim::{
    compose_claims, AcceptanceReport, ClaimDomains, ClaimEnvelope, ClaimKind, ClaimOperation,
    DerivedClaimOutcome, DomainStatus, EvidenceDependence, HandoffReceipt, SharedEvidenceRef,
};
use antecedent::identification::IdentificationStatus;
use antecedent::identity::{ContractIdentities, SemanticDigest};
use antecedent::level::OrderedFloatBits;
use antecedent::reasoning::{
    AssumptionSlot, IdentificationSlot, ReasoningView, SlotAvailability, SupportSlot,
    UncertaintySlot,
};

fn digest(byte: u8) -> SemanticDigest {
    let mut bytes = [0u8; 32];
    bytes[0] = byte;
    SemanticDigest::from_bytes(bytes)
}

fn level(value: f64) -> OrderedFloatBits {
    OrderedFloatBits::from_bits(value.to_bits())
}

fn texts(items: &[&str]) -> Vec<String> {
    items.iter().map(|s| s.to_string()).collect()
}

fn mass(claim: &ClaimEnvelope) -> Option<f64> {
    claim.reasoning.identification.as_ref().map(|slot| f64::from_bits(slot.identified_mass.to_bits()))
}

/// Compose with the rounding test of the identified masses made in floating point.
fn compose(
    parents: Vec<&ClaimEnvelope>,
    operation: ClaimOperation,
    derived: Option<ClaimEnvelope>,
    alignment: Option<&str>,
) -> DerivedClaimOutcome {
    let raised = parents
        .iter()
        .map(|parent| match (mass(parent), derived.as_ref().and_then(mass)) {
            (Some(own), Some(child)) => child > own + 1e-12,
            _ => false,
        })
        .collect();
    compose_claims(&parents, operation, derived, alignment, &raised)
}

#[test]
fn opaque_storage_is_not_claim_acceptance() {
    let report = AcceptanceReport::opaque_storage();
    assert!(!report.accepts_as_claim());
    assert!(report.supported_operations.iter().any(|op| op == "forward"));
}

#[test]
fn chained_receipts_accumulate_losses() {
    let first = HandoffReceipt {
        input: digest(1),
        output: Some(digest(2)),
        consumer: "restricted".to_string(),
        rule: "scalar_view".to_string(),
        retained: texts(&["value"]),
        omitted: texts(&["unidentified_mass"]),
        unresolved: texts(&[]),
        unavailable_operations: texts(&["re_estimate"]),
    };
    let second = HandoffReceipt {
        input: digest(2),
        output: Some(digest(3)),
        consumer: "forward".to_string(),
        rule: "reserialize".to_string(),
        retained: texts(&["value"]),
        omitted: texts(&[]),
        unresolved: texts(&["covariance"]),
        unavailable_operations: texts(&[]),
    };
    let chained = first.chain(&second);
    assert!(!chained.equivalent_claim());
    assert!(chained.omitted.iter().any(|f| f == "unidentified_mass"));
    assert!(chained.unresolved.iter().any(|f| f == "covariance"));
    let recovered = chained.chain(&HandoffReceipt::lossless(digest(3), "reserialize"));
    assert!(!recovered.equivalent_claim());
    assert!(recovered.omitted.iter().any(|f| f == "unidentified_mass"));
}

#[test]
fn lossy_scalar_cannot_impersonate_a_complete_claim() {
    let view = HandoffReceipt::lossy_scalar(digest(1), "restricted");
    assert!(!view.equivalent_claim());
    assert!(view.omitted.iter().any(|field| field == "unidentified_mass"));
}

#[test]
fn forwarded_duplicate_is_not_two_sources() {
    let id = digest(9);
    assert!(SharedEvidenceRef::forwarded_duplicate(id, id));
    assert!(!SharedEvidenceRef::forwarded_duplicate(id, digest(8)));
}

#[test]
fn same_source_is_snapshot_not_identification() {
    let left = SharedEvidenceRef {
        snapshot: digest(1),
        graph_origin: digest(2),
        prior_origin: None,
        alignment: None,
        dependence: EvidenceDependence::Unknown,
    };
    let same_graph = SharedEvidenceRef { snapshot: digest(3), ..left.clone() };
    let same_snapshot = SharedEvidenceRef { graph_origin: digest(4), ..left.clone() };
    assert!(!left.same_source(&same_graph));
    assert!(left.same_source(&same_snapshot));
}

#[test]
fn unlicensed_pool_refuses_with_parents_intact() {
    let left = sample_claim(1, 0.4);
    let right = sample_claim(2, 0.4);
    match compose(vec![&left, &right], ClaimOperation::Pool, None, None) {
        DerivedClaimOutcome::Refused { restriction, parents, .. } => {
            assert_eq!(restriction, "unlicensed_synthesis");
            assert_eq!(parents, [left.claim_id, right.claim_id]);
        }
        other => panic!("expected refusal, got {other:?}"),
    }
    match compose(vec![&left, &right], ClaimOperation::Contrast, None, None) {
        DerivedClaimOutcome::Refused { restriction, .. } => {
            assert_eq!(restriction, "marginal_intervals_do_not_determine_contrast");
        }
        other => panic!("expected contrast refusal, got {other:?}"),
    }
    match compose(vec![&left, &right], ClaimOperation::Compare, None, None) {
        DerivedClaimOutcome::Comparison(report) => {
            assert!(report.compatible);
            assert!(!report.operation.synthesizes());
        }
        other => panic!("expected comparison, got {other:?}"),
    }
}

#[test]
fn retarget_derived_claim_reuses_provenance_and_refuses_stronger_child() {
    let parent = sample_claim(1, 0.4);
    match compose(vec![&parent], ClaimOperation::Retarget, Some(sample_claim(3, 0.4)), None) {
        DerivedClaimOutcome::Derived(record) => {
            assert_eq!(record.parents, [parent.claim_id]);
            assert!(!record.receipt.equivalent_claim());
            assert_eq!(record.receipt.rule, "derive");
            assert_eq!(record.receipt.consumer, "retarget");
            assert!(record.provenance.validate().unwrap().is_empty());
        }
        other => panic!("expected derived retarget, got {other:?}"),
    }
    match compose(vec![&parent], ClaimOperation::Retarget, Some(sample_claim(4, 1.0)), None) {
        DerivedClaimOutcome::Refused { restriction, parents, .. } => {
            assert_eq!(restriction, "parents_not_retroactively_strengthened");
            assert_eq!(parents, [parent.claim_id]);
        }
        other => panic!("expected stronger-child refusal, got {other:?}"),
    }
}

#[test]
fn retarget_refuses_a_child_outside_the_parent_derivation() {
    let parent = sample_claim(1, 0.4);
    let refused = |child: ClaimEnvelope| match compose(
        vec![&parent],
        ClaimOperation::Retarget,
        Some(child),
        None,
    ) {
        DerivedClaimOutcome::Refused { restriction, parents, .. } => {
            assert_eq!(parents, [parent.claim_id]);
            restriction
        }
        other => panic!("expected refusal, got {other:?}"),
    };
    let mut other_product = sample_claim(3, 0.4);
    other_product.identities.identification_product = Some(digest(99));
    assert_eq!(refused(other_product), "retarget_changes_identification");
    let mut other_premises = sample_claim(3, 0.4);
    other_premises.identities.identification = digest(98);
    assert_eq!(refused(other_premises), "retarget_changes_identification");
    let mut dropped = sample_claim(3, 0.4);
    dropped.reasoning.identification = SlotAvailability::unavailable("dropped");
    assert_eq!(refused(dropped), "derived_drops_identification_slot");
    let mut upgraded = sample_claim(3, 0.4);
    upgraded.domains.support = DomainStatus::Supported;
    assert_eq!(refused(upgraded), "derived_upgrades_domain");
    let mut weaker = sample_claim(3, 0.4);
    weaker.domains.evaluated = DomainStatus::Unknown;
    assert!(matches!(
        compose(vec![&parent], ClaimOperation::Retarget, Some(weaker), None),
        DerivedClaimOutcome::Derived(_)
    ));
}

#[test]
fn lossless_receipt_alone_is_equivalent() {
    assert!(HandoffReceipt::lossless(digest(1), "host").equivalent_claim());
    let derived = HandoffReceipt::new(
        digest(1),
        Some(digest(2)),
        "host",
        "derive",
        vec![],
        vec![],
        vec![],
        vec![],
    );
    assert!(!derived.equivalent_claim());
}

#[test]
fn a_mass_that_is_not_above_its_parents_is_not_raised() {
    let parent = sample_claim(1, 0.4);
    let composed = |child: f64, flag: bool| {
        compose_claims(
            &vec![&parent],
            ClaimOperation::Retarget,
            Some(sample_claim(3, child)),
            None,
            &vec![flag],
        )
    };
    for child in [0.25, 0.4] {
        assert!(!matches!(composed(child, true), DerivedClaimOutcome::Refused { .. }));
    }
    assert!(!matches!(composed(0.4 + 1e-13, false), DerivedClaimOutcome::Refused { .. }));
    assert!(matches!(composed(0.5, true), DerivedClaimOutcome::Refused { .. }));
}

fn sample_claim(byte: u8, identified_mass: f64) -> ClaimEnvelope {
    ClaimEnvelope::new(
        digest(byte),
        ContractIdentities::new(
            digest(10),
            digest(11),
            Some(digest(12)),
            digest(13),
            digest(14),
            digest(15),
            digest(16),
        ),
        ClaimKind::Point,
        Some(level(0.0)),
        None,
        ReasoningView::new(
            SlotAvailability::Available(IdentificationSlot::new(
                IdentificationStatus::NonparametricallyIdentified,
                level(identified_mass),
                level(1.0 - identified_mass),
                level(0.0),
                level(0.0),
                true,
                None,
                false,
            )),
            SlotAvailability::Available(SupportSlot::new(
                "licensed".to_string(),
                None,
                SlotAvailability::unavailable("not_evaluated"),
            )),
            SlotAvailability::Available(UncertaintySlot::new(vec![])),
            SlotAvailability::Available(AssumptionSlot::new(vec![])),
        ),
        ClaimDomains::new(
            DomainStatus::Identified,
            DomainStatus::Unknown,
            DomainStatus::Evaluated,
        ),
        Some(digest(20)),
        vec!["snapshot:test".to_string()],
    )
}

#[test]
fn unavailable_is_not_an_empty_success() {
    let view = ReasoningView::structural(
        SupportSlot {
            matrix_status: "licensed".to_string(),
            matrix_coordinate: None,
            empirical: SlotAvailability::unavailable("not_evaluated"),
        },
        AssumptionSlot { obligations: vec![] },
    );
    assert!(!view.identification.is_available());
    assert!(view.support.is_available());
    assert!(!view.uncertainty.is_available());
    match &view.identification {
        SlotAvailability::Unavailable { reason } => assert_eq!(reason, "not_prepared"),
        SlotAvailability::Available(_) => panic!("identification must stay unavailable"),
    }
}

#[test]
fn singleton_not_identified_does_not_report_unit_identified_mass() {
    let slot = IdentificationSlot::identified_singleton(IdentificationStatus::NotIdentified);
    let identified = f64::from_bits(slot.identified_mass.to_bits());
    let unidentified = f64::from_bits(slot.unidentified_mass.to_bits());
    assert!((identified - 0.0).abs() < f64::EPSILON);
    assert!((unidentified - 1.0).abs() < f64::EPSILON);
}
