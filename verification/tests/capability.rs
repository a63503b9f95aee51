//! Capability and obligation vocabulary.

use antecedent::capability::{
    BlockedOperation, OperationKind, OperationReadiness, OperationReport,
};
use antecedent::obligation::ObligationKind;
use antecedent::reason_code::{
    is_registered, is_runtime_refusal, reason_codes, runtime_refusal_codes, split_prefix,
};
use antecedent::VERSION;

#[test]
fn cancel_is_not_scientific_impossibility() {
    let cancel = BlockedOperation::cancelled("estimate");
    let refused = BlockedOperation::refused("cell is not licensed");
    assert!(!cancel.scientific);
    assert!(refused.scientific);
    assert_ne!(cancel.id, refused.id);
}

#[test]
fn missing_graph_has_no_neighbors() {
    let report = OperationReport::binding_missing(OperationKind::Inspect, "graph");
    assert!(report.neighbors.is_empty());
    assert_eq!(report.readiness, Some(OperationReadiness::BindingMissing));
    assert!(!report.is_executable());
}

#[test]
fn scoped_operations_are_not_matrix_rows() {
    assert!(!OperationKind::RankDesigns.uses_matrix_row());
    assert!(!OperationKind::Retarget.uses_matrix_row());
    assert!(!OperationKind::Export.uses_matrix_row());
    assert!(OperationKind::Inspect.uses_matrix_row());
}

#[test]
fn unresolved_kinds_are_explicit() {
    assert!(ObligationKind::CheckNotRun.is_unresolved());
    assert!(ObligationKind::FailedCheck.is_unresolved());
    assert!(!ObligationKind::GraphicalImplication.is_unresolved());
    assert!(!ObligationKind::EmpiricalDiagnostic.is_unresolved());
}

#[test]
fn registered_codes_are_found_and_others_are_not() {
    assert!(is_registered("not_executed"));
    assert!(is_runtime_refusal("attested_not_reverifiable"));
    assert!(!is_runtime_refusal("no_interval_reported"));
    assert!(!is_registered("bogus"));
    assert!(!is_registered("not_execute"));
    assert!(!is_registered("not_executedx"));
    assert!(is_registered("no_interval_reported"));
}

#[test]
fn runtime_codes_are_a_subset_of_all_codes() {
    for code in runtime_refusal_codes() {
        assert!(is_registered(code), "{code}");
    }
    assert!(reason_codes().len() > runtime_refusal_codes().len());
}

#[test]
fn prefix_splits_only_where_it_is_well_formed() {
    let (code, rest) = split_prefix("reason=not_executed: detail").unwrap();
    assert_eq!(code, "not_executed");
    assert_eq!(rest, "detail");
    assert!(split_prefix("not_executed: detail").is_none());
}

#[test]
fn version_is_semver_like() {
    assert!(VERSION.contains('.'));
}
