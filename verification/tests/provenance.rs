//! Provenance graphs.

use antecedent::assumption::AssumptionSet;
use antecedent::provenance::{ProvenanceError, ProvenanceGraph, ProvenanceNode};

fn node(id: &str, parents: &[&str]) -> ProvenanceNode {
    ProvenanceNode {
        artifact_id: id.to_string(),
        operation: "test".to_string(),
        parents: parents.iter().map(|p| p.to_string()).collect(),
        assumptions: AssumptionSet::new(),
        library_version: "1.9.0".to_string(),
        config_digest: None,
    }
}

#[test]
fn try_push_rejects_duplicates_and_cycles() {
    let mut graph = ProvenanceGraph::new();
    graph.try_push(node("a", &[])).unwrap();
    assert!(matches!(
        graph.try_push(node("a", &[])),
        Err(ProvenanceError::DuplicateIdentity { .. })
    ));
    graph.try_push(node("b", &["a"])).unwrap();
    assert!(matches!(graph.try_push(node("c", &["c"])), Err(ProvenanceError::Cycle { .. })));
    let missing = graph.validate().unwrap();
    assert!(missing.is_empty());
}

#[test]
fn try_push_detects_a_cycle_closed_through_an_earlier_external_parent() {
    let mut graph = ProvenanceGraph::new();
    graph.try_push(node("b", &["a"])).unwrap();
    graph.try_push(node("c", &["b"])).unwrap();
    assert!(matches!(graph.try_push(node("a", &["c"])), Err(ProvenanceError::Cycle { .. })));
    graph.try_push(node("a", &["root"])).unwrap();
    assert_eq!(graph.validate().unwrap(), ["root".to_string()]);
}

#[test]
fn try_push_accepts_a_long_chain() {
    let mut graph = ProvenanceGraph::new();
    graph.try_push(node("n0", &[])).unwrap();
    for i in 1..4_000 {
        let id = format!("n{i}");
        let parent = format!("n{}", i - 1);
        graph.try_push(node(&id, &[parent.as_str()])).unwrap();
    }
    assert_eq!(graph.len(), 4_000);
    assert!(graph.validate().unwrap().is_empty());
}

#[test]
fn external_parents_are_unresolved_not_cycles() {
    let mut graph = ProvenanceGraph::new();
    graph.try_push(node("child", &["external-source"])).unwrap();
    let missing = graph.validate().unwrap();
    assert_eq!(missing, ["external-source".to_string()]);
}

#[test]
fn push_still_accepts_invalid_nodes() {
    let mut graph = ProvenanceGraph::new();
    graph.push(node("", &[]));
    assert_eq!(graph.len(), 1);
    assert!(graph.validate().is_err());
}

#[test]
fn provenance_errors_name_their_node() {
    let mut graph = ProvenanceGraph::new();
    let empty = graph.try_push(node("", &[])).unwrap_err();
    assert_eq!(empty, ProvenanceError::EmptyArtifactId);
    assert_eq!(empty.to_message(), "provenance node has an empty artifact id");
    let parent = graph.try_push(node("x", &[""])).unwrap_err();
    assert_eq!(parent.to_message(), "provenance parent of `x` is empty");
    graph.try_push(node("x", &[])).unwrap();
    let duplicate = graph.try_push(node("x", &[])).unwrap_err();
    assert_eq!(duplicate.to_message(), "duplicate provenance artifact id `x`");
    let cycle = graph.try_push(node("y", &["y"])).unwrap_err();
    assert_eq!(cycle.to_message(), "provenance cycle through `y`");
    assert!(graph.get("x").is_some());
    assert!(graph.get("y").is_none());
}
