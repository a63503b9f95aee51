//! Operation capability reports.
//!
//! A companion record, not a second compiler or error hierarchy. Applicability
//! is the support-matrix coordinate. Readiness is snapshot state. Budget and
//! cancellation are runtime, not scientific impossibility.
//!
//! SPDX-License-Identifier: MIT OR Apache-2.0

use crate::obligation::ObligationRecord;
use crate::transform::SemanticLayer;
use vstd::prelude::*;

verus! {

/// Support-matrix applicability for one requested operation.
#[derive(Clone, Copy, Debug, PartialEq, Eq, Hash, Structural)]
pub enum SemanticApplicability {
    /// Listed in the licensed matrix.
    Licensed,
    /// Meaningful on the axes, but not licensed.
    Unlicensed,
    /// Typed-impossible.
    Impossible,
    /// Off-axis or unclassified. Not failed support and not a license.
    Unknown,
}

impl SemanticApplicability {
    /// The name as text.
    pub open spec fn name(self) -> Seq<char> {
        match self {
            SemanticApplicability::Licensed => "licensed"@,
            SemanticApplicability::Unlicensed => "unlicensed"@,
            SemanticApplicability::Impossible => "impossible"@,
            SemanticApplicability::Unknown => "unknown"@,
        }
    }

    /// Stable `snake_case` name.
    #[must_use]
    pub fn as_str(self) -> (out: &'static str)
        ensures
            out@ == self.name(),
    {
        match self {
            SemanticApplicability::Licensed => "licensed",
            SemanticApplicability::Unlicensed => "unlicensed",
            SemanticApplicability::Impossible => "impossible",
            SemanticApplicability::Unknown => "unknown",
        }
    }
}

/// Different variants of [`SemanticApplicability`] have different names.
pub proof fn law_semantic_applicability_names_are_distinct(a: SemanticApplicability, b: SemanticApplicability)
    requires
        a.name() == b.name(),
    ensures
        a == b,
{
    reveal_strlit("licensed");
    assert("licensed"@.len() == 8 && "licensed"@[0] == 'l');
    reveal_strlit("unlicensed");
    assert("unlicensed"@.len() == 10 && "unlicensed"@[0] == 'u');
    reveal_strlit("impossible");
    assert("impossible"@.len() == 10 && "impossible"@[0] == 'i');
    reveal_strlit("unknown");
    assert("unknown"@.len() == 7 && "unknown"@[0] == 'u');
}

/// Snapshot readiness for the inspected operation.
///
/// `Executable` requires a licensed cell and met bindings. Unknown support is
/// not failed support and is not an executable guarantee.
#[derive(Clone, Copy, Debug, PartialEq, Eq, Hash, Structural)]
pub enum OperationReadiness {
    /// Licensed cell with met bindings for this snapshot.
    Executable,
    /// Graph or class review is still required.
    ReviewRequired,
    /// A required assumption has not been declared.
    AssumptionMissing,
    /// A required empirical check has not been run.
    EmpiricalCheckPending,
    /// A required empirical check failed.
    EmpiricalSupportFailed,
    /// Artifact, provider, graph, query, or identification product is missing.
    BindingMissing,
    /// Runtime resource or cancellation, not scientific impossibility.
    RuntimeUnavailable,
    /// No matrix cell. Distinct from failed support.
    UnknownSupport,
}

impl OperationReadiness {
    /// The name as text.
    pub open spec fn name(self) -> Seq<char> {
        match self {
            OperationReadiness::Executable => "executable"@,
            OperationReadiness::ReviewRequired => "review_required"@,
            OperationReadiness::AssumptionMissing => "assumption_missing"@,
            OperationReadiness::EmpiricalCheckPending => "empirical_check_pending"@,
            OperationReadiness::EmpiricalSupportFailed => "empirical_support_failed"@,
            OperationReadiness::BindingMissing => "binding_missing"@,
            OperationReadiness::RuntimeUnavailable => "runtime_unavailable"@,
            OperationReadiness::UnknownSupport => "unknown_support"@,
        }
    }

    /// Stable `snake_case` name.
    #[must_use]
    pub fn as_str(self) -> (out: &'static str)
        ensures
            out@ == self.name(),
    {
        match self {
            OperationReadiness::Executable => "executable",
            OperationReadiness::ReviewRequired => "review_required",
            OperationReadiness::AssumptionMissing => "assumption_missing",
            OperationReadiness::EmpiricalCheckPending => "empirical_check_pending",
            OperationReadiness::EmpiricalSupportFailed => "empirical_support_failed",
            OperationReadiness::BindingMissing => "binding_missing",
            OperationReadiness::RuntimeUnavailable => "runtime_unavailable",
            OperationReadiness::UnknownSupport => "unknown_support",
        }
    }
}

/// Different variants of [`OperationReadiness`] have different names.
pub proof fn law_operation_readiness_names_are_distinct(a: OperationReadiness, b: OperationReadiness)
    requires
        a.name() == b.name(),
    ensures
        a == b,
{
    reveal_strlit("executable");
    assert("executable"@.len() == 10 && "executable"@[0] == 'e');
    reveal_strlit("review_required");
    assert("review_required"@.len() == 15 && "review_required"@[0] == 'r');
    reveal_strlit("assumption_missing");
    assert("assumption_missing"@.len() == 18 && "assumption_missing"@[0] == 'a');
    reveal_strlit("empirical_check_pending");
    assert("empirical_check_pending"@.len() == 23 && "empirical_check_pending"@[0] == 'e');
    reveal_strlit("empirical_support_failed");
    assert("empirical_support_failed"@.len() == 24 && "empirical_support_failed"@[0] == 'e');
    reveal_strlit("binding_missing");
    assert("binding_missing"@.len() == 15 && "binding_missing"@[0] == 'b');
    reveal_strlit("runtime_unavailable");
    assert("runtime_unavailable"@.len() == 19 && "runtime_unavailable"@[0] == 'r');
    reveal_strlit("unknown_support");
    assert("unknown_support"@.len() == 15 && "unknown_support"@[0] == 'u');
}

/// Named operation the report is about. Not a support-matrix row.
#[derive(Clone, Copy, Debug, PartialEq, Eq, Hash, Structural)]
pub enum OperationKind {
    /// Cheap structural inspect or classify.
    Inspect,
    /// Prepare a licensed handle.
    Prepare,
    /// Estimate or execute against the bound snapshot.
    Execute,
    /// Prepared score-table retarget.
    Retarget,
    /// Design ranking composed onto a prepared handle.
    RankDesigns,
    /// Export a contracted artifact.
    Export,
}

impl OperationKind {
    /// The name as text.
    pub open spec fn name(self) -> Seq<char> {
        match self {
            OperationKind::Inspect => "inspect"@,
            OperationKind::Prepare => "prepare"@,
            OperationKind::Execute => "execute"@,
            OperationKind::Retarget => "retarget"@,
            OperationKind::RankDesigns => "rank_designs"@,
            OperationKind::Export => "export"@,
        }
    }

    /// Stable `snake_case` name.
    #[must_use]
    pub fn as_str(self) -> (out: &'static str)
        ensures
            out@ == self.name(),
    {
        match self {
            OperationKind::Inspect => "inspect",
            OperationKind::Prepare => "prepare",
            OperationKind::Execute => "execute",
            OperationKind::Retarget => "retarget",
            OperationKind::RankDesigns => "rank_designs",
            OperationKind::Export => "export",
        }
    }
}

/// Different variants of [`OperationKind`] have different names.
pub proof fn law_operation_kind_names_are_distinct(a: OperationKind, b: OperationKind)
    requires
        a.name() == b.name(),
    ensures
        a == b,
{
    reveal_strlit("inspect");
    assert("inspect"@.len() == 7 && "inspect"@[0] == 'i');
    reveal_strlit("prepare");
    assert("prepare"@.len() == 7 && "prepare"@[0] == 'p');
    reveal_strlit("execute");
    assert("execute"@.len() == 7 && "execute"@[0] == 'e');
    reveal_strlit("retarget");
    assert("retarget"@.len() == 8 && "retarget"@[0] == 'r');
    reveal_strlit("rank_designs");
    assert("rank_designs"@.len() == 12 && "rank_designs"@[0] == 'r');
    reveal_strlit("export");
    assert("export"@.len() == 6 && "export"@[0] == 'e');
}

impl OperationKind {
    /// Whether this operation is a support-matrix coordinate (and not a scoped contract).
    #[must_use]
    pub fn uses_matrix_row(self) -> (yes: bool)
        ensures
            yes == (self is Inspect || self is Prepare || self is Execute),
    {
        match self {
            OperationKind::Inspect => true,
            OperationKind::Prepare => true,
            OperationKind::Execute => true,
            _ => false,
        }
    }
}

/// One stable blocked-operation record.
#[derive(Clone, Debug, PartialEq, Eq)]
pub struct BlockedOperation {
    /// Stable id (`support.refused`, `binding.graph`, `runtime.cancelled`, and so on).
    pub id: String,
    /// Human-readable reason; the id is authoritative.
    pub reason: String,
    /// Scientific impossibility versus budget, cancellation or resource.
    pub scientific: bool,
}

impl BlockedOperation {
    /// Whether the record says this.
    pub open spec fn says(self, id: Seq<char>, reason: Seq<char>, scientific: bool) -> bool {
        self.id@ == id && self.reason@ == reason && self.scientific == scientific
    }

    /// Construct a blocker.
    #[must_use]
    pub fn new(id: &str, reason: &str, scientific: bool) -> (blocker: Self)
        ensures
            blocker.says(id@, reason@, scientific),
    {
        BlockedOperation { id: id.to_owned(), reason: reason.to_owned(), scientific }
    }

    /// Support-matrix cell that does not apply.
    #[must_use]
    pub fn not_applicable(reason: &str) -> (blocker: Self)
        ensures
            blocker.says("support.not_applicable"@, reason@, true),
    {
        BlockedOperation::new("support.not_applicable", reason, true)
    }

    /// Support-matrix refusal.
    #[must_use]
    pub fn refused(reason: &str) -> (blocker: Self)
        ensures
            blocker.says("support.refused"@, reason@, true),
    {
        BlockedOperation::new("support.refused", reason, true)
    }

    /// Off-axis query and graph pairing.
    #[must_use]
    pub fn off_axis() -> (blocker: Self)
        ensures
            blocker.says(
                "support.off_axis"@,
                "query is not on the public support-matrix axis"@,
                true,
            ),
    {
        BlockedOperation::new(
            "support.off_axis",
            "query is not on the public support-matrix axis",
            true,
        )
    }

    /// Missing builder or artifact binding.
    #[must_use]
    pub fn binding(field: &str) -> (blocker: Self)
        ensures
            blocker.says("binding."@ + field@, "missing required binding: "@ + field@, true),
    {
        BlockedOperation {
            id: "binding.".to_owned().concat(field),
            reason: "missing required binding: ".to_owned().concat(field),
            scientific: true,
        }
    }

    /// Scoped operation (retarget, rank, export) without a license.
    #[must_use]
    pub fn operation_unlicensed(reason: &str) -> (blocker: Self)
        ensures
            blocker.says("operation.unlicensed"@, reason@, true),
    {
        BlockedOperation::new("operation.unlicensed", reason, true)
    }

    /// Cooperative cancellation. Not scientific impossibility.
    #[must_use]
    pub fn cancelled(stage: &str) -> (blocker: Self)
        ensures
            blocker.says("runtime.cancelled"@, stage@, false),
    {
        BlockedOperation::new("runtime.cancelled", stage, false)
    }

    /// Resource or budget refusal. Not scientific impossibility.
    #[must_use]
    pub fn resource(reason: &str) -> (blocker: Self)
        ensures
            blocker.says("runtime.resource"@, reason@, false),
    {
        BlockedOperation::new("runtime.resource", reason, false)
    }
}

/// Suggested next action. Never an automatic fallback.
#[derive(Clone, Debug, PartialEq, Eq)]
pub struct NextAction {
    /// Stable action id.
    pub id: String,
    /// What the caller must do.
    pub description: String,
}

impl NextAction {
    /// Construct a next action.
    #[must_use]
    pub fn new(
        id: String,
        description: String,
    ) -> (made: Self)
        ensures
            made == (NextAction {
                id,
                description,
            }),
    {
        NextAction {
            id,
            description,
        }
    }
}

/// One changed support-matrix premise on a licensed neighbor.
#[derive(Clone, Debug, PartialEq, Eq)]
pub struct PremiseChange {
    /// Axis (`query`, `graph_class`, `structure`, `inference`, `validation`).
    pub axis: String,
    /// Current value.
    pub from: String,
    /// Neighbor value.
    pub to: String,
}

impl PremiseChange {
    /// Construct a premise change.
    #[must_use]
    pub fn new(
        axis: String,
        from: String,
        to: String,
    ) -> (made: Self)
        ensures
            made == (PremiseChange {
                axis,
                from,
                to,
            }),
    {
        PremiseChange {
            axis,
            from,
            to,
        }
    }
}

/// Licensed alternative with explicit changed premises. Never a fallback.
#[derive(Clone, Debug, PartialEq, Eq)]
pub struct LicensedNeighbor {
    /// `query:graph_class:structure:inference:validation`.
    pub coordinate: String,
    /// Axes that differ from the requested cell.
    pub changed: Vec<PremiseChange>,
    /// Required user action. A graph-class relabel is never a neighbor.
    pub required_action: String,
}

impl LicensedNeighbor {
    /// Construct a neighbor suggestion.
    #[must_use]
    pub fn new(
        coordinate: String,
        changed: Vec<PremiseChange>,
        required_action: String,
    ) -> (made: Self)
        ensures
            made == (LicensedNeighbor {
                coordinate,
                changed,
                required_action,
            }),
    {
        LicensedNeighbor {
            coordinate,
            changed,
            required_action,
        }
    }
}

/// Additive operation report beside existing errors.
#[derive(Clone, Debug, PartialEq)]
pub struct OperationReport {
    /// Operation this report describes.
    pub operation: OperationKind,
    /// Matrix applicability.
    pub applicability: SemanticApplicability,
    /// Snapshot readiness. `None` when applicability is the only blocker.
    pub readiness: Option<OperationReadiness>,
    /// Actual matrix coordinate, when classified.
    pub coordinate: Option<String>,
    /// Stable blockers. Empty when the operation is executable.
    pub blockers: Vec<BlockedOperation>,
    /// Unresolved obligations retained from the contract.
    pub unmet_obligations: Vec<ObligationRecord>,
    /// Layers the current premises still preserve.
    pub preserved_layers: Vec<SemanticLayer>,
    /// Layers the current premises invalidate.
    pub invalidated_layers: Vec<SemanticLayer>,
    /// Possible next actions. Never executed automatically.
    pub next_actions: Vec<NextAction>,
    /// Licensed neighbors. Empty when already licensed, no graph, or none exist.
    pub neighbors: Vec<LicensedNeighbor>,
}

impl OperationReport {
    /// Fully specified report.
    #[must_use]
    pub fn new(
        operation: OperationKind,
        applicability: SemanticApplicability,
        readiness: Option<OperationReadiness>,
        coordinate: Option<String>,
        blockers: Vec<BlockedOperation>,
        unmet_obligations: Vec<ObligationRecord>,
        preserved_layers: Vec<SemanticLayer>,
        invalidated_layers: Vec<SemanticLayer>,
        next_actions: Vec<NextAction>,
        neighbors: Vec<LicensedNeighbor>,
    ) -> (made: Self)
        ensures
            made == (OperationReport {
                operation,
                applicability,
                readiness,
                coordinate,
                blockers,
                unmet_obligations,
                preserved_layers,
                invalidated_layers,
                next_actions,
                neighbors,
            }),
    {
        OperationReport {
            operation,
            applicability,
            readiness,
            coordinate,
            blockers,
            unmet_obligations,
            preserved_layers,
            invalidated_layers,
            next_actions,
            neighbors,
        }
    }

    /// Missing graph or query: no neighbor recommendations.
    #[must_use]
    pub fn binding_missing(operation: OperationKind, field: &str) -> (report: Self)
        ensures
            report.operation == operation,
            report.applicability is Unknown,
            report.readiness == Some(OperationReadiness::BindingMissing),
            report.coordinate is None,
            report.blockers@.len() == 1,
            report.blockers@[0].says(
                "binding."@ + field@,
                "missing required binding: "@ + field@,
                true,
            ),
            report.unmet_obligations@.len() == 0,
            report.preserved_layers@.len() == 0,
            report.invalidated_layers@ == seq![SemanticLayer::Program, SemanticLayer::Support],
            report.next_actions@.len() == 1,
            report.next_actions@[0].id@ == "supply_"@ + field@,
            report.next_actions@[0].description@ == "supply "@ + field@
                + " before requesting licensed neighbors"@,
            report.neighbors@.len() == 0,
    {
        let action = NextAction::new(
            "supply_".to_owned().concat(field),
            "supply ".to_owned().concat(field).concat(" before requesting licensed neighbors"),
        );
        OperationReport::new(
            operation,
            SemanticApplicability::Unknown,
            Some(OperationReadiness::BindingMissing),
            None,
            vec![BlockedOperation::binding(field)],
            Vec::new(),
            Vec::new(),
            vec![SemanticLayer::Program, SemanticLayer::Support],
            vec![action],
            Vec::new(),
        )
    }

    /// Licensed, ready, and without a blocker.
    pub open spec fn executable(self) -> bool {
        &&& self.applicability is Licensed
        &&& self.readiness == Some(OperationReadiness::Executable)
        &&& self.blockers@.len() == 0
    }

    /// Whether this report licenses execution of `operation`.
    #[must_use]
    pub fn is_executable(&self) -> (yes: bool)
        ensures
            yes == self.executable(),
    {
        let ready = match self.readiness {
            Some(OperationReadiness::Executable) => true,
            _ => false,
        };
        self.applicability == SemanticApplicability::Licensed && ready && self.blockers.len() == 0
    }

    /// First stable blocker id, when blocked.
    #[must_use]
    pub fn primary_blocker_id(&self) -> (id: Option<&str>)
        ensures
            match id {
                Some(text) => self.blockers@.len() > 0 && text@ == self.blockers@[0].id@,
                None => self.blockers@.len() == 0,
            },
    {
        if self.blockers.len() == 0 {
            None
        } else {
            Some(self.blockers[0].id.as_str())
        }
    }
}

/// A report is executable exactly where the operation is licensed and ready and nothing blocks
/// it: one blocker, or any other readiness, is enough to stop it.
pub proof fn law_nothing_stands_in_the_way_of_executable_operations(report: OperationReport)
    ensures
        report.executable() ==> report.blockers@.len() == 0 && report.applicability
            != SemanticApplicability::Unlicensed && report.applicability
            != SemanticApplicability::Impossible && report.applicability
            != SemanticApplicability::Unknown && report.readiness is Some,
        report.readiness matches Some(readiness) ==> (readiness != OperationReadiness::Executable
            ==> !report.executable()),
        report.applicability == SemanticApplicability::Licensed && report.readiness == Some(
            OperationReadiness::Executable,
        ) && report.blockers@.len() == 0 ==> report.executable(),
{
}

/// What a blocker says determines its texts and its kind.
pub proof fn law_blockers_say_one_thing(
    blocker: BlockedOperation,
    id: Seq<char>,
    reason: Seq<char>,
    scientific: bool,
)
    ensures
        blocker.says(id, reason, scientific) <==> blocker.id@ == id && blocker.reason@ == reason
            && blocker.scientific == scientific,
{
}

} // verus!
