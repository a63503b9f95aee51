//! Portable claim envelope over a compiled contract and one result.
//!
//! A program defines an analysis. A claim records what a particular
//! execution or licensed derivation concludes. Receiving bytes,
//! understanding semantics, verifying dependencies, and being able to
//! execute remain separate states.
//!
//! SPDX-License-Identifier: MIT OR Apache-2.0

use crate::assumption::AssumptionSet;
use crate::identity;
use crate::identity::{ContractIdentities, SemanticDigest};
use crate::level::OrderedFloatBits;
use crate::provenance;
use crate::provenance::{ProvenanceGraph, ProvenanceNode};
use crate::reasoning::{ReasoningView, SlotAvailability};
use crate::text;
use vstd::prelude::*;

pub mod agreement;

verus! {

/// Kind of value a claim carries. Refusals and bounds are first-class.
#[derive(Clone, Copy, Debug, PartialEq, Eq, Hash, Structural)]
pub enum ClaimKind {
    /// Scalar point estimate.
    Point,
    /// Identified-set bounds.
    Bounds,
    /// Probability-weighted mixture.
    Mixture,
    /// Function-valued response.
    Response,
    /// Typed refusal.
    Refusal,
    /// Incomplete contract with explicit obligations.
    Incomplete,
}

impl ClaimKind {
    /// The name as text.
    pub open spec fn name(self) -> Seq<char> {
        match self {
            ClaimKind::Point => "point"@,
            ClaimKind::Bounds => "bounds"@,
            ClaimKind::Mixture => "mixture"@,
            ClaimKind::Response => "response"@,
            ClaimKind::Refusal => "refusal"@,
            ClaimKind::Incomplete => "incomplete"@,
        }
    }

    /// Stable `snake_case` name.
    #[must_use]
    pub fn as_str(self) -> (out: &'static str)
        ensures
            out@ == self.name(),
    {
        match self {
            ClaimKind::Point => "point",
            ClaimKind::Bounds => "bounds",
            ClaimKind::Mixture => "mixture",
            ClaimKind::Response => "response",
            ClaimKind::Refusal => "refusal",
            ClaimKind::Incomplete => "incomplete",
        }
    }

    /// Inverse of [`Self::as_str`]; `None` for any other text.
    #[must_use]
    pub fn from_name(name: &str) -> (found: Option<Self>)
        ensures
            match found {
                Some(x) => x.name() == name@,
                None => forall|x: ClaimKind| #[trigger] x.name() != name@,
            },
    {
        if text::str_eq(name, "point") {
            Some(ClaimKind::Point)
        } else if text::str_eq(name, "bounds") {
            Some(ClaimKind::Bounds)
        } else if text::str_eq(name, "mixture") {
            Some(ClaimKind::Mixture)
        } else if text::str_eq(name, "response") {
            Some(ClaimKind::Response)
        } else if text::str_eq(name, "refusal") {
            Some(ClaimKind::Refusal)
        } else if text::str_eq(name, "incomplete") {
            Some(ClaimKind::Incomplete)
        } else {
            None
        }
    }
}

/// Different variants of [`ClaimKind`] have different names.
pub proof fn law_claim_kind_names_are_distinct(a: ClaimKind, b: ClaimKind)
    requires
        a.name() == b.name(),
    ensures
        a == b,
{
    reveal_strlit("point");
    assert("point"@.len() == 5 && "point"@[0] == 'p');
    reveal_strlit("bounds");
    assert("bounds"@.len() == 6 && "bounds"@[0] == 'b');
    reveal_strlit("mixture");
    assert("mixture"@.len() == 7 && "mixture"@[0] == 'm');
    reveal_strlit("response");
    assert("response"@.len() == 8 && "response"@[0] == 'r');
    reveal_strlit("refusal");
    assert("refusal"@.len() == 7 && "refusal"@[0] == 'r');
    reveal_strlit("incomplete");
    assert("incomplete"@.len() == 10 && "incomplete"@[0] == 'i');
}

/// Status of a requested coordinate relative to a claim.
#[derive(Clone, Copy, Debug, PartialEq, Eq, Hash, Structural)]
pub enum DomainStatus {
    /// Identified at this coordinate.
    Identified,
    /// Empirically supported at this coordinate.
    Supported,
    /// Actually evaluated at this coordinate.
    Evaluated,
    /// Outside the declared domain.
    OutsideScope,
    /// An empirical check at this coordinate ran and failed.
    Contradicted,
    /// Unknown; not a failed support and not an executable guarantee.
    Unknown,
}

impl DomainStatus {
    /// The name as text.
    pub open spec fn name(self) -> Seq<char> {
        match self {
            DomainStatus::Identified => "identified"@,
            DomainStatus::Supported => "supported"@,
            DomainStatus::Evaluated => "evaluated"@,
            DomainStatus::OutsideScope => "outside_scope"@,
            DomainStatus::Contradicted => "contradicted"@,
            DomainStatus::Unknown => "unknown"@,
        }
    }

    /// Stable `snake_case` name.
    #[must_use]
    pub fn as_str(self) -> (out: &'static str)
        ensures
            out@ == self.name(),
    {
        match self {
            DomainStatus::Identified => "identified",
            DomainStatus::Supported => "supported",
            DomainStatus::Evaluated => "evaluated",
            DomainStatus::OutsideScope => "outside_scope",
            DomainStatus::Contradicted => "contradicted",
            DomainStatus::Unknown => "unknown",
        }
    }

    /// Inverse of [`Self::as_str`]; `None` for any other text.
    #[must_use]
    pub fn from_name(name: &str) -> (found: Option<Self>)
        ensures
            match found {
                Some(x) => x.name() == name@,
                None => forall|x: DomainStatus| #[trigger] x.name() != name@,
            },
    {
        if text::str_eq(name, "identified") {
            Some(DomainStatus::Identified)
        } else if text::str_eq(name, "supported") {
            Some(DomainStatus::Supported)
        } else if text::str_eq(name, "evaluated") {
            Some(DomainStatus::Evaluated)
        } else if text::str_eq(name, "outside_scope") {
            Some(DomainStatus::OutsideScope)
        } else if text::str_eq(name, "contradicted") {
            Some(DomainStatus::Contradicted)
        } else if text::str_eq(name, "unknown") {
            Some(DomainStatus::Unknown)
        } else {
            None
        }
    }
}

/// Different variants of [`DomainStatus`] have different names.
pub proof fn law_domain_status_names_are_distinct(a: DomainStatus, b: DomainStatus)
    requires
        a.name() == b.name(),
    ensures
        a == b,
{
    reveal_strlit("identified");
    assert("identified"@.len() == 10 && "identified"@[0] == 'i');
    reveal_strlit("supported");
    assert("supported"@.len() == 9 && "supported"@[0] == 's');
    reveal_strlit("evaluated");
    assert("evaluated"@.len() == 9 && "evaluated"@[0] == 'e');
    reveal_strlit("outside_scope");
    assert("outside_scope"@.len() == 13 && "outside_scope"@[0] == 'o');
    reveal_strlit("contradicted");
    assert("contradicted"@.len() == 12 && "contradicted"@[0] == 'c');
    reveal_strlit("unknown");
    assert("unknown"@.len() == 7 && "unknown"@[0] == 'u');
}

impl DomainStatus {
    /// Whether the status asserts something.
    pub open spec fn positive(self) -> bool {
        self is Identified || self is Supported || self is Evaluated
    }

    /// Whether the status asserts something (identified, supported, evaluated).
    #[must_use]
    pub fn is_positive(self) -> (yes: bool)
        ensures
            yes == self.positive(),
    {
        match self {
            DomainStatus::Identified => true,
            DomainStatus::Supported => true,
            DomainStatus::Evaluated => true,
            _ => false,
        }
    }
}

/// Separate identification, support and evaluation domains.
#[derive(Clone, Copy, Debug, PartialEq, Eq, Structural)]
pub struct ClaimDomains {
    /// Identification domain status.
    pub identification: DomainStatus,
    /// Empirical support domain status.
    pub support: DomainStatus,
    /// Actually evaluated domain status.
    pub evaluated: DomainStatus,
}

impl ClaimDomains {
    /// Construct the three domain statuses.
    #[must_use]
    pub fn new(
        identification: DomainStatus,
        support: DomainStatus,
        evaluated: DomainStatus,
    ) -> (domains: Self)
        ensures
            domains == (ClaimDomains { identification, support, evaluated }),
    {
        ClaimDomains { identification, support, evaluated }
    }
}

/// Versioned claim envelope. Payload encodings live elsewhere.
#[derive(Debug, PartialEq)]
pub struct ClaimEnvelope {
    /// Claim id (content-addressed from the envelope fields).
    pub claim_id: SemanticDigest,
    /// Program, target and inference identities this claim references.
    pub identities: ContractIdentities,
    /// Result kind.
    pub kind: ClaimKind,
    /// Scalar value when [`ClaimKind::Point`]; `None` is explicit absence.
    pub value: Option<OrderedFloatBits>,
    /// Outcome scale or units, when known.
    pub outcome_units: Option<String>,
    /// Four reasoning slots.
    pub reasoning: ReasoningView,
    /// Domain statuses.
    pub domains: ClaimDomains,
    /// Producer or execution lineage digest, when an execution exists.
    pub execution: Option<SemanticDigest>,
    /// Evidence and dependency references (artifact ids, fixture names).
    pub evidence: Vec<String>,
    /// Calibration slot recorded at claim time.
    pub calibration: CalibrationView,
    /// Attested custom-validator evidence.
    pub attested: Vec<AttestedEvidence>,
}

/// Calibration slot projected onto a claim.
#[derive(Debug, PartialEq)]
pub struct CalibrationView {
    /// `calibrated`, `scope_not_assessed` or `unavailable`.
    pub status: String,
    /// Governing coverage record id.
    pub record_id: Option<String>,
    /// Reason code when not calibrated.
    pub reason: Option<String>,
    /// Smallest row count the governing record measured.
    pub scope_n: Option<u64>,
    /// Record dependence label.
    pub scope_dependence: Option<String>,
    /// Commit the governing record was measured at.
    pub calibration_sha: Option<String>,
    /// Largest row count the governing record measured.
    pub scope_n_max: Option<u64>,
    /// Nominal level of the governing record.
    pub nominal: Option<OrderedFloatBits>,
    /// Coverage the governing record observed.
    pub observed: Option<OrderedFloatBits>,
    /// Match key and scope facts the slot was computed from.
    pub basis: Option<CalibrationBasis>,
    /// Slots of further intervals reported beside the primary one.
    pub secondary: Vec<CalibrationView>,
}

impl CalibrationView {
    /// The slot of a claim that was never executed.
    pub open spec fn not_executed(self) -> bool {
        &&& self.status@ == "unavailable"@
        &&& self.record_id is None
        &&& text::text_of(self.reason) == Some("not_executed"@)
        &&& self.scope_n is None
        &&& self.scope_dependence is None
        &&& self.calibration_sha is None
        &&& self.scope_n_max is None
        &&& self.nominal is None
        &&& self.observed is None
        &&& self.basis is None
        &&& self.secondary@.len() == 0
    }
}

impl Default for CalibrationView {
    fn default() -> (view: Self)
        ensures
            view.not_executed(),
    {
        CalibrationView {
            status: "unavailable".to_owned(),
            record_id: None,
            reason: Some("not_executed".to_owned()),
            scope_n: None,
            scope_dependence: None,
            calibration_sha: None,
            scope_n_max: None,
            nominal: None,
            observed: None,
            basis: None,
            secondary: Vec::new(),
        }
    }
}

/// Construction and scope facts of one reported interval: the calibration match
/// key and the execution facts its record's scope is checked against.
#[derive(Clone, Debug, PartialEq)]
pub struct CalibrationBasis {
    /// Support-matrix query axis name.
    pub query: String,
    /// Support-matrix graph axis.
    pub graph_class: String,
    /// `fixed` or `graph_posterior`.
    pub structure: String,
    /// Data modality the execution ran on.
    pub modality: String,
    /// `Frequentist` or `Bayesian`.
    pub inference: String,
    /// Resolved plan estimator; empty when none.
    pub estimator: String,
    /// Interval method name.
    pub interval_method: String,
    /// Analytic standard-error kind; empty when not analytic.
    pub se_kind: String,
    /// Dependence rule.
    pub dependence: String,
    /// Posterior construction; empty for frequentist executions.
    pub posterior: String,
    /// Population, functional, contrast and horizon label.
    pub functional: String,
    /// Nominal level of the reported interval.
    pub level: OrderedFloatBits,
    /// `point` or `partial`.
    pub identification: String,
    /// Data-snapshot rows.
    pub row_count: u64,
    /// Resampling replicates that succeeded.
    pub replicates_ok: Option<u32>,
    /// Posterior draws.
    pub posterior_draws: Option<u32>,
    /// Structural mass that is not identified.
    pub unidentified_mass: OrderedFloatBits,
}

impl CalibrationBasis {
    /// Construct from every field, in declaration order; `key` holds the eleven
    /// texts from the query axis to the functional label.
    #[must_use]
    pub fn new(
        key: &[String; 11],
        level: OrderedFloatBits,
        identification: String,
        row_count: u64,
        replicates_ok: Option<u32>,
        posterior_draws: Option<u32>,
        unidentified_mass: OrderedFloatBits,
    ) -> (basis: Self)
        ensures
            basis == (CalibrationBasis {
                query: key@[0],
                graph_class: key@[1],
                structure: key@[2],
                modality: key@[3],
                inference: key@[4],
                estimator: key@[5],
                interval_method: key@[6],
                se_kind: key@[7],
                dependence: key@[8],
                posterior: key@[9],
                functional: key@[10],
                level,
                identification,
                row_count,
                replicates_ok,
                posterior_draws,
                unidentified_mass,
            }),
    {
        CalibrationBasis {
            query: key[0].clone(),
            graph_class: key[1].clone(),
            structure: key[2].clone(),
            modality: key[3].clone(),
            inference: key[4].clone(),
            estimator: key[5].clone(),
            interval_method: key[6].clone(),
            se_kind: key[7].clone(),
            dependence: key[8].clone(),
            posterior: key[9].clone(),
            functional: key[10].clone(),
            level,
            identification,
            row_count,
            replicates_ok,
            posterior_draws,
            unidentified_mass,
        }
    }
}

/// Caller-attested validator evidence.
#[derive(Clone, Debug, PartialEq)]
pub struct AttestedEvidence {
    /// Validator name.
    pub name: String,
    /// Evidence kind.
    pub kind: String,
    /// Whether the validator passed.
    pub passed: bool,
    /// Refuted effect, when reported.
    pub refuted_ate: Option<OrderedFloatBits>,
    /// Comparison value, when reported.
    pub comparison: Option<OrderedFloatBits>,
    /// Whether the result is informative.
    pub informative: bool,
    /// Failure condition, when reported.
    pub failure_condition: Option<String>,
    /// Whether the receiver can run the validator again.
    pub reverifiable: bool,
}

impl ClaimEnvelope {
    /// Construct a claim envelope, not calibrated and without attested evidence.
    #[must_use]
    pub fn new(
        claim_id: SemanticDigest,
        identities: ContractIdentities,
        kind: ClaimKind,
        value: Option<OrderedFloatBits>,
        outcome_units: Option<String>,
        reasoning: ReasoningView,
        domains: ClaimDomains,
        execution: Option<SemanticDigest>,
        evidence: Vec<String>,
    ) -> (claim: Self)
        ensures
            claim.claim_id == claim_id,
            claim.identities == identities,
            claim.kind == kind,
            claim.value == value,
            claim.outcome_units == outcome_units,
            claim.reasoning == reasoning,
            claim.domains == domains,
            claim.execution == execution,
            claim.evidence == evidence,
            claim.calibration.not_executed(),
            claim.attested@.len() == 0,
    {
        ClaimEnvelope {
            claim_id,
            identities,
            kind,
            value,
            outcome_units,
            reasoning,
            domains,
            execution,
            evidence,
            calibration: CalibrationView::default(),
            attested: Vec::new(),
        }
    }
}

/// Receiving-system acceptance report. Distinct from byte storage.
#[derive(Clone, Debug, PartialEq, Eq)]
pub struct AcceptanceReport {
    /// Whether required semantic features were recognized.
    pub recognized: bool,
    /// Whether referenced identities and sections verified.
    pub verified_references: bool,
    /// Unresolved dependencies.
    pub unresolved: Vec<String>,
    /// Operations the receiver can perform.
    pub supported_operations: Vec<String>,
    /// Why acceptance is restricted or refused.
    pub restriction: Option<String>,
    /// Whether the verified artifact carries a claim over an execution.
    /// A verified program without a claim is not an accepted claim.
    pub claim_present: bool,
}

impl AcceptanceReport {
    /// Construct a receiving-system report; no claim is recorded yet.
    #[must_use]
    pub fn new(
        recognized: bool,
        verified_references: bool,
        unresolved: Vec<String>,
        supported_operations: Vec<String>,
        restriction: Option<String>,
    ) -> (report: Self)
        ensures
            report == (AcceptanceReport {
                recognized,
                verified_references,
                unresolved,
                supported_operations,
                restriction,
                claim_present: false,
            }),
    {
        AcceptanceReport {
            recognized,
            verified_references,
            unresolved,
            supported_operations,
            restriction,
            claim_present: false,
        }
    }

    /// Record whether the artifact carries a claim.
    #[must_use]
    pub fn with_claim(self, present: bool) -> (report: Self)
        ensures
            report == (AcceptanceReport { claim_present: present, ..self }),
    {
        AcceptanceReport { claim_present: present, ..self }
    }

    /// Opaque storage and forwarding without interpretation.
    #[must_use]
    pub fn opaque_storage() -> (report: Self)
        ensures
            !report.recognized,
            !report.verified_references,
            text::texts(report.unresolved@) == seq!["required_semantics"@],
            text::texts(report.supported_operations@) == seq!["store"@, "forward"@],
            text::text_of(report.restriction) == Some("opaque_envelope"@),
            !report.claim_present,
    {
        let report = AcceptanceReport {
            recognized: false,
            verified_references: false,
            unresolved: text::owned(vec!["required_semantics"]),
            supported_operations: text::owned(vec!["store", "forward"]),
            restriction: Some("opaque_envelope".to_owned()),
            claim_present: false,
        };
        assert(text::texts(report.unresolved@) =~= seq!["required_semantics"@]);
        assert(text::texts(report.supported_operations@) =~= seq!["store"@, "forward"@]);
        report
    }

    /// A fully verified program.
    pub open spec fn verified_program(self) -> bool {
        self.recognized && self.verified_references && self.unresolved@.len() == 0
    }

    /// Whether this report accepts the claim as a usable causal claim.
    ///
    /// Requires a verified program that carries a claim.
    #[must_use]
    pub fn accepts_as_claim(&self) -> (yes: bool)
        ensures
            yes == (self.verified_program() && self.claim_present),
    {
        self.accepts_as_verified_program() && self.claim_present
    }

    /// Whether the artifact is a fully verified program, with or without a claim.
    ///
    /// Distinct from storage and forwarding. Old artifacts without a contract
    /// section remain readable but do not pass this check.
    #[must_use]
    pub fn accepts_as_verified_program(&self) -> (yes: bool)
        ensures
            yes == self.verified_program(),
    {
        self.recognized && self.verified_references && self.unresolved.len() == 0
    }
}

/// Handoff and loss receipt. Chained receipts accumulate unresolved losses.
#[derive(Clone, Debug, PartialEq, Eq)]
pub struct HandoffReceipt {
    /// Input claim id. A derivation records its first parent here; the complete
    /// parent set is [`DerivedClaim::parents`].
    pub input: SemanticDigest,
    /// Output claim id, when a claim was produced.
    pub output: Option<SemanticDigest>,
    /// Consumer capability profile id.
    pub consumer: String,
    /// Transformation rule applied.
    pub rule: String,
    /// Fields and sections retained.
    pub retained: Vec<String>,
    /// Fields and sections omitted.
    pub omitted: Vec<String>,
    /// Unresolved references after the handoff.
    pub unresolved: Vec<String>,
    /// Operations no longer available.
    pub unavailable_operations: Vec<String>,
}

impl HandoffReceipt {
    /// Construct a handoff and loss receipt.
    #[must_use]
    pub fn new(
        input: SemanticDigest,
        output: Option<SemanticDigest>,
        consumer: &str,
        rule: &str,
        retained: Vec<String>,
        omitted: Vec<String>,
        unresolved: Vec<String>,
        unavailable_operations: Vec<String>,
    ) -> (receipt: Self)
        ensures
            receipt.input == input,
            receipt.output == output,
            receipt.consumer@ == consumer@,
            receipt.rule@ == rule@,
            receipt.retained == retained,
            receipt.omitted == omitted,
            receipt.unresolved == unresolved,
            receipt.unavailable_operations == unavailable_operations,
    {
        HandoffReceipt {
            input,
            output,
            consumer: consumer.to_owned(),
            rule: rule.to_owned(),
            retained,
            omitted,
            unresolved,
            unavailable_operations,
        }
    }

    /// Lossless exchange: every required field retained, output is the same claim.
    #[must_use]
    pub fn lossless(input: SemanticDigest, consumer: &str) -> (receipt: Self)
        ensures
            receipt.input == input,
            receipt.output == Some(input),
            receipt.consumer@ == consumer@,
            receipt.rule@ == "lossless_exchange"@,
            text::texts(receipt.retained@) == seq!["claim.envelope"@, "identities"@, "reasoning"@, "domains"@],
            text::texts(receipt.omitted@) == Seq::<Seq<char>>::empty(),
            text::texts(receipt.unresolved@) == Seq::<Seq<char>>::empty(),
            text::texts(receipt.unavailable_operations@) == Seq::<Seq<char>>::empty(),
    {
        let receipt = HandoffReceipt::new(
            input,
            Some(input),
            consumer,
            "lossless_exchange",
            text::owned(vec!["claim.envelope", "identities", "reasoning", "domains"]),
            text::owned(Vec::new()),
            text::owned(Vec::new()),
            text::owned(Vec::new()),
        );
        proof {
            assert(text::texts(receipt.retained@) =~= seq!["claim.envelope"@, "identities"@, "reasoning"@, "domains"@]);
            assert(text::texts(receipt.omitted@) =~= Seq::<Seq<char>>::empty());
            assert(text::texts(receipt.unresolved@) =~= Seq::<Seq<char>>::empty());
            assert(text::texts(receipt.unavailable_operations@) =~= Seq::<Seq<char>>::empty());
        }
        receipt
    }

    /// Lossy scalar view: may reference a complete claim, cannot impersonate it.
    #[must_use]
    pub fn lossy_scalar(input: SemanticDigest, consumer: &str) -> (receipt: Self)
        ensures
            receipt.input == input,
            receipt.output == Some(input),
            receipt.consumer@ == consumer@,
            receipt.rule@ == "scalar_view"@,
            text::texts(receipt.retained@) == seq!["value"@, "claim.id"@],
            text::texts(receipt.omitted@) == seq!["unidentified_mass"@, "reasoning"@, "domains"@, "identities"@],
            text::texts(receipt.unresolved@) == Seq::<Seq<char>>::empty(),
            text::texts(receipt.unavailable_operations@) == seq!["accept_as_claim"@, "re_estimate"@],
    {
        let receipt = HandoffReceipt::new(
            input,
            Some(input),
            consumer,
            "scalar_view",
            text::owned(vec!["value", "claim.id"]),
            text::owned(vec!["unidentified_mass", "reasoning", "domains", "identities"]),
            text::owned(Vec::new()),
            text::owned(vec!["accept_as_claim", "re_estimate"]),
        );
        proof {
            assert(text::texts(receipt.retained@) =~= seq!["value"@, "claim.id"@]);
            assert(text::texts(receipt.omitted@) =~= seq!["unidentified_mass"@, "reasoning"@, "domains"@, "identities"@]);
            assert(text::texts(receipt.unresolved@) =~= Seq::<Seq<char>>::empty());
            assert(text::texts(receipt.unavailable_operations@) =~= seq!["accept_as_claim"@, "re_estimate"@]);
        }
        receipt
    }

    /// Opaque storage and forwarding without interpreting required semantics.
    #[must_use]
    pub fn opaque_forward(input: SemanticDigest, consumer: &str) -> (receipt: Self)
        ensures
            receipt.input == input,
            receipt.output == Some(input),
            receipt.consumer@ == consumer@,
            receipt.rule@ == "opaque_forward"@,
            text::texts(receipt.retained@) == seq!["bytes"@],
            text::texts(receipt.omitted@) == seq!["required_semantics"@],
            text::texts(receipt.unresolved@) == seq!["required_semantics"@],
            text::texts(receipt.unavailable_operations@) == seq!["accept_as_claim"@, "inspect_claim"@, "verify_contract"@],
    {
        let receipt = HandoffReceipt::new(
            input,
            Some(input),
            consumer,
            "opaque_forward",
            text::owned(vec!["bytes"]),
            text::owned(vec!["required_semantics"]),
            text::owned(vec!["required_semantics"]),
            text::owned(vec!["accept_as_claim", "inspect_claim", "verify_contract"]),
        );
        proof {
            assert(text::texts(receipt.retained@) =~= seq!["bytes"@]);
            assert(text::texts(receipt.omitted@) =~= seq!["required_semantics"@]);
            assert(text::texts(receipt.unresolved@) =~= seq!["required_semantics"@]);
            assert(text::texts(receipt.unavailable_operations@) =~= seq!["accept_as_claim"@, "inspect_claim"@, "verify_contract"@]);
        }
        receipt
    }

    /// The output is the input claim with no required meaning omitted.
    pub open spec fn equivalent(self) -> bool {
        &&& self.omitted@.len() == 0
        &&& self.unresolved@.len() == 0
        &&& self.output == Some(self.input)
    }

    /// Whether the output is the same claim with no required meaning omitted.
    ///
    /// A derived claim has a new id and is never equivalent to its parent.
    #[must_use]
    pub fn equivalent_claim(&self) -> (yes: bool)
        ensures
            yes == self.equivalent(),
    {
        let same = match self.output {
            Some(output) => output == self.input,
            None => false,
        };
        self.omitted.len() == 0 && self.unresolved.len() == 0 && same
    }

    /// What chaining `self` with `next` yields.
    pub open spec fn chains(self, next: Self, chained: Self) -> bool {
        &&& chained.input == self.input
        &&& chained.output == next.output
        &&& chained.consumer@ == next.consumer@
        &&& chained.rule@ == next.rule@
        &&& chained.retained@ == next.retained@
        &&& text::texts(chained.omitted@) == text::merged_unique(
            text::texts(self.omitted@),
            text::texts(next.omitted@),
        )
        &&& text::texts(chained.unresolved@) == text::merged_unique(
            text::texts(self.unresolved@),
            text::texts(next.unresolved@),
        )
        &&& chained.unavailable_operations@ == next.unavailable_operations@
    }

    /// Accumulate unresolved losses from `self` then `next`.
    #[must_use]
    pub fn chain(&self, next: &Self) -> (chained: Self)
        ensures
            self.chains(*next, chained),
    {
        HandoffReceipt {
            input: self.input,
            output: next.output,
            consumer: next.consumer.clone(),
            rule: next.rule.clone(),
            retained: text::copied(&next.retained),
            omitted: text::merge_unique(&self.omitted, &next.omitted),
            unresolved: text::merge_unique(&self.unresolved, &next.unresolved),
            unavailable_operations: text::copied(&next.unavailable_operations),
        }
    }
}

/// Chaining forgets no loss: whatever either receipt omits or leaves unresolved,
/// the chained receipt does too, and once something is lost no later handoff
/// makes the result equivalent again.
pub proof fn law_chained_receipts_accumulate_losses(
    first: HandoffReceipt,
    next: HandoffReceipt,
    chained: HandoffReceipt,
)
    requires
        first.chains(next, chained),
    ensures
        forall|t: Seq<char>| #[trigger]
            text::texts(chained.omitted@).contains(t) <==> text::texts(first.omitted@).contains(t)
                || text::texts(next.omitted@).contains(t),
        forall|t: Seq<char>| #[trigger]
            text::texts(chained.unresolved@).contains(t) <==> text::texts(
                first.unresolved@,
            ).contains(t) || text::texts(next.unresolved@).contains(t),
        first.omitted@.len() > 0 || first.unresolved@.len() > 0 || next.omitted@.len() > 0
            || next.unresolved@.len() > 0 ==> !chained.equivalent(),
{
    text::lemma_merged_unique_keeps(text::texts(first.omitted@), text::texts(next.omitted@));
    text::lemma_merged_unique_keeps(text::texts(first.unresolved@), text::texts(next.unresolved@));
    assert(text::texts(chained.omitted@).len() == chained.omitted@.len());
    assert(text::texts(chained.unresolved@).len() == chained.unresolved@.len());
    if next.omitted@.len() > 0 {
        let t = text::texts(next.omitted@)[0];
        assert(text::texts(next.omitted@).contains(t));
        assert(text::texts(chained.omitted@).contains(t));
    }
    if next.unresolved@.len() > 0 {
        let t = text::texts(next.unresolved@)[0];
        assert(text::texts(next.unresolved@).contains(t));
        assert(text::texts(chained.unresolved@).contains(t));
    }
}

/// Which of the three claim domains is being asked about.
#[derive(Clone, Copy, Debug, PartialEq, Eq, Hash, Structural)]
pub enum ClaimDomainAxis {
    /// Identification domain.
    Identification,
    /// Empirical support domain.
    Support,
    /// Actually evaluated domain.
    Evaluated,
}

impl ClaimDomainAxis {
    /// The name as text.
    pub open spec fn name(self) -> Seq<char> {
        match self {
            ClaimDomainAxis::Identification => "identification"@,
            ClaimDomainAxis::Support => "support"@,
            ClaimDomainAxis::Evaluated => "evaluated"@,
        }
    }

    /// Stable `snake_case` name.
    #[must_use]
    pub fn as_str(self) -> (out: &'static str)
        ensures
            out@ == self.name(),
    {
        match self {
            ClaimDomainAxis::Identification => "identification",
            ClaimDomainAxis::Support => "support",
            ClaimDomainAxis::Evaluated => "evaluated",
        }
    }
}

/// Different variants of [`ClaimDomainAxis`] have different names.
pub proof fn law_claim_domain_axis_names_are_distinct(a: ClaimDomainAxis, b: ClaimDomainAxis)
    requires
        a.name() == b.name(),
    ensures
        a == b,
{
    reveal_strlit("identification");
    assert("identification"@.len() == 14);
    reveal_strlit("support");
    assert("support"@.len() == 7);
    reveal_strlit("evaluated");
    assert("evaluated"@.len() == 9);
}

/// Licensed composition that may produce a derived claim. Comparison is not synthesis.
#[derive(Clone, Copy, Debug, PartialEq, Eq, Hash, Structural)]
pub enum ClaimOperation {
    /// Expose differences without pooling.
    Compare,
    /// Contrast requiring a licensed joint uncertainty contract.
    Contrast,
    /// Aggregate requiring a licensed joint inference contract.
    Aggregate,
    /// Retarget within an existing certified derivation.
    Retarget,
    /// Pool or synthesize. Unlicensed; not transport.
    Pool,
}

impl ClaimOperation {
    /// The name as text.
    pub open spec fn name(self) -> Seq<char> {
        match self {
            ClaimOperation::Compare => "compare"@,
            ClaimOperation::Contrast => "contrast"@,
            ClaimOperation::Aggregate => "aggregate"@,
            ClaimOperation::Retarget => "retarget"@,
            ClaimOperation::Pool => "pool"@,
        }
    }

    /// Stable `snake_case` name.
    #[must_use]
    pub fn as_str(self) -> (out: &'static str)
        ensures
            out@ == self.name(),
    {
        match self {
            ClaimOperation::Compare => "compare",
            ClaimOperation::Contrast => "contrast",
            ClaimOperation::Aggregate => "aggregate",
            ClaimOperation::Retarget => "retarget",
            ClaimOperation::Pool => "pool",
        }
    }
}

/// Different variants of [`ClaimOperation`] have different names.
pub proof fn law_claim_operation_names_are_distinct(a: ClaimOperation, b: ClaimOperation)
    requires
        a.name() == b.name(),
    ensures
        a == b,
{
    reveal_strlit("compare");
    assert("compare"@.len() == 7 && "compare"@[0] == 'c');
    reveal_strlit("contrast");
    assert("contrast"@.len() == 8 && "contrast"@[0] == 'c');
    reveal_strlit("aggregate");
    assert("aggregate"@.len() == 9 && "aggregate"@[0] == 'a');
    reveal_strlit("retarget");
    assert("retarget"@.len() == 8 && "retarget"@[0] == 'r');
    reveal_strlit("pool");
    assert("pool"@.len() == 4 && "pool"@[0] == 'p');
}

impl ClaimOperation {
    /// Whether this operation synthesizes a new licensed claim.
    #[must_use]
    pub fn synthesizes(self) -> (yes: bool)
        ensures
            yes == (self is Contrast || self is Aggregate || self is Pool),
    {
        match self {
            ClaimOperation::Contrast => true,
            ClaimOperation::Aggregate => true,
            ClaimOperation::Pool => true,
            _ => false,
        }
    }
}

/// Compatibility report for one claim operation. Matching names are insufficient.
#[derive(Clone, Debug, PartialEq, Eq)]
pub struct ClaimCompatibility {
    /// Requested operation.
    pub operation: ClaimOperation,
    /// Whether the operation is licensed for these parents.
    pub compatible: bool,
    /// Unresolved obligations (alignment, mapping, identity disagreement).
    pub unresolved: Vec<String>,
    /// Why the operation is restricted or refused.
    pub restriction: Option<String>,
}

/// Mathematical form of [`ClaimCompatibility`].
#[verifier::ext_equal]
pub struct ClaimCompatibilityView {
    /// Requested operation.
    pub operation: ClaimOperation,
    /// Whether the operation is licensed.
    pub compatible: bool,
    /// Unresolved obligations.
    pub unresolved: Seq<Seq<char>>,
    /// Restriction.
    pub restriction: Option<Seq<char>>,
}

impl View for ClaimCompatibility {
    type V = ClaimCompatibilityView;

    open spec fn view(&self) -> ClaimCompatibilityView {
        ClaimCompatibilityView {
            operation: self.operation,
            compatible: self.compatible,
            unresolved: text::texts(self.unresolved@),
            restriction: text::text_of(self.restriction),
        }
    }
}

impl ClaimCompatibility {
    /// Construct a compatibility report.
    #[must_use]
    pub fn new(
        operation: ClaimOperation,
        compatible: bool,
        unresolved: Vec<String>,
        restriction: Option<String>,
    ) -> (report: Self)
        ensures
            report == (ClaimCompatibility { operation, compatible, unresolved, restriction }),
    {
        ClaimCompatibility { operation, compatible, unresolved, restriction }
    }
}

/// Declared dependence between evidence sources. Unknown is explicit.
#[derive(Clone, Copy, Debug, PartialEq, Eq, Hash, Structural)]
pub enum EvidenceDependence {
    /// Distinct snapshots with a declared independence.
    Independent,
    /// Shared snapshot, units, draws, or forwarded duplicate.
    Shared,
    /// Dependence not declared. Not an independence default.
    Unknown,
}

impl EvidenceDependence {
    /// The name as text.
    pub open spec fn name(self) -> Seq<char> {
        match self {
            EvidenceDependence::Independent => "independent"@,
            EvidenceDependence::Shared => "shared"@,
            EvidenceDependence::Unknown => "unknown"@,
        }
    }

    /// Stable `snake_case` name.
    #[must_use]
    pub fn as_str(self) -> (out: &'static str)
        ensures
            out@ == self.name(),
    {
        match self {
            EvidenceDependence::Independent => "independent",
            EvidenceDependence::Shared => "shared",
            EvidenceDependence::Unknown => "unknown",
        }
    }
}

/// Different variants of [`EvidenceDependence`] have different names.
pub proof fn law_evidence_dependence_names_are_distinct(a: EvidenceDependence, b: EvidenceDependence)
    requires
        a.name() == b.name(),
    ensures
        a == b,
{
    reveal_strlit("independent");
    assert("independent"@.len() == 11);
    reveal_strlit("shared");
    assert("shared"@.len() == 6);
    reveal_strlit("unknown");
    assert("unknown"@.len() == 7);
}

/// Shared-evidence identity without raw-data disclosure.
#[derive(Debug, PartialEq, Eq)]
pub struct SharedEvidenceRef {
    /// Data-snapshot identity.
    pub snapshot: SemanticDigest,
    /// Identification and graph-origin identity.
    pub graph_origin: SemanticDigest,
    /// Prior-origin label, when a mapping exists.
    pub prior_origin: Option<String>,
    /// Joint-draw, covariance or replicate alignment, when declared.
    pub alignment: Option<String>,
    /// Dependence declaration. Forwarding one claim twice is [`EvidenceDependence::Shared`].
    pub dependence: EvidenceDependence,
}

impl Clone for SharedEvidenceRef {
    fn clone(&self) -> (copy: Self)
        ensures
            copy == *self,
    {
        SharedEvidenceRef {
            snapshot: self.snapshot,
            graph_origin: self.graph_origin,
            prior_origin: text::copied_option(&self.prior_origin),
            alignment: text::copied_option(&self.alignment),
            dependence: self.dependence,
        }
    }
}

/// Whether a text names an alignment by itself.
pub open spec fn is_alignment_word(t: Seq<char>) -> bool {
    t == "joint_draws"@ || t == "covariance"@ || t == "replicate_ids"@
}

fn alignment_word(s: &str) -> (yes: bool)
    ensures
        yes == is_alignment_word(s@),
{
    text::str_eq(s, "joint_draws") || text::str_eq(s, "covariance") || text::str_eq(
        s,
        "replicate_ids",
    )
}

/// Whether an evidence item declares a prior origin.
pub open spec fn declares_prior(t: Seq<char>) -> bool {
    "prior:"@.is_prefix_of(t)
}

/// Whether an evidence item declares an alignment.
pub open spec fn declares_alignment(t: Seq<char>) -> bool {
    "alignment:"@.is_prefix_of(t) || is_alignment_word(t)
}

/// First item of a list that satisfies `pred`.
pub open spec fn first_where(
    list: Seq<Seq<char>>,
    pred: spec_fn(Seq<char>) -> bool,
) -> Option<Seq<char>>
    decreases list.len(),
{
    if list.len() == 0 {
        None
    } else if pred(list[0]) {
        Some(list[0])
    } else {
        first_where(list.skip(1), pred)
    }
}

impl SharedEvidenceRef {
    /// Project evidence identity from a claim's existing identity layers.
    #[must_use]
    pub fn from_claim(claim: &ClaimEnvelope) -> (projected: Self)
        ensures
            projected.snapshot == claim.identities.data_snapshot,
            projected.graph_origin == claim.identities.identification,
            text::text_of(projected.prior_origin) == first_where(
                text::texts(claim.evidence@),
                |t: Seq<char>| declares_prior(t),
            ),
            text::text_of(projected.alignment) == declared_alignment(*claim),
            projected.dependence is Unknown,
    {
        SharedEvidenceRef {
            snapshot: claim.identities.data_snapshot,
            graph_origin: claim.identities.identification,
            prior_origin: find_prior(&claim.evidence),
            alignment: find_alignment(&claim.evidence),
            dependence: EvidenceDependence::Unknown,
        }
    }

    /// Same snapshot is one source. Matching identification is same premises, not same data.
    #[must_use]
    pub fn same_source(&self, other: &Self) -> (yes: bool)
        ensures
            yes == (self.snapshot == other.snapshot),
    {
        self.snapshot == other.snapshot
    }

    /// Forwarding the same claim id is a shared source, never independence.
    #[must_use]
    pub fn forwarded_duplicate(left: SemanticDigest, right: SemanticDigest) -> (yes: bool)
        ensures
            yes == (left == right),
    {
        left == right
    }
}

fn find_prior(evidence: &Vec<String>) -> (found: Option<String>)
    ensures
        text::text_of(found) == first_where(
            text::texts(evidence@),
            |t: Seq<char>| declares_prior(t),
        ),
{
    let ghost all = text::texts(evidence@);
    let ghost pred = |t: Seq<char>| declares_prior(t);
    let mut i: usize = 0;
    assert(all.skip(0) =~= all);
    while i < evidence.len()
        invariant
            0 <= i <= evidence.len(),
            all == text::texts(evidence@),
            pred == (|t: Seq<char>| declares_prior(t)),
            first_where(all, pred) == first_where(all.skip(i as int), pred),
        decreases evidence.len() - i,
    {
        assert(all.skip(i as int)[0] == evidence@[i as int]@);
        assert(all.skip(i as int).skip(1) =~= all.skip(i + 1));
        if text::starts_with(evidence[i].as_str(), "prior:") {
            return Some(evidence[i].clone());
        }
        i = i + 1;
    }
    None
}

fn find_alignment(evidence: &Vec<String>) -> (found: Option<String>)
    ensures
        text::text_of(found) == first_where(
            text::texts(evidence@),
            |t: Seq<char>| declares_alignment(t),
        ),
{
    let ghost all = text::texts(evidence@);
    let ghost pred = |t: Seq<char>| declares_alignment(t);
    let mut i: usize = 0;
    assert(all.skip(0) =~= all);
    while i < evidence.len()
        invariant
            0 <= i <= evidence.len(),
            all == text::texts(evidence@),
            pred == (|t: Seq<char>| declares_alignment(t)),
            first_where(all, pred) == first_where(all.skip(i as int), pred),
        decreases evidence.len() - i,
    {
        assert(all.skip(i as int)[0] == evidence@[i as int]@);
        assert(all.skip(i as int).skip(1) =~= all.skip(i + 1));
        if text::starts_with(evidence[i].as_str(), "alignment:") || alignment_word(
            evidence[i].as_str(),
        ) {
            return Some(evidence[i].clone());
        }
        i = i + 1;
    }
    None
}

/// Freshness as of a receiver's last verified snapshot. Timestamps do not license.
#[derive(Clone, Debug, PartialEq, Eq)]
pub struct ClaimFreshness {
    /// The claim was valid for the snapshot that produced it.
    pub historically_valid: bool,
    /// `Some` when the receiver has a current snapshot; `None` when offline.
    pub currently_applicable: Option<bool>,
    /// Local runtime readiness. Distinct from scientific applicability.
    pub locally_ready: bool,
    /// Replacement claim, when recorded.
    pub superseded_by: Option<SemanticDigest>,
    /// Explicit withdrawal. Original claim is preserved.
    pub withdrawn: bool,
    /// Snapshot the receiver last verified. Offline reports this, not "current".
    pub as_of_snapshot: Option<SemanticDigest>,
}

impl ClaimFreshness {
    /// The freshness of a claim under versioned dependencies.
    pub open spec fn fresh(
        claim: ClaimEnvelope,
        last_verified_snapshot: Option<SemanticDigest>,
        current_snapshot: Option<SemanticDigest>,
        superseded_by: Option<SemanticDigest>,
        withdrawn: bool,
        locally_ready: bool,
    ) -> ClaimFreshness {
        ClaimFreshness {
            historically_valid: true,
            currently_applicable: match current_snapshot {
                Some(snapshot) => Some(
                    snapshot == claim.identities.data_snapshot && superseded_by is None
                        && !withdrawn,
                ),
                None => None,
            },
            locally_ready,
            superseded_by,
            withdrawn,
            as_of_snapshot: last_verified_snapshot,
        }
    }

    /// Bind freshness to versioned dependencies. No timestamp argument.
    #[must_use]
    pub fn of(
        claim: &ClaimEnvelope,
        last_verified_snapshot: Option<SemanticDigest>,
        current_snapshot: Option<SemanticDigest>,
        superseded_by: Option<SemanticDigest>,
        withdrawn: bool,
        locally_ready: bool,
    ) -> (freshness: Self)
        ensures
            freshness == ClaimFreshness::fresh(
                *claim,
                last_verified_snapshot,
                current_snapshot,
                superseded_by,
                withdrawn,
                locally_ready,
            ),
    {
        let currently_applicable = match current_snapshot {
            Some(snapshot) => Some(
                snapshot == claim.identities.data_snapshot && superseded_by.is_none() && !withdrawn,
            ),
            None => None,
        };
        ClaimFreshness {
            historically_valid: true,
            currently_applicable,
            locally_ready,
            superseded_by,
            withdrawn,
            as_of_snapshot: last_verified_snapshot,
        }
    }
}

/// Consumer capability profile. Storage and forwarding are not claim acceptance.
#[derive(Clone, Debug, PartialEq, Eq)]
pub struct ConsumerProfile {
    /// Stable profile id (`full`, `restricted`, `forwarding`).
    pub id: String,
    /// Semantic features this consumer can interpret.
    pub features: Vec<String>,
}

impl ConsumerProfile {
    /// Sender or full receiver: current contract and every claim kind.
    #[must_use]
    pub fn full() -> (profile: Self)
        ensures
            profile.id@ == "full"@,
            text::texts(profile.features@) == seq!["store"@, "forward"@, "read_body"@, "verify_contract"@, "inspect_claim"@, "contract.v1"@, "claim.point"@, "claim.bounds"@, "claim.mixture"@, "claim.response"@, "claim.refusal"@, "claim.incomplete"@, "reasoning.four_slots"@],
    {
        let profile = ConsumerProfile::with_features("full", vec!["store", "forward", "read_body", "verify_contract", "inspect_claim", "contract.v1", "claim.point", "claim.bounds", "claim.mixture", "claim.response", "claim.refusal", "claim.incomplete", "reasoning.four_slots"]);
        assert(text::texts(profile.features@) =~= seq!["store"@, "forward"@, "read_body"@, "verify_contract"@, "inspect_claim"@, "contract.v1"@, "claim.point"@, "claim.bounds"@, "claim.mixture"@, "claim.response"@, "claim.refusal"@, "claim.incomplete"@, "reasoning.four_slots"@]);
        profile
    }

    /// Restricted consumer: point claims only. Unknown required features refuse acceptance.
    #[must_use]
    pub fn restricted() -> (profile: Self)
        ensures
            profile.id@ == "restricted"@,
            text::texts(profile.features@) == seq!["store"@, "forward"@, "read_body"@, "verify_contract"@, "inspect_claim"@, "contract.v1"@, "claim.point"@, "reasoning.four_slots"@],
    {
        let profile = ConsumerProfile::with_features("restricted", vec!["store", "forward", "read_body", "verify_contract", "inspect_claim", "contract.v1", "claim.point", "reasoning.four_slots"]);
        assert(text::texts(profile.features@) =~= seq!["store"@, "forward"@, "read_body"@, "verify_contract"@, "inspect_claim"@, "contract.v1"@, "claim.point"@, "reasoning.four_slots"@]);
        profile
    }

    /// Forwarding consumer: byte storage only. Cannot accept a usable claim.
    #[must_use]
    pub fn forwarding() -> (profile: Self)
        ensures
            profile.id@ == "forwarding"@,
            text::texts(profile.features@) == seq!["store"@, "forward"@],
    {
        let profile = ConsumerProfile::with_features("forwarding", vec!["store", "forward"]);
        assert(text::texts(profile.features@) =~= seq!["store"@, "forward"@]);
        profile
    }

    fn with_features(id: &str, features: Vec<&str>) -> (profile: Self)
        ensures
            profile.id@ == id@,
            text::texts(profile.features@) == features@.map_values(|s: &str| s@),
    {
        ConsumerProfile { id: id.to_owned(), features: text::owned(features) }
    }

    /// Whether this profile interprets `feature`.
    #[must_use]
    pub fn understands(&self, feature: &str) -> (yes: bool)
        ensures
            yes == text::texts(self.features@).contains(feature@),
    {
        text::contains_text(&self.features, feature)
    }
}

/// Host operation names.
#[derive(Clone, Copy, Debug, PartialEq, Eq, Hash, Structural)]
pub enum HostOperation {
    /// Cheap inspect. Does not identify.
    Inspect,
    /// Accept or verify a claim from bytes.
    AcceptClaim,
    /// Ask whether a coordinate is identified, supported or evaluated.
    CheckDomain,
    /// Compare, contrast, aggregate or retarget compatibility.
    CheckCompatibility,
    /// Transformation preview.
    PreviewTransform,
    /// Checked transformation apply.
    ApplyTransform,
    /// Capability and blocker report.
    ExplainBlockers,
    /// Execute against a bound snapshot.
    Execute,
    /// Export a contracted artifact.
    Export,
}

impl HostOperation {
    /// The name as text.
    pub open spec fn name(self) -> Seq<char> {
        match self {
            HostOperation::Inspect => "inspect"@,
            HostOperation::AcceptClaim => "accept_claim"@,
            HostOperation::CheckDomain => "check_domain"@,
            HostOperation::CheckCompatibility => "check_compatibility"@,
            HostOperation::PreviewTransform => "preview_transform"@,
            HostOperation::ApplyTransform => "apply_transform"@,
            HostOperation::ExplainBlockers => "explain_blockers"@,
            HostOperation::Execute => "execute"@,
            HostOperation::Export => "export"@,
        }
    }

    /// Stable `snake_case` name.
    #[must_use]
    pub fn as_str(self) -> (out: &'static str)
        ensures
            out@ == self.name(),
    {
        match self {
            HostOperation::Inspect => "inspect",
            HostOperation::AcceptClaim => "accept_claim",
            HostOperation::CheckDomain => "check_domain",
            HostOperation::CheckCompatibility => "check_compatibility",
            HostOperation::PreviewTransform => "preview_transform",
            HostOperation::ApplyTransform => "apply_transform",
            HostOperation::ExplainBlockers => "explain_blockers",
            HostOperation::Execute => "execute",
            HostOperation::Export => "export",
        }
    }
}

/// Different variants of [`HostOperation`] have different names.
pub proof fn law_host_operation_names_are_distinct(a: HostOperation, b: HostOperation)
    requires
        a.name() == b.name(),
    ensures
        a == b,
{
    reveal_strlit("inspect");
    assert("inspect"@.len() == 7 && "inspect"@[0] == 'i');
    reveal_strlit("accept_claim");
    assert("accept_claim"@.len() == 12 && "accept_claim"@[0] == 'a');
    reveal_strlit("check_domain");
    assert("check_domain"@.len() == 12 && "check_domain"@[0] == 'c');
    reveal_strlit("check_compatibility");
    assert("check_compatibility"@.len() == 19 && "check_compatibility"@[0] == 'c');
    reveal_strlit("preview_transform");
    assert("preview_transform"@.len() == 17 && "preview_transform"@[0] == 'p');
    reveal_strlit("apply_transform");
    assert("apply_transform"@.len() == 15 && "apply_transform"@[0] == 'a');
    reveal_strlit("explain_blockers");
    assert("explain_blockers"@.len() == 16 && "explain_blockers"@[0] == 'e');
    reveal_strlit("execute");
    assert("execute"@.len() == 7 && "execute"@[0] == 'e');
    reveal_strlit("export");
    assert("export"@.len() == 6 && "export"@[0] == 'e');
}

/// Derived claim recorded on a [`ProvenanceGraph`].
#[derive(Debug, PartialEq)]
pub struct DerivedClaim {
    /// Derived envelope. Parents are not retroactively strengthened.
    pub claim: ClaimEnvelope,
    /// Parent claim ids.
    pub parents: Vec<SemanticDigest>,
    /// Transformation or operation identity.
    pub operation: ClaimOperation,
    /// Ancestry. Unique ids, no cycles; unresolved external parents are recorded.
    pub provenance: ProvenanceGraph,
    /// Derivation receipt.
    pub receipt: HandoffReceipt,
}

/// Outcome of a claimed composition. Unlicensed synthesis keeps parents intact.
#[derive(Debug, PartialEq)]
pub enum DerivedClaimOutcome {
    /// Licensed derivation with parent receipts.
    Derived(Box<DerivedClaim>),
    /// Comparison-only: differences without a pooled claim.
    Comparison(ClaimCompatibility),
    /// Typed refusal. Parent claim ids are unchanged.
    Refused {
        /// Why the composition is refused.
        restriction: String,
        /// Parent claim ids, intact.
        parents: Vec<SemanticDigest>,
        /// Compatibility report when one was computed.
        compatibility: Option<ClaimCompatibility>,
    },
}

impl ClaimEnvelope {
    /// Status on one axis.
    pub open spec fn status(self, axis: ClaimDomainAxis) -> DomainStatus {
        match axis {
            ClaimDomainAxis::Identification => self.domains.identification,
            ClaimDomainAxis::Support => self.domains.support,
            ClaimDomainAxis::Evaluated => self.domains.evaluated,
        }
    }

    /// Status of one domain axis.
    #[must_use]
    pub fn domain(&self, axis: ClaimDomainAxis) -> (status: DomainStatus)
        ensures
            status == self.status(axis),
    {
        match axis {
            ClaimDomainAxis::Identification => self.domains.identification,
            ClaimDomainAxis::Support => self.domains.support,
            ClaimDomainAxis::Evaluated => self.domains.evaluated,
        }
    }

    /// Shared-evidence identity projected from existing layers.
    #[must_use]
    pub fn evidence_ref(&self) -> (projected: SharedEvidenceRef)
        ensures
            projected.snapshot == self.identities.data_snapshot,
            projected.graph_origin == self.identities.identification,
            text::text_of(projected.prior_origin) == first_where(
                text::texts(self.evidence@),
                |t: Seq<char>| declares_prior(t),
            ),
            text::text_of(projected.alignment) == declared_alignment(*self),
            projected.dependence is Unknown,
    {
        SharedEvidenceRef::from_claim(self)
    }

    /// Freshness as of the receiver's last verified snapshot.
    #[must_use]
    pub fn freshness(
        &self,
        last_verified_snapshot: Option<SemanticDigest>,
        current_snapshot: Option<SemanticDigest>,
        superseded_by: Option<SemanticDigest>,
        withdrawn: bool,
        locally_ready: bool,
    ) -> (freshness: ClaimFreshness)
        ensures
            freshness == ClaimFreshness::fresh(
                *self,
                last_verified_snapshot,
                current_snapshot,
                superseded_by,
                withdrawn,
                locally_ready,
            ),
    {
        ClaimFreshness::of(
            self,
            last_verified_snapshot,
            current_snapshot,
            superseded_by,
            withdrawn,
            locally_ready,
        )
    }

    /// Compatibility of `self` and `other` for `operation`.
    #[must_use]
    pub fn compatibility(&self, other: &Self, operation: ClaimOperation) -> (report:
        ClaimCompatibility)
        ensures
            report@ == compatibility_of(seq![self, other], operation, None),
    {
        let parents: Vec<&ClaimEnvelope> = vec![self, other];
        assert(parents@ =~= seq![self, other]);
        claim_compatibility(&parents, operation, None)
    }

    /// Identified mass reported by the identification slot, if there is one.
    pub open spec fn mass(self) -> Option<OrderedFloatBits> {
        match self.reasoning.identification {
            SlotAvailability::Available(slot) => Some(slot.identified_mass),
            SlotAvailability::Unavailable { .. } => None,
        }
    }
}

/// Alignment declared among a claim's evidence, if any.
pub open spec fn declared_alignment(claim: ClaimEnvelope) -> Option<Seq<char>> {
    first_where(text::texts(claim.evidence@), |t: Seq<char>| declares_alignment(t))
}

/// The alignment word in a declaration, with or without its prefix.
pub open spec fn alignment_token(value: Seq<char>) -> Option<Seq<char>> {
    let stripped = if "alignment:"@.is_prefix_of(value) {
        value.skip("alignment:"@.len() as int)
    } else {
        value
    };
    if is_alignment_word(stripped) {
        Some(stripped)
    } else {
        None
    }
}

/// The alignment word of an optional declaration.
pub open spec fn token_of(value: Option<Seq<char>>) -> Option<Seq<char>> {
    match value {
        Some(t) => alignment_token(t),
        None => None,
    }
}

/// The alignment word of a claim.
pub open spec fn claim_token(claim: ClaimEnvelope) -> Option<Seq<char>> {
    token_of(declared_alignment(claim))
}

/// First alignment word among the parents.
pub open spec fn first_token(parents: Seq<&ClaimEnvelope>) -> Option<Seq<char>>
    decreases parents.len(),
{
    if parents.len() == 0 {
        None
    } else if claim_token(*parents[0]) is Some {
        claim_token(*parents[0])
    } else {
        first_token(parents.skip(1))
    }
}

/// Every parent carries the alignment that is asked for, or, where none is asked
/// for, the first that a parent carries.
pub open spec fn alignment_licensed(
    parents: Seq<&ClaimEnvelope>,
    alignment: Option<Seq<char>>,
) -> bool {
    let expected = if token_of(alignment) is Some {
        token_of(alignment)
    } else {
        first_token(parents)
    };
    &&& expected is Some
    &&& forall|i: int| 0 <= i < parents.len() ==> claim_token(*#[trigger] parents[i]) == expected
}

/// Disagreements of the first `n` parents with the first one, in parent order.
pub open spec fn disagreements(parents: Seq<&ClaimEnvelope>, n: int) -> Seq<Seq<char>>
    decreases n,
{
    if n <= 1 {
        Seq::empty()
    } else {
        let before = disagreements(parents, n - 1);
        let observed = if parents[n - 1].identities.observation
            != parents[0].identities.observation {
            before.push("observation"@)
        } else {
            before
        };
        if text::text_of(parents[n - 1].outcome_units) != text::text_of(parents[0].outcome_units) {
            observed.push("outcome_units"@)
        } else {
            observed
        }
    }
}

/// Every parent rests on one and the same identification product.
pub open spec fn shares_product(parents: Seq<&ClaimEnvelope>) -> bool {
    &&& parents[0].identities.identification_product is Some
    &&& forall|i: int|
        0 <= i < parents.len() ==> (#[trigger] parents[i]).identities.identification_product
            == parents[0].identities.identification_product
}

/// Compatibility of a parent set for an operation.
pub open spec fn compatibility_of(
    parents: Seq<&ClaimEnvelope>,
    operation: ClaimOperation,
    alignment: Option<Seq<char>>,
) -> ClaimCompatibilityView {
    let refused = |unresolved: Seq<char>, restriction: Seq<char>|
        ClaimCompatibilityView {
            operation,
            compatible: false,
            unresolved: seq![unresolved],
            restriction: Some(restriction),
        };
    let open = disagreements(parents, parents.len() as int);
    if parents.len() == 0 {
        refused("parents"@, "need_parent_claims"@)
    } else if parents.len() < 2 && operation != ClaimOperation::Retarget {
        refused("parents"@, "need_two_claims"@)
    } else {
        match operation {
            ClaimOperation::Compare => ClaimCompatibilityView {
                operation,
                compatible: open.len() == 0,
                unresolved: open,
                restriction: None,
            },
            ClaimOperation::Retarget => if shares_product(parents) {
                ClaimCompatibilityView {
                    operation,
                    compatible: open.len() == 0,
                    unresolved: open,
                    restriction: None,
                }
            } else {
                ClaimCompatibilityView {
                    operation,
                    compatible: false,
                    unresolved: open.push("identification_product"@),
                    restriction: Some("retarget_requires_shared_product"@),
                }
            },
            ClaimOperation::Contrast | ClaimOperation::Aggregate => if alignment_licensed(
                parents,
                alignment,
            ) {
                ClaimCompatibilityView {
                    operation,
                    compatible: open.len() == 0,
                    unresolved: open,
                    restriction: None,
                }
            } else {
                ClaimCompatibilityView {
                    operation,
                    compatible: false,
                    unresolved: open.push("alignment"@),
                    restriction: Some("marginal_intervals_do_not_determine_contrast"@),
                }
            },
            ClaimOperation::Pool => refused("transport"@, "unlicensed_synthesis"@),
        }
    }
}

/// Text of an optional string slice.
pub open spec fn slice_text(s: Option<&str>) -> Option<Seq<char>> {
    match s {
        Some(t) => Some(t@),
        None => None,
    }
}

/// Compatibility for a parent set. Identity disagreement and missing alignment refuse.
#[must_use]
pub fn claim_compatibility(
    parents: &Vec<&ClaimEnvelope>,
    operation: ClaimOperation,
    alignment: Option<&str>,
) -> (report: ClaimCompatibility)
    ensures
        report@ == compatibility_of(parents@, operation, slice_text(alignment)),
{
    if parents.len() == 0 {
        let report = ClaimCompatibility::new(
            operation,
            false,
            text::owned(vec!["parents"]),
            Some("need_parent_claims".to_owned()),
        );
        assert(report@ =~~= compatibility_of(parents@, operation, slice_text(alignment)));
        return report;
    }
    if parents.len() < 2 && operation != ClaimOperation::Retarget {
        let report = ClaimCompatibility::new(
            operation,
            false,
            text::owned(vec!["parents"]),
            Some("need_two_claims".to_owned()),
        );
        assert(report@ =~~= compatibility_of(parents@, operation, slice_text(alignment)));
        return report;
    }
    let mut unresolved: Vec<String> = Vec::new();
    let first = parents[0];
    let mut i: usize = 1;
    assert(text::texts(unresolved@) =~= disagreements(parents@, 1));
    while i < parents.len()
        invariant
            1 <= i <= parents.len(),
            first == parents@[0],
            text::texts(unresolved@) == disagreements(parents@, i as int),
        decreases parents.len() - i,
    {
        let parent = parents[i];
        let ghost before = text::texts(unresolved@);
        if parent.identities.observation != first.identities.observation {
            unresolved.push("observation".to_owned());
            assert(text::texts(unresolved@) =~= before.push("observation"@));
        }
        let ghost middle = text::texts(unresolved@);
        if !text::same_option(&parent.outcome_units, &first.outcome_units) {
            unresolved.push("outcome_units".to_owned());
            assert(text::texts(unresolved@) =~= middle.push("outcome_units"@));
        }
        i = i + 1;
    }
    let ghost open = text::texts(unresolved@);
    assert(open.len() == unresolved@.len());
    let report = match operation {
        ClaimOperation::Compare => {
            let compatible = unresolved.len() == 0;
            ClaimCompatibility::new(operation, compatible, unresolved, None)
        },
        ClaimOperation::Retarget => {
            let same_product = same_product(parents);
            if !same_product {
                unresolved.push("identification_product".to_owned());
                assert(text::texts(unresolved@) =~= open.push("identification_product"@));
            }
            let compatible = unresolved.len() == 0;
            let restriction = if same_product {
                None
            } else {
                Some("retarget_requires_shared_product".to_owned())
            };
            ClaimCompatibility::new(operation, compatible, unresolved, restriction)
        },
        ClaimOperation::Contrast | ClaimOperation::Aggregate => {
            let licensed = alignment_is_licensed(parents, alignment);
            if !licensed {
                unresolved.push("alignment".to_owned());
                assert(text::texts(unresolved@) =~= open.push("alignment"@));
            }
            let compatible = unresolved.len() == 0;
            let restriction = if licensed {
                None
            } else {
                Some("marginal_intervals_do_not_determine_contrast".to_owned())
            };
            ClaimCompatibility::new(operation, compatible, unresolved, restriction)
        },
        ClaimOperation::Pool => ClaimCompatibility::new(
            operation,
            false,
            text::owned(vec!["transport"]),
            Some("unlicensed_synthesis".to_owned()),
        ),
    };
    assert(report@ =~~= compatibility_of(parents@, operation, slice_text(alignment)));
    report
}

fn same_product(parents: &Vec<&ClaimEnvelope>) -> (yes: bool)
    requires
        parents@.len() > 0,
    ensures
        yes == shares_product(parents@),
{
    let product = parents[0].identities.identification_product;
    if product.is_none() {
        return false;
    }
    let mut i: usize = 0;
    while i < parents.len()
        invariant
            0 <= i <= parents.len(),
            product == parents@[0].identities.identification_product,
            forall|k: int|
                0 <= k < i ==> (#[trigger] parents@[k]).identities.identification_product
                    == product,
        decreases parents.len() - i,
    {
        if parents[i].identities.identification_product != product {
            return false;
        }
        i = i + 1;
    }
    true
}

/// The alignment word in a declaration.
fn token(value: &str) -> (found: Option<String>)
    ensures
        text::text_of(found) == alignment_token(value@),
{
    let stripped = if text::starts_with(value, "alignment:") {
        let from: usize = "alignment:".unicode_len();
        let n: usize = value.unicode_len();
        let rest = value.substring_char(from, n);
        assert(rest@ =~= value@.skip("alignment:"@.len() as int));
        rest
    } else {
        value
    };
    if alignment_word(stripped) {
        Some(stripped.to_owned())
    } else {
        None
    }
}

fn token_in(declared: &Option<String>) -> (found: Option<String>)
    ensures
        text::text_of(found) == token_of(text::text_of(*declared)),
{
    match declared {
        Some(value) => token(value.as_str()),
        None => None,
    }
}

/// The alignment words of the parents, in their order.
fn parent_tokens(parents: &Vec<&ClaimEnvelope>) -> (tokens: Vec<Option<String>>)
    ensures
        tokens@.len() == parents@.len(),
        forall|k: int|
            0 <= k < tokens@.len() ==> text::text_of(#[trigger] tokens@[k]) == claim_token(
                *parents@[k],
            ),
{
    let mut tokens: Vec<Option<String>> = Vec::new();
    let mut i: usize = 0;
    while i < parents.len()
        invariant
            0 <= i <= parents.len(),
            tokens@.len() == i,
            forall|k: int|
                0 <= k < i ==> text::text_of(#[trigger] tokens@[k]) == claim_token(*parents@[k]),
        decreases parents.len() - i,
    {
        let declared = parents[i].evidence_ref();
        tokens.push(token_in(&declared.alignment));
        i = i + 1;
    }
    tokens
}

/// The first word of a list that holds one.
fn first_present(parents: &Vec<&ClaimEnvelope>, tokens: &Vec<Option<String>>) -> (found: Option<
    String,
>)
    requires
        tokens@.len() == parents@.len(),
        forall|k: int|
            0 <= k < tokens@.len() ==> text::text_of(#[trigger] tokens@[k]) == claim_token(
                *parents@[k],
            ),
    ensures
        text::text_of(found) == first_token(parents@),
{
    let mut j: usize = 0;
    assert(parents@.skip(0) =~= parents@);
    while j < tokens.len()
        invariant
            0 <= j <= tokens.len(),
            tokens@.len() == parents@.len(),
            forall|k: int|
                0 <= k < tokens@.len() ==> text::text_of(#[trigger] tokens@[k]) == claim_token(
                    *parents@[k],
                ),
            first_token(parents@) == first_token(parents@.skip(j as int)),
        decreases tokens.len() - j,
    {
        proof {
            assert(parents@.skip(j as int)[0] == parents@[j as int]);
            assert(parents@.skip(j as int).skip(1) =~= parents@.skip(j + 1));
            assert(text::text_of(tokens@[j as int]) == claim_token(*parents@[j as int]));
        }
        if tokens[j].is_some() {
            return text::copied_option(&tokens[j]);
        }
        j = j + 1;
    }
    None
}

fn alignment_is_licensed(parents: &Vec<&ClaimEnvelope>, alignment: Option<&str>) -> (yes: bool)
    ensures
        yes == alignment_licensed(parents@, slice_text(alignment)),
{
    let tokens = parent_tokens(parents);
    let asked = match alignment {
        Some(value) => token(value),
        None => None,
    };
    let expected = match asked {
        Some(word) => Some(word),
        None => first_present(parents, &tokens),
    };
    let ghost wanted = text::text_of(expected);
    assert(wanted == if token_of(slice_text(alignment)) is Some {
        token_of(slice_text(alignment))
    } else {
        first_token(parents@)
    });
    if expected.is_none() {
        return false;
    }
    let mut m: usize = 0;
    while m < tokens.len()
        invariant
            0 <= m <= tokens.len(),
            tokens@.len() == parents@.len(),
            wanted == text::text_of(expected),
            wanted == if token_of(slice_text(alignment)) is Some {
                token_of(slice_text(alignment))
            } else {
                first_token(parents@)
            },
            forall|k: int|
                0 <= k < tokens@.len() ==> text::text_of(#[trigger] tokens@[k]) == claim_token(
                    *parents@[k],
                ),
            forall|k: int| 0 <= k < m ==> claim_token(*#[trigger] parents@[k]) == wanted,
        decreases tokens.len() - m,
    {
        assert(text::text_of(tokens@[m as int]) == claim_token(*parents@[m as int]));
        if !text::same_option(&tokens[m], &expected) {
            assert(claim_token(*parents@[m as int]) != wanted);
            return false;
        }
        m = m + 1;
    }
    true
}

/// Pooling is never licensed, and one claim alone composes only by retargeting.
pub proof fn law_pool_is_never_licensed(
    parents: Seq<&ClaimEnvelope>,
    operation: ClaimOperation,
    alignment: Option<Seq<char>>,
)
    ensures
        !compatibility_of(parents, ClaimOperation::Pool, alignment).compatible,
        parents.len() < 2 && operation != ClaimOperation::Retarget ==> !compatibility_of(
            parents,
            operation,
            alignment,
        ).compatible,
{
}

/// Marginal intervals do not determine a contrast: a licensed contrast or
/// aggregate has parents that all carry one alignment.
pub proof fn law_contrast_needs_one_alignment(
    parents: Seq<&ClaimEnvelope>,
    operation: ClaimOperation,
    alignment: Option<Seq<char>>,
)
    requires
        operation is Contrast || operation is Aggregate,
        compatibility_of(parents, operation, alignment).compatible,
    ensures
        forall|i: int, j: int|
            0 <= i < parents.len() && 0 <= j < parents.len() ==> claim_token(
                *#[trigger] parents[i],
            ) is Some && claim_token(*parents[i]) == claim_token(*#[trigger] parents[j]),
{
    assert(alignment_licensed(parents, alignment));
}

/// A retarget may change neither identification premises nor product.
pub open spec fn changes_identification(
    parents: Seq<&ClaimEnvelope>,
    derived: ClaimEnvelope,
) -> bool {
    exists|i: int|
        0 <= i < parents.len() && ((#[trigger] parents[i]).identities.identification
            != derived.identities.identification || parents[i].identities.identification_product
            != derived.identities.identification_product)
}

/// Some parent reported an identification slot.
pub open spec fn some_parent_reports_mass(parents: Seq<&ClaimEnvelope>) -> bool {
    exists|i: int| 0 <= i < parents.len() && (#[trigger] parents[i]).mass() is Some
}

/// The derived mass is above the mass that a parent reported, and by more than the rounding
/// tolerance. A mass that is not above the parent's is never raised.
pub open spec fn raises_mass(
    parent: ClaimEnvelope,
    derived: ClaimEnvelope,
    beyond_tolerance: bool,
) -> bool {
    &&& parent.mass() matches Some(own)
    &&& derived.mass() matches Some(mass)
    &&& own.lt(mass)
    &&& beyond_tolerance
}

/// The derived mass is raised above some parent's.
pub open spec fn some_mass_raised(
    parents: Seq<&ClaimEnvelope>,
    derived: ClaimEnvelope,
    raised: Seq<bool>,
) -> bool {
    exists|i: int|
        0 <= i < parents.len() && raises_mass(*#[trigger] parents[i], derived, raised[i])
}

/// The derived claim asserts a domain status that some parent does not hold.
pub open spec fn upgrades_domain(
    parents: Seq<&ClaimEnvelope>,
    derived: ClaimEnvelope,
    axis: ClaimDomainAxis,
) -> bool {
    derived.status(axis).positive() && exists|i: int|
        0 <= i < parents.len() && (#[trigger] parents[i]).status(axis) != derived.status(axis)
}

/// Why a derived claim is not a licensed derivation, if it is not.
pub open spec fn departure(
    parents: Seq<&ClaimEnvelope>,
    derived: ClaimEnvelope,
    operation: ClaimOperation,
    raised: Seq<bool>,
) -> Option<Seq<char>> {
    if operation is Retarget && changes_identification(parents, derived) {
        Some("retarget_changes_identification"@)
    } else if derived.mass() is None && some_parent_reports_mass(parents) {
        Some("derived_drops_identification_slot"@)
    } else if some_mass_raised(parents, derived, raised) {
        Some("parents_not_retroactively_strengthened"@)
    } else if upgrades_domain(parents, derived, ClaimDomainAxis::Identification)
        || upgrades_domain(parents, derived, ClaimDomainAxis::Support) || upgrades_domain(
        parents,
        derived,
        ClaimDomainAxis::Evaluated,
    ) {
        Some("derived_upgrades_domain"@)
    } else {
        None
    }
}

fn identified_mass(claim: &ClaimEnvelope) -> (mass: Option<OrderedFloatBits>)
    ensures
        mass == claim.mass(),
{
    match claim.reasoning.identification.as_ref() {
        Some(slot) => Some(slot.identified_mass),
        None => None,
    }
}

fn domain_upgraded(
    parents: &Vec<&ClaimEnvelope>,
    derived: &ClaimEnvelope,
    axis: ClaimDomainAxis,
) -> (yes: bool)
    ensures
        yes == upgrades_domain(parents@, *derived, axis),
{
    let status = derived.domain(axis);
    if !status.is_positive() {
        return false;
    }
    let mut i: usize = 0;
    while i < parents.len()
        invariant
            0 <= i <= parents.len(),
            status == derived.status(axis),
            status.positive(),
            forall|k: int| 0 <= k < i ==> (#[trigger] parents@[k]).status(axis) == status,
        decreases parents.len() - i,
    {
        if parents[i].domain(axis) != status {
            assert(parents@[i as int].status(axis) != derived.status(axis));
            return true;
        }
        i = i + 1;
    }
    false
}

/// Why `derived` is not a licensed derivation of `parents`, if it is not.
///
/// A retarget stays within its parents' certified derivation: identification
/// premises and product are unchanged. No derivation may drop an
/// identification slot a parent reported, raise identified mass, or claim a
/// domain status a parent did not hold. `raised[i]` says whether the derived
/// mass exceeds the mass of parent `i` by more than the rounding tolerance; it is
/// read only where the derived mass is above the parent's.
fn derived_departs_from_parents(
    parents: &Vec<&ClaimEnvelope>,
    derived: &ClaimEnvelope,
    operation: ClaimOperation,
    raised: &Vec<bool>,
) -> (why: Option<&'static str>)
    requires
        raised@.len() == parents@.len(),
    ensures
        slice_text(why) == departure(parents@, *derived, operation, raised@),
{
    let own = identified_mass(derived);
    let mut changed = false;
    let mut reports = false;
    let mut exceeded = false;
    let mut i: usize = 0;
    while i < parents.len()
        invariant
            0 <= i <= parents.len(),
            raised@.len() == parents@.len(),
            own == derived.mass(),
            changed == exists|k: int|
                0 <= k < i && ((#[trigger] parents@[k]).identities.identification
                    != derived.identities.identification
                    || parents@[k].identities.identification_product
                    != derived.identities.identification_product),
            reports == exists|k: int| 0 <= k < i && (#[trigger] parents@[k]).mass() is Some,
            exceeded == exists|k: int|
                0 <= k < i && raises_mass(*#[trigger] parents@[k], *derived, raised@[k]),
        decreases parents.len() - i,
    {
        let parent = parents[i];
        if parent.identities.identification != derived.identities.identification
            || parent.identities.identification_product
            != derived.identities.identification_product {
            assert(parents@[i as int].identities.identification
                != derived.identities.identification
                || parents@[i as int].identities.identification_product
                != derived.identities.identification_product);
            changed = true;
        }
        if let Some(held) = identified_mass(parent) {
            assert(parents@[i as int].mass() is Some);
            reports = true;
            if let Some(mass) = own {
                if held.less(mass) && raised[i] {
                    assert(raises_mass(*parents@[i as int], *derived, raised@[i as int]));
                    exceeded = true;
                }
            }
        }
        i = i + 1;
    }
    if operation == ClaimOperation::Retarget && changed {
        return Some("retarget_changes_identification");
    }
    match own {
        None => {
            if reports {
                return Some("derived_drops_identification_slot");
            }
        },
        Some(_) => {
            if exceeded {
                return Some("parents_not_retroactively_strengthened");
            }
        },
    }
    if domain_upgraded(parents, derived, ClaimDomainAxis::Identification) || domain_upgraded(
        parents,
        derived,
        ClaimDomainAxis::Support,
    ) || domain_upgraded(parents, derived, ClaimDomainAxis::Evaluated) {
        Some("derived_upgrades_domain")
    } else {
        None
    }
}

/// A licensed derivation strengthens no parent: on every axis a status it asserts
/// is held by all parents, it keeps an identification slot that any parent
/// reported, with a mass that does not exceed a parent's beyond the tolerance, and a retarget
/// keeps premises and product.
pub proof fn law_licensed_derivation_strengthens_nothing(
    parents: Seq<&ClaimEnvelope>,
    derived: ClaimEnvelope,
    operation: ClaimOperation,
    raised: Seq<bool>,
    axis: ClaimDomainAxis,
    i: int,
)
    requires
        departure(parents, derived, operation, raised) is None,
        0 <= i < parents.len(),
    ensures
        derived.status(axis).positive() ==> parents[i].status(axis) == derived.status(axis),
        parents[i].mass() matches Some(own) ==> (derived.mass() matches Some(mass) && (!own.lt(
            mass,
        ) || !raised[i])),
        operation is Retarget ==> parents[i].identities.identification
            == derived.identities.identification && parents[i].identities.identification_product
            == derived.identities.identification_product,
{
}

fn provenance_node(claim_id: SemanticDigest, operation: &str, parents: Vec<String>) -> (node:
    ProvenanceNode)
    ensures
        node.id() == identity::hex_text(claim_id.bytes@),
        node.operation@ == operation@,
        node.parents == parents,
        node.assumptions.assumptions@.len() == 0,
        node.library_version@ == crate::VERSION@,
        node.config_digest is None,
{
    ProvenanceNode {
        artifact_id: claim_id.to_hex(),
        operation: operation.to_owned(),
        parents,
        assumptions: AssumptionSet::new(),
        library_version: crate::VERSION.to_owned(),
        config_digest: None,
    }
}

/// The claim ids of the parents.
pub open spec fn claim_ids(parents: Seq<&ClaimEnvelope>) -> Seq<SemanticDigest> {
    parents.map_values(|p: &ClaimEnvelope| p.claim_id)
}

/// Two parents are one claim.
pub open spec fn duplicate_parents(parents: Seq<&ClaimEnvelope>) -> bool {
    exists|i: int, j: int|
        0 <= i < j < parents.len() && (#[trigger] parents[i]).claim_id == (
        #[trigger] parents[j]).claim_id
}

/// Why a composition other than a comparison is refused, if it is.
pub open spec fn composition_refusal(
    parents: Seq<&ClaimEnvelope>,
    operation: ClaimOperation,
    derived: Option<ClaimEnvelope>,
    alignment: Option<Seq<char>>,
    raised: Seq<bool>,
) -> Option<Seq<char>> {
    let report = compatibility_of(parents, operation, alignment);
    if !report.compatible {
        match report.restriction {
            Some(restriction) => Some(restriction),
            None => Some("incompatible_claims"@),
        }
    } else {
        match derived {
            None => Some("missing_derived_envelope"@),
            Some(child) => if departure(parents, child, operation, raised) is Some {
                departure(parents, child, operation, raised)
            } else if duplicate_parents(parents) {
                Some("provenance_parent"@)
            } else if claim_ids(parents).contains(child.claim_id) {
                Some("provenance_cycle_or_duplicate"@)
            } else {
                None
            },
        }
    }
}

/// Compose parent claims.
///
/// A comparison reports differences and derives nothing. Everything else is
/// either refused, with the parent ids unchanged, or yields the supplied
/// envelope as a derived claim whose ancestry is recorded. `raised[i]` says
/// whether the identified mass of `derived` exceeds that of parent `i` by more
/// than the rounding tolerance; it is read only where both report a mass and the
/// derived one is above the parent's.
#[must_use]
pub fn compose_claims(
    parents: &Vec<&ClaimEnvelope>,
    operation: ClaimOperation,
    derived: Option<ClaimEnvelope>,
    alignment: Option<&str>,
    raised: &Vec<bool>,
) -> (outcome: DerivedClaimOutcome)
    requires
        raised@.len() == parents@.len(),
    ensures
        match outcome {
            DerivedClaimOutcome::Comparison(report) => {
                &&& operation is Compare
                &&& report@ == compatibility_of(parents@, operation, slice_text(alignment))
            },
            DerivedClaimOutcome::Refused { restriction, parents: ids, compatibility } => {
                &&& operation !is Compare
                &&& composition_refusal(
                    parents@,
                    operation,
                    derived,
                    slice_text(alignment),
                    raised@,
                ) == Some(restriction@)
                &&& ids@ == claim_ids(parents@)
                &&& compatibility matches Some(report)
                &&& report@ == compatibility_of(parents@, operation, slice_text(alignment))
            },
            DerivedClaimOutcome::Derived(record) => {
                &&& operation !is Compare
                &&& composition_refusal(
                    parents@,
                    operation,
                    derived,
                    slice_text(alignment),
                    raised@,
                ) is None
                &&& derived == Some(record.claim)
                &&& record.parents@ == claim_ids(parents@)
                &&& record.operation == operation
                &&& record.provenance.valid()
                &&& records_ancestry(
                    record.provenance.nodes@,
                    parents@,
                    record.claim.claim_id,
                )
                &&& record.receipt.input == parents@[0].claim_id
                &&& record.receipt.output == Some(record.claim.claim_id)
                &&& record.receipt.consumer@ == operation.name()
                &&& record.receipt.rule@ == "derive"@
                &&& text::texts(record.receipt.retained@) == seq![
                    "claim.envelope"@,
                    "parents"@,
                    "provenance"@,
                ]
                &&& record.receipt.omitted@.len() == 0
                &&& record.receipt.unresolved@.len() == 0
                &&& record.receipt.unavailable_operations@.len() == 0
                &&& !record.receipt.equivalent()
            },
        },
{
    let mut parent_ids: Vec<SemanticDigest> = Vec::new();
    let mut i: usize = 0;
    while i < parents.len()
        invariant
            0 <= i <= parents.len(),
            parent_ids@ == claim_ids(parents@).take(i as int),
        decreases parents.len() - i,
    {
        parent_ids.push(parents[i].claim_id);
        assert(parent_ids@ =~= claim_ids(parents@).take(i + 1));
        i = i + 1;
    }
    assert(parent_ids@ =~= claim_ids(parents@));
    let compatibility = claim_compatibility(parents, operation, alignment);
    if operation == ClaimOperation::Compare {
        return DerivedClaimOutcome::Comparison(compatibility);
    }
    if !compatibility.compatible {
        let restriction = match &compatibility.restriction {
            Some(text) => text.clone(),
            None => "incompatible_claims".to_owned(),
        };
        return refuse_derived(restriction, parent_ids, compatibility);
    }
    let derived = match derived {
        Some(claim) => claim,
        None => {
            return refuse_derived("missing_derived_envelope".to_owned(), parent_ids, compatibility);
        },
    };
    match derived_departs_from_parents(parents, &derived, operation, raised) {
        Some(restriction) => {
            return refuse_derived(restriction.to_owned(), parent_ids, compatibility);
        },
        None => {},
    }
    let graph = match ancestry(parents, operation, derived.claim_id) {
        Ok(graph) => graph,
        Err(restriction) => {
            return refuse_derived(restriction.to_owned(), parent_ids, compatibility);
        },
    };
    let unresolved = match graph.validate() {
        Ok(missing) => {
            proof {
                if missing@.len() > 0 {
                    assert(text::texts(missing@).contains(text::texts(missing@)[0]));
                }
            }
            missing
        },
        Err(_) => text::owned(vec!["provenance"]),
    };
    let receipt = HandoffReceipt::new(
        parents[0].claim_id,
        Some(derived.claim_id),
        operation.as_str(),
        "derive",
        text::owned(vec!["claim.envelope", "parents", "provenance"]),
        Vec::new(),
        unresolved,
        Vec::new(),
    );
    proof {
        assert(text::texts(receipt.retained@) =~= seq![
            "claim.envelope"@,
            "parents"@,
            "provenance"@,
        ]);
        assert(claim_ids(parents@)[0] == parents@[0].claim_id);
        assert(claim_ids(parents@).contains(parents@[0].claim_id));
    }
    DerivedClaimOutcome::Derived(
        Box::new(
            DerivedClaim { receipt, claim: derived, parents: parent_ids, operation, provenance: graph },
        ),
    )
}

/// Ancestry of a derived claim: a root for each parent, then the claim itself.
fn ancestry(
    parents: &Vec<&ClaimEnvelope>,
    operation: ClaimOperation,
    derived_id: SemanticDigest,
) -> (r: Result<ProvenanceGraph, &'static str>)
    ensures
        match r {
            Ok(graph) => {
                &&& !duplicate_parents(parents@)
                &&& !claim_ids(parents@).contains(derived_id)
                &&& graph.valid()
                &&& records_ancestry(graph.nodes@, parents@, derived_id)
                &&& forall|id: Seq<char>| !#[trigger] provenance::unresolved(graph.nodes@, id)
            },
            Err(why) => if duplicate_parents(parents@) {
                why@ == "provenance_parent"@
            } else {
                &&& claim_ids(parents@).contains(derived_id)
                &&& why@ == "provenance_cycle_or_duplicate"@
            },
        },
{
    let mut graph = ProvenanceGraph::new();
    let mut parent_hex: Vec<String> = Vec::new();
    let mut j: usize = 0;
    while j < parents.len()
        invariant
            0 <= j <= parents.len(),
            graph.valid(),
            graph.nodes@.len() == j,
            parent_hex@.len() == j,
            forall|k: int|
                0 <= k < j ==> (#[trigger] graph.nodes@[k]).id() == identity::hex_text(
                    parents@[k].claim_id.bytes@,
                ) && graph.nodes@[k].parent_ids().len() == 0,
            forall|k: int|
                0 <= k < j ==> (#[trigger] parent_hex@[k])@ == identity::hex_text(
                    parents@[k].claim_id.bytes@,
                ),
            forall|a: int, b: int|
                0 <= a < b < j ==> (#[trigger] parents@[a]).claim_id != (
                #[trigger] parents@[b]).claim_id,
        decreases parents.len() - j,
    {
        let ghost nodes = graph.nodes@;
        let node = provenance_node(parents[j].claim_id, operation.as_str(), Vec::new());
        let ghost added = node;
        proof {
            assert(node.parent_ids().len() == 0);
            assert(provenance::shape_fault(node) is None);
            assert(!provenance::reachable(nodes, node.parent_ids(), node.id()));
        }
        match graph.try_push(node) {
            Ok(()) => {},
            Err(_) => {
                proof {
                    let k = choose|k: int|
                        0 <= k < nodes.len() && (#[trigger] nodes[k]).id() == added.id();
                    identity::law_digest_hex_is_injective(
                        parents@[k].claim_id,
                        parents@[j as int].claim_id,
                    );
                    assert(duplicate_parents(parents@));
                }
                return Err("provenance_parent");
            },
        }
        parent_hex.push(parents[j].claim_id.to_hex());
        proof {
            assert forall|a: int, b: int| 0 <= a < b < j + 1 implies (
            #[trigger] parents@[a]).claim_id != (#[trigger] parents@[b]).claim_id by {
                if b == j {
                    assert(nodes[a].id() != added.id());
                }
            }
        }
        j = j + 1;
    }
    let ghost nodes = graph.nodes@;
    let ghost hexes = text::texts(parent_hex@);
    let child = provenance_node(derived_id, operation.as_str(), parent_hex);
    let ghost added = child;
    proof {
        lemma_child_is_not_reached(nodes, hexes, parents@, child);
    }
    match graph.try_push(child) {
        Ok(()) => {},
        Err(_) => {
            proof {
                let k = choose|k: int|
                    0 <= k < nodes.len() && (#[trigger] nodes[k]).id() == added.id();
                identity::law_digest_hex_is_injective(parents@[k].claim_id, derived_id);
                assert(claim_ids(parents@)[k] == derived_id);
            }
            return Err("provenance_cycle_or_duplicate");
        },
    }
    proof {
        if claim_ids(parents@).contains(derived_id) {
            let k = choose|k: int|
                0 <= k < claim_ids(parents@).len() && claim_ids(parents@)[k] == derived_id;
            assert(nodes[k].id() == added.id());
        }
        lemma_nothing_unresolved(nodes, hexes, parents@, added);
    }
    Ok(graph)
}

/// One root node for each parent claim, then the derived claim with all of them
/// as its parents.
pub open spec fn records_ancestry(
    nodes: Seq<ProvenanceNode>,
    parents: Seq<&ClaimEnvelope>,
    derived_id: SemanticDigest,
) -> bool {
    &&& nodes.len() == parents.len() + 1
    &&& forall|k: int|
        0 <= k < parents.len() ==> (#[trigger] nodes[k]).id() == identity::hex_text(
            parents[k].claim_id.bytes@,
        ) && nodes[k].parent_ids().len() == 0
    &&& nodes.last().id() == identity::hex_text(derived_id.bytes@)
    &&& nodes.last().parent_ids() == parents.map_values(
        |p: &ClaimEnvelope| identity::hex_text(p.claim_id.bytes@),
    )
}

proof fn lemma_child_is_not_reached(
    nodes: Seq<ProvenanceNode>,
    hexes: Seq<Seq<char>>,
    parents: Seq<&ClaimEnvelope>,
    child: ProvenanceNode,
)
    requires
        nodes.len() == parents.len(),
        hexes.len() == parents.len(),
        child.parent_ids() == hexes,
        child.id().len() == 64,
        forall|k: int|
            0 <= k < nodes.len() ==> (#[trigger] nodes[k]).id() == identity::hex_text(
                parents[k].claim_id.bytes@,
            ) && nodes[k].parent_ids().len() == 0,
        forall|k: int|
            0 <= k < hexes.len() ==> #[trigger] hexes[k] == identity::hex_text(
                parents[k].claim_id.bytes@,
            ),
    ensures
        provenance::shape_fault(child) is None,
        !provenance::present(nodes, child.id()) ==> !provenance::reachable(
            nodes,
            hexes,
            child.id(),
        ),
        hexes == parents.map_values(|p: &ClaimEnvelope| identity::hex_text(p.claim_id.bytes@)),
{
    if hexes.contains(Seq::<char>::empty()) {
        let k = choose|k: int| 0 <= k < hexes.len() && hexes[k] == Seq::<char>::empty();
        assert(parents[k].claim_id.bytes@.len() == 32);
        assert(hexes[k].len() == 64);
    }
    assert(hexes =~= parents.map_values(
        |p: &ClaimEnvelope| identity::hex_text(p.claim_id.bytes@),
    ));
    if provenance::reachable(nodes, hexes, child.id()) {
        provenance::lemma_reached_is_named(nodes, hexes, child.id());
        assert(hexes.contains(child.id()));
        let k = choose|k: int| 0 <= k < hexes.len() && hexes[k] == child.id();
        assert(nodes[k].id() == child.id());
    }
}

proof fn lemma_nothing_unresolved(
    nodes: Seq<ProvenanceNode>,
    hexes: Seq<Seq<char>>,
    parents: Seq<&ClaimEnvelope>,
    child: ProvenanceNode,
)
    requires
        nodes.len() == parents.len(),
        hexes.len() == parents.len(),
        child.parent_ids() == hexes,
        forall|k: int|
            0 <= k < nodes.len() ==> (#[trigger] nodes[k]).id() == identity::hex_text(
                parents[k].claim_id.bytes@,
            ) && nodes[k].parent_ids().len() == 0,
        forall|k: int|
            0 <= k < hexes.len() ==> #[trigger] hexes[k] == identity::hex_text(
                parents[k].claim_id.bytes@,
            ),
    ensures
        forall|id: Seq<char>| !#[trigger] provenance::unresolved(nodes.push(child), id),
{
    let all = nodes.push(child);
    assert forall|id: Seq<char>| !#[trigger] provenance::unresolved(all, id) by {
        if provenance::unresolved(all, id) {
            let k = choose|k: int|
                0 <= k < all.len() && (#[trigger] all[k]).parent_ids().contains(id);
            if k < nodes.len() {
                assert(all[k] == nodes[k]);
                assert(nodes[k].parent_ids().len() == 0);
            } else {
                let m = choose|m: int| 0 <= m < hexes.len() && hexes[m] == id;
                assert(all[m] == nodes[m]);
                assert(all[m].id() == id);
            }
        }
    }
}

fn refuse_derived(
    restriction: String,
    parents: Vec<SemanticDigest>,
    compatibility: ClaimCompatibility,
) -> (outcome: DerivedClaimOutcome)
    ensures
        outcome == (DerivedClaimOutcome::Refused {
            restriction,
            parents,
            compatibility: Some(compatibility),
        }),
{
    DerivedClaimOutcome::Refused { restriction, parents, compatibility: Some(compatibility) }
}

} // verus!
