//! Typed obligation references that extend assumptions.
//!
//! This is not a parallel assumption taxonomy. Source, status, and the
//! assumption itself reuse the existing records. Obligations add a stable
//! id, a finer scope, a required check, and how the obligation entered.
//!
//! SPDX-License-Identifier: MIT OR Apache-2.0

use crate::assumption::{Assumption, AssumptionSource, AssumptionStatus};
use crate::text;
use vstd::prelude::*;

verus! {

/// Scope at which an obligation applies.
#[derive(Clone, Copy, Debug, PartialEq, Eq, Hash, Structural)]
pub enum ObligationScope {
    /// Entire compiled program.
    Program,
    /// One identified factor or functional factor.
    Factor,
    /// One structural atom (graph or completion).
    Atom,
    /// One temporal horizon.
    Horizon {
        /// Horizon step.
        horizon: u32,
    },
}

impl ObligationScope {
    /// The name as text.
    pub open spec fn name(self) -> Seq<char> {
        match self {
            ObligationScope::Program => "program"@,
            ObligationScope::Factor => "factor"@,
            ObligationScope::Atom => "atom"@,
            ObligationScope::Horizon { horizon } => "horizon_"@ + text::decimal(horizon as nat),
        }
    }

    /// Stable `snake_case` name of the scope; that of a horizon includes the step.
    #[must_use]
    pub fn as_str(self) -> (out: String)
        ensures
            out@ == self.name(),
    {
        match self {
            ObligationScope::Program => "program".to_owned(),
            ObligationScope::Factor => "factor".to_owned(),
            ObligationScope::Atom => "atom".to_owned(),
            ObligationScope::Horizon { horizon } => "horizon_".to_owned().concat(
                text::decimal_text(horizon as u64).as_str(),
            ),
        }
    }
}

/// Different scopes, two steps of a horizon among them, have different names.
pub proof fn law_obligation_scope_names_are_distinct(a: ObligationScope, b: ObligationScope)
    requires
        a.name() == b.name(),
    ensures
        a == b,
{
    reveal_strlit("program");
    assert("program"@.len() == 7 && "program"@[0] == 'p');
    reveal_strlit("factor");
    assert("factor"@.len() == 6 && "factor"@[0] == 'f');
    reveal_strlit("atom");
    assert("atom"@.len() == 4 && "atom"@[0] == 'a');
    reveal_strlit("horizon_");
    assert("horizon_"@.len() == 8 && "horizon_"@[0] == 'h');
    assert(a.name()[0] == b.name()[0]);
    if let ObligationScope::Horizon { horizon: left } = a {
        if let ObligationScope::Horizon { horizon: right } = b {
            assert(a.name().skip(8) =~= text::decimal(left as nat));
            assert(b.name().skip(8) =~= text::decimal(right as nat));
            text::law_decimals_are_distinct(left as nat, right as nat);
        }
    }
}

/// How an obligation was introduced or last evaluated.
///
/// Distinct from [`AssumptionStatus`]: a passed refuter is an empirical
/// diagnostic, not a proof of an observational assumption.
#[derive(Clone, Copy, Debug, PartialEq, Eq, Hash, Structural)]
pub enum ObligationKind {
    /// Caller-declared premise.
    UserAssertion,
    /// Implied by the accepted graph or identifier.
    GraphicalImplication,
    /// Empirical diagnostic that was run.
    EmpiricalDiagnostic,
    /// Empirical diagnostic that failed.
    FailedCheck,
    /// Not empirically testable from available evidence.
    Uncheckable,
    /// Required check has not been run.
    CheckNotRun,
}

impl ObligationKind {
    /// The name as text.
    pub open spec fn name(self) -> Seq<char> {
        match self {
            ObligationKind::UserAssertion => "user_assertion"@,
            ObligationKind::GraphicalImplication => "graphical_implication"@,
            ObligationKind::EmpiricalDiagnostic => "empirical_diagnostic"@,
            ObligationKind::FailedCheck => "failed_check"@,
            ObligationKind::Uncheckable => "uncheckable"@,
            ObligationKind::CheckNotRun => "check_not_run"@,
        }
    }

    /// Stable `snake_case` name.
    #[must_use]
    pub fn as_str(self) -> (out: &'static str)
        ensures
            out@ == self.name(),
    {
        match self {
            ObligationKind::UserAssertion => "user_assertion",
            ObligationKind::GraphicalImplication => "graphical_implication",
            ObligationKind::EmpiricalDiagnostic => "empirical_diagnostic",
            ObligationKind::FailedCheck => "failed_check",
            ObligationKind::Uncheckable => "uncheckable",
            ObligationKind::CheckNotRun => "check_not_run",
        }
    }
}

/// Different variants of [`ObligationKind`] have different names.
pub proof fn law_obligation_kind_names_are_distinct(a: ObligationKind, b: ObligationKind)
    requires
        a.name() == b.name(),
    ensures
        a == b,
{
    reveal_strlit("user_assertion");
    assert("user_assertion"@.len() == 14);
    reveal_strlit("graphical_implication");
    assert("graphical_implication"@.len() == 21);
    reveal_strlit("empirical_diagnostic");
    assert("empirical_diagnostic"@.len() == 20);
    reveal_strlit("failed_check");
    assert("failed_check"@.len() == 12);
    reveal_strlit("uncheckable");
    assert("uncheckable"@.len() == 11);
    reveal_strlit("check_not_run");
    assert("check_not_run"@.len() == 13);
}

impl ObligationKind {
    /// Whether an obligation of this kind is open by itself.
    pub open spec fn open(self) -> bool {
        self is CheckNotRun || self is FailedCheck
    }

    /// Whether this obligation is still unresolved.
    #[must_use]
    pub fn is_unresolved(self) -> (yes: bool)
        ensures
            yes == self.open(),
    {
        match self {
            ObligationKind::CheckNotRun => true,
            ObligationKind::FailedCheck => true,
            _ => false,
        }
    }
}

/// One scoped obligation referenced by a contract or claim.
#[derive(Debug, PartialEq, Eq)]
pub struct ObligationRecord {
    /// Stable obligation id.
    pub id: String,
    /// Program, factor, atom or horizon.
    pub scope: ObligationScope,
    /// How the underlying assumption entered, when one exists.
    pub source: AssumptionSource,
    /// How the obligation was introduced or last evaluated.
    pub kind: ObligationKind,
    /// Validation status of the underlying assumption.
    pub status: AssumptionStatus,
    /// Required check or declaration id, when one exists.
    pub required_check: Option<String>,
    /// Evidence reference (artifact id, diagnostic code, or fixture).
    pub evidence: Option<String>,
    /// Underlying assumption, when this obligation wraps one.
    pub assumption: Option<Assumption>,
    /// Human-readable description.
    pub description: String,
}

impl Clone for ObligationRecord {
    fn clone(&self) -> (copy: Self)
        ensures
            copy == *self,
    {
        ObligationRecord {
            id: self.id.clone(),
            scope: self.scope,
            source: self.source,
            kind: self.kind,
            status: self.status,
            required_check: match &self.required_check {
                Some(check) => Some(check.clone()),
                None => None,
            },
            evidence: match &self.evidence {
                Some(evidence) => Some(evidence.clone()),
                None => None,
            },
            assumption: match &self.assumption {
                Some(assumption) => Some(assumption.duplicate()),
                None => None,
            },
            description: self.description.clone(),
        }
    }
}

impl ObligationRecord {
    /// Construct a fully specified obligation.
    #[must_use]
    pub fn new(
        id: String,
        scope: ObligationScope,
        source: AssumptionSource,
        kind: ObligationKind,
        status: AssumptionStatus,
        description: String,
    ) -> (record: Self)
        ensures
            record == (ObligationRecord {
                id,
                scope,
                source,
                kind,
                status,
                required_check: None,
                evidence: None,
                assumption: None,
                description,
            }),
    {
        ObligationRecord {
            id,
            scope,
            source,
            kind,
            status,
            required_check: None,
            evidence: None,
            assumption: None,
            description,
        }
    }

    /// Attach a required check id.
    #[must_use]
    pub fn with_required_check(self, check: String) -> (record: Self)
        ensures
            record == (ObligationRecord { required_check: Some(check), ..self }),
    {
        ObligationRecord { required_check: Some(check), ..self }
    }

    /// Attach an evidence reference.
    #[must_use]
    pub fn with_evidence(self, evidence: String) -> (record: Self)
        ensures
            record == (ObligationRecord { evidence: Some(evidence), ..self }),
    {
        ObligationRecord { evidence: Some(evidence), ..self }
    }

    /// Attach the underlying assumption.
    #[must_use]
    pub fn with_assumption(self, assumption: Assumption) -> (record: Self)
        ensures
            record == (ObligationRecord { assumption: Some(assumption), ..self }),
    {
        ObligationRecord { assumption: Some(assumption), ..self }
    }

    /// Whether the obligation still blocks a stronger claim.
    pub open spec fn unresolved(self) -> bool {
        self.kind.open() || self.status is Declared || self.status is Contradicted
    }

    /// Whether this obligation still blocks a stronger claim.
    #[must_use]
    pub fn is_unresolved(&self) -> (yes: bool)
        ensures
            yes == self.unresolved(),
    {
        if self.kind.is_unresolved() {
            return true;
        }
        match self.status {
            AssumptionStatus::Declared => true,
            AssumptionStatus::Contradicted => true,
            AssumptionStatus::Supported => false,
        }
    }
}

} // verus!
