//! Transport theorem scopes, typed outcomes, and stage-specific support.
//!
//! SPDX-License-Identifier: MIT OR Apache-2.0

use crate::ids::VariableId;
use crate::text;
use vstd::prelude::*;

verus! {

/// Named transport theorem family. Completeness is scoped per family.
#[derive(Clone, Copy, Debug, PartialEq, Eq, Hash, Structural)]
pub enum TheoremFamily {
    /// Classical single-source sID (general transportability). Completeness applies
    /// only to its own experimental-information family, not to every catalog.
    ClassicalSid,
    /// Classical multi-source meta-transportability with full source experiments.
    MetaSid,
    /// Sound search over a finite supplied catalog. Not a completeness theorem.
    FiniteCatalogSearch,
    /// Limited-experiment contracts. Named so they cannot inherit classical sID
    /// completeness by accident.
    LimitedExperiment,
    /// Single-source z-transportability (experiments on a declared controllable set).
    ZTransportability,
}

impl TheoremFamily {
    /// The name as text.
    pub open spec fn name(self) -> Seq<char> {
        match self {
            TheoremFamily::ClassicalSid => "classical_sid"@,
            TheoremFamily::MetaSid => "meta_sid"@,
            TheoremFamily::FiniteCatalogSearch => "finite_catalog_search"@,
            TheoremFamily::LimitedExperiment => "limited_experiment"@,
            TheoremFamily::ZTransportability => "z_transportability"@,
        }
    }

    /// Stable `snake_case` name.
    #[must_use]
    pub fn as_str(self) -> (out: &'static str)
        ensures
            out@ == self.name(),
    {
        match self {
            TheoremFamily::ClassicalSid => "classical_sid",
            TheoremFamily::MetaSid => "meta_sid",
            TheoremFamily::FiniteCatalogSearch => "finite_catalog_search",
            TheoremFamily::LimitedExperiment => "limited_experiment",
            TheoremFamily::ZTransportability => "z_transportability",
        }
    }
}

/// Different variants of [`TheoremFamily`] have different names.
pub proof fn law_theorem_family_names_are_distinct(a: TheoremFamily, b: TheoremFamily)
    requires
        a.name() == b.name(),
    ensures
        a == b,
{
    reveal_strlit("classical_sid");
    assert("classical_sid"@.len() == 13 && "classical_sid"@[0] == 'c');
    reveal_strlit("meta_sid");
    assert("meta_sid"@.len() == 8 && "meta_sid"@[0] == 'm');
    reveal_strlit("finite_catalog_search");
    assert("finite_catalog_search"@.len() == 21 && "finite_catalog_search"@[0] == 'f');
    reveal_strlit("limited_experiment");
    assert("limited_experiment"@.len() == 18 && "limited_experiment"@[0] == 'l');
    reveal_strlit("z_transportability");
    assert("z_transportability"@.len() == 18 && "z_transportability"@[0] == 'z');
}

/// Pinned citation and version for a theorem family.
#[derive(Clone, Debug, PartialEq, Eq)]
pub struct TheoremReference {
    /// Bibliographic or arXiv identifier.
    pub citation: String,
    /// Implementation-pinned version tag.
    pub version: String,
}

/// Graph assumptions the theorem takes as given.
#[derive(Clone, Copy, Debug, PartialEq, Eq, Hash, Structural)]
pub enum GraphAssumptionSet {
    /// Semi-Markovian mixed graph with explicit selection targets.
    SemiMarkovianSelectionAdmg,
}

impl GraphAssumptionSet {
    /// The name as text.
    pub open spec fn name(self) -> Seq<char> {
        match self {
            GraphAssumptionSet::SemiMarkovianSelectionAdmg => "semi_markovian_selection_admg"@,
        }
    }

    /// Stable `snake_case` name.
    #[must_use]
    pub fn as_str(self) -> (out: &'static str)
        ensures
            out@ == self.name(),
    {
        match self {
            GraphAssumptionSet::SemiMarkovianSelectionAdmg => "semi_markovian_selection_admg",
        }
    }
}
/// Experiments the theorem treats as available.
#[derive(Clone, Copy, Debug, PartialEq, Eq, Hash, Structural)]
pub enum ExperimentFamily {
    /// The theorem's own experimental-information setting.
    TheoremExperiments,
    /// Only the finite catalog the caller supplied.
    SuppliedCatalog,
}

impl ExperimentFamily {
    /// The name as text.
    pub open spec fn name(self) -> Seq<char> {
        match self {
            ExperimentFamily::TheoremExperiments => "theorem_experiments"@,
            ExperimentFamily::SuppliedCatalog => "supplied_catalog"@,
        }
    }

    /// Stable `snake_case` name.
    #[must_use]
    pub fn as_str(self) -> (out: &'static str)
        ensures
            out@ == self.name(),
    {
        match self {
            ExperimentFamily::TheoremExperiments => "theorem_experiments",
            ExperimentFamily::SuppliedCatalog => "supplied_catalog",
        }
    }
}

/// Different variants of [`ExperimentFamily`] have different names.
pub proof fn law_experiment_family_names_are_distinct(a: ExperimentFamily, b: ExperimentFamily)
    requires
        a.name() == b.name(),
    ensures
        a == b,
{
    reveal_strlit("theorem_experiments");
    assert("theorem_experiments"@.len() == 19);
    reveal_strlit("supplied_catalog");
    assert("supplied_catalog"@.len() == 16);
}
/// Distributional family the theorem is stated over.
#[derive(Clone, Copy, Debug, PartialEq, Eq, Hash, Structural)]
pub enum TransportDistributionFamily {
    /// Positive discrete or density laws as in classical sID.
    PositiveLaws,
    /// Finite nonnegative tables supplied as exact laws.
    FiniteExactTables,
}

impl TransportDistributionFamily {
    /// The name as text.
    pub open spec fn name(self) -> Seq<char> {
        match self {
            TransportDistributionFamily::PositiveLaws => "positive_laws"@,
            TransportDistributionFamily::FiniteExactTables => "finite_exact_tables"@,
        }
    }

    /// Stable `snake_case` name.
    #[must_use]
    pub fn as_str(self) -> (out: &'static str)
        ensures
            out@ == self.name(),
    {
        match self {
            TransportDistributionFamily::PositiveLaws => "positive_laws",
            TransportDistributionFamily::FiniteExactTables => "finite_exact_tables",
        }
    }
}

/// Different variants of [`TransportDistributionFamily`] have different names.
pub proof fn law_transport_distribution_family_names_are_distinct(a: TransportDistributionFamily, b: TransportDistributionFamily)
    requires
        a.name() == b.name(),
    ensures
        a == b,
{
    reveal_strlit("positive_laws");
    assert("positive_laws"@.len() == 13);
    reveal_strlit("finite_exact_tables");
    assert("finite_exact_tables"@.len() == 19);
}
/// Queries the theorem is stated for.
#[derive(Clone, Copy, Debug, PartialEq, Eq, Hash, Structural)]
pub enum TransportQueryScope {
    /// Interventional response in a named target population.
    TargetInterventionalResponse,
}

impl TransportQueryScope {
    /// The name as text.
    pub open spec fn name(self) -> Seq<char> {
        match self {
            TransportQueryScope::TargetInterventionalResponse => "target_interventional_response"@,
        }
    }

    /// Stable `snake_case` name.
    #[must_use]
    pub fn as_str(self) -> (out: &'static str)
        ensures
            out@ == self.name(),
    {
        match self {
            TransportQueryScope::TargetInterventionalResponse => "target_interventional_response",
        }
    }
}
/// What a successful run of the family is allowed to claim.
#[derive(Clone, Copy, Debug, PartialEq, Eq, Hash, Structural)]
pub enum OutcomeGuarantee {
    /// Complete for the stated mathematical input family only.
    CompleteForStatedFamily,
    /// Sound and incomplete. Not certified is not impossibility.
    SoundIncomplete,
}

impl OutcomeGuarantee {
    /// The name as text.
    pub open spec fn name(self) -> Seq<char> {
        match self {
            OutcomeGuarantee::CompleteForStatedFamily => "complete_for_stated_family"@,
            OutcomeGuarantee::SoundIncomplete => "sound_incomplete"@,
        }
    }

    /// Stable `snake_case` name.
    #[must_use]
    pub fn as_str(self) -> (out: &'static str)
        ensures
            out@ == self.name(),
    {
        match self {
            OutcomeGuarantee::CompleteForStatedFamily => "complete_for_stated_family",
            OutcomeGuarantee::SoundIncomplete => "sound_incomplete",
        }
    }
}

/// Different variants of [`OutcomeGuarantee`] have different names.
pub proof fn law_outcome_guarantee_names_are_distinct(a: OutcomeGuarantee, b: OutcomeGuarantee)
    requires
        a.name() == b.name(),
    ensures
        a == b,
{
    reveal_strlit("complete_for_stated_family");
    assert("complete_for_stated_family"@.len() == 26);
    reveal_strlit("sound_incomplete");
    assert("sound_incomplete"@.len() == 16);
}
/// Implemented computation limits. Exhaustion is never an impossibility claim.
#[derive(Clone, Copy, Debug, PartialEq, Eq, Hash, Structural)]
pub struct ComputationLimits {
    /// Maximum standardizer-candidate count before failing closed.
    pub max_standardizer_candidates: u32,
    /// Whether multi-node c-component recursion is implemented.
    pub multi_node_c_component_recursion: bool,
}

/// Exact theorem scope for one transport family.
#[derive(Clone, Debug, PartialEq, Eq)]
pub struct TheoremScope {
    /// Family this record describes.
    pub family: TheoremFamily,
    /// Pinned reference.
    pub reference: TheoremReference,
    /// Graph assumptions.
    pub graph_assumptions: GraphAssumptionSet,
    /// Variables treated as observed.
    pub observed: Vec<VariableId>,
    /// Experiments the family treats as given.
    pub allowed_experiments: ExperimentFamily,
    /// Distributional family.
    pub distribution_family: TransportDistributionFamily,
    /// Query scope.
    pub query_scope: TransportQueryScope,
    /// Outcome guarantees.
    pub outcome_guarantees: OutcomeGuarantee,
    /// Implemented computation limits.
    pub computation_limits: ComputationLimits,
}

impl TheoremScope {
    /// Scope with no observed variables fixed, twenty standardizer candidates, and
    /// the one graph class and query scope there is.
    pub open spec fn states(
        self,
        family: TheoremFamily,
        citation: Seq<char>,
        version: Seq<char>,
        experiments: ExperimentFamily,
        laws: TransportDistributionFamily,
        guarantee: OutcomeGuarantee,
        recursion: bool,
    ) -> bool {
        &&& self.family == family
        &&& self.reference.citation@ == citation
        &&& self.reference.version@ == version
        &&& self.graph_assumptions is SemiMarkovianSelectionAdmg
        &&& self.observed@.len() == 0
        &&& self.allowed_experiments == experiments
        &&& self.distribution_family == laws
        &&& self.query_scope is TargetInterventionalResponse
        &&& self.outcome_guarantees == guarantee
        &&& self.computation_limits == (ComputationLimits {
            max_standardizer_candidates: 20,
            multi_node_c_component_recursion: recursion,
        })
    }

    fn state(
        family: TheoremFamily,
        citation: &str,
        version: &str,
        experiments: ExperimentFamily,
        laws: TransportDistributionFamily,
        guarantee: OutcomeGuarantee,
        recursion: bool,
    ) -> (scope: Self)
        ensures
            scope.states(family, citation@, version@, experiments, laws, guarantee, recursion),
    {
        TheoremScope {
            family,
            reference: TheoremReference {
                citation: citation.to_owned(),
                version: version.to_owned(),
            },
            graph_assumptions: GraphAssumptionSet::SemiMarkovianSelectionAdmg,
            observed: Vec::new(),
            allowed_experiments: experiments,
            distribution_family: laws,
            query_scope: TransportQueryScope::TargetInterventionalResponse,
            outcome_guarantees: guarantee,
            computation_limits: ComputationLimits {
                max_standardizer_candidates: 20,
                multi_node_c_component_recursion: recursion,
            },
        }
    }

    /// Sound subset used by the conservative identifier: no multi-node c-component
    /// recursion. Completeness is not claimed.
    #[must_use]
    pub fn classical_sid() -> (scope: Self)
        ensures
            scope.states(
                TheoremFamily::ClassicalSid,
                "Bareinboim & Pearl, A General Algorithm for Deciding Transportability of Experimental Results, arXiv:1312.7485v1"@,
                "classical-sid-t1"@,
                ExperimentFamily::TheoremExperiments,
                TransportDistributionFamily::PositiveLaws,
                OutcomeGuarantee::SoundIncomplete,
                false,
            ),
    {
        TheoremScope::state(
            TheoremFamily::ClassicalSid,
            "Bareinboim & Pearl, A General Algorithm for Deciding Transportability of Experimental Results, arXiv:1312.7485v1",
            "classical-sid-t1",
            ExperimentFamily::TheoremExperiments,
            TransportDistributionFamily::PositiveLaws,
            OutcomeGuarantee::SoundIncomplete,
            false,
        )
    }

    /// Classical single-source family with full recursion. Completeness applies only to
    /// its own experimental-information setting.
    #[must_use]
    pub fn classical_sid_complete() -> (scope: Self)
        ensures
            scope.states(
                TheoremFamily::ClassicalSid,
                "Bareinboim & Pearl, A General Algorithm for Deciding Transportability of Experimental Results, arXiv:1312.7485v1"@,
                "classical-sid-t3"@,
                ExperimentFamily::TheoremExperiments,
                TransportDistributionFamily::PositiveLaws,
                OutcomeGuarantee::CompleteForStatedFamily,
                true,
            ),
    {
        TheoremScope::state(
            TheoremFamily::ClassicalSid,
            "Bareinboim & Pearl, A General Algorithm for Deciding Transportability of Experimental Results, arXiv:1312.7485v1",
            "classical-sid-t3",
            ExperimentFamily::TheoremExperiments,
            TransportDistributionFamily::PositiveLaws,
            OutcomeGuarantee::CompleteForStatedFamily,
            true,
        )
    }

    /// Bounded search over a supplied catalog. Missing a factor is not a proof that no
    /// alternative catalog-supported formula exists.
    #[must_use]
    pub fn finite_catalog_search() -> (scope: Self)
        ensures
            scope.states(
                TheoremFamily::FiniteCatalogSearch,
                "Bareinboim & Pearl, A General Algorithm for Deciding Transportability of Experimental Results, arXiv:1312.7485v1; finite-catalog search is implemented, not a completeness theorem"@,
                "finite-catalog-search-bounded"@,
                ExperimentFamily::SuppliedCatalog,
                TransportDistributionFamily::FiniteExactTables,
                OutcomeGuarantee::SoundIncomplete,
                true,
            ),
    {
        TheoremScope::state(
            TheoremFamily::FiniteCatalogSearch,
            "Bareinboim & Pearl, A General Algorithm for Deciding Transportability of Experimental Results, arXiv:1312.7485v1; finite-catalog search is implemented, not a completeness theorem",
            "finite-catalog-search-bounded",
            ExperimentFamily::SuppliedCatalog,
            TransportDistributionFamily::FiniteExactTables,
            OutcomeGuarantee::SoundIncomplete,
            true,
        )
    }

    /// Meta-transportability: complete only in the unrestricted source-experiment
    /// setting.
    #[must_use]
    pub fn meta_sid_complete() -> (scope: Self)
        ensures
            scope.states(
                TheoremFamily::MetaSid,
                "Bareinboim & Pearl (2013), Meta-Transportability of Causal Effects, PMLR 31:135-143, Figure 5, Theorems 3-5"@,
                "meta-sid-pmlr31-2013-figure5-v1"@,
                ExperimentFamily::TheoremExperiments,
                TransportDistributionFamily::PositiveLaws,
                OutcomeGuarantee::CompleteForStatedFamily,
                true,
            ),
    {
        TheoremScope::state(
            TheoremFamily::MetaSid,
            "Bareinboim & Pearl (2013), Meta-Transportability of Causal Effects, PMLR 31:135-143, Figure 5, Theorems 3-5",
            "meta-sid-pmlr31-2013-figure5-v1",
            ExperimentFamily::TheoremExperiments,
            TransportDistributionFamily::PositiveLaws,
            OutcomeGuarantee::CompleteForStatedFamily,
            true,
        )
    }

    /// Bounded single-source z-transportability research scope.
    ///
    /// The implementation is sound but incomplete, so completeness is not advertised.
    /// Evidence binding is a separate execution step.
    #[must_use]
    pub fn z_transportability() -> (scope: Self)
        ensures
            scope.states(
                TheoremFamily::ZTransportability,
                "Lee & Honavar, Causal Transportability of Experiments on Controllable Subsets of Variables: z-Transportability, UAI 2013, arXiv:1309.6842"@,
                "lee-honavar-sidz-uai2013-bounded-v1"@,
                ExperimentFamily::TheoremExperiments,
                TransportDistributionFamily::FiniteExactTables,
                OutcomeGuarantee::SoundIncomplete,
                true,
            ),
    {
        TheoremScope::state(
            TheoremFamily::ZTransportability,
            "Lee & Honavar, Causal Transportability of Experiments on Controllable Subsets of Variables: z-Transportability, UAI 2013, arXiv:1309.6842",
            "lee-honavar-sidz-uai2013-bounded-v1",
            ExperimentFamily::TheoremExperiments,
            TransportDistributionFamily::FiniteExactTables,
            OutcomeGuarantee::SoundIncomplete,
            true,
        )
    }

    /// Durable inspect token used by exact-law preparation.
    #[must_use]
    pub fn exact_law_inspect_label() -> (label: &'static str)
        ensures
            label@ == "classical_single_source_all_experiments_v1; finite_catalog_search_bounded"@,
    {
        "classical_single_source_all_experiments_v1; finite_catalog_search_bounded"
    }

    /// Durable inspect token used by empirical-table preparation.
    #[must_use]
    pub fn statistical_table_inspect_label() -> (label: &'static str)
        ensures
            label@ == "classical_single_source_all_experiments_v1; empirical_table_plugin_iid"@,
    {
        "classical_single_source_all_experiments_v1; empirical_table_plugin_iid"
    }
}

/// Optional factor or graph location attached to a [`TransportOutcome`].
#[derive(Clone, Debug, PartialEq, Eq)]
pub struct TransportLocation {
    /// Stable factor id when the outcome names one leaf or kernel.
    pub factor: Option<String>,
    /// Graph or selection nodes witnessing the outcome.
    pub graph_nodes: Vec<VariableId>,
}

impl TransportLocation {
    /// Location that names only graph nodes.
    #[must_use]
    pub fn nodes(nodes: Vec<VariableId>) -> (location: Self)
        ensures
            location == (TransportLocation { factor: None, graph_nodes: nodes }),
    {
        TransportLocation { factor: None, graph_nodes: nodes }
    }
}

/// Stable kind of a transport result. Callers match this; they must not parse prose.
#[derive(Clone, Copy, Debug, PartialEq, Eq, Hash, Structural)]
pub enum TransportOutcomeKind {
    /// A sound implemented rule produced a formula.
    Identified,
    /// A checked impossibility witness for the named theorem family.
    ProvenNonTransportable,
    /// No implemented sound rule applies.
    NotCertified,
    /// Query, diagram, or catalog failed validation.
    InvalidInput,
    /// A required available regime or provider input is absent.
    MissingEvidence,
    /// A statistical provider required by a certified factor is absent.
    MissingProvider,
    /// The formula is identified but this evaluator does not run it.
    UnsupportedEvaluator,
    /// A stage-specific support coordinate failed.
    SupportFailure,
    /// Evaluation failed numerically after a certified formula.
    NumericalFailure,
    /// Step, memory, recursion, or cancellation budget exhausted.
    BudgetCancel,
}

impl TransportOutcomeKind {
    /// The name as text.
    pub open spec fn name(self) -> Seq<char> {
        match self {
            TransportOutcomeKind::Identified => "identified"@,
            TransportOutcomeKind::ProvenNonTransportable => "proven_non_transportable"@,
            TransportOutcomeKind::NotCertified => "not_certified"@,
            TransportOutcomeKind::InvalidInput => "invalid_input"@,
            TransportOutcomeKind::MissingEvidence => "missing_evidence"@,
            TransportOutcomeKind::MissingProvider => "missing_provider"@,
            TransportOutcomeKind::UnsupportedEvaluator => "unsupported_evaluator"@,
            TransportOutcomeKind::SupportFailure => "support_failure"@,
            TransportOutcomeKind::NumericalFailure => "numerical_failure"@,
            TransportOutcomeKind::BudgetCancel => "budget_cancel"@,
        }
    }

    /// Every variant, in declaration order.
    pub fn all() -> (list: [TransportOutcomeKind; 10])
        ensures
            list@ == seq![
                TransportOutcomeKind::Identified,
                TransportOutcomeKind::ProvenNonTransportable,
                TransportOutcomeKind::NotCertified,
                TransportOutcomeKind::InvalidInput,
                TransportOutcomeKind::MissingEvidence,
                TransportOutcomeKind::MissingProvider,
                TransportOutcomeKind::UnsupportedEvaluator,
                TransportOutcomeKind::SupportFailure,
                TransportOutcomeKind::NumericalFailure,
                TransportOutcomeKind::BudgetCancel,
            ],
            forall|x: TransportOutcomeKind| #[trigger] list@.contains(x),
    {
        let list: [TransportOutcomeKind; 10] = [
            TransportOutcomeKind::Identified,
            TransportOutcomeKind::ProvenNonTransportable,
            TransportOutcomeKind::NotCertified,
            TransportOutcomeKind::InvalidInput,
            TransportOutcomeKind::MissingEvidence,
            TransportOutcomeKind::MissingProvider,
            TransportOutcomeKind::UnsupportedEvaluator,
            TransportOutcomeKind::SupportFailure,
            TransportOutcomeKind::NumericalFailure,
            TransportOutcomeKind::BudgetCancel,
        ];
        proof {
            assert(list@ =~= seq![
                TransportOutcomeKind::Identified,
                TransportOutcomeKind::ProvenNonTransportable,
                TransportOutcomeKind::NotCertified,
                TransportOutcomeKind::InvalidInput,
                TransportOutcomeKind::MissingEvidence,
                TransportOutcomeKind::MissingProvider,
                TransportOutcomeKind::UnsupportedEvaluator,
                TransportOutcomeKind::SupportFailure,
                TransportOutcomeKind::NumericalFailure,
                TransportOutcomeKind::BudgetCancel,
            ]);
            assert forall|x: TransportOutcomeKind| #[trigger] list@.contains(x) by {
                match x {
                    TransportOutcomeKind::Identified => assert(list@[0] == x),
                    TransportOutcomeKind::ProvenNonTransportable => assert(list@[1] == x),
                    TransportOutcomeKind::NotCertified => assert(list@[2] == x),
                    TransportOutcomeKind::InvalidInput => assert(list@[3] == x),
                    TransportOutcomeKind::MissingEvidence => assert(list@[4] == x),
                    TransportOutcomeKind::MissingProvider => assert(list@[5] == x),
                    TransportOutcomeKind::UnsupportedEvaluator => assert(list@[6] == x),
                    TransportOutcomeKind::SupportFailure => assert(list@[7] == x),
                    TransportOutcomeKind::NumericalFailure => assert(list@[8] == x),
                    TransportOutcomeKind::BudgetCancel => assert(list@[9] == x),
                }
            }
        }
        list
    }

    /// Stable `snake_case` name.
    #[must_use]
    pub fn as_str(self) -> (out: &'static str)
        ensures
            out@ == self.name(),
    {
        match self {
            TransportOutcomeKind::Identified => "identified",
            TransportOutcomeKind::ProvenNonTransportable => "proven_non_transportable",
            TransportOutcomeKind::NotCertified => "not_certified",
            TransportOutcomeKind::InvalidInput => "invalid_input",
            TransportOutcomeKind::MissingEvidence => "missing_evidence",
            TransportOutcomeKind::MissingProvider => "missing_provider",
            TransportOutcomeKind::UnsupportedEvaluator => "unsupported_evaluator",
            TransportOutcomeKind::SupportFailure => "support_failure",
            TransportOutcomeKind::NumericalFailure => "numerical_failure",
            TransportOutcomeKind::BudgetCancel => "budget_cancel",
        }
    }

    /// Inverse of [`Self::as_str`]; `None` for any other text.
    #[must_use]
    pub fn from_name(name: &str) -> (found: Option<Self>)
        ensures
            match found {
                Some(x) => x.name() == name@,
                None => forall|x: TransportOutcomeKind| #[trigger] x.name() != name@,
            },
    {
        if text::str_eq(name, "identified") {
            Some(TransportOutcomeKind::Identified)
        } else if text::str_eq(name, "proven_non_transportable") {
            Some(TransportOutcomeKind::ProvenNonTransportable)
        } else if text::str_eq(name, "not_certified") {
            Some(TransportOutcomeKind::NotCertified)
        } else if text::str_eq(name, "invalid_input") {
            Some(TransportOutcomeKind::InvalidInput)
        } else if text::str_eq(name, "missing_evidence") {
            Some(TransportOutcomeKind::MissingEvidence)
        } else if text::str_eq(name, "missing_provider") {
            Some(TransportOutcomeKind::MissingProvider)
        } else if text::str_eq(name, "unsupported_evaluator") {
            Some(TransportOutcomeKind::UnsupportedEvaluator)
        } else if text::str_eq(name, "support_failure") {
            Some(TransportOutcomeKind::SupportFailure)
        } else if text::str_eq(name, "numerical_failure") {
            Some(TransportOutcomeKind::NumericalFailure)
        } else if text::str_eq(name, "budget_cancel") {
            Some(TransportOutcomeKind::BudgetCancel)
        } else {
            None
        }
    }
}

/// Different variants of [`TransportOutcomeKind`] have different names.
pub proof fn law_transport_outcome_kind_names_are_distinct(a: TransportOutcomeKind, b: TransportOutcomeKind)
    requires
        a.name() == b.name(),
    ensures
        a == b,
{
    reveal_strlit("identified");
    assert("identified"@.len() == 10);
    reveal_strlit("proven_non_transportable");
    assert("proven_non_transportable"@.len() == 24 && "proven_non_transportable"@[10] == '_');
    reveal_strlit("not_certified");
    assert("not_certified"@.len() == 13 && "not_certified"@[10] == 'i');
    reveal_strlit("invalid_input");
    assert("invalid_input"@.len() == 13 && "invalid_input"@[10] == 'p');
    reveal_strlit("missing_evidence");
    assert("missing_evidence"@.len() == 16 && "missing_evidence"@[10] == 'i');
    reveal_strlit("missing_provider");
    assert("missing_provider"@.len() == 16 && "missing_provider"@[10] == 'o');
    reveal_strlit("unsupported_evaluator");
    assert("unsupported_evaluator"@.len() == 21 && "unsupported_evaluator"@[10] == 'd');
    reveal_strlit("support_failure");
    assert("support_failure"@.len() == 15 && "support_failure"@[10] == 'i');
    reveal_strlit("numerical_failure");
    assert("numerical_failure"@.len() == 17 && "numerical_failure"@[10] == 'f');
    reveal_strlit("budget_cancel");
    assert("budget_cancel"@.len() == 13 && "budget_cancel"@[10] == 'c');
}

/// Typed transport result. Callers match [`Self::kind`]; they must not parse prose.
#[derive(Clone, Debug, PartialEq, Eq)]
pub struct TransportOutcome {
    /// Stable variant.
    pub kind: TransportOutcomeKind,
    /// Stable reason id. Not a display string.
    pub reason: String,
    /// Optional factor or graph location.
    pub location: Option<TransportLocation>,
}

impl TransportOutcome {
    /// An outcome of `kind` for `reason`, located at graph nodes or nowhere.
    pub open spec fn tells(
        self,
        kind: TransportOutcomeKind,
        reason: Seq<char>,
        nodes: Option<Vec<VariableId>>,
    ) -> bool {
        &&& self.kind == kind
        &&& self.reason@ == reason
        &&& self.location == match nodes {
            Some(graph_nodes) => Some(TransportLocation { factor: None, graph_nodes }),
            None => None,
        }
    }

    /// Construct an outcome.
    #[must_use]
    pub fn new(kind: TransportOutcomeKind, reason: &str, location: Option<TransportLocation>) -> (outcome:
        Self)
        ensures
            outcome.kind == kind,
            outcome.reason@ == reason@,
            outcome.location == location,
    {
        TransportOutcome { kind, reason: reason.to_owned(), location }
    }

    /// Identified by a named rule.
    #[must_use]
    pub fn identified(reason: &str) -> (outcome: Self)
        ensures
            outcome.tells(TransportOutcomeKind::Identified, reason@, None),
    {
        TransportOutcome::new(TransportOutcomeKind::Identified, reason, None)
    }

    /// Verified impossibility witness. Distinct from [`Self::not_certified`].
    #[must_use]
    pub fn proven_non_transportable(reason: &str, location: Vec<VariableId>) -> (outcome: Self)
        ensures
            outcome.tells(TransportOutcomeKind::ProvenNonTransportable, reason@, Some(location)),
    {
        TransportOutcome::new(TransportOutcomeKind::ProvenNonTransportable, reason, Some(TransportLocation::nodes(location)))
    }

    /// No implemented sound rule.
    #[must_use]
    pub fn not_certified(reason: &str, location: Vec<VariableId>) -> (outcome: Self)
        ensures
            outcome.tells(TransportOutcomeKind::NotCertified, reason@, Some(location)),
    {
        TransportOutcome::new(TransportOutcomeKind::NotCertified, reason, Some(TransportLocation::nodes(location)))
    }

    /// Required available evidence is absent.
    #[must_use]
    pub fn missing_evidence(reason: &str, location: Vec<VariableId>) -> (outcome: Self)
        ensures
            outcome.tells(TransportOutcomeKind::MissingEvidence, reason@, Some(location)),
    {
        TransportOutcome::new(TransportOutcomeKind::MissingEvidence, reason, Some(TransportLocation::nodes(location)))
    }

    /// A certified leaf has no supplied law and no bound sample.
    #[must_use]
    pub fn missing_provider(reason: &str) -> (outcome: Self)
        ensures
            outcome.tells(TransportOutcomeKind::MissingProvider, reason@, None),
    {
        TransportOutcome::new(TransportOutcomeKind::MissingProvider, reason, None)
    }
}

/// Identify-stage support coordinate. Not an `analyze` capability.
#[derive(Clone, Debug, PartialEq, Eq)]
pub struct TransportIdentifySupport {
    /// Graph class.
    pub graph_class: String,
    /// Evidence setting.
    pub evidence_setting: String,
    /// Target functional.
    pub target_functional: String,
    /// Observation contract.
    pub observation_contract: String,
}

/// Evaluate-stage support coordinate.
#[derive(Clone, Debug, PartialEq, Eq)]
pub struct TransportEvaluateSupport {
    /// Evaluator id.
    pub evaluator: String,
    /// Evidence setting the evaluator consumes.
    pub evidence_setting: String,
    /// Target functional.
    pub target_functional: String,
}

/// Uncertainty-stage support coordinate.
#[derive(Clone, Debug, PartialEq, Eq)]
pub struct TransportUncertaintySupport {
    /// Uncertainty method.
    pub uncertainty_method: String,
    /// Evaluator the method attaches to.
    pub evaluator: String,
    /// Observation contract.
    pub observation_contract: String,
}

/// Stage-specific transport support. Do not collapse these into one analyze cell.
#[derive(Clone, Debug, PartialEq, Eq)]
pub enum TransportSupportCoordinate {
    /// Identification support.
    Identify(TransportIdentifySupport),
    /// Evaluation support.
    Evaluate(TransportEvaluateSupport),
    /// Uncertainty support.
    Uncertainty(TransportUncertaintySupport),
}

impl TransportSupportCoordinate {
    /// The stage name as text.
    pub open spec fn stage_name(self) -> Seq<char> {
        match self {
            TransportSupportCoordinate::Identify(_) => "identify"@,
            TransportSupportCoordinate::Evaluate(_) => "evaluate"@,
            TransportSupportCoordinate::Uncertainty(_) => "uncertainty"@,
        }
    }

    /// Stage name.
    #[must_use]
    pub fn stage(&self) -> (out: &'static str)
        ensures
            out@ == self.stage_name(),
    {
        match self {
            TransportSupportCoordinate::Identify(_) => "identify",
            TransportSupportCoordinate::Evaluate(_) => "evaluate",
            TransportSupportCoordinate::Uncertainty(_) => "uncertainty",
        }
    }
}

/// No support coordinate is an `analyze` cell.
pub proof fn law_no_stage_is_analyze(coordinate: TransportSupportCoordinate)
    ensures
        coordinate.stage_name() != "analyze"@,
{
    reveal_strlit("analyze");
    reveal_strlit("identify");
    reveal_strlit("evaluate");
    reveal_strlit("uncertainty");
    assert("analyze"@.len() == 7);
    assert("identify"@.len() == 8);
    assert("evaluate"@.len() == 8);
    assert("uncertainty"@.len() == 11);
}

} // verus!
