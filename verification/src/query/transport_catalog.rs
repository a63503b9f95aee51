//! Supplied transport evidence catalogs.
//!
//! SPDX-License-Identifier: MIT OR Apache-2.0

use crate::ids;
use crate::ids::{RegimeId, VariableId};
use crate::query::error;
use crate::query::error::{QueryError, QueryFault};
use crate::query::evidence;
use crate::query::evidence::{
    CoordinateView, DistributionAvailability, Environment, EnvironmentView, EvidenceKind,
    EvidenceRegime, FactorNeed, RegimeKind, RegimeView, VariableCoordinate, VariableDomain,
};
use crate::text;
use vstd::prelude::*;

verus! {

/// How units in a bound table relate to other studies.
#[derive(Clone, Copy, Debug, PartialEq, Eq, Hash, Structural)]
pub enum DependenceGroup {
    /// Known independent studies.
    IndependentStudies,
    /// Linked units across tables.
    LinkedUnits,
    /// Dependence is unknown.
    UnknownDependence,
}

impl DependenceGroup {
    /// The name as text.
    pub open spec fn name(self) -> Seq<char> {
        match self {
            DependenceGroup::IndependentStudies => "independent_studies"@,
            DependenceGroup::LinkedUnits => "linked_units"@,
            DependenceGroup::UnknownDependence => "unknown_dependence"@,
        }
    }

    /// Stable `snake_case` name.
    #[must_use]
    pub fn as_str(self) -> (out: &'static str)
        ensures
            out@ == self.name(),
    {
        match self {
            DependenceGroup::IndependentStudies => "independent_studies",
            DependenceGroup::LinkedUnits => "linked_units",
            DependenceGroup::UnknownDependence => "unknown_dependence",
        }
    }
}

/// Different variants of [`DependenceGroup`] have different names.
pub proof fn law_dependence_group_names_are_distinct(a: DependenceGroup, b: DependenceGroup)
    requires
        a.name() == b.name(),
    ensures
        a == b,
{
    reveal_strlit("independent_studies");
    assert("independent_studies"@.len() == 19);
    reveal_strlit("linked_units");
    assert("linked_units"@.len() == 12);
    reveal_strlit("unknown_dependence");
    assert("unknown_dependence"@.len() == 18);
}
/// Sampling design recorded on a regime binding.
#[derive(Clone, Copy, Debug, PartialEq, Eq, Hash, Structural)]
pub enum SamplingDesign {
    /// Independent draws from the named population.
    Independent,
    /// Clustered or otherwise dependent draws.
    Clustered,
    /// Unknown design.
    Unknown,
}

impl SamplingDesign {
    /// The name as text.
    pub open spec fn name(self) -> Seq<char> {
        match self {
            SamplingDesign::Independent => "independent"@,
            SamplingDesign::Clustered => "clustered"@,
            SamplingDesign::Unknown => "unknown"@,
        }
    }

    /// Stable `snake_case` name.
    #[must_use]
    pub fn as_str(self) -> (out: &'static str)
        ensures
            out@ == self.name(),
    {
        match self {
            SamplingDesign::Independent => "independent",
            SamplingDesign::Clustered => "clustered",
            SamplingDesign::Unknown => "unknown",
        }
    }
}

/// Different variants of [`SamplingDesign`] have different names.
pub proof fn law_sampling_design_names_are_distinct(a: SamplingDesign, b: SamplingDesign)
    requires
        a.name() == b.name(),
    ensures
        a == b,
{
    reveal_strlit("independent");
    assert("independent"@.len() == 11);
    reveal_strlit("clustered");
    assert("clustered"@.len() == 9);
    reveal_strlit("unknown");
    assert("unknown"@.len() == 7);
}
/// Licensed weights attached to a regime binding.
#[derive(Clone, Debug, PartialEq, Eq)]
pub struct LicensedWeights {
    /// Snapshot identity the weights were written for.
    pub snapshot_identity: String,
}

/// Bind a dataset or table to one regime.
#[derive(Clone, Debug, PartialEq, Eq)]
pub struct RegimeBinding {
    /// Shared underlying dataset identity for explicitly forwarded study copies.
    /// Aliases must contain the same rows, worlds and sampling contract.
    pub dataset_identity: Option<String>,
    /// Regime this snapshot satisfies.
    pub regime: RegimeId,
    /// Snapshot identity.
    pub snapshot_identity: String,
    /// Schema names in column order.
    pub schema_names: Vec<String>,
    /// Sampling design.
    pub sampling: SamplingDesign,
    /// Optional licensed weights.
    pub weights: Option<LicensedWeights>,
    /// Unit, cluster or dependence group.
    pub dependence: DependenceGroup,
}

/// Mathematical form of [`RegimeBinding`].
#[verifier::ext_equal]
pub struct BindingView {
    /// Dataset identity.
    pub dataset_identity: Option<Seq<char>>,
    /// Bound regime.
    pub regime: RegimeId,
    /// Snapshot identity.
    pub snapshot_identity: Seq<char>,
    /// Schema names.
    pub schema_names: Seq<Seq<char>>,
    /// Sampling design.
    pub sampling: SamplingDesign,
    /// Snapshot the weights were written for.
    pub weights: Option<Seq<char>>,
    /// Dependence group.
    pub dependence: DependenceGroup,
}

impl View for RegimeBinding {
    type V = BindingView;

    open spec fn view(&self) -> BindingView {
        BindingView {
            dataset_identity: text::text_of(self.dataset_identity),
            regime: self.regime,
            snapshot_identity: self.snapshot_identity@,
            schema_names: text::texts(self.schema_names@),
            sampling: self.sampling,
            weights: match self.weights {
                Some(weights) => Some(weights.snapshot_identity@),
                None => None,
            },
            dependence: self.dependence,
        }
    }
}

impl RegimeBinding {
    /// Copy of this binding.
    #[must_use]
    pub fn duplicate(&self) -> (copy: Self)
        ensures
            copy@ == self@,
    {
        RegimeBinding {
            dataset_identity: text::copied_option(&self.dataset_identity),
            regime: self.regime,
            snapshot_identity: self.snapshot_identity.clone(),
            schema_names: text::copied(&self.schema_names),
            sampling: self.sampling,
            weights: match &self.weights {
                Some(weights) => Some(
                    LicensedWeights { snapshot_identity: weights.snapshot_identity.clone() },
                ),
                None => None,
            },
            dependence: self.dependence,
        }
    }
}

/// How the target population law is supplied.
///
/// A convenience sample is not automatically representative.
#[derive(Clone, Copy, Debug, PartialEq, Eq, Hash, Structural)]
pub enum TargetSampling {
    /// Caller supplied the population law.
    SuppliedPopulationLaw,
    /// Representative target sample.
    RepresentativeSample,
    /// Explicitly licensed weighted design.
    LicensedWeightedDesign,
    /// Convenience sample. Not automatically representative.
    ConvenienceSample,
}

impl TargetSampling {
    /// The name as text.
    pub open spec fn name(self) -> Seq<char> {
        match self {
            TargetSampling::SuppliedPopulationLaw => "supplied_population_law"@,
            TargetSampling::RepresentativeSample => "representative_sample"@,
            TargetSampling::LicensedWeightedDesign => "licensed_weighted_design"@,
            TargetSampling::ConvenienceSample => "convenience_sample"@,
        }
    }

    /// Stable `snake_case` name.
    #[must_use]
    pub fn as_str(self) -> (out: &'static str)
        ensures
            out@ == self.name(),
    {
        match self {
            TargetSampling::SuppliedPopulationLaw => "supplied_population_law",
            TargetSampling::RepresentativeSample => "representative_sample",
            TargetSampling::LicensedWeightedDesign => "licensed_weighted_design",
            TargetSampling::ConvenienceSample => "convenience_sample",
        }
    }
}

/// Different variants of [`TargetSampling`] have different names.
pub proof fn law_target_sampling_names_are_distinct(a: TargetSampling, b: TargetSampling)
    requires
        a.name() == b.name(),
    ensures
        a == b,
{
    reveal_strlit("supplied_population_law");
    assert("supplied_population_law"@.len() == 23);
    reveal_strlit("representative_sample");
    assert("representative_sample"@.len() == 21);
    reveal_strlit("licensed_weighted_design");
    assert("licensed_weighted_design"@.len() == 24);
    reveal_strlit("convenience_sample");
    assert("convenience_sample"@.len() == 18);
}
impl TargetSampling {
    /// Whether this sampling can stand in for the target population law.
    #[must_use]
    pub fn represents_target_law(self) -> (yes: bool)
        ensures
            yes == !(self is ConvenienceSample),
    {
        match self {
            TargetSampling::SuppliedPopulationLaw => true,
            TargetSampling::RepresentativeSample => true,
            TargetSampling::LicensedWeightedDesign => true,
            TargetSampling::ConvenienceSample => false,
        }
    }
}

/// One unmet factor dependency, in stable report order.
#[derive(Clone, Debug, PartialEq, Eq)]
pub struct UnmetDependency {
    /// Stable factor id.
    pub factor_id: String,
    /// Stable reason id.
    pub reason: String,
    /// Variables the factor needed.
    pub variables: Vec<VariableId>,
}

/// Supplied evidence for one transport query. Multiple sources are first-class.
#[derive(Clone, Debug, PartialEq)]
pub struct EvidenceCatalog {
    /// Environments. Duplicate identities are rejected.
    pub environments: Vec<Environment>,
    /// Regimes. Matching names across sources never imply invariance.
    pub regimes: Vec<EvidenceRegime>,
    /// Dataset bindings.
    pub bindings: Vec<RegimeBinding>,
    /// Target-population sampling semantics.
    pub target_sampling: Option<TargetSampling>,
}

/// Mathematical form of [`EvidenceCatalog`].
#[verifier::ext_equal]
pub struct CatalogView {
    /// Environments.
    pub environments: Seq<EnvironmentView>,
    /// Regimes.
    pub regimes: Seq<RegimeView>,
    /// Bindings.
    pub bindings: Seq<BindingView>,
    /// Target sampling.
    pub target_sampling: Option<TargetSampling>,
}

/// The environments in mathematical form.
pub open spec fn environment_views(list: Seq<Environment>) -> Seq<EnvironmentView> {
    Seq::new(list.len(), |i: int| list[i]@)
}

/// The regimes in mathematical form.
pub open spec fn regime_views(list: Seq<EvidenceRegime>) -> Seq<RegimeView> {
    Seq::new(list.len(), |i: int| list[i]@)
}

/// The bindings in mathematical form.
pub open spec fn binding_views(list: Seq<RegimeBinding>) -> Seq<BindingView> {
    Seq::new(list.len(), |i: int| list[i]@)
}

impl View for EvidenceCatalog {
    type V = CatalogView;

    open spec fn view(&self) -> CatalogView {
        CatalogView {
            environments: environment_views(self.environments@),
            regimes: regime_views(self.regimes@),
            bindings: binding_views(self.bindings@),
            target_sampling: self.target_sampling,
        }
    }
}

/// Every coordinate the environments declare, in order.
pub open spec fn declared(environments: Seq<EnvironmentView>) -> Seq<CoordinateView>
    decreases environments.len(),
{
    if environments.len() == 0 {
        Seq::empty()
    } else {
        declared(environments.drop_last()) + environments.last().variables
    }
}

/// Some coordinate declares the variable.
pub open spec fn declares(listed: Seq<CoordinateView>, variable: VariableId) -> bool {
    exists|k: int| 0 <= k < listed.len() && (#[trigger] listed[k]).variable == variable
}

/// The first specified domain of a variable.
pub open spec fn settled_domain(
    listed: Seq<CoordinateView>,
    variable: VariableId,
) -> VariableDomain
    decreases listed.len(),
{
    if listed.len() == 0 {
        VariableDomain::Unspecified
    } else {
        let before = settled_domain(listed.drop_last(), variable);
        if before is Unspecified && listed.last().variable == variable {
            listed.last().domain
        } else {
            before
        }
    }
}

/// The first specified unit of a variable.
pub open spec fn settled_unit(listed: Seq<CoordinateView>, variable: VariableId) -> Option<Seq<char>>
    decreases listed.len(),
{
    if listed.len() == 0 {
        None
    } else {
        let before = settled_unit(listed.drop_last(), variable);
        if before is None && listed.last().variable == variable {
            listed.last().unit
        } else {
            before
        }
    }
}

/// What is wrong with a coordinate in the light of those declared before it: another
/// domain, or another unit.
pub open spec fn coordinate_fault(earlier: Seq<CoordinateView>, coordinate: CoordinateView) -> Option<
    QueryFault,
> {
    if !settled_domain(earlier, coordinate.variable).compatible(coordinate.domain) {
        Some(
            QueryFault::Transport(
                "catalog environments declare incompatible domains for the same variable"@,
            ),
        )
    } else if settled_unit(earlier, coordinate.variable) is Some && coordinate.unit is Some
        && settled_unit(earlier, coordinate.variable) != coordinate.unit {
        Some(
            QueryFault::Transport(
                "catalog environments declare incompatible units for the same variable"@,
            ),
        )
    } else {
        None
    }
}

/// The checks on each coordinate of an environment against those declared before it.
pub open spec fn coordinate_faults(
    earlier: Seq<CoordinateView>,
    variables: Seq<CoordinateView>,
) -> Seq<Option<QueryFault>> {
    Seq::new(variables.len(), |j: int| coordinate_fault(earlier + variables.take(j), variables[j]))
}

/// What is wrong with environment `i` in the light of those before it.
pub open spec fn environment_fault(environments: Seq<EnvironmentView>, i: int) -> Option<
    QueryFault,
> {
    if environments[i].refusal() is Some {
        environments[i].refusal()
    } else if exists|k: int|
        0 <= k < i && (#[trigger] environments[k]).identity == environments[i].identity {
        Some(QueryFault::Transport("catalog environments must have distinct identities"@))
    } else {
        error::first_fault(
            coordinate_faults(declared(environments.take(i)), environments[i].variables),
        )
    }
}

/// The checks on each environment, in order.
pub open spec fn environment_faults(environments: Seq<EnvironmentView>) -> Seq<
    Option<QueryFault>,
> {
    Seq::new(environments.len(), |i: int| environment_fault(environments, i))
}

impl CatalogView {
    /// Some environment has this identity.
    pub open spec fn names_population(self, population: Seq<char>) -> bool {
        exists|k: int|
            0 <= k < self.environments.len() && (#[trigger] self.environments[k]).identity
                == population
    }

    /// A variable of the list that no environment declares.
    pub open spec fn undeclared_in(self, list: Seq<VariableId>) -> bool {
        exists|i: int|
            0 <= i < list.len() && !declares(declared(self.environments), #[trigger] list[i])
    }

    /// A label that is empty or was used by an earlier regime.
    pub open spec fn bad_label(self, i: int) -> bool {
        self.regimes[i].label matches Some(label) && (text::trimmed(label).len() == 0 || exists|
            k: int,
        |
            0 <= k < i && (#[trigger] self.regimes[k]).label == Some(label))
    }

    /// An assigned value that does not belong to the declared domain.
    pub open spec fn off_domain(self, i: int) -> bool {
        exists|j: int|
            0 <= j < self.regimes[i].intervention_values.len() && !settled_domain(
                declared(self.environments),
                (#[trigger] self.regimes[i].intervention_values[j]).variable,
            ).holds(self.regimes[i].intervention_values[j].value)
    }

    /// What is wrong with regime `i` in the light of the environments and of the
    /// regimes before it.
    pub open spec fn regime_fault(self, i: int) -> Option<QueryFault> {
        let regime = self.regimes[i];
        if self.environments.len() > 0 && !self.names_population(regime.population) {
            Some(QueryFault::Transport("regime population is not a declared environment"@))
        } else if self.environments.len() > 0 && (self.undeclared_in(regime.interventions)
            || self.undeclared_in(regime.measured)) {
            Some(QueryFault::Transport("regime variable is not declared by any environment"@))
        } else if self.bad_label(i) {
            Some(QueryFault::Transport("duplicate or empty regime label"@))
        } else if regime.refusal() is Some {
            regime.refusal()
        } else if !regime.conditioned_on.no_duplicates() {
            evidence::unique_fault(regime.conditioned_on, "conditioning coordinates"@)
        } else if evidence::reaches_outside(regime.conditioned_on, regime.measured) {
            Some(QueryFault::Transport("conditioning requires measured coordinates"@))
        } else if self.off_domain(i) {
            Some(QueryFault::Transport("intervention value violates declared domain"@))
        } else if exists|k: int| 0 <= k < i && (#[trigger] self.regimes[k]).id == regime.id {
            Some(QueryFault::Transport("catalog regime ids must be unique"@))
        } else {
            None
        }
    }

    /// The checks on each regime, in order.
    pub open spec fn regime_faults(self) -> Seq<Option<QueryFault>> {
        Seq::new(self.regimes.len(), |i: int| self.regime_fault(i))
    }

    /// A binding that repeats a regime, has an empty name or repeated columns, or whose
    /// weights were written for another snapshot.
    pub open spec fn malformed_binding(self, i: int) -> bool {
        let binding = self.bindings[i];
        ||| exists|k: int| 0 <= k < i && (#[trigger] self.bindings[k]).regime == binding.regime
        ||| text::trimmed(binding.snapshot_identity).len() == 0
        ||| binding.dataset_identity matches Some(id) && text::trimmed(id).len() == 0
        ||| exists|s: int|
            0 <= s < binding.schema_names.len() && text::trimmed(
                #[trigger] binding.schema_names[s],
            ).len() == 0
        ||| !binding.schema_names.no_duplicates()
        ||| binding.weights matches Some(snapshot) && snapshot != binding.snapshot_identity
    }

    /// What is wrong with binding `i`.
    pub open spec fn binding_fault(self, i: int) -> Option<QueryFault> {
        let found = find_regime(self.regimes, self.bindings[i].regime);
        if self.malformed_binding(i) {
            Some(QueryFault::Transport("invalid, duplicate, or mismatched regime binding"@))
        } else if found is None {
            Some(QueryFault::Transport("regime binding names an unknown regime"@))
        } else if !(found->0.evidence_kind is Available) {
            Some(QueryFault::Transport("regime binding names a regime whose results do not exist"@))
        } else {
            None
        }
    }

    /// The checks on each binding, in order.
    pub open spec fn binding_faults(self) -> Seq<Option<QueryFault>> {
        Seq::new(self.bindings.len(), |i: int| self.binding_fault(i))
    }

    /// Why a catalog is refused: the first fault of an environment, else of a regime,
    /// else of a binding.
    pub open spec fn refusal(self) -> Option<QueryFault> {
        let environments = error::first_fault(environment_faults(self.environments));
        let regimes = error::first_fault(self.regime_faults());
        if environments is Some {
            environments
        } else if regimes is Some {
            regimes
        } else {
            error::first_fault(self.binding_faults())
        }
    }

    /// The variable is intervened on by an available experiment in the population.
    pub open spec fn experimented(self, population: Seq<char>, variable: VariableId) -> bool {
        exists|k: int|
            0 <= k < self.regimes.len() && (#[trigger] self.regimes[k]).evidence_kind is Available
                && self.regimes[k].kind is Experimental && self.regimes[k].population == population
                && self.regimes[k].interventions.contains(variable)
    }

    /// Some regime supplies the factor.
    pub open spec fn meets(self, need: FactorNeed) -> bool {
        exists|k: int| 0 <= k < self.regimes.len() && (#[trigger] self.regimes[k]).supplies(need)
    }

    /// A report lists exactly the unmet factors, by factor id and, where ids are equal,
    /// in the order they were asked for; `from` tells where each one was asked.
    pub open spec fn reports(
        self,
        needed: Seq<(String, FactorNeed)>,
        report: Seq<UnmetDependency>,
        from: Seq<int>,
    ) -> bool {
        &&& report.len() == from.len()
        &&& self.selects(needed, from)
        &&& forall|j: int|
            0 <= j < report.len() ==> {
                &&& (#[trigger] report[j]).factor_id@ == needed[from[j]].0@
                &&& report[j].reason@ == "transport.missing_evidence"@
                &&& needed[from[j]].1.lists_reads(report[j].variables@)
            }
    }

    /// The unmet factors in report order.
    pub open spec fn selects(self, needed: Seq<(String, FactorNeed)>, from: Seq<int>) -> bool {
        &&& forall|i: int| #[trigger]
            from.contains(i) <==> 0 <= i < needed.len() && !self.meets(needed[i].1)
        &&& in_report_order(needed, from)
    }
}

/// Indices as integers.
pub open spec fn places(order: Seq<usize>) -> Seq<int> {
    Seq::new(order.len(), |k: int| order[k] as int)
}

/// By factor id, ties in the order asked.
pub open spec fn in_report_order(needed: Seq<(String, FactorNeed)>, from: Seq<int>) -> bool {
    forall|j: int, k: int|
        0 <= j < k < from.len() ==> {
            let a = needed[#[trigger] from[j]].0@;
            let b = needed[#[trigger] from[k]].0@;
            text::text_lt(a, b) || (a == b && from[j] < from[k])
        }
}

/// The first regime with an id.
pub open spec fn find_regime(regimes: Seq<RegimeView>, id: RegimeId) -> Option<RegimeView>
    decreases regimes.len(),
{
    if regimes.len() == 0 {
        None
    } else if regimes[0].id == id {
        Some(regimes[0])
    } else {
        find_regime(regimes.skip(1), id)
    }
}

/// The regime found is the first with the id.
pub proof fn lemma_find_regime(regimes: Seq<RegimeView>, id: RegimeId, k: int)
    requires
        0 <= k <= regimes.len(),
        forall|i: int| 0 <= i < k ==> (#[trigger] regimes[i]).id != id,
        k < regimes.len() ==> regimes[k].id == id,
    ensures
        find_regime(regimes, id) == if k < regimes.len() {
            Some(regimes[k])
        } else {
            None
        },
    decreases regimes.len(),
{
    if regimes.len() > 0 && k > 0 {
        let rest = regimes.skip(1);
        assert forall|i: int| 0 <= i < k - 1 implies (#[trigger] rest[i]).id != id by {
            assert(rest[i] == regimes[i + 1]);
        }
        lemma_find_regime(rest, id, k - 1);
    }
}

fn domain_of(listed: &Vec<VariableCoordinate>, variable: VariableId) -> (domain: VariableDomain)
    ensures
        domain == settled_domain(evidence::coordinates(listed@), variable),
{
    let ghost all = evidence::coordinates(listed@);
    let mut domain = VariableDomain::Unspecified;
    let mut i: usize = 0;
    while i < listed.len()
        invariant
            0 <= i <= listed.len(),
            all == evidence::coordinates(listed@),
            domain == settled_domain(all.take(i as int), variable),
        decreases listed.len() - i,
    {
        proof {
            assert(all.take(i + 1).drop_last() =~= all.take(i as int));
        }
        let open = match domain {
            VariableDomain::Unspecified => true,
            _ => false,
        };
        if open && listed[i].variable == variable {
            domain = listed[i].domain;
        }
        i = i + 1;
    }
    assert(all.take(i as int) =~= all);
    domain
}

fn unit_of(listed: &Vec<VariableCoordinate>, variable: VariableId) -> (unit: Option<String>)
    ensures
        text::text_of(unit) == settled_unit(evidence::coordinates(listed@), variable),
{
    let ghost all = evidence::coordinates(listed@);
    let mut unit: Option<String> = None;
    let mut i: usize = 0;
    while i < listed.len()
        invariant
            0 <= i <= listed.len(),
            all == evidence::coordinates(listed@),
            text::text_of(unit) == settled_unit(all.take(i as int), variable),
        decreases listed.len() - i,
    {
        proof {
            assert(all.take(i + 1).drop_last() =~= all.take(i as int));
        }
        if unit.is_none() && listed[i].variable == variable {
            unit = text::copied_option(&listed[i].unit);
        }
        i = i + 1;
    }
    assert(all.take(i as int) =~= all);
    unit
}

fn is_declared(listed: &Vec<VariableCoordinate>, variable: VariableId) -> (yes: bool)
    ensures
        yes == declares(evidence::coordinates(listed@), variable),
{
    let mut i: usize = 0;
    while i < listed.len()
        invariant
            0 <= i <= listed.len(),
            forall|k: int|
                0 <= k < i ==> (#[trigger] evidence::coordinates(listed@)[k]).variable != variable,
        decreases listed.len() - i,
    {
        if listed[i].variable == variable {
            assert(evidence::coordinates(listed@)[i as int].variable == variable);
            return true;
        }
        i = i + 1;
    }
    false
}

/// Declare the coordinates of one more environment.
fn join(listed: Vec<VariableCoordinate>, variables: &Vec<VariableCoordinate>) -> (r: Result<
    Vec<VariableCoordinate>,
    QueryError,
>)
    ensures
        error::answers(
            r,
            error::first_fault(
                coordinate_faults(
                    evidence::coordinates(listed@),
                    evidence::coordinates(variables@),
                ),
            ),
        ),
        r matches Ok(joined) ==> evidence::coordinates(joined@) == evidence::coordinates(listed@)
            + evidence::coordinates(variables@),
{
    let ghost earlier = evidence::coordinates(listed@);
    let ghost more = evidence::coordinates(variables@);
    let ghost faults = coordinate_faults(earlier, more);
    let mut joined = listed;
    let mut j: usize = 0;
    assert(evidence::coordinates(joined@) =~= earlier + more.take(0));
    while j < variables.len()
        invariant
            0 <= j <= variables.len(),
            earlier == evidence::coordinates(listed@),
            more == evidence::coordinates(variables@),
            faults == coordinate_faults(earlier, more),
            evidence::coordinates(joined@) == earlier + more.take(j as int),
            forall|k: int| 0 <= k < j ==> (#[trigger] faults[k]) is None,
        decreases variables.len() - j,
    {
        let ghost before = joined@;
        let variable = variables[j].variable;
        if !domain_of(&joined, variable).compatible_with(&variables[j].domain) {
            proof {
                error::lemma_first_fault(faults, j as int);
            }
            return Err(
                QueryError::InvalidTransport(
                    "catalog environments declare incompatible domains for the same variable".to_owned(),
                ),
            );
        }
        let unit = unit_of(&joined, variable);
        if unit.is_some() && variables[j].unit.is_some() && !text::same_option(
            &unit,
            &variables[j].unit,
        ) {
            proof {
                error::lemma_first_fault(faults, j as int);
            }
            return Err(
                QueryError::InvalidTransport(
                    "catalog environments declare incompatible units for the same variable".to_owned(),
                ),
            );
        }
        assert(faults[j as int] is None);
        joined.push(variables[j].clone());
        proof {
            let after = evidence::coordinates(joined@);
            let wanted = earlier + more.take(j + 1);
            assert(after.len() == wanted.len());
            assert forall|k: int| 0 <= k < after.len() implies after[k] == wanted[k] by {
                if k < before.len() {
                    assert(after[k] == evidence::coordinates(before)[k]);
                }
            }
            assert(after =~= wanted);
        }
        j = j + 1;
    }
    proof {
        error::lemma_first_fault(faults, faults.len() as int);
        assert(more.take(j as int) =~= more);
    }
    Ok(joined)
}

impl EvidenceCatalog {
    /// Empty catalog: no source experimental evidence.
    #[must_use]
    pub fn empty() -> (catalog: Self)
        ensures
            catalog@ == (CatalogView {
                environments: Seq::empty(),
                regimes: Seq::empty(),
                bindings: Seq::empty(),
                target_sampling: None,
            }),
            catalog@.refusal() is None,
    {
        let catalog = EvidenceCatalog {
            environments: Vec::new(),
            regimes: Vec::new(),
            bindings: Vec::new(),
            target_sampling: None,
        };
        assert(catalog@.environments =~= Seq::empty());
        assert(catalog@.regimes =~= Seq::empty());
        assert(catalog@.bindings =~= Seq::empty());
        catalog
    }

    /// Construct and validate a catalog.
    pub fn try_new(
        environments: Vec<Environment>,
        regimes: Vec<EvidenceRegime>,
        bindings: Vec<RegimeBinding>,
        target_sampling: Option<TargetSampling>,
    ) -> (r: Result<Self, QueryError>)
        ensures
            ({
                let made = CatalogView {
                    environments: environment_views(environments@),
                    regimes: regime_views(regimes@),
                    bindings: binding_views(bindings@),
                    target_sampling,
                };
                &&& error::answers(r, made.refusal())
                &&& r matches Ok(catalog) ==> catalog@ == made
            }),
    {
        let catalog = EvidenceCatalog { environments, regimes, bindings, target_sampling };
        match catalog.validate() {
            Ok(_) => Ok(catalog),
            Err(error) => Err(error),
        }
    }

    /// Reject duplicate identities, incompatible domains, and dangling bindings.
    pub fn validate(&self) -> (r: Result<(), QueryError>)
        ensures
            error::answers(r, self@.refusal()),
    {
        let listed = match self.validate_environments() {
            Ok(listed) => listed,
            Err(error) => {
                return Err(error);
            },
        };
        match self.validate_regimes(&listed) {
            Ok(_) => {},
            Err(error) => {
                return Err(error);
            },
        }
        self.validate_bindings()
    }

    fn validate_environments(&self) -> (r: Result<Vec<VariableCoordinate>, QueryError>)
        ensures
            error::answers(r, error::first_fault(environment_faults(self@.environments))),
            r matches Ok(listed) ==> evidence::coordinates(listed@) == declared(
                self@.environments,
            ),
    {
        let ghost all = self@.environments;
        let ghost faults = environment_faults(all);
        let mut listed: Vec<VariableCoordinate> = Vec::new();
        let mut i: usize = 0;
        proof {
            assert(evidence::coordinates(listed@) =~= declared(all.take(0)));
        }
        while i < self.environments.len()
            invariant
                0 <= i <= self.environments.len(),
                all == self@.environments,
                faults == environment_faults(all),
                evidence::coordinates(listed@) == declared(all.take(i as int)),
                forall|k: int| 0 <= k < i ==> (#[trigger] faults[k]) is None,
            decreases self.environments.len() - i,
        {
            proof {
                assert(all[i as int] == self.environments@[i as int]@);
                assert(all.take(i + 1).drop_last() =~= all.take(i as int));
                if faults[i as int] is Some {
                    error::lemma_first_fault(faults, i as int);
                }
            }
            match self.environments[i].check() {
                Ok(_) => {},
                Err(error) => {
                    return Err(error);
                },
            }
            if self.identity_before(i) {
                return Err(
                    QueryError::InvalidTransport(
                        "catalog environments must have distinct identities".to_owned(),
                    ),
                );
            }
            match join(listed, &self.environments[i].variables) {
                Ok(joined) => {
                    listed = joined;
                },
                Err(error) => {
                    return Err(error);
                },
            }
            i = i + 1;
        }
        proof {
            error::lemma_first_fault(faults, faults.len() as int);
            assert(all.take(i as int) =~= all);
        }
        Ok(listed)
    }

    fn identity_before(&self, i: usize) -> (yes: bool)
        requires
            i < self.environments@.len(),
        ensures
            yes == exists|k: int|
                0 <= k < i && (#[trigger] self@.environments[k]).identity
                    == self@.environments[i as int].identity,
    {
        let mut k: usize = 0;
        while k < i
            invariant
                0 <= k <= i < self.environments@.len(),
                forall|j: int|
                    0 <= j < k ==> (#[trigger] self@.environments[j]).identity
                        != self@.environments[i as int].identity,
            decreases i - k,
        {
            if text::str_eq(
                self.environments[k].identity.as_str(),
                self.environments[i].identity.as_str(),
            ) {
                assert(self@.environments[k as int].identity
                    == self@.environments[i as int].identity);
                return true;
            }
            k = k + 1;
        }
        false
    }

    fn validate_regimes(&self, listed: &Vec<VariableCoordinate>) -> (r: Result<(), QueryError>)
        requires
            evidence::coordinates(listed@) == declared(self@.environments),
        ensures
            error::answers(r, error::first_fault(self@.regime_faults())),
    {
        let ghost faults = self@.regime_faults();
        let mut i: usize = 0;
        while i < self.regimes.len()
            invariant
                0 <= i <= self.regimes.len(),
                evidence::coordinates(listed@) == declared(self@.environments),
                faults == self@.regime_faults(),
                forall|k: int| 0 <= k < i ==> (#[trigger] faults[k]) is None,
            decreases self.regimes.len() - i,
        {
            match self.validate_regime(listed, i) {
                Ok(_) => {},
                Err(error) => {
                    proof {
                        error::lemma_first_fault(faults, i as int);
                    }
                    return Err(error);
                },
            }
            assert(faults[i as int] is None);
            i = i + 1;
        }
        proof {
            error::lemma_first_fault(faults, faults.len() as int);
        }
        Ok(())
    }

    fn validate_regime(&self, listed: &Vec<VariableCoordinate>, i: usize) -> (r: Result<
        (),
        QueryError,
    >)
        requires
            i < self.regimes@.len(),
            evidence::coordinates(listed@) == declared(self@.environments),
        ensures
            error::answers(r, self@.regime_fault(i as int)),
    {
        let regime = &self.regimes[i];
        assert(self@.regimes[i as int] == regime@);
        if self.environments.len() > 0 {
            if !self.has_population(regime.population.as_str()) {
                return Err(
                    QueryError::InvalidTransport(
                        "regime population is not a declared environment".to_owned(),
                    ),
                );
            }
            if any_undeclared(listed, &regime.interventions) || any_undeclared(
                listed,
                &regime.measured,
            ) {
                return Err(
                    QueryError::InvalidTransport(
                        "regime variable is not declared by any environment".to_owned(),
                    ),
                );
            }
        }
        if self.label_refused(i) {
            return Err(QueryError::InvalidTransport("duplicate or empty regime label".to_owned()));
        }
        match regime.check() {
            Ok(_) => {},
            Err(error) => {
                return Err(error);
            },
        }
        match evidence::unique_variables(&regime.conditioned_on, "conditioning coordinates") {
            Ok(_) => {},
            Err(error) => {
                return Err(error);
            },
        }
        if evidence::any_outside(&regime.conditioned_on, &regime.measured) {
            return Err(
                QueryError::InvalidTransport(
                    "conditioning requires measured coordinates".to_owned(),
                ),
            );
        }
        if self.value_off_domain(listed, i) {
            return Err(
                QueryError::InvalidTransport(
                    "intervention value violates declared domain".to_owned(),
                ),
            );
        }
        if self.id_before(i) {
            return Err(QueryError::InvalidTransport("catalog regime ids must be unique".to_owned()));
        }
        Ok(())
    }

    fn has_population(&self, population: &str) -> (yes: bool)
        ensures
            yes == self@.names_population(population@),
    {
        let mut k: usize = 0;
        while k < self.environments.len()
            invariant
                0 <= k <= self.environments.len(),
                forall|j: int|
                    0 <= j < k ==> (#[trigger] self@.environments[j]).identity != population@,
            decreases self.environments.len() - k,
        {
            if text::str_eq(self.environments[k].identity.as_str(), population) {
                assert(self@.environments[k as int].identity == population@);
                return true;
            }
            k = k + 1;
        }
        false
    }

    fn label_refused(&self, i: usize) -> (yes: bool)
        requires
            i < self.regimes@.len(),
        ensures
            yes == self@.bad_label(i as int),
    {
        assert(self@.regimes[i as int] == self.regimes@[i as int]@);
        match &self.regimes[i].label {
            None => false,
            Some(label) => {
                if text::blank(label.as_str()) {
                    return true;
                }
                let mut k: usize = 0;
                while k < i
                    invariant
                        0 <= k <= i < self.regimes@.len(),
                        text::text_of(self.regimes@[i as int].label) == Some(label@),
                        self@.regimes[i as int].label == Some(label@),
                        forall|j: int|
                            0 <= j < k ==> (#[trigger] self@.regimes[j]).label != Some(label@),
                    decreases i - k,
                {
                    if text::same_option(&self.regimes[k].label, &self.regimes[i].label) {
                        assert(self@.regimes[k as int].label == Some(label@));
                        return true;
                    }
                    assert(self@.regimes[k as int].label != Some(label@));
                    k = k + 1;
                }
                false
            },
        }
    }

    fn value_off_domain(&self, listed: &Vec<VariableCoordinate>, i: usize) -> (yes: bool)
        requires
            i < self.regimes@.len(),
            evidence::coordinates(listed@) == declared(self@.environments),
        ensures
            yes == self@.off_domain(i as int),
    {
        let ghost values = self@.regimes[i as int].intervention_values;
        assert(values == self.regimes@[i as int].intervention_values@);
        let mut j: usize = 0;
        while j < self.regimes[i].intervention_values.len()
            invariant
                i < self.regimes@.len(),
                evidence::coordinates(listed@) == declared(self@.environments),
                values == self@.regimes[i as int].intervention_values,
                values == self.regimes@[i as int].intervention_values@,
                0 <= j <= values.len(),
                forall|k: int|
                    0 <= k < j ==> settled_domain(
                        declared(self@.environments),
                        (#[trigger] self@.regimes[i as int].intervention_values[k]).variable,
                    ).holds(self@.regimes[i as int].intervention_values[k].value),
            decreases values.len() - j,
        {
            let assignment = &self.regimes[i].intervention_values[j];
            assert(self@.regimes[i as int].intervention_values[j as int] == *assignment);
            if !domain_of(listed, assignment.variable).accepts(&assignment.value) {
                return true;
            }
            j = j + 1;
        }
        false
    }

    fn id_before(&self, i: usize) -> (yes: bool)
        requires
            i < self.regimes@.len(),
        ensures
            yes == exists|k: int|
                0 <= k < i && (#[trigger] self@.regimes[k]).id == self@.regimes[i as int].id,
    {
        let mut k: usize = 0;
        while k < i
            invariant
                0 <= k <= i < self.regimes@.len(),
                forall|j: int|
                    0 <= j < k ==> (#[trigger] self@.regimes[j]).id != self@.regimes[i as int].id,
            decreases i - k,
        {
            if self.regimes[k].id == self.regimes[i].id {
                assert(self@.regimes[k as int].id == self@.regimes[i as int].id);
                return true;
            }
            k = k + 1;
        }
        false
    }

    fn validate_bindings(&self) -> (r: Result<(), QueryError>)
        ensures
            error::answers(r, error::first_fault(self@.binding_faults())),
    {
        let ghost faults = self@.binding_faults();
        let mut i: usize = 0;
        while i < self.bindings.len()
            invariant
                0 <= i <= self.bindings.len(),
                faults == self@.binding_faults(),
                forall|k: int| 0 <= k < i ==> (#[trigger] faults[k]) is None,
            decreases self.bindings.len() - i,
        {
            proof {
                if faults[i as int] is Some {
                    error::lemma_first_fault(faults, i as int);
                }
            }
            if self.binding_malformed(i) {
                return Err(
                    QueryError::InvalidTransport(
                        "invalid, duplicate, or mismatched regime binding".to_owned(),
                    ),
                );
            }
            assert(self@.bindings[i as int] == self.bindings@[i as int]@);
            match self.find(self.bindings[i].regime) {
                None => {
                    return Err(
                        QueryError::InvalidTransport(
                            "regime binding names an unknown regime".to_owned(),
                        ),
                    );
                },
                Some(k) => {
                    if !self.regimes[k].evidence_kind.can_satisfy_factor() {
                        return Err(
                            QueryError::InvalidTransport(
                                "regime binding names a regime whose results do not exist".to_owned(),
                            ),
                        );
                    }
                },
            }
            i = i + 1;
        }
        proof {
            error::lemma_first_fault(faults, faults.len() as int);
        }
        Ok(())
    }

    fn find(&self, id: RegimeId) -> (at: Option<usize>)
        ensures
            match at {
                Some(k) => k < self.regimes@.len() && find_regime(self@.regimes, id) == Some(
                    self.regimes@[k as int]@,
                ),
                None => find_regime(self@.regimes, id) is None,
            },
    {
        let mut k: usize = 0;
        while k < self.regimes.len()
            invariant
                0 <= k <= self.regimes.len(),
                forall|j: int| 0 <= j < k ==> (#[trigger] self@.regimes[j]).id != id,
            decreases self.regimes.len() - k,
        {
            if self.regimes[k].id == id {
                proof {
                    lemma_find_regime(self@.regimes, id, k as int);
                }
                return Some(k);
            }
            assert(self@.regimes[k as int].id != id);
            k = k + 1;
        }
        proof {
            lemma_find_regime(self@.regimes, id, k as int);
        }
        None
    }

    fn binding_malformed(&self, i: usize) -> (yes: bool)
        requires
            i < self.bindings@.len(),
        ensures
            yes == self@.malformed_binding(i as int),
    {
        let binding = &self.bindings[i];
        assert(self@.bindings[i as int] == binding@);
        if self.bound_before(i) {
            return true;
        }
        if text::blank(binding.snapshot_identity.as_str()) {
            return true;
        }
        match &binding.dataset_identity {
            Some(id) => {
                if text::blank(id.as_str()) {
                    return true;
                }
            },
            None => {},
        }
        if text::any_blank(&binding.schema_names) {
            proof {
                let s = choose|s: int|
                    0 <= s < binding.schema_names@.len() && text::trimmed(
                        #[trigger] text::texts(binding.schema_names@)[s],
                    ).len() == 0;
                assert(text::trimmed(self@.bindings[i as int].schema_names[s]).len() == 0);
            }
            return true;
        }
        if !text::distinct_texts(&binding.schema_names) {
            return true;
        }
        match &binding.weights {
            Some(weights) => !text::str_eq(
                weights.snapshot_identity.as_str(),
                binding.snapshot_identity.as_str(),
            ),
            None => false,
        }
    }

    fn bound_before(&self, i: usize) -> (yes: bool)
        requires
            i < self.bindings@.len(),
        ensures
            yes == exists|k: int|
                0 <= k < i && (#[trigger] self@.bindings[k]).regime
                    == self@.bindings[i as int].regime,
    {
        let mut k: usize = 0;
        while k < i
            invariant
                0 <= k <= i < self.bindings@.len(),
                forall|j: int|
                    0 <= j < k ==> (#[trigger] self@.bindings[j]).regime
                        != self@.bindings[i as int].regime,
            decreases i - k,
        {
            if self.bindings[k].regime == self.bindings[i].regime {
                assert(self@.bindings[k as int].regime == self@.bindings[i as int].regime);
                return true;
            }
            k = k + 1;
        }
        false
    }

    /// Available experimental intervention variables in `population`, ascending.
    ///
    /// Each regime contributes its own intervention set. Separate `do(A)` and `do(B)`
    /// regimes yield `{A, B}` as a compatibility view; they still do not constitute
    /// `do(A,B)`.
    #[must_use]
    pub fn source_experiment_variables(&self, population: &str) -> (variables: Vec<VariableId>)
        ensures
            ids::ascending(variables@),
            forall|v: VariableId| #[trigger]
                variables@.contains(v) <==> self@.experimented(population@, v),
    {
        let mut variables: Vec<VariableId> = Vec::new();
        let mut k: usize = 0;
        while k < self.regimes.len()
            invariant
                0 <= k <= self.regimes.len(),
                ids::ascending(variables@),
                forall|v: VariableId| #[trigger]
                    variables@.contains(v) <==> exists|j: int|
                        0 <= j < k && (#[trigger] self@.regimes[j]).evidence_kind is Available
                            && self@.regimes[j].kind is Experimental && self@.regimes[j].population
                            == population@ && self@.regimes[j].interventions.contains(v),
            decreases self.regimes.len() - k,
        {
            let regime = &self.regimes[k];
            assert(self@.regimes[k as int] == regime@);
            let experimental = match regime.kind {
                RegimeKind::Experimental => true,
                RegimeKind::Observational => false,
            };
            if regime.evidence_kind.can_satisfy_factor() && experimental && text::str_eq(
                regime.population.as_str(),
                population,
            ) {
                let ghost before = variables@;
                evidence::insert_all(&mut variables, regime.interventions.as_slice());
                proof {
                    assert forall|v: VariableId| #[trigger] variables@.contains(v) implies exists|
                        j: int,
                    |
                        0 <= j < k + 1 && (#[trigger] self@.regimes[j]).evidence_kind is Available
                            && self@.regimes[j].kind is Experimental && self@.regimes[j].population
                            == population@ && self@.regimes[j].interventions.contains(v) by {
                        if !before.contains(v) {
                            assert(self@.regimes[k as int].interventions.contains(v));
                        }
                    }
                    assert forall|v: VariableId, j: int|
                        0 <= j < k + 1 && (#[trigger] self@.regimes[j]).evidence_kind is Available
                            && self@.regimes[j].kind is Experimental && self@.regimes[j].population
                            == population@ && #[trigger] self@.regimes[j].interventions.contains(
                            v,
                        ) implies variables@.contains(v) by {
                        if j < k {
                            assert(before.contains(v));
                        }
                    }
                }
            }
            k = k + 1;
        }
        variables
    }

    /// Whether an available experimental regime matches `variables` exactly.
    #[must_use]
    pub fn has_available_experiment(&self, population: &str, variables: &[VariableId]) -> (yes:
        bool)
        ensures
            yes == exists|k: int|
                0 <= k < self@.regimes.len() && (#[trigger] self@.regimes[k]).experiments_on(
                    population@,
                    variables@,
                ),
    {
        let mut k: usize = 0;
        while k < self.regimes.len()
            invariant
                0 <= k <= self.regimes.len(),
                forall|j: int|
                    0 <= j < k ==> !(#[trigger] self@.regimes[j]).experiments_on(
                        population@,
                        variables@,
                    ),
            decreases self.regimes.len() - k,
        {
            if self.regimes[k].available_experiment_on(population, variables) {
                assert(self@.regimes[k as int].experiments_on(population@, variables@));
                return true;
            }
            k = k + 1;
        }
        false
    }

    /// First available regime that can supply `need`.
    #[must_use]
    pub fn satisfying_regime(&self, need: &FactorNeed) -> (found: Option<&EvidenceRegime>)
        ensures
            match found {
                Some(regime) => exists|k: int|
                    {
                        &&& 0 <= k < self@.regimes.len()
                        &&& regime@ == #[trigger] self@.regimes[k]
                        &&& regime@.supplies(*need)
                        &&& forall|j: int|
                            0 <= j < k ==> !(#[trigger] self@.regimes[j]).supplies(*need)
                    },
                None => !self@.meets(*need),
            },
            found is Some <==> self@.meets(*need),
    {
        let mut k: usize = 0;
        while k < self.regimes.len()
            invariant
                0 <= k <= self.regimes.len(),
                forall|j: int| 0 <= j < k ==> !(#[trigger] self@.regimes[j]).supplies(*need),
            decreases self.regimes.len() - k,
        {
            if self.regimes[k].satisfies(need) {
                assert(self@.regimes[k as int] == self.regimes@[k as int]@);
                return Some(&self.regimes[k]);
            }
            k = k + 1;
        }
        None
    }

    /// Unmet executable-factor dependencies, sorted by factor id then reason.
    ///
    /// A factor is met only by a regime that [`EvidenceRegime::satisfies`] it, so an
    /// experiment that never measured the needed variables, a set of separate
    /// marginals, or a value-restricted assignment leaves it unmet. Reported
    /// `variables` are the ones the factor reads.
    #[must_use]
    pub fn unmet_factor_dependencies(&self, needed: &[(String, FactorNeed)]) -> (report: Vec<
        UnmetDependency,
    >)
        ensures
            exists|from: Seq<int>| self@.reports(needed@, report@, from),
    {
        let order = self.unmet_order(needed);
        let ghost from = places(order@);
        let mut report: Vec<UnmetDependency> = Vec::new();
        let mut j: usize = 0;
        while j < order.len()
            invariant
                0 <= j <= order.len(),
                from == places(order@),
                forall|k: int| 0 <= k < order@.len() ==> (#[trigger] order@[k]) < needed@.len(),
                report@.len() == j,
                forall|k: int|
                    0 <= k < j ==> {
                        &&& (#[trigger] report@[k]).factor_id@ == needed@[from[k]].0@
                        &&& report@[k].reason@ == "transport.missing_evidence"@
                        &&& needed@[from[k]].1.lists_reads(report@[k].variables@)
                    },
            decreases order.len() - j,
        {
            let at: usize = order[j];
            assert(from[j as int] == at);
            let entry = &needed[at];
            report.push(
                UnmetDependency {
                    factor_id: entry.0.clone(),
                    reason: "transport.missing_evidence".to_owned(),
                    variables: entry.1.needed_variables(),
                },
            );
            j = j + 1;
        }
        proof {
            assert(self@.reports(needed@, report@, from));
        }
        report
    }

    fn unmet_order(&self, needed: &[(String, FactorNeed)]) -> (order: Vec<usize>)
        ensures
            forall|k: int| 0 <= k < order@.len() ==> (#[trigger] order@[k]) < needed@.len(),
            self@.selects(needed@, places(order@)),
    {
        let mut order: Vec<usize> = Vec::new();
        let mut i: usize = 0;
        while i < needed.len()
            invariant
                0 <= i <= needed.len(),
                forall|k: int| 0 <= k < order@.len() ==> (#[trigger] order@[k]) < i,
                forall|k: int| #[trigger]
                    places(order@).contains(k) <==> 0 <= k < i
                        && !self@.meets(needed@[k].1),
                in_report_order(needed@, places(order@)),
            decreases needed.len() - i,
        {
            if self.satisfying_regime(&needed[i].1).is_none() {
                let ghost before = order@;
                place_in_report(&mut order, needed, i);
                proof {
                    let from = places(order@);
                    let earlier = places(before);
                    assert forall|k: int| #[trigger] from.contains(k) <==> 0 <= k < i + 1
                        && !self@.meets(needed@[k].1) by {
                        assert(from.contains(k) <==> earlier.contains(k) || k == i);
                    }
                }
            }
            i = i + 1;
        }
        order
    }
}

/// The regime that stands for one listed source experiment.
pub open spec fn compatibility_regime(population: Seq<char>, index: int, variable: VariableId) -> RegimeView {
    RegimeView {
        id: RegimeId {
            raw: if index <= u32::MAX {
                index as u32
            } else {
                u32::MAX
            },
        },
        label: None,
        kind: RegimeKind::Experimental,
        evidence_kind: EvidenceKind::Available,
        interventions: seq![variable],
        intervention_values: Seq::empty(),
        measured: Seq::empty(),
        conditioned_on: Seq::empty(),
        population,
        marginals: None,
    }
}

/// One available single-variable experiment for each listed variable.
pub open spec fn compatibility(population: Seq<char>, experiments: Seq<VariableId>) -> CatalogView {
    CatalogView {
        environments: Seq::empty(),
        regimes: Seq::new(
            experiments.len(),
            |i: int| compatibility_regime(population, i, experiments[i]),
        ),
        bindings: Seq::empty(),
        target_sampling: None,
    }
}

impl EvidenceCatalog {
    /// Compatibility catalog: one available single-variable experiment per id.
    ///
    /// Ids past the largest regime id saturate rather than wrap, and validation
    /// rejects the resulting duplicates.
    #[must_use]
    pub fn from_source_experiments(population: &str, experiments: &[VariableId]) -> (catalog: Self)
        ensures
            catalog@ == compatibility(population@, experiments@),
    {
        let mut regimes: Vec<EvidenceRegime> = Vec::new();
        let mut i: usize = 0;
        while i < experiments.len()
            invariant
                0 <= i <= experiments.len(),
                regimes@.len() == i,
                forall|k: int|
                    0 <= k < i ==> (#[trigger] regimes@[k])@ == compatibility_regime(
                        population@,
                        k,
                        experiments@[k],
                    ),
            decreases experiments.len() - i,
        {
            let raw: u32 = if i <= u32::MAX as usize {
                i as u32
            } else {
                u32::MAX
            };
            let regime = EvidenceRegime {
                id: RegimeId::from_raw(raw),
                label: None,
                kind: RegimeKind::Experimental,
                evidence_kind: EvidenceKind::Available,
                interventions: vec![experiments[i]],
                intervention_values: Vec::new(),
                measured: Vec::new(),
                conditioned_on: Vec::new(),
                population: population.to_owned(),
                distribution: DistributionAvailability::Joint,
            };
            proof {
                assert(regime@ =~= compatibility_regime(population@, i as int, experiments@[i as int]));
            }
            regimes.push(regime);
            i = i + 1;
        }
        let catalog = EvidenceCatalog {
            environments: Vec::new(),
            regimes,
            bindings: Vec::new(),
            target_sampling: None,
        };
        proof {
            assert(catalog@.environments =~= Seq::empty());
            assert(catalog@.bindings =~= Seq::empty());
            assert(catalog@.regimes =~= compatibility(population@, experiments@).regimes);
        }
        catalog
    }

    /// Copy of this catalog.
    #[must_use]
    pub fn duplicate(&self) -> (copy: Self)
        ensures
            copy@ == self@,
    {
        let mut environments: Vec<Environment> = Vec::new();
        let mut i: usize = 0;
        while i < self.environments.len()
            invariant
                0 <= i <= self.environments.len(),
                environments@.len() == i,
                forall|k: int|
                    0 <= k < i ==> (#[trigger] environments@[k])@ == self.environments@[k]@,
            decreases self.environments.len() - i,
        {
            environments.push(self.environments[i].duplicate());
            i = i + 1;
        }
        let mut bindings: Vec<RegimeBinding> = Vec::new();
        let mut j: usize = 0;
        while j < self.bindings.len()
            invariant
                0 <= j <= self.bindings.len(),
                bindings@.len() == j,
                forall|k: int| 0 <= k < j ==> (#[trigger] bindings@[k])@ == self.bindings@[k]@,
            decreases self.bindings.len() - j,
        {
            bindings.push(self.bindings[j].duplicate());
            j = j + 1;
        }
        let regimes = copied_regimes(&self.regimes);
        let copy = EvidenceCatalog {
            environments,
            regimes,
            bindings,
            target_sampling: self.target_sampling,
        };
        proof {
            assert(copy@.environments =~= self@.environments);
            assert(copy@.regimes =~= self@.regimes);
            assert(copy@.bindings =~= self@.bindings);
        }
        copy
    }
}

/// Copy of a list of regimes.
pub fn copied_regimes(list: &Vec<EvidenceRegime>) -> (copy: Vec<EvidenceRegime>)
    ensures
        regime_views(copy@) == regime_views(list@),
{
    let mut copy: Vec<EvidenceRegime> = Vec::new();
    let mut i: usize = 0;
    while i < list.len()
        invariant
            0 <= i <= list.len(),
            copy@.len() == i,
            forall|k: int| 0 <= k < i ==> (#[trigger] copy@[k])@ == list@[k]@,
        decreases list.len() - i,
    {
        copy.push(list[i].duplicate());
        i = i + 1;
    }
    assert(regime_views(copy@) =~= regime_views(list@));
    copy
}

/// A compatibility catalog of a named population is accepted, and its experimental
/// variables are the listed ones.
pub proof fn law_compatibility_catalog_is_accepted(
    population: Seq<char>,
    experiments: Seq<VariableId>,
)
    requires
        text::trimmed(population).len() > 0,
        experiments.len() <= 0x1_0000_0000,
    ensures
        compatibility(population, experiments).refusal() is None,
        forall|v: VariableId| #[trigger]
            compatibility(population, experiments).experimented(population, v)
                <==> experiments.contains(v),
{
    let catalog = compatibility(population, experiments);
    assert forall|i: int| 0 <= i < catalog.regimes.len() implies (
    #[trigger] catalog.regime_faults()[i]) is None by {
        let regime = catalog.regimes[i];
        assert(regime == compatibility_regime(population, i, experiments[i]));
        assert(regime.refusal() is None);
        assert forall|k: int| 0 <= k < i implies (#[trigger] catalog.regimes[k]).id != regime.id by {
            assert(catalog.regimes[k] == compatibility_regime(population, k, experiments[k]));
        }
    }
    error::lemma_no_fault(environment_faults(catalog.environments));
    error::lemma_no_fault(catalog.regime_faults());
    error::lemma_no_fault(catalog.binding_faults());
    assert forall|v: VariableId| #[trigger]
        catalog.experimented(population, v) <==> experiments.contains(v) by {
        if experiments.contains(v) {
            let i = choose|i: int| 0 <= i < experiments.len() && experiments[i] == v;
            assert(catalog.regimes[i] == compatibility_regime(population, i, experiments[i]));
            assert(catalog.regimes[i].interventions[0] == v);
            assert(catalog.regimes[i].interventions.contains(v));
        }
        if catalog.experimented(population, v) {
            let k = choose|k: int|
                0 <= k < catalog.regimes.len() && (
                #[trigger] catalog.regimes[k]).evidence_kind is Available
                    && catalog.regimes[k].kind is Experimental && catalog.regimes[k].population
                    == population && catalog.regimes[k].interventions.contains(v);
            assert(catalog.regimes[k] == compatibility_regime(population, k, experiments[k]));
            assert(experiments[k] == v);
        }
    }
}

/// Add the index `i`, above all others, at its place in the report.
fn place_in_report(order: &mut Vec<usize>, needed: &[(String, FactorNeed)], i: usize)
    requires
        i < needed@.len(),
        forall|k: int| 0 <= k < old(order)@.len() ==> (#[trigger] old(order)@[k]) < i,
        in_report_order(needed@, places(old(order)@)),
    ensures
        forall|k: int| 0 <= k < final(order)@.len() ==> (#[trigger] final(order)@[k]) <= i,
        in_report_order(needed@, places(final(order)@)),
        forall|k: int| #[trigger]
            places(final(order)@).contains(k) <==> places(old(order)@).contains(k) || k == i,
{
    let ghost before = order@;
    let ghost earlier = places(before);
    let mut at: usize = order.len();
    while at > 0 && text::str_less(needed[i].0.as_str(), needed[order[at - 1]].0.as_str())
        invariant
            0 <= at <= order.len(),
            order@ == before,
            i < needed@.len(),
            forall|k: int| 0 <= k < order@.len() ==> (#[trigger] order@[k]) < i,
            forall|k: int|
                at <= k < order@.len() ==> text::text_lt(
                    needed@[i as int].0@,
                    needed@[(#[trigger] order@[k]) as int].0@,
                ),
        decreases at,
    {
        at = at - 1;
    }
    order.insert(at, i);
    proof {
        let after = places(order@);
        let own = needed@[i as int].0@;
        assert(after =~= earlier.insert(at as int, i as int));
        assert forall|j: int, k: int| 0 <= j < k < after.len() implies {
            let a = needed@[#[trigger] after[j]].0@;
            let b = needed@[#[trigger] after[k]].0@;
            text::text_lt(a, b) || (a == b && after[j] < after[k])
        } by {
            let a = needed@[after[j]].0@;
            let b = needed@[after[k]].0@;
            if k == at {
                let last = needed@[before[at - 1] as int].0@;
                text::law_text_order_is_strict_and_total(own, last, a);
                text::law_text_order_is_strict_and_total(last, own, a);
                if j < at - 1 {
                    assert(after[j] == earlier[j]);
                    assert(earlier[at - 1] == before[at - 1] as int);
                    text::law_text_order_is_strict_and_total(a, last, own);
                }
                assert(after[j] == earlier[j] && earlier[j] == before[j] as int);
            } else if j == at {
                assert(after[k] == earlier[k - 1]);
                assert(earlier[k - 1] == before[k - 1] as int);
            } else {
                let p = if j < at {
                    j
                } else {
                    j - 1
                };
                let q = if k < at {
                    k
                } else {
                    k - 1
                };
                assert(after[j] == earlier[p] && after[k] == earlier[q]);
            }
        }
        assert forall|k: int| #[trigger] after.contains(k) <==> earlier.contains(k) || k == i by {
            if earlier.contains(k) {
                let p = choose|p: int| 0 <= p < earlier.len() && earlier[p] == k;
                assert(after[if p < at {
                    p
                } else {
                    p + 1
                }] == k);
            }
            if k == i {
                assert(after[at as int] == k);
            }
            if after.contains(k) {
                let p = choose|p: int| 0 <= p < after.len() && after[p] == k;
                if p < at {
                    assert(earlier[p] == k);
                } else if p > at {
                    assert(earlier[p - 1] == k);
                }
            }
        }
        assert forall|k: int| 0 <= k < order@.len() implies (#[trigger] order@[k]) <= i by {
            if k < at {
                assert(order@[k] == before[k]);
            } else if k > at {
                assert(order@[k] == before[k - 1]);
            }
        }
    }
}

fn any_undeclared(listed: &Vec<VariableCoordinate>, list: &Vec<VariableId>) -> (yes: bool)
    ensures
        yes == exists|i: int|
            0 <= i < list@.len() && !declares(
                evidence::coordinates(listed@),
                #[trigger] list@[i],
            ),
{
    let mut i: usize = 0;
    while i < list.len()
        invariant
            0 <= i <= list.len(),
            forall|k: int|
                0 <= k < i ==> declares(evidence::coordinates(listed@), #[trigger] list@[k]),
        decreases list.len() - i,
    {
        if !is_declared(listed, list[i]) {
            assert(!declares(evidence::coordinates(listed@), list@[i as int]));
            return true;
        }
        i = i + 1;
    }
    false
}

} // verus!
