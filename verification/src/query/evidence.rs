//! Environments, evidence regimes and the factors they supply.
//!
//! SPDX-License-Identifier: MIT OR Apache-2.0

use crate::ids;
use crate::ids::{RegimeId, VariableId};
use crate::level::{OrderedFloatBits, ONE_BITS};
use crate::query::error;
use crate::query::error::{QueryError, QueryFault};
use crate::text;
use crate::value::Value;
use vstd::prelude::*;

verus! {

/// Shared variable coordinate used by source and target environments.
#[derive(Debug, PartialEq, Eq)]
pub struct VariableCoordinate {
    /// Dense variable id shared across environments.
    pub variable: VariableId,
    /// Value domain. Incompatible domains for the same id are rejected.
    pub domain: VariableDomain,
    /// Optional physical unit. Differing units for the same id are rejected.
    pub unit: Option<String>,
}

/// Mathematical form of [`VariableCoordinate`].
pub struct CoordinateView {
    /// Variable id.
    pub variable: VariableId,
    /// Value domain.
    pub domain: VariableDomain,
    /// Unit text.
    pub unit: Option<Seq<char>>,
}

impl View for VariableCoordinate {
    type V = CoordinateView;

    open spec fn view(&self) -> CoordinateView {
        CoordinateView {
            variable: self.variable,
            domain: self.domain,
            unit: text::text_of(self.unit),
        }
    }
}

impl Clone for VariableCoordinate {
    fn clone(&self) -> (copy: Self)
        ensures
            copy@ == self@,
    {
        VariableCoordinate {
            variable: self.variable,
            domain: self.domain,
            unit: text::copied_option(&self.unit),
        }
    }
}

/// The coordinates in mathematical form.
pub open spec fn coordinates(list: Seq<VariableCoordinate>) -> Seq<CoordinateView> {
    Seq::new(list.len(), |i: int| list[i]@)
}

/// Domain declared on a transport variable coordinate.
#[derive(Clone, Copy, Debug, PartialEq, Eq, Structural)]
pub enum VariableDomain {
    /// Unspecified; compatible with any later specified domain for the same id.
    Unspecified,
    /// Real-valued continuous measurement.
    Continuous,
    /// Two-level encoding.
    Binary,
    /// Non-negative integer counts.
    Count,
    /// Unordered categorical with a known cardinality.
    Categorical {
        /// Number of levels.
        cardinality: u32,
    },
}

impl VariableDomain {
    /// Whether a value belongs to the domain. A label belongs to none but the
    /// unspecified one.
    pub open spec fn holds(self, value: Value) -> bool {
        let zero = OrderedFloatBits { bits: 0 };
        let one = OrderedFloatBits { bits: ONE_BITS };
        match self {
            VariableDomain::Unspecified => true,
            VariableDomain::Continuous => match value {
                Value::Float64(v) => v.finite(),
                Value::Label(_) => false,
                _ => true,
            },
            VariableDomain::Binary => match value {
                Value::Float64(v) => v.numeric_eq(zero) || v.numeric_eq(one),
                Value::Int64(v) => v == 0 || v == 1,
                Value::Bool(_) => true,
                Value::Category(v) => v == 0 || v == 1,
                Value::Label(_) => false,
            },
            VariableDomain::Count => match value {
                Value::Float64(v) => zero.le(v) && v.integral(),
                Value::Int64(v) => v >= 0,
                Value::Bool(_) => true,
                Value::Category(_) => true,
                Value::Label(_) => false,
            },
            VariableDomain::Categorical { cardinality } => match value {
                Value::Float64(v) => zero.le(v) && v.integral() && v.whole() < cardinality,
                Value::Int64(v) => 0 <= v < cardinality,
                Value::Bool(v) => (if v {
                    1int
                } else {
                    0int
                }) < cardinality,
                Value::Category(v) => v < cardinality,
                Value::Label(_) => false,
            },
        }
    }

    /// Whether a value belongs to the domain.
    #[must_use]
    pub fn accepts(&self, value: &Value) -> (yes: bool)
        ensures
            yes == self.holds(*value),
    {
        match self {
            VariableDomain::Unspecified => true,
            VariableDomain::Continuous => match value {
                Value::Float64(v) => v.is_finite(),
                Value::Label(_) => false,
                _ => true,
            },
            VariableDomain::Binary => match value {
                Value::Float64(v) => v.equals(OrderedFloatBits::zero()) || v.equals(
                    OrderedFloatBits::one(),
                ),
                Value::Int64(v) => *v == 0 || *v == 1,
                Value::Bool(_) => true,
                Value::Category(v) => *v == 0 || *v == 1,
                Value::Label(_) => false,
            },
            VariableDomain::Count => match value {
                Value::Float64(v) => v.is_count(),
                Value::Int64(v) => *v >= 0,
                Value::Bool(_) => true,
                Value::Category(_) => true,
                Value::Label(_) => false,
            },
            VariableDomain::Categorical { cardinality } => match value {
                Value::Float64(v) => v.is_count_below(*cardinality),
                Value::Int64(v) => 0 <= *v && *v < *cardinality as i64,
                Value::Bool(v) => if *v {
                    1 < *cardinality
                } else {
                    0 < *cardinality
                },
                Value::Category(v) => *v < *cardinality,
                Value::Label(_) => false,
            },
        }
    }

    /// Whether two domains of one variable agree: equal, or either one unspecified.
    pub open spec fn compatible(self, other: Self) -> bool {
        self is Unspecified || other is Unspecified || self == other
    }

    /// Whether two domains of one variable agree.
    #[must_use]
    pub fn compatible_with(&self, other: &Self) -> (yes: bool)
        ensures
            yes == self.compatible(*other),
    {
        match (self, other) {
            (VariableDomain::Unspecified, _) => true,
            (_, VariableDomain::Unspecified) => true,
            (VariableDomain::Continuous, VariableDomain::Continuous) => true,
            (VariableDomain::Binary, VariableDomain::Binary) => true,
            (VariableDomain::Count, VariableDomain::Count) => true,
            (
                VariableDomain::Categorical { cardinality: a },
                VariableDomain::Categorical { cardinality: b },
            ) => *a == *b,
            _ => false,
        }
    }
}

/// One population in a transport problem.
#[derive(Clone, Debug, PartialEq, Eq)]
pub struct Environment {
    /// Population identity. Duplicate identities in one catalog are rejected.
    pub identity: String,
    /// Shared variable coordinates.
    pub variables: Vec<VariableCoordinate>,
    /// Source-to-target mechanism-selection targets declared on this environment.
    pub selection_targets: Vec<VariableId>,
}

/// Mathematical form of [`Environment`].
#[verifier::ext_equal]
pub struct EnvironmentView {
    /// Population identity.
    pub identity: Seq<char>,
    /// Variable coordinates.
    pub variables: Seq<CoordinateView>,
    /// Selection targets.
    pub selection_targets: Seq<VariableId>,
}

impl View for Environment {
    type V = EnvironmentView;

    open spec fn view(&self) -> EnvironmentView {
        EnvironmentView {
            identity: self.identity@,
            variables: coordinates(self.variables@),
            selection_targets: self.selection_targets@,
        }
    }
}

/// Fault of a list that must hold no id twice.
pub open spec fn unique_fault(list: Seq<VariableId>, label: Seq<char>) -> Option<QueryFault> {
    if list.no_duplicates() {
        None
    } else {
        Some(QueryFault::Transport(label + " must be unique"@))
    }
}

/// Require that a list holds no id twice.
pub fn unique_variables(list: &Vec<VariableId>, label: &str) -> (r: Result<(), QueryError>)
    ensures
        error::answers(r, unique_fault(list@, label@)),
{
    if ids::distinct_ids(list) {
        Ok(())
    } else {
        Err(QueryError::InvalidTransport(label.to_owned().concat(" must be unique")))
    }
}

/// What is wrong with one coordinate of an environment: no categories, or a variable
/// that was listed before.
pub open spec fn coordinate_shape_fault(variables: Seq<CoordinateView>, j: int) -> Option<
    QueryFault,
> {
    if variables[j].domain == (VariableDomain::Categorical { cardinality: 0 }) {
        Some(QueryFault::Transport("categorical cardinality must be positive"@))
    } else if exists|k: int|
        0 <= k < j && (#[trigger] variables[k]).variable == variables[j].variable {
        Some(QueryFault::Transport("environment variable coordinates must be unique"@))
    } else {
        None
    }
}

/// The checks on each coordinate of an environment, in order.
pub open spec fn coordinate_shape_faults(variables: Seq<CoordinateView>) -> Seq<
    Option<QueryFault>,
> {
    Seq::new(variables.len(), |j: int| coordinate_shape_fault(variables, j))
}

impl EnvironmentView {
    /// Why an environment is refused by itself: an empty identity, then its
    /// coordinates in order, then repeated selection targets.
    pub open spec fn refusal(self) -> Option<QueryFault> {
        let listed = error::first_fault(coordinate_shape_faults(self.variables));
        if text::trimmed(self.identity).len() == 0 {
            Some(QueryFault::Transport("environment identity must be non-empty"@))
        } else if listed is Some {
            listed
        } else {
            unique_fault(self.selection_targets, "selection targets"@)
        }
    }
}

impl Environment {
    /// Construct an environment after rejecting an empty identity and duplicate
    /// coordinates.
    pub fn try_new(
        identity: &str,
        variables: Vec<VariableCoordinate>,
        selection_targets: Vec<VariableId>,
    ) -> (r: Result<Self, QueryError>)
        ensures
            error::answers(
                r,
                (EnvironmentView {
                    identity: identity@,
                    variables: coordinates(variables@),
                    selection_targets: selection_targets@,
                }).refusal(),
            ),
            r matches Ok(environment) ==> environment.identity@ == identity@
                && environment.variables == variables && environment.selection_targets
                == selection_targets,
    {
        let environment = Environment {
            identity: identity.to_owned(),
            variables,
            selection_targets,
        };
        match environment.check() {
            Ok(_) => Ok(environment),
            Err(error) => Err(error),
        }
    }

    /// Reject an empty identity, malformed coordinates and repeated selection targets.
    pub fn check(&self) -> (r: Result<(), QueryError>)
        ensures
            error::answers(r, self@.refusal()),
    {
        if text::blank(self.identity.as_str()) {
            return Err(
                QueryError::InvalidTransport("environment identity must be non-empty".to_owned()),
            );
        }
        match check_coordinates(&self.variables) {
            Ok(_) => {},
            Err(error) => {
                return Err(error);
            },
        }
        unique_variables(&self.selection_targets, "selection targets")
    }

    /// Copy of this environment.
    #[must_use]
    pub fn duplicate(&self) -> (copy: Self)
        ensures
            copy@ == self@,
    {
        let copy = Environment {
            identity: self.identity.clone(),
            variables: copied_coordinates(&self.variables),
            selection_targets: ids::copied_ids(&self.selection_targets),
        };
        assert(copy@ =~= self@);
        copy
    }
}

fn copied_coordinates(list: &Vec<VariableCoordinate>) -> (copy: Vec<VariableCoordinate>)
    ensures
        coordinates(copy@) == coordinates(list@),
{
    let mut copy: Vec<VariableCoordinate> = Vec::new();
    let mut i: usize = 0;
    while i < list.len()
        invariant
            0 <= i <= list.len(),
            copy@.len() == i,
            forall|k: int| 0 <= k < i ==> (#[trigger] copy@[k])@ == list@[k]@,
        decreases list.len() - i,
    {
        copy.push(list[i].clone());
        i = i + 1;
    }
    assert(coordinates(copy@) =~= coordinates(list@));
    copy
}

fn check_coordinates(variables: &Vec<VariableCoordinate>) -> (r: Result<(), QueryError>)
    ensures
        error::answers(r, error::first_fault(coordinate_shape_faults(coordinates(variables@)))),
{
    let ghost listed = coordinates(variables@);
    let ghost faults = coordinate_shape_faults(listed);
    let mut j: usize = 0;
    while j < variables.len()
        invariant
            0 <= j <= variables.len(),
            listed == coordinates(variables@),
            faults == coordinate_shape_faults(listed),
            forall|k: int| 0 <= k < j ==> (#[trigger] faults[k]) is None,
        decreases variables.len() - j,
    {
        let empty = match variables[j].domain {
            VariableDomain::Categorical { cardinality } => cardinality == 0,
            _ => false,
        };
        if empty {
            proof {
                error::lemma_first_fault(faults, j as int);
            }
            return Err(
                QueryError::InvalidTransport("categorical cardinality must be positive".to_owned()),
            );
        }
        if listed_before(variables, j) {
            proof {
                error::lemma_first_fault(faults, j as int);
            }
            return Err(
                QueryError::InvalidTransport(
                    "environment variable coordinates must be unique".to_owned(),
                ),
            );
        }
        assert(faults[j as int] is None);
        j = j + 1;
    }
    proof {
        error::lemma_first_fault(faults, faults.len() as int);
    }
    Ok(())
}

fn listed_before(variables: &Vec<VariableCoordinate>, j: usize) -> (yes: bool)
    requires
        j < variables@.len(),
    ensures
        yes == exists|k: int|
            0 <= k < j && (#[trigger] coordinates(variables@)[k]).variable == coordinates(
                variables@,
            )[j as int].variable,
{
    let mut k: usize = 0;
    while k < j
        invariant
            0 <= k <= j < variables@.len(),
            forall|i: int|
                0 <= i < k ==> (#[trigger] coordinates(variables@)[i]).variable != coordinates(
                    variables@,
                )[j as int].variable,
        decreases j - k,
    {
        if variables[k].variable == variables[j].variable {
            assert(coordinates(variables@)[k as int].variable == coordinates(
                variables@,
            )[j as int].variable);
            return true;
        }
        k = k + 1;
    }
    false
}

/// Whether a regime's results exist, or it is only proposed or manipulable.
#[derive(Clone, Copy, Debug, PartialEq, Eq, Hash, Structural)]
pub enum EvidenceKind {
    /// Results exist and may satisfy an executable factor.
    Available,
    /// The variables are manipulable but no results exist.
    Manipulable,
    /// A proposed future experiment. Not available evidence.
    Proposed,
}

impl EvidenceKind {
    /// The name as text.
    pub open spec fn name(self) -> Seq<char> {
        match self {
            EvidenceKind::Available => "available"@,
            EvidenceKind::Manipulable => "manipulable"@,
            EvidenceKind::Proposed => "proposed"@,
        }
    }

    /// Stable `snake_case` name.
    #[must_use]
    pub fn as_str(self) -> (out: &'static str)
        ensures
            out@ == self.name(),
    {
        match self {
            EvidenceKind::Available => "available",
            EvidenceKind::Manipulable => "manipulable",
            EvidenceKind::Proposed => "proposed",
        }
    }
}

/// Different variants of [`EvidenceKind`] have different names.
pub proof fn law_evidence_kind_names_are_distinct(a: EvidenceKind, b: EvidenceKind)
    requires
        a.name() == b.name(),
    ensures
        a == b,
{
    reveal_strlit("available");
    assert("available"@.len() == 9);
    reveal_strlit("manipulable");
    assert("manipulable"@.len() == 11);
    reveal_strlit("proposed");
    assert("proposed"@.len() == 8);
}

impl EvidenceKind {
    /// Whether this kind can satisfy an executable factor.
    #[must_use]
    pub fn can_satisfy_factor(self) -> (yes: bool)
        ensures
            yes == (self is Available),
    {
        match self {
            EvidenceKind::Available => true,
            _ => false,
        }
    }
}

/// Observational versus experimental regime.
#[derive(Clone, Copy, Debug, PartialEq, Eq, Hash, Structural)]
pub enum RegimeKind {
    /// No hard intervention.
    Observational,
    /// Hard intervention on a declared set. `do(A)` never implies `do(A,B)`.
    Experimental,
}

impl RegimeKind {
    /// The name as text.
    pub open spec fn name(self) -> Seq<char> {
        match self {
            RegimeKind::Observational => "observational"@,
            RegimeKind::Experimental => "experimental"@,
        }
    }

    /// Stable `snake_case` name.
    #[must_use]
    pub fn as_str(self) -> (out: &'static str)
        ensures
            out@ == self.name(),
    {
        match self {
            RegimeKind::Observational => "observational",
            RegimeKind::Experimental => "experimental",
        }
    }
}

/// Different variants of [`RegimeKind`] have different names.
pub proof fn law_regime_kind_names_are_distinct(a: RegimeKind, b: RegimeKind)
    requires
        a.name() == b.name(),
    ensures
        a == b,
{
    reveal_strlit("observational");
    assert("observational"@.len() == 13);
    reveal_strlit("experimental");
    assert("experimental"@.len() == 12);
}

/// How a regime's measured law is available.
#[derive(Clone, Debug, PartialEq, Eq)]
pub enum DistributionAvailability {
    /// Joint over the measured variables.
    Joint,
    /// Separate marginals. Never imply a joint measurement.
    SeparateMarginals {
        /// Variables whose marginals exist.
        variables: Vec<VariableId>,
    },
}

impl DistributionAvailability {
    /// Variables of the separate marginals, if the law is not a joint one.
    pub open spec fn marginals(self) -> Option<Seq<VariableId>> {
        match self {
            DistributionAvailability::Joint => None,
            DistributionAvailability::SeparateMarginals { variables } => Some(variables@),
        }
    }

    /// Copy of this availability.
    #[must_use]
    pub fn duplicate(&self) -> (copy: Self)
        ensures
            copy.marginals() == self.marginals(),
    {
        match self {
            DistributionAvailability::Joint => DistributionAvailability::Joint,
            DistributionAvailability::SeparateMarginals { variables } =>
            DistributionAvailability::SeparateMarginals { variables: ids::copied_ids(variables) },
        }
    }
}

/// One available intervention assignment.
#[derive(Debug, PartialEq)]
pub struct InterventionAssignment {
    /// Intervened variable.
    pub variable: VariableId,
    /// Assigned value.
    pub value: Value,
}

impl Clone for InterventionAssignment {
    fn clone(&self) -> (copy: Self)
        ensures
            copy == *self,
    {
        InterventionAssignment { variable: self.variable, value: self.value.clone() }
    }
}

fn copied_assignments(list: &Vec<InterventionAssignment>) -> (copy: Vec<InterventionAssignment>)
    ensures
        copy@ == list@,
{
    let mut copy: Vec<InterventionAssignment> = Vec::new();
    let mut i: usize = 0;
    while i < list.len()
        invariant
            0 <= i <= list.len(),
            copy@ == list@.take(i as int),
        decreases list.len() - i,
    {
        copy.push(list[i].clone());
        i = i + 1;
        assert(copy@ =~= list@.take(i as int));
    }
    assert(copy@ =~= list@);
    copy
}

/// What one executable factor needs from a supplied regime.
#[derive(Clone, Copy, Debug, PartialEq, Eq)]
pub struct FactorNeed<'a> {
    /// Population the factor is a law of.
    pub population: &'a str,
    /// Variables whose (conditional) law is required.
    pub variables: &'a [VariableId],
    /// Conditioning variables of the law.
    pub conditioned_on: &'a [VariableId],
    /// Variables experimentally intervened on. The regime must match this set exactly.
    pub interventions: &'a [VariableId],
}

impl FactorNeed<'_> {
    /// The factor reads this variable: its own or a conditioning coordinate.
    pub open spec fn reads(self, variable: VariableId) -> bool {
        self.variables@.contains(variable) || self.conditioned_on@.contains(variable)
    }

    /// The variables a factor reads, ascending, each once.
    pub open spec fn lists_reads(self, list: Seq<VariableId>) -> bool {
        ids::ascending(list) && forall|v: VariableId| #[trigger] list.contains(v) <==> self.reads(v)
    }

    /// Variables the factor reads, in ascending order without repetition.
    #[must_use]
    pub fn needed_variables(&self) -> (needed: Vec<VariableId>)
        ensures
            self.lists_reads(needed@),
    {
        let mut needed: Vec<VariableId> = Vec::new();
        insert_all(&mut needed, self.variables);
        insert_all(&mut needed, self.conditioned_on);
        needed
    }
}

/// Add each id of a slice to an ascending list.
pub fn insert_all(list: &mut Vec<VariableId>, more: &[VariableId])
    requires
        ids::ascending(old(list)@),
    ensures
        ids::ascending(final(list)@),
        forall|v: VariableId|
            #[trigger] final(list)@.contains(v) <==> old(list)@.contains(v) || more@.contains(v),
{
    let ghost before = list@;
    let mut i: usize = 0;
    while i < more.len()
        invariant
            0 <= i <= more.len(),
            ids::ascending(list@),
            forall|v: VariableId|
                #[trigger] list@.contains(v) <==> before.contains(v) || more@.take(
                    i as int,
                ).contains(v),
        decreases more.len() - i,
    {
        let ghost earlier = list@;
        ids::insert_id(list, more[i]);
        proof {
            let id = more@[i as int];
            let seen = more@.take(i as int);
            let next = more@.take(i + 1);
            assert forall|v: VariableId| #[trigger] list@.contains(v) <==> before.contains(v)
                || next.contains(v) by {
                assert(next =~= seen.push(id));
                if seen.contains(v) {
                    let k = choose|k: int| 0 <= k < seen.len() && seen[k] == v;
                    assert(next[k] == v);
                }
                if v == id {
                    assert(next[i as int] == v);
                }
                if next.contains(v) {
                    let k = choose|k: int| 0 <= k < next.len() && next[k] == v;
                    if k < i {
                        assert(seen[k] == v);
                    }
                }
                assert(earlier.contains(v) <==> before.contains(v) || seen.contains(v));
            }
        }
        i = i + 1;
    }
    proof {
        assert(more@.take(i as int) =~= more@);
    }
}

/// One evidence regime. Two single-variable experiments never imply a joint.
#[derive(Clone, Debug, PartialEq)]
pub struct EvidenceRegime {
    /// Stable regime handle.
    pub id: RegimeId,
    /// Optional external regime name, retained in durable catalog identity.
    pub label: Option<String>,
    /// Observational or experimental.
    pub kind: RegimeKind,
    /// Whether results exist.
    pub evidence_kind: EvidenceKind,
    /// Intervention set. Empty for observational regimes.
    pub interventions: Vec<VariableId>,
    /// Available intervention values. Empty means the domain is unrestricted.
    pub intervention_values: Vec<InterventionAssignment>,
    /// Measured variables.
    pub measured: Vec<VariableId>,
    /// Coordinates already conditioned on by an admissible projection.
    pub conditioned_on: Vec<VariableId>,
    /// Population this regime was collected in.
    pub population: String,
    /// Joint versus separate-marginal availability.
    pub distribution: DistributionAvailability,
}

/// Mathematical form of [`EvidenceRegime`].
#[verifier::ext_equal]
pub struct RegimeView {
    /// Regime handle.
    pub id: RegimeId,
    /// External name.
    pub label: Option<Seq<char>>,
    /// Observational or experimental.
    pub kind: RegimeKind,
    /// Whether results exist.
    pub evidence_kind: EvidenceKind,
    /// Intervention set.
    pub interventions: Seq<VariableId>,
    /// Available intervention values.
    pub intervention_values: Seq<InterventionAssignment>,
    /// Measured variables.
    pub measured: Seq<VariableId>,
    /// Conditioned coordinates.
    pub conditioned_on: Seq<VariableId>,
    /// Population.
    pub population: Seq<char>,
    /// Variables of separate marginals; `None` for a joint law.
    pub marginals: Option<Seq<VariableId>>,
}

impl View for EvidenceRegime {
    type V = RegimeView;

    open spec fn view(&self) -> RegimeView {
        RegimeView {
            id: self.id,
            label: text::text_of(self.label),
            kind: self.kind,
            evidence_kind: self.evidence_kind,
            interventions: self.interventions@,
            intervention_values: self.intervention_values@,
            measured: self.measured@,
            conditioned_on: self.conditioned_on@,
            population: self.population@,
            marginals: self.distribution.marginals(),
        }
    }
}

/// An assigned float that is NaN or infinite.
pub open spec fn non_finite(value: Value) -> bool {
    value matches Value::Float64(v) && !v.finite()
}

impl RegimeView {
    /// An assignment outside the intervention set, repeated, or not finite.
    pub open spec fn bad_assignment(self, j: int) -> bool {
        let assignment = self.intervention_values[j];
        ||| !self.interventions.contains(assignment.variable)
        ||| exists|k: int|
            0 <= k < j && (#[trigger] self.intervention_values[k]).variable == assignment.variable
        ||| non_finite(assignment.value)
    }

    /// Why a regime is refused by itself.
    pub open spec fn refusal(self) -> Option<QueryFault> {
        if text::trimmed(self.population).len() == 0 {
            Some(QueryFault::Transport("regime population must be non-empty"@))
        } else if !self.interventions.no_duplicates() {
            unique_fault(self.interventions, "regime interventions"@)
        } else if !self.measured.no_duplicates() {
            unique_fault(self.measured, "regime measured variables"@)
        } else if self.kind is Observational && self.interventions.len() > 0 {
            Some(QueryFault::Transport("observational regimes cannot carry hard interventions"@))
        } else if self.kind is Experimental && self.interventions.len() == 0 {
            Some(
                QueryFault::Transport("experimental regimes require a non-empty intervention set"@),
            )
        } else if self.marginals matches Some(variables) && !variables.no_duplicates() {
            unique_fault(self.marginals->0, "marginal variables"@)
        } else if self.marginals matches Some(variables) && exists|i: int|
            0 <= i < variables.len() && !self.measured.contains(#[trigger] variables[i]) {
            Some(QueryFault::Transport("marginals require measured variables"@))
        } else if exists|j: int|
            0 <= j < self.intervention_values.len() && #[trigger] self.bad_assignment(j) {
            Some(QueryFault::Transport("invalid or duplicate intervention assignment"@))
        } else {
            None
        }
    }

    /// An available experiment on exactly these variables in this population.
    pub open spec fn experiments_on(self, population: Seq<char>, variables: Seq<VariableId>) -> bool {
        &&& self.evidence_kind is Available
        &&& self.kind is Experimental
        &&& self.population == population
        &&& ids::same_ids(self.interventions, variables)
    }

    /// The regime supplies the factor.
    pub open spec fn supplies(self, need: FactorNeed) -> bool {
        &&& self.evidence_kind is Available
        &&& self.population == need.population@
        &&& forall|i: int|
            0 <= i < self.conditioned_on.len() ==> need.conditioned_on@.contains(
                #[trigger] self.conditioned_on[i],
            ) && !need.variables@.contains(self.conditioned_on[i])
        &&& ids::same_ids(self.interventions, need.interventions@)
        &&& forall|v: VariableId| #[trigger]
            need.reads(v) ==> self.measured.contains(v) || self.interventions.contains(v)
        &&& self.marginals matches Some(variables) ==> {
            &&& forall|v: VariableId, w: VariableId| #[trigger]
                need.reads(v) && #[trigger] need.reads(w) ==> v == w
            &&& forall|v: VariableId| #[trigger]
                need.reads(v) ==> variables.contains(v) || self.interventions.contains(v)
        }
        &&& self.intervention_values.len() == 0
    }
}

impl EvidenceRegime {
    /// Construct a regime after checking intervention and measurement consistency.
    pub fn try_new(
        id: RegimeId,
        kind: RegimeKind,
        evidence_kind: EvidenceKind,
        interventions: Vec<VariableId>,
        intervention_values: Vec<InterventionAssignment>,
        measured: Vec<VariableId>,
        population: &str,
        distribution: DistributionAvailability,
    ) -> (r: Result<Self, QueryError>)
        ensures
            ({
                let made = RegimeView {
                    id,
                    label: None,
                    kind,
                    evidence_kind,
                    interventions: interventions@,
                    intervention_values: intervention_values@,
                    measured: measured@,
                    conditioned_on: Seq::empty(),
                    population: population@,
                    marginals: distribution.marginals(),
                };
                &&& error::answers(r, made.refusal())
                &&& r matches Ok(regime) ==> regime@ == made
            }),
    {
        let regime = EvidenceRegime {
            id,
            label: None,
            kind,
            evidence_kind,
            interventions,
            intervention_values,
            measured,
            conditioned_on: Vec::new(),
            population: population.to_owned(),
            distribution,
        };
        proof {
            assert(regime@.conditioned_on =~= Seq::empty());
        }
        match regime.check() {
            Ok(_) => Ok(regime),
            Err(error) => Err(error),
        }
    }

    /// Check intervention and measurement consistency.
    pub fn check(&self) -> (r: Result<(), QueryError>)
        ensures
            error::answers(r, self@.refusal()),
    {
        if text::blank(self.population.as_str()) {
            return Err(
                QueryError::InvalidTransport("regime population must be non-empty".to_owned()),
            );
        }
        match unique_variables(&self.interventions, "regime interventions") {
            Ok(_) => {},
            Err(error) => {
                return Err(error);
            },
        }
        match unique_variables(&self.measured, "regime measured variables") {
            Ok(_) => {},
            Err(error) => {
                return Err(error);
            },
        }
        match self.kind {
            RegimeKind::Observational => {
                if self.interventions.len() > 0 {
                    return Err(
                        QueryError::InvalidTransport(
                            "observational regimes cannot carry hard interventions".to_owned(),
                        ),
                    );
                }
            },
            RegimeKind::Experimental => {
                if self.interventions.len() == 0 {
                    return Err(
                        QueryError::InvalidTransport(
                            "experimental regimes require a non-empty intervention set".to_owned(),
                        ),
                    );
                }
            },
        }
        match &self.distribution {
            DistributionAvailability::Joint => {},
            DistributionAvailability::SeparateMarginals { variables } => {
                match unique_variables(variables, "marginal variables") {
                    Ok(_) => {},
                    Err(error) => {
                        return Err(error);
                    },
                }
                if any_outside(variables, &self.measured) {
                    return Err(
                        QueryError::InvalidTransport(
                            "marginals require measured variables".to_owned(),
                        ),
                    );
                }
            },
        }
        if self.has_bad_assignment() {
            return Err(
                QueryError::InvalidTransport(
                    "invalid or duplicate intervention assignment".to_owned(),
                ),
            );
        }
        Ok(())
    }

    fn has_bad_assignment(&self) -> (yes: bool)
        ensures
            yes == exists|j: int|
                0 <= j < self.intervention_values@.len() && #[trigger] self@.bad_assignment(j),
    {
        let mut j: usize = 0;
        while j < self.intervention_values.len()
            invariant
                0 <= j <= self.intervention_values.len(),
                forall|k: int| 0 <= k < j ==> !#[trigger] self@.bad_assignment(k),
            decreases self.intervention_values.len() - j,
        {
            let repeated = self.assigned_before(j);
            let assignment = &self.intervention_values[j];
            let infinite = match &assignment.value {
                Value::Float64(v) => !v.is_finite(),
                _ => false,
            };
            let outside = !ids::contains_id(&self.interventions, assignment.variable);
            proof {
                assert(self@.intervention_values[j as int] == *assignment);
            }
            if outside || repeated || infinite {
                assert(self@.bad_assignment(j as int));
                return true;
            }
            assert(!self@.bad_assignment(j as int));
            j = j + 1;
        }
        false
    }

    fn assigned_before(&self, j: usize) -> (yes: bool)
        requires
            j < self.intervention_values@.len(),
        ensures
            yes == exists|k: int|
                0 <= k < j && (#[trigger] self@.intervention_values[k]).variable
                    == self@.intervention_values[j as int].variable,
    {
        let mut k: usize = 0;
        while k < j
            invariant
                0 <= k <= j < self.intervention_values@.len(),
                forall|i: int|
                    0 <= i < k ==> (#[trigger] self@.intervention_values[i]).variable
                        != self@.intervention_values[j as int].variable,
            decreases j - k,
        {
            if self.intervention_values[k].variable == self.intervention_values[j].variable {
                assert(self@.intervention_values[k as int].variable
                    == self@.intervention_values[j as int].variable);
                return true;
            }
            k = k + 1;
        }
        false
    }

    /// Copy of this regime.
    #[must_use]
    pub fn duplicate(&self) -> (copy: Self)
        ensures
            copy@ == self@,
    {
        EvidenceRegime {
            id: self.id,
            label: text::copied_option(&self.label),
            kind: self.kind,
            evidence_kind: self.evidence_kind,
            interventions: ids::copied_ids(&self.interventions),
            intervention_values: copied_assignments(&self.intervention_values),
            measured: ids::copied_ids(&self.measured),
            conditioned_on: ids::copied_ids(&self.conditioned_on),
            population: self.population.clone(),
            distribution: self.distribution.duplicate(),
        }
    }

    /// Whether this regime is an available experimental assignment of `variables`.
    ///
    /// The intervention set must match exactly. `do(A)` and `do(B)` never jointly
    /// satisfy `do(A,B)`.
    #[must_use]
    pub fn available_experiment_on(&self, population: &str, variables: &[VariableId]) -> (yes: bool)
        ensures
            yes == self@.experiments_on(population@, variables@),
    {
        let experimental = match self.kind {
            RegimeKind::Experimental => true,
            RegimeKind::Observational => false,
        };
        self.evidence_kind.can_satisfy_factor() && experimental && text::str_eq(
            self.population.as_str(),
            population,
        ) && ids::same_variable_set(self.interventions.as_slice(), variables)
    }

    /// Whether this regime can supply the factor `need`: results exist, same
    /// population, exactly the needed intervention set, every needed variable
    /// measured (or intervened), a joint law when more than one variable is needed,
    /// only conditioning the factor itself conditions on, and an unrestricted
    /// intervention domain (a restricted assignment cannot supply an unrestricted
    /// symbolic response).
    ///
    /// This is the single owner of factor satisfaction: the identifier and the public
    /// unmet-dependency report both call it.
    #[must_use]
    pub fn satisfies(&self, need: &FactorNeed) -> (yes: bool)
        ensures
            yes == self@.supplies(*need),
    {
        let needed = need.needed_variables();
        if !self.evidence_kind.can_satisfy_factor() {
            return false;
        }
        if !text::str_eq(self.population.as_str(), need.population) {
            return false;
        }
        if !self.conditioning_fits(need) {
            proof {
                let held = self@.conditioned_on;
                let i = choose|i: int|
                    0 <= i < held.len() && !(need.conditioned_on@.contains(#[trigger] held[i])
                        && !need.variables@.contains(held[i]));
                assert(self@.conditioned_on[i] == held[i]);
            }
            return false;
        }
        if !ids::same_variable_set(self.interventions.as_slice(), need.interventions) {
            return false;
        }
        if !covered(&needed, &self.measured, &self.interventions) {
            proof {
                let i = choose|i: int|
                    0 <= i < needed@.len() && !self.measured@.contains(#[trigger] needed@[i])
                        && !self.interventions@.contains(needed@[i]);
                assert(needed@.contains(needed@[i]));
                assert(need.reads(needed@[i]));
            }
            return false;
        }
        proof {
            assert forall|v: VariableId| #[trigger] need.reads(v) implies self.measured@.contains(v)
                || self.interventions@.contains(v) by {
                assert(needed@.contains(v));
            }
        }
        match &self.distribution {
            DistributionAvailability::Joint => {},
            DistributionAvailability::SeparateMarginals { variables } => {
                if needed.len() > 1 {
                    proof {
                        assert(needed@.contains(needed@[0]) && needed@.contains(needed@[1]));
                        assert(need.reads(needed@[0]) && need.reads(needed@[1]));
                        assert(needed@[0] != needed@[1]);
                    }
                    return false;
                }
                if !covered(&needed, variables, &self.interventions) {
                    proof {
                        let i = choose|i: int|
                            0 <= i < needed@.len() && !variables@.contains(#[trigger] needed@[i])
                                && !self.interventions@.contains(needed@[i]);
                        assert(needed@.contains(needed@[i]));
                        assert(need.reads(needed@[i]));
                    }
                    return false;
                }
                proof {
                    assert forall|v: VariableId, w: VariableId| #[trigger]
                        need.reads(v) && #[trigger] need.reads(w) implies v == w by {
                        assert(needed@.contains(v) && needed@.contains(w));
                    }
                    assert forall|v: VariableId| #[trigger] need.reads(v) implies variables@.contains(
                        v,
                    ) || self.interventions@.contains(v) by {
                        assert(needed@.contains(v));
                    }
                }
            },
        }
        self.intervention_values.len() == 0
    }

    fn conditioning_fits(&self, need: &FactorNeed) -> (yes: bool)
        ensures
            yes == forall|i: int|
                0 <= i < self.conditioned_on@.len() ==> need.conditioned_on@.contains(
                    #[trigger] self.conditioned_on@[i],
                ) && !need.variables@.contains(self.conditioned_on@[i]),
    {
        let mut i: usize = 0;
        while i < self.conditioned_on.len()
            invariant
                0 <= i <= self.conditioned_on.len(),
                forall|k: int|
                    0 <= k < i ==> need.conditioned_on@.contains(
                        #[trigger] self.conditioned_on@[k],
                    ) && !need.variables@.contains(self.conditioned_on@[k]),
            decreases self.conditioned_on.len() - i,
        {
            let v = self.conditioned_on[i];
            if !ids::slice_contains(need.conditioned_on, v) || ids::slice_contains(
                need.variables,
                v,
            ) {
                assert(v == self.conditioned_on@[i as int]);
                return false;
            }
            i = i + 1;
        }
        true
    }

    /// Admissible projection: marginalize or condition within a measured regime.
    ///
    /// Removing a hard intervention and treating the law as observational is refused.
    /// Support obligations stay with the caller.
    pub fn project(&self, projection: EvidenceProjection) -> (r: Result<Self, QueryError>)
        ensures
            error::answers(r, projection_refusal(self@, projection)),
            r matches Ok(regime) ==> projects_to(self@, projection, regime@),
    {
        match projection {
            EvidenceProjection::Deintervene { .. } => Err(
                QueryError::InvalidTransport(
                    "removing a hard intervention and treating its law as observational is not licensed".to_owned(),
                ),
            ),
            EvidenceProjection::Marginalize { drop } => {
                if any_outside(&drop, &self.measured) || ids::any_shared(
                    &drop,
                    &self.conditioned_on,
                ) {
                    return Err(
                        QueryError::InvalidTransport(
                            "cannot marginalize an unmeasured variable".to_owned(),
                        ),
                    );
                }
                let mut out = self.duplicate();
                out.measured = ids::filter_out(&self.measured, &drop);
                match &self.distribution {
                    DistributionAvailability::Joint => {},
                    DistributionAvailability::SeparateMarginals { variables } => {
                        out.distribution =
                        DistributionAvailability::SeparateMarginals {
                            variables: ids::filter_out(variables, &drop),
                        };
                    },
                }
                Ok(out)
            },
            EvidenceProjection::Condition { on } => {
                let separate = match &self.distribution {
                    DistributionAvailability::Joint => false,
                    DistributionAvailability::SeparateMarginals { .. } => true,
                };
                if on.len() > 0 && separate {
                    return Err(
                        QueryError::InvalidTransport("conditioning requires a joint law".to_owned()),
                    );
                }
                if any_outside(&on, &self.measured) {
                    return Err(
                        QueryError::InvalidTransport(
                            "conditioning projection requires measured variables".to_owned(),
                        ),
                    );
                }
                let mut conditioned_on: Vec<VariableId> = Vec::new();
                insert_all(&mut conditioned_on, self.conditioned_on.as_slice());
                insert_all(&mut conditioned_on, on.as_slice());
                let mut out = self.duplicate();
                out.conditioned_on = conditioned_on;
                Ok(out)
            },
        }
    }
}

/// Some id of a list is not in another.
pub open spec fn reaches_outside(list: Seq<VariableId>, within: Seq<VariableId>) -> bool {
    exists|i: int| 0 <= i < list.len() && !within.contains(#[trigger] list[i])
}

/// Whether some id of a list is not in another.
pub fn any_outside(list: &Vec<VariableId>, within: &Vec<VariableId>) -> (yes: bool)
    ensures
        yes == reaches_outside(list@, within@),
{
    let mut i: usize = 0;
    while i < list.len()
        invariant
            0 <= i <= list.len(),
            forall|k: int| 0 <= k < i ==> within@.contains(#[trigger] list@[k]),
        decreases list.len() - i,
    {
        if !ids::contains_id(within, list[i]) {
            assert(!within@.contains(list@[i as int]));
            return true;
        }
        i = i + 1;
    }
    false
}

fn covered(needed: &Vec<VariableId>, first: &Vec<VariableId>, second: &Vec<VariableId>) -> (yes:
    bool)
    ensures
        yes == forall|i: int|
            0 <= i < needed@.len() ==> first@.contains(#[trigger] needed@[i]) || second@.contains(
                needed@[i],
            ),
{
    let mut i: usize = 0;
    while i < needed.len()
        invariant
            0 <= i <= needed.len(),
            forall|k: int|
                0 <= k < i ==> first@.contains(#[trigger] needed@[k]) || second@.contains(
                    needed@[k],
                ),
        decreases needed.len() - i,
    {
        if !ids::contains_id(first, needed[i]) && !ids::contains_id(second, needed[i]) {
            assert(!first@.contains(needed@[i as int]));
            return false;
        }
        i = i + 1;
    }
    true
}

/// Licensed projection of an evidence regime.
#[derive(Clone, Debug, PartialEq, Eq)]
pub enum EvidenceProjection {
    /// Drop measured variables. The intervention set is unchanged.
    Marginalize {
        /// Variables removed from the measured set.
        drop: Vec<VariableId>,
    },
    /// Condition on measured variables. Support obligations stay with the caller.
    Condition {
        /// Conditioning variables.
        on: Vec<VariableId>,
    },
    /// Explicitly refused: do not strip a hard intervention.
    Deintervene {
        /// Intervention variables the caller asked to remove.
        variables: Vec<VariableId>,
    },
}

/// Why a projection is refused.
pub open spec fn projection_refusal(regime: RegimeView, projection: EvidenceProjection) -> Option<
    QueryFault,
> {
    match projection {
        EvidenceProjection::Deintervene { .. } => Some(
            QueryFault::Transport(
                "removing a hard intervention and treating its law as observational is not licensed"@,
            ),
        ),
        EvidenceProjection::Marginalize { drop } => if reaches_outside(drop@, regime.measured)
            || ids::share_an_id(drop@, regime.conditioned_on) {
            Some(QueryFault::Transport("cannot marginalize an unmeasured variable"@))
        } else {
            None
        },
        EvidenceProjection::Condition { on } => if on@.len() > 0 && regime.marginals is Some {
            Some(QueryFault::Transport("conditioning requires a joint law"@))
        } else if reaches_outside(on@, regime.measured) {
            Some(QueryFault::Transport("conditioning projection requires measured variables"@))
        } else {
            None
        },
    }
}

/// What a licensed projection yields: the regime with dropped variables gone from its
/// measured set and marginals, or with its conditioned coordinates joined, ascending.
pub open spec fn projects_to(
    regime: RegimeView,
    projection: EvidenceProjection,
    out: RegimeView,
) -> bool {
    match projection {
        EvidenceProjection::Deintervene { .. } => false,
        EvidenceProjection::Marginalize { drop } => out == (RegimeView {
            measured: ids::without(regime.measured, drop@),
            marginals: match regime.marginals {
                Some(variables) => Some(ids::without(variables, drop@)),
                None => None,
            },
            ..regime
        }),
        EvidenceProjection::Condition { on } => {
            &&& out == (RegimeView { conditioned_on: out.conditioned_on, ..regime })
            &&& ids::ascending(out.conditioned_on)
            &&& forall|v: VariableId| #[trigger]
                out.conditioned_on.contains(v) <==> regime.conditioned_on.contains(v)
                    || on@.contains(v)
        },
    }
}

/// A projection keeps the regime well formed, and changes neither what was
/// intervened on, nor where, nor whether results exist.
pub proof fn law_projection_keeps_the_experiment(
    regime: RegimeView,
    projection: EvidenceProjection,
    out: RegimeView,
)
    requires
        projects_to(regime, projection, out),
        regime.refusal() is None,
    ensures
        out.refusal() is None,
        out.interventions == regime.interventions,
        out.intervention_values == regime.intervention_values,
        out.population == regime.population,
        out.kind == regime.kind,
        out.evidence_kind == regime.evidence_kind,
        out.id == regime.id,
{
    assert forall|j: int| 0 <= j < out.intervention_values.len() implies !#[trigger] out.bad_assignment(
        j,
    ) by {
        assert(!regime.bad_assignment(j));
        if exists|k: int|
            0 <= k < j && (#[trigger] out.intervention_values[k]).variable
                == out.intervention_values[j].variable {
            let k = choose|k: int|
                0 <= k < j && (#[trigger] out.intervention_values[k]).variable
                    == out.intervention_values[j].variable;
            assert(regime.intervention_values[k].variable
                == regime.intervention_values[j].variable);
        }
    }
    match projection {
        EvidenceProjection::Marginalize { drop } => {
            ids::lemma_without(regime.measured, drop@);
            match regime.marginals {
                Some(variables) => {
                    ids::lemma_without(variables, drop@);
                    let kept = ids::without(variables, drop@);
                    assert forall|i: int| 0 <= i < kept.len() implies out.measured.contains(
                        #[trigger] kept[i],
                    ) by {
                        assert(kept.contains(kept[i]));
                        let b = choose|b: int| 0 <= b < variables.len() && variables[b] == kept[i];
                        assert(regime.measured.contains(variables[b]));
                    }
                },
                None => {},
            }
        },
        _ => {},
    }
}

/// No regime is an experiment on two different intervention sets: `do(A)` is never
/// also `do(A,B)`.
pub proof fn law_an_experiment_has_one_intervention_set(
    regime: RegimeView,
    population: Seq<char>,
    first: Seq<VariableId>,
    second: Seq<VariableId>,
)
    requires
        regime.experiments_on(population, first),
        regime.experiments_on(population, second),
    ensures
        ids::same_ids(first, second),
        first.len() == second.len(),
        forall|v: VariableId| #[trigger] first.contains(v) <==> second.contains(v),
{
    vstd::seq_lib::to_multiset_len(first);
    vstd::seq_lib::to_multiset_len(second);
    assert forall|v: VariableId| #[trigger] first.contains(v) <==> second.contains(v) by {
        vstd::seq_lib::to_multiset_contains(first, v);
        vstd::seq_lib::to_multiset_contains(second, v);
    }
}

/// Separate marginals never supply a factor that reads two variables.
pub proof fn law_separate_marginals_never_imply_a_joint(
    regime: RegimeView,
    need: FactorNeed,
    v: VariableId,
    w: VariableId,
)
    requires
        regime.marginals is Some,
        need.reads(v),
        need.reads(w),
        v != w,
    ensures
        !regime.supplies(need),
{
}

} // verus!
