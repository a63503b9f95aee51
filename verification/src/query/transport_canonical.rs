//! Canonical ordering of evidence catalogs.
//!
//! SPDX-License-Identifier: MIT OR Apache-2.0

use crate::ids;
use crate::ids::VariableId;
use crate::order;
use crate::order::Keyed;
use crate::query::error;
use crate::query::error::QueryError;
use crate::query::evidence;
use crate::query::evidence::{
    DistributionAvailability, Environment, EnvironmentView, EvidenceRegime, FactorNeed,
    InterventionAssignment, RegimeView, VariableCoordinate,
};
use crate::query::transport_catalog;
use crate::query::transport_catalog::{BindingView, CatalogView, EvidenceCatalog, RegimeBinding};
use crate::text;
use vstd::prelude::*;

verus! {

impl Keyed for VariableId {
    open spec fn precedes(self, other: Self) -> bool {
        self.raw < other.raw
    }

    proof fn lemma_order(a: Self, b: Self, c: Self) {
    }

    fn before(&self, other: &Self) -> bool {
        self.raw < other.raw
    }
}

impl Keyed for VariableCoordinate {
    open spec fn precedes(self, other: Self) -> bool {
        self.variable.raw < other.variable.raw
    }

    proof fn lemma_order(a: Self, b: Self, c: Self) {
    }

    fn before(&self, other: &Self) -> bool {
        self.variable.raw < other.variable.raw
    }
}

impl Keyed for InterventionAssignment {
    open spec fn precedes(self, other: Self) -> bool {
        self.variable.raw < other.variable.raw
    }

    proof fn lemma_order(a: Self, b: Self, c: Self) {
    }

    fn before(&self, other: &Self) -> bool {
        self.variable.raw < other.variable.raw
    }
}

impl Keyed for Environment {
    open spec fn precedes(self, other: Self) -> bool {
        text::text_lt(self.identity@, other.identity@)
    }

    proof fn lemma_order(a: Self, b: Self, c: Self) {
        text::law_text_order_is_strict_and_total(a.identity@, a.identity@, a.identity@);
        text::law_text_order_is_strict_and_total(a.identity@, b.identity@, c.identity@);
        text::law_text_order_is_strict_and_total(c.identity@, b.identity@, a.identity@);
        text::law_text_order_is_strict_and_total(a.identity@, c.identity@, b.identity@);
        text::law_text_order_is_strict_and_total(b.identity@, a.identity@, c.identity@);
    }

    fn before(&self, other: &Self) -> bool {
        text::str_less(self.identity.as_str(), other.identity.as_str())
    }
}

impl Keyed for EvidenceRegime {
    open spec fn precedes(self, other: Self) -> bool {
        self.id.raw < other.id.raw
    }

    proof fn lemma_order(a: Self, b: Self, c: Self) {
    }

    fn before(&self, other: &Self) -> bool {
        self.id.raw < other.id.raw
    }
}

impl Keyed for RegimeBinding {
    open spec fn precedes(self, other: Self) -> bool {
        self.regime.raw < other.regime.raw
    }

    proof fn lemma_order(a: Self, b: Self, c: Self) {
    }

    fn before(&self, other: &Self) -> bool {
        self.regime.raw < other.regime.raw
    }
}

/// Two sequences have the same members.
pub open spec fn same_members<T>(left: Seq<T>, right: Seq<T>) -> bool {
    forall|x: T| #[trigger] left.contains(x) <==> right.contains(x)
}

/// The given ids in ascending order.
pub open spec fn arranged_ids(out: Seq<VariableId>, given: Seq<VariableId>) -> bool {
    ids::ascending(out) && out.len() == given.len() && same_members(out, given)
}

/// The canonical form of an environment: coordinates and selection targets ascend.
pub open spec fn canonical_environment(out: EnvironmentView, given: EnvironmentView) -> bool {
    &&& out.identity == given.identity
    &&& arranged_ids(out.selection_targets, given.selection_targets)
    &&& out.variables.len() == given.variables.len()
    &&& same_members(out.variables, given.variables)
    &&& forall|i: int, j: int|
        0 <= i < j < out.variables.len() ==> (#[trigger] out.variables[i]).variable.raw < (
        #[trigger] out.variables[j]).variable.raw
}

/// The canonical form of a regime: every list of variables ascends.
pub open spec fn canonical_regime(out: RegimeView, given: RegimeView) -> bool {
    &&& out.id == given.id
    &&& out.label == given.label
    &&& out.kind == given.kind
    &&& out.evidence_kind == given.evidence_kind
    &&& out.population == given.population
    &&& arranged_ids(out.interventions, given.interventions)
    &&& arranged_ids(out.measured, given.measured)
    &&& arranged_ids(out.conditioned_on, given.conditioned_on)
    &&& out.intervention_values.len() == given.intervention_values.len()
    &&& same_members(out.intervention_values, given.intervention_values)
    &&& forall|i: int, j: int|
        0 <= i < j < out.intervention_values.len() ==> (
        #[trigger] out.intervention_values[i]).variable.raw < (
        #[trigger] out.intervention_values[j]).variable.raw
    &&& out.marginals is Some <==> given.marginals is Some
    &&& out.marginals is Some ==> arranged_ids(out.marginals->0, given.marginals->0)
}

/// The environment is the canonical form of a given one.
#[verifier::opaque]
pub open spec fn environment_stems_from(
    out: EnvironmentView,
    given: Seq<EnvironmentView>,
) -> bool {
    exists|i: int| 0 <= i < given.len() && canonical_environment(out, #[trigger] given[i])
}

/// The environment's canonical form is among the listed ones.
#[verifier::opaque]
pub open spec fn environment_carried_into(
    given: EnvironmentView,
    out: Seq<EnvironmentView>,
) -> bool {
    exists|j: int| 0 <= j < out.len() && canonical_environment(#[trigger] out[j], given)
}

/// The regime is the canonical form of a given one.
#[verifier::opaque]
pub open spec fn regime_stems_from(out: RegimeView, given: Seq<RegimeView>) -> bool {
    exists|i: int| 0 <= i < given.len() && canonical_regime(out, #[trigger] given[i])
}

/// The regime's canonical form is among the listed ones.
#[verifier::opaque]
pub open spec fn regime_carried_into(given: RegimeView, out: Seq<RegimeView>) -> bool {
    exists|j: int| 0 <= j < out.len() && canonical_regime(#[trigger] out[j], given)
}

/// Environments by identity, each in canonical form, none left out.
pub open spec fn canonical_environments(
    out: Seq<EnvironmentView>,
    given: Seq<EnvironmentView>,
) -> bool {
    &&& out.len() == given.len()
    &&& forall|i: int, j: int|
        0 <= i < j < out.len() ==> text::text_lt(
            (#[trigger] out[i]).identity,
            (#[trigger] out[j]).identity,
        )
    &&& forall|j: int| 0 <= j < out.len() ==> environment_stems_from(#[trigger] out[j], given)
    &&& forall|i: int| 0 <= i < given.len() ==> environment_carried_into(#[trigger] given[i], out)
}

/// Regimes by id, each in canonical form, none left out.
pub open spec fn canonical_regimes(out: Seq<RegimeView>, given: Seq<RegimeView>) -> bool {
    &&& out.len() == given.len()
    &&& forall|i: int, j: int|
        0 <= i < j < out.len() ==> (#[trigger] out[i]).id.raw < (#[trigger] out[j]).id.raw
    &&& forall|j: int| 0 <= j < out.len() ==> regime_stems_from(#[trigger] out[j], given)
    &&& forall|i: int| 0 <= i < given.len() ==> regime_carried_into(#[trigger] given[i], out)
}

/// Bindings by regime id.
pub open spec fn canonical_bindings(out: Seq<BindingView>, given: Seq<BindingView>) -> bool {
    &&& out.len() == given.len()
    &&& same_members(out, given)
    &&& forall|i: int, j: int|
        0 <= i < j < out.len() ==> (#[trigger] out[i]).regime.raw < (#[trigger] out[j]).regime.raw
}

/// The canonical form of a catalog: environments by identity, regimes and bindings by
/// regime id, each in its own canonical form; nothing added, nothing lost.
pub open spec fn canonical_catalog(out: CatalogView, given: CatalogView) -> bool {
    &&& out.target_sampling == given.target_sampling
    &&& canonical_environments(out.environments, given.environments)
    &&& canonical_regimes(out.regimes, given.regimes)
    &&& canonical_bindings(out.bindings, given.bindings)
}

fn arrange_ids(list: &Vec<VariableId>) -> (out: Vec<VariableId>)
    requires
        list@.no_duplicates(),
    ensures
        arranged_ids(out@, list@),
{
    let out = order::arrange(ids::copied_ids(list));
    proof {
        order::lemma_strictly_ordered(out@, list@);
        assert forall|x: VariableId| #[trigger] out@.contains(x) <==> list@.contains(x) by {
            order::lemma_same_members(out@, list@, x);
        }
    }
    out
}

fn arrange_environment(environment: &Environment) -> (out: Environment)
    requires
        environment@.refusal() is None,
    ensures
        canonical_environment(out@, environment@),
{
    let copy = environment.duplicate();
    let ghost given = copy.variables@;
    proof {
        let listed = environment@.variables;
        let faults = evidence::coordinate_shape_faults(listed);
        error::lemma_no_fault(faults);
        assert forall|p: int, q: int| 0 <= p < q < given.len() implies (
        #[trigger] given[p]).precedes(#[trigger] given[q]) || given[q].precedes(given[p]) by {
            assert(faults[q] is None);
            assert(copy@.variables[p] == listed[p] && copy@.variables[q] == listed[q]);
            assert(listed[p].variable != listed[q].variable);
        }
    }
    let selection_targets = arrange_ids(&copy.selection_targets);
    let variables = order::arrange(copy.variables);
    let out = Environment { identity: copy.identity, variables, selection_targets };
    proof {
        order::lemma_strictly_ordered(variables@, given);
        let after = out@.variables;
        let before = environment@.variables;
        assert(before =~= evidence::coordinates(given));
        assert forall|c: evidence::CoordinateView| #[trigger] after.contains(c) <==> before.contains(
            c,
        ) by {
            lemma_same_coordinates(variables@, given, c);
        }
        assert forall|i: int, j: int| 0 <= i < j < after.len() implies (
        #[trigger] after[i]).variable.raw < (#[trigger] after[j]).variable.raw by {
            assert(variables@[i].precedes(variables@[j]));
        }
    }
    out
}

proof fn lemma_same_coordinates(
    arranged: Seq<VariableCoordinate>,
    given: Seq<VariableCoordinate>,
    c: evidence::CoordinateView,
)
    requires
        arranged.to_multiset() == given.to_multiset(),
    ensures
        evidence::coordinates(arranged).contains(c) == evidence::coordinates(given).contains(c),
{
    let after = evidence::coordinates(arranged);
    let before = evidence::coordinates(given);
    if after.contains(c) {
        let i = choose|i: int| 0 <= i < after.len() && after[i] == c;
        assert(arranged.contains(arranged[i]));
        order::lemma_same_members(arranged, given, arranged[i]);
        let k = choose|k: int| 0 <= k < given.len() && given[k] == arranged[i];
        assert(before[k] == c);
    }
    if before.contains(c) {
        let i = choose|i: int| 0 <= i < before.len() && before[i] == c;
        assert(given.contains(given[i]));
        order::lemma_same_members(arranged, given, given[i]);
        let k = choose|k: int| 0 <= k < arranged.len() && arranged[k] == given[i];
        assert(after[k] == c);
    }
}

fn arrange_regime(regime: &EvidenceRegime) -> (out: EvidenceRegime)
    requires
        regime@.refusal() is None,
        regime@.conditioned_on.no_duplicates(),
    ensures
        canonical_regime(out@, regime@),
{
    let copy = regime.duplicate();
    let ghost given = copy.intervention_values@;
    let interventions = arrange_ids(&copy.interventions);
    let measured = arrange_ids(&copy.measured);
    let conditioned_on = arrange_ids(&copy.conditioned_on);
    let distribution = match &copy.distribution {
        DistributionAvailability::Joint => DistributionAvailability::Joint,
        DistributionAvailability::SeparateMarginals { variables } =>
        DistributionAvailability::SeparateMarginals { variables: arrange_ids(variables) },
    };
    let intervention_values = order::arrange(copy.intervention_values);
    proof {
        assert forall|p: int, q: int| 0 <= p < q < given.len() implies (
        #[trigger] given[p]).precedes(#[trigger] given[q]) || given[q].precedes(given[p]) by {
            assert(!regime@.bad_assignment(q));
            assert(regime@.intervention_values[p].variable
                != regime@.intervention_values[q].variable);
        }
        order::lemma_strictly_ordered(intervention_values@, given);
        assert forall|x: InterventionAssignment| #[trigger]
            intervention_values@.contains(x) <==> given.contains(x) by {
            order::lemma_same_members(intervention_values@, given, x);
        }
        assert forall|i: int, j: int| 0 <= i < j < intervention_values@.len() implies (
        #[trigger] intervention_values@[i]).variable.raw < (
        #[trigger] intervention_values@[j]).variable.raw by {
            assert(intervention_values@[i].precedes(intervention_values@[j]));
        }
    }
    EvidenceRegime {
        id: copy.id,
        label: copy.label,
        kind: copy.kind,
        evidence_kind: copy.evidence_kind,
        interventions,
        intervention_values,
        measured,
        conditioned_on,
        population: copy.population,
        distribution,
    }
}

fn arrange_environments(list: &Vec<Environment>) -> (out: Vec<Environment>)
    requires
        error::first_fault(
            transport_catalog::environment_faults(transport_catalog::environment_views(list@)),
        ) is None,
    ensures
        canonical_environments(
            transport_catalog::environment_views(out@),
            transport_catalog::environment_views(list@),
        ),
{
    let ghost views = transport_catalog::environment_views(list@);
    let ghost faults = transport_catalog::environment_faults(views);
    let mut made: Vec<Environment> = Vec::new();
    let mut i: usize = 0;
    proof {
        error::lemma_no_fault(faults);
    }
    while i < list.len()
        invariant
            0 <= i <= list.len(),
            views == transport_catalog::environment_views(list@),
            faults == transport_catalog::environment_faults(views),
            forall|k: int| 0 <= k < faults.len() ==> (#[trigger] faults[k]) is None,
            made@.len() == i,
            forall|k: int|
                0 <= k < i ==> canonical_environment((#[trigger] made@[k])@, list@[k]@),
        decreases list.len() - i,
    {
        proof {
            assert(faults[i as int] is None);
            assert(views[i as int] == list@[i as int]@);
        }
        made.push(arrange_environment(&list[i]));
        i = i + 1;
    }
    let ghost given = made@;
    proof {
        assert forall|p: int, q: int| 0 <= p < q < given.len() implies (
        #[trigger] given[p]).precedes(#[trigger] given[q]) || given[q].precedes(given[p]) by {
            assert(faults[q] is None);
            assert(views[p].identity != views[q].identity);
            text::law_text_order_is_strict_and_total(
                given[p].identity@,
                given[q].identity@,
                given[p].identity@,
            );
        }
    }
    let out = order::arrange(made);
    proof {
        order::lemma_strictly_ordered(out@, given);
        let after = transport_catalog::environment_views(out@);
        assert forall|i: int, j: int| 0 <= i < j < after.len() implies text::text_lt(
            (#[trigger] after[i]).identity,
            (#[trigger] after[j]).identity,
        ) by {
            assert(out@[i].precedes(out@[j]));
        }
        assert forall|j: int| 0 <= j < after.len() implies environment_stems_from(
            #[trigger] after[j],
            views,
        ) by {
            reveal(environment_stems_from);
            assert(out@.contains(out@[j]));
            order::lemma_same_members(out@, given, out@[j]);
            let k = choose|k: int| 0 <= k < given.len() && given[k] == out@[j];
            assert(canonical_environment(given[k]@, list@[k]@));
            assert(canonical_environment(after[j], views[k]));
        }
        assert forall|i: int| 0 <= i < views.len() implies environment_carried_into(
            #[trigger] views[i],
            after,
        ) by {
            reveal(environment_carried_into);
            assert(given.contains(given[i]));
            order::lemma_same_members(out@, given, given[i]);
            let k = choose|k: int| 0 <= k < out@.len() && out@[k] == given[i];
            assert(canonical_environment(given[i]@, list@[i]@));
            assert(canonical_environment(after[k], views[i]));
        }
    }
    out
}

fn arrange_regimes(catalog: &EvidenceCatalog) -> (out: Vec<EvidenceRegime>)
    requires
        error::first_fault(catalog@.regime_faults()) is None,
    ensures
        canonical_regimes(transport_catalog::regime_views(out@), catalog@.regimes),
{
    let list = &catalog.regimes;
    let ghost views = catalog@.regimes;
    let ghost faults = catalog@.regime_faults();
    let mut made: Vec<EvidenceRegime> = Vec::new();
    let mut i: usize = 0;
    proof {
        error::lemma_no_fault(faults);
    }
    while i < list.len()
        invariant
            0 <= i <= list.len(),
            *list == catalog.regimes,
            views == catalog@.regimes,
            faults == catalog@.regime_faults(),
            forall|k: int| 0 <= k < faults.len() ==> (#[trigger] faults[k]) is None,
            made@.len() == i,
            forall|k: int| 0 <= k < i ==> canonical_regime((#[trigger] made@[k])@, list@[k]@),
        decreases list.len() - i,
    {
        proof {
            assert(faults[i as int] is None);
            assert(views[i as int] == list@[i as int]@);
        }
        made.push(arrange_regime(&list[i]));
        i = i + 1;
    }
    let ghost given = made@;
    proof {
        assert forall|p: int, q: int| 0 <= p < q < given.len() implies (
        #[trigger] given[p]).precedes(#[trigger] given[q]) || given[q].precedes(given[p]) by {
            assert(faults[q] is None);
            assert(views[p].id != views[q].id);
            assert(given[p].id == given[p]@.id && given[q].id == given[q]@.id);
        }
    }
    let out = order::arrange(made);
    proof {
        order::lemma_strictly_ordered(out@, given);
        let after = transport_catalog::regime_views(out@);
        assert forall|i: int, j: int| 0 <= i < j < after.len() implies (
        #[trigger] after[i]).id.raw < (#[trigger] after[j]).id.raw by {
            assert(out@[i].precedes(out@[j]));
        }
        assert forall|j: int| 0 <= j < after.len() implies regime_stems_from(
            #[trigger] after[j],
            views,
        ) by {
            reveal(regime_stems_from);
            assert(out@.contains(out@[j]));
            order::lemma_same_members(out@, given, out@[j]);
            let k = choose|k: int| 0 <= k < given.len() && given[k] == out@[j];
            assert(canonical_regime(given[k]@, list@[k]@));
            assert(canonical_regime(after[j], views[k]));
        }
        assert forall|i: int| 0 <= i < views.len() implies regime_carried_into(
            #[trigger] views[i],
            after,
        ) by {
            reveal(regime_carried_into);
            assert(given.contains(given[i]));
            order::lemma_same_members(out@, given, given[i]);
            let k = choose|k: int| 0 <= k < out@.len() && out@[k] == given[i];
            assert(canonical_regime(given[i]@, list@[i]@));
            assert(canonical_regime(after[k], views[i]));
        }
    }
    out
}

fn arrange_bindings(catalog: &EvidenceCatalog) -> (out: Vec<RegimeBinding>)
    requires
        error::first_fault(catalog@.binding_faults()) is None,
    ensures
        canonical_bindings(transport_catalog::binding_views(out@), catalog@.bindings),
{
    let list = &catalog.bindings;
    let ghost views = catalog@.bindings;
    let ghost faults = catalog@.binding_faults();
    let mut made: Vec<RegimeBinding> = Vec::new();
    let mut i: usize = 0;
    while i < list.len()
        invariant
            0 <= i <= list.len(),
            made@.len() == i,
            forall|k: int| 0 <= k < i ==> (#[trigger] made@[k])@ == list@[k]@,
        decreases list.len() - i,
    {
        made.push(list[i].duplicate());
        i = i + 1;
    }
    let ghost given = made@;
    proof {
        error::lemma_no_fault(faults);
        assert forall|p: int, q: int| 0 <= p < q < given.len() implies (
        #[trigger] given[p]).precedes(#[trigger] given[q]) || given[q].precedes(given[p]) by {
            assert(faults[q] is None);
            assert(views[p].regime != views[q].regime);
            assert(given[p].regime == given[p]@.regime && given[q].regime == given[q]@.regime);
        }
    }
    let out = order::arrange(made);
    proof {
        order::lemma_strictly_ordered(out@, given);
        let after = transport_catalog::binding_views(out@);
        assert forall|i: int, j: int| 0 <= i < j < after.len() implies (
        #[trigger] after[i]).regime.raw < (#[trigger] after[j]).regime.raw by {
            assert(out@[i].precedes(out@[j]));
        }
        assert forall|b: BindingView| #[trigger] after.contains(b) <==> views.contains(b) by {
            if after.contains(b) {
                let k = choose|k: int| 0 <= k < after.len() && after[k] == b;
                assert(out@.contains(out@[k]));
                order::lemma_same_members(out@, given, out@[k]);
                let p = choose|p: int| 0 <= p < given.len() && given[p] == out@[k];
                assert(views[p] == b);
            }
            if views.contains(b) {
                let p = choose|p: int| 0 <= p < views.len() && views[p] == b;
                assert(given.contains(given[p]));
                order::lemma_same_members(out@, given, given[p]);
                let k = choose|k: int| 0 <= k < out@.len() && out@[k] == given[p];
                assert(after[k] == b);
            }
        }
    }
    out
}

impl EvidenceCatalog {
    /// Canonical ordering for new semantic identities. Regime ids and physical schema
    /// column order are preserved. Readers of saved artifacts deliberately do not call
    /// this method before checking their saved digests.
    pub fn canonicalized(&self) -> (r: Result<Self, QueryError>)
        ensures
            error::answers(r, self@.refusal()),
            r matches Ok(catalog) ==> canonical_catalog(catalog@, self@),
    {
        match self.validate() {
            Ok(_) => {},
            Err(error) => {
                return Err(error);
            },
        }
        let environments = arrange_environments(&self.environments);
        let regimes = arrange_regimes(self);
        let bindings = arrange_bindings(self);
        Ok(
            EvidenceCatalog {
                environments,
                regimes,
                bindings,
                target_sampling: self.target_sampling,
            },
        )
    }
}

/// Lists with the same ids and no repetition hold them as often.
proof fn lemma_arranged_is_same(out: Seq<VariableId>, given: Seq<VariableId>)
    requires
        arranged_ids(out, given),
    ensures
        given.no_duplicates() ==> ids::same_ids(out, given),
{
    if given.no_duplicates() {
        assert(out.no_duplicates());
        out.lemma_multiset_has_no_duplicates();
        given.lemma_multiset_has_no_duplicates();
        assert(out.to_multiset() =~= given.to_multiset()) by {
            assert forall|x: VariableId| out.to_multiset().count(x) == given.to_multiset().count(
                x,
            ) by {
                vstd::seq_lib::to_multiset_contains(out, x);
                vstd::seq_lib::to_multiset_contains(given, x);
                assert(out.contains(x) == given.contains(x));
                if out.contains(x) {
                    assert(out.to_multiset().contains(x) && given.to_multiset().contains(x));
                }
            }
        }
    }
}

/// A regime and its canonical form supply the same factors.
pub proof fn law_canonical_regime_supplies_the_same(
    out: RegimeView,
    given: RegimeView,
    need: FactorNeed,
)
    requires
        canonical_regime(out, given),
        given.refusal() is None,
    ensures
        out.supplies(need) == given.supplies(need),
{
    lemma_arranged_is_same(out.interventions, given.interventions);
    assert(ids::same_ids(out.interventions, need.interventions@) == ids::same_ids(
        given.interventions,
        need.interventions@,
    ));
    if given.supplies(need) {
        lemma_fits(out.conditioned_on, given.conditioned_on, need);
    }
    if out.supplies(need) {
        lemma_fits(given.conditioned_on, out.conditioned_on, need);
    }
    assert forall|v: VariableId| out.measured.contains(v) == given.measured.contains(v) by {}
    assert forall|v: VariableId| out.interventions.contains(v) == given.interventions.contains(
        v,
    ) by {}
}

proof fn lemma_fits(out: Seq<VariableId>, given: Seq<VariableId>, need: FactorNeed)
    requires
        same_members(out, given),
        forall|i: int|
            0 <= i < given.len() ==> need.conditioned_on@.contains(#[trigger] given[i])
                && !need.variables@.contains(given[i]),
    ensures
        forall|i: int|
            0 <= i < out.len() ==> need.conditioned_on@.contains(#[trigger] out[i])
                && !need.variables@.contains(out[i]),
{
    assert forall|i: int| 0 <= i < out.len() implies need.conditioned_on@.contains(
        #[trigger] out[i],
    ) && !need.variables@.contains(out[i]) by {
        assert(out.contains(out[i]));
        let k = choose|k: int| 0 <= k < given.len() && given[k] == out[i];
        assert(need.conditioned_on@.contains(given[k]));
    }
}

/// Canonical ordering changes no answer: a factor is met by a catalog exactly if it is
/// met by the catalog's canonical form.
pub proof fn law_canonical_catalog_meets_the_same(
    out: CatalogView,
    given: CatalogView,
    need: FactorNeed,
)
    requires
        canonical_catalog(out, given),
        given.refusal() is None,
    ensures
        out.meets(need) == given.meets(need),
{
    let faults = given.regime_faults();
    error::lemma_no_fault(faults);
    assert forall|i: int| 0 <= i < given.regimes.len() implies (
    #[trigger] given.regimes[i]).refusal() is None by {
        assert(faults[i] is None);
    }
    if out.meets(need) {
        let j = choose|j: int| 0 <= j < out.regimes.len() && (#[trigger] out.regimes[j]).supplies(
            need,
        );
        let made = out.regimes[j];
        assert(regime_stems_from(made, given.regimes));
        assert(given.meets(need)) by {
            reveal(regime_stems_from);
            let i = choose|i: int|
                0 <= i < given.regimes.len() && canonical_regime(made, #[trigger] given.regimes[i]);
            law_canonical_regime_supplies_the_same(made, given.regimes[i], need);
        }
    }
    if given.meets(need) {
        let i = choose|i: int|
            0 <= i < given.regimes.len() && (#[trigger] given.regimes[i]).supplies(need);
        let source = given.regimes[i];
        assert(regime_carried_into(source, out.regimes));
        assert(out.meets(need)) by {
            reveal(regime_carried_into);
            let j = choose|j: int|
                0 <= j < out.regimes.len() && canonical_regime(#[trigger] out.regimes[j], source);
            law_canonical_regime_supplies_the_same(out.regimes[j], source, need);
        }
    }
}

} // verus!
